//! Input events as plain values, and the listener's decision about each one.
//!
//! The terminal driver's events are turned into these types at the edge of the
//! program; everything the session decides, it decides from them.

use vstd::prelude::*;

verus! {

/// The key of a key press, as far as the session tells keys apart.
#[derive(Debug, Clone, Copy, PartialEq, Eq, Structural)]
pub enum KeyCode {
    Backspace,
    Enter,
    Up,
    Down,
    Home,
    End,
    PageUp,
    PageDown,
    Esc,
    Char(char),
    Other,
}

/// What a pointing device did, as far as the session tells it apart.
#[derive(Debug, Clone, Copy, PartialEq, Eq, Structural)]
pub enum MouseEventKind {
    ScrollUp,
    ScrollDown,
    Other,
}

/// A key press with the modifiers that were held.
#[derive(Debug, Clone, Copy, PartialEq, Eq, Structural)]
pub struct KeyEvent {
    pub code: KeyCode,
    pub shift: bool,
    pub control: bool,
}

/// An input event.
#[derive(Debug, Clone, Copy, PartialEq, Eq, Structural)]
pub enum Event {
    Key(KeyEvent),
    Mouse(MouseEventKind),
    Other,
}

/// What the listener does with an event.
#[derive(Debug, Clone, Copy, PartialEq, Eq, Structural)]
pub enum ListenerAction {
    /// Hand the event on to the session, unchanged.
    Forward,
    /// Ask the session to shut down in good order; the event is not handed on.
    RequestShutdown,
    /// End the process at once, without cleanup.
    ForceExit,
}

/// The listener's memory: whether the interrupt chord was seen before.
pub struct Listener {
    ctrlc_pressed: bool,
}

/// Whether `event` is the interrupt chord: the letter `c` with control held.
pub open spec fn is_interrupt(event: Event) -> bool {
    match event {
        Event::Key(key) => key.code == KeyCode::Char('c') && key.control,
        _ => false,
    }
}

/// Whether `event` is the cancel key.
pub open spec fn is_cancel(event: Event) -> bool {
    match event {
        Event::Key(key) => key.code == KeyCode::Esc,
        _ => false,
    }
}

/// What the listener does with `event` when it has (`interrupted`) or has not
/// seen the interrupt chord before, and whether it has seen it afterwards. The
/// first interrupt chord asks for shutdown, a later one forces the exit; the
/// cancel key asks for shutdown; every other event is forwarded.
pub open spec fn listener_step(interrupted: bool, event: Event) -> (bool, ListenerAction) {
    if is_interrupt(event) {
        if interrupted {
            (true, ListenerAction::ForceExit)
        } else {
            (true, ListenerAction::RequestShutdown)
        }
    } else if is_cancel(event) {
        (interrupted, ListenerAction::RequestShutdown)
    } else {
        (interrupted, ListenerAction::Forward)
    }
}

impl Listener {
    /// Whether the interrupt chord was seen before.
    pub closed spec fn interrupted(&self) -> bool {
        self.ctrlc_pressed
    }

    /// A listener that has seen no interrupt chord yet.
    pub fn new() -> (listener: Listener)
        ensures
            !listener.interrupted(),
    {
        Listener { ctrlc_pressed: false }
    }

    /// Decides what to do with `event` and remembers an interrupt chord.
    pub fn on_event(&mut self, event: &Event) -> (action: ListenerAction)
        ensures
            (final(self).interrupted(), action) == listener_step(old(self).interrupted(), *event),
    {
        match event {
            Event::Key(key) => {
                match key.code {
                    KeyCode::Char(ch) => {
                        if ch == 'c' && key.control {
                            if self.ctrlc_pressed {
                                return ListenerAction::ForceExit;
                            }
                            self.ctrlc_pressed = true;
                            return ListenerAction::RequestShutdown;
                        }
                        ListenerAction::Forward
                    },
                    KeyCode::Esc => ListenerAction::RequestShutdown,
                    _ => ListenerAction::Forward,
                }
            },
            _ => ListenerAction::Forward,
        }
    }
}

/// The interrupt chord never reaches the session, and a second one always
/// forces the exit: once the chord was seen, every further one is answered
/// with `ForceExit`, whatever came in between.
pub proof fn lemma_second_interrupt_forces_exit(interrupted: bool, first: Event, second: Event)
    requires
        is_interrupt(first),
        is_interrupt(second),
    ensures
        listener_step(interrupted, first).0,
        listener_step(interrupted, first).1 != ListenerAction::Forward,
        listener_step(listener_step(interrupted, first).0, second).1 == ListenerAction::ForceExit,
{
}

} // verus!
