use ferris_finder::app::{glyph, table_row, wrap_down, wrap_up, App, PAGE_STEP};
use ferris_finder::event::{Event, KeyCode, KeyEvent, Listener, ListenerAction, MouseEventKind};
use ferris_finder::ucd::{CharEntry, GeneralCategory};

fn entry(codepoint: u32, name: &str) -> CharEntry {
    CharEntry {
        codepoint,
        name: name.to_string(),
        category: GeneralCategory::LetterUppercase,
        unicode_1_name: String::new(),
    }
}

fn two_letters() -> Vec<CharEntry> {
    vec![entry(0x41, "LATIN CAPITAL LETTER A"), entry(0x42, "LATIN CAPITAL LETTER B")]
}

fn many(n: u32) -> Vec<CharEntry> {
    (0..n).map(|i| entry(0x100 + i, "LETTER")).collect()
}

fn key(code: KeyCode) -> Event {
    Event::Key(KeyEvent { code, shift: false, control: false })
}

fn shifted(code: KeyCode) -> Event {
    Event::Key(KeyEvent { code, shift: true, control: false })
}

fn ctrl(code: KeyCode) -> Event {
    Event::Key(KeyEvent { code, shift: false, control: true })
}

fn typing(text: &str) -> Vec<Event> {
    text.chars().map(|c| key(KeyCode::Char(c))).collect()
}

fn codes(app: &App) -> Vec<String> {
    app.rows().iter().map(|row| row.codepoint.clone()).collect()
}

#[test]
fn new_session_shows_the_whole_store() {
    let app = App::new(two_letters());
    assert_eq!(app.query(), "");
    assert_eq!(codes(&app), vec!["U+0041", "U+0042"]);
    assert_eq!(app.selected(), 0);
    assert_eq!(app.exit_buffer, None);
    assert!(app.is_running());
    assert_eq!(app.data().len(), 2);
}

#[test]
fn rows_hold_glyph_code_and_names() {
    let row = table_row(&CharEntry {
        codepoint: 0x0,
        name: "<control>".to_string(),
        category: GeneralCategory::OtherControl,
        unicode_1_name: "NULL".to_string(),
    });
    assert_eq!(row.glyph, "\u{0}");
    assert_eq!(row.codepoint, "U+0000");
    assert_eq!(row.name, "<control>");
    assert_eq!(row.unicode_1_name, "NULL");
}

#[test]
fn glyph_of_a_code_point() {
    assert_eq!(glyph(0x41), "A");
    assert_eq!(glyph(0x1F980), "🦀");
    assert_eq!(glyph(0xD7FF), "\u{D7FF}");
    assert_eq!(glyph(0xE000), "\u{E000}");
    assert_eq!(glyph(0x10FFFF), "\u{10FFFF}");
}

#[test]
fn glyph_of_what_is_no_character() {
    assert_eq!(glyph(0xD800), "\u{FFFD}");
    assert_eq!(glyph(0xDFFF), "\u{FFFD}");
    assert_eq!(glyph(0x110000), "\u{FFFD}");
    assert_eq!(glyph(u32::MAX), "\u{FFFD}");
}

#[test]
fn moving_up_from_the_first_row_lands_on_the_last() {
    for n in [1usize, 2, 3, 10, 11, 1000] {
        assert_eq!(wrap_up(0, 1, n), n - 1);
        let mut app = App::new(many(n as u32));
        app.update(&[key(KeyCode::Up)]);
        assert_eq!(app.selected(), n - 1);
    }
}

#[test]
fn moving_down_from_the_last_row_lands_on_the_first() {
    for n in [1usize, 2, 3, 10, 11, 1000] {
        assert_eq!(wrap_down(n - 1, 1, n), 0);
        let mut app = App::new(many(n as u32));
        app.update(&[key(KeyCode::End)]);
        assert_eq!(app.selected(), n - 1);
        app.update(&[key(KeyCode::Down)]);
        assert_eq!(app.selected(), 0);
    }
}

#[test]
fn moves_wrap_by_the_overflow() {
    assert_eq!(wrap_down(3, 1, 25), 4);
    assert_eq!(wrap_down(20, 10, 25), 5);
    assert_eq!(wrap_down(24, 10, 25), 9);
    assert_eq!(wrap_up(3, 1, 25), 2);
    assert_eq!(wrap_up(3, 10, 25), 18);
    assert_eq!(wrap_up(0, 10, 25), 15);
    assert_eq!(wrap_up(10, 10, 25), 0);
}

#[test]
fn page_steps_in_a_short_table_stay_inside() {
    assert_eq!(wrap_down(0, 10, 3), 1);
    assert_eq!(wrap_down(2, 10, 3), 0);
    assert_eq!(wrap_up(0, 10, 3), 2);
    assert_eq!(wrap_up(1, 10, 3), 0);
    assert_eq!(wrap_down(0, 10, 1), 0);
    assert_eq!(wrap_up(0, 10, 1), 0);
    assert_eq!(wrap_down(usize::MAX - 1, usize::MAX, usize::MAX), usize::MAX - 1);
    let mut app = App::new(many(3));
    for _ in 0..7 {
        app.update(&[key(KeyCode::PageDown)]);
        assert!(app.selected() < 3);
    }
    for _ in 0..7 {
        app.update(&[key(KeyCode::PageUp)]);
        assert!(app.selected() < 3);
    }
}

#[test]
fn moves_in_an_empty_table_stay_at_zero() {
    assert_eq!(wrap_down(0, 1, 0), 0);
    assert_eq!(wrap_up(0, 1, 0), 0);
    assert_eq!(wrap_down(5, 10, 0), 0);
    assert_eq!(wrap_up(5, 10, 0), 0);
}

#[test]
fn keys_and_scrolling_move_the_selection() {
    let mut app = App::new(many(25));
    app.update(&[key(KeyCode::Down), key(KeyCode::Down)]);
    assert_eq!(app.selected(), 2);
    app.update(&[key(KeyCode::PageDown)]);
    assert_eq!(app.selected(), 2 + PAGE_STEP);
    app.update(&[key(KeyCode::Up)]);
    assert_eq!(app.selected(), 11);
    app.update(&[key(KeyCode::PageUp)]);
    assert_eq!(app.selected(), 1);
    app.update(&[Event::Mouse(MouseEventKind::ScrollDown)]);
    assert_eq!(app.selected(), 2);
    app.update(&[Event::Mouse(MouseEventKind::ScrollUp), Event::Mouse(MouseEventKind::ScrollUp)]);
    assert_eq!(app.selected(), 0);
    app.update(&[key(KeyCode::End)]);
    assert_eq!(app.selected(), 24);
    app.update(&[key(KeyCode::Home)]);
    assert_eq!(app.selected(), 0);
    app.update(&[Event::Mouse(MouseEventKind::Other), Event::Other, key(KeyCode::Other)]);
    assert_eq!(app.selected(), 0);
    assert!(app.is_running());
}

#[test]
fn typing_and_deleting_edit_the_query() {
    let mut app = App::new(two_letters());
    app.update(&typing("lat"));
    assert_eq!(app.query(), "lat");
    assert_eq!(app.search_line(), "lat\u{2588}");
    app.update(&[key(KeyCode::Backspace)]);
    assert_eq!(app.query(), "la");
    app.update(&[key(KeyCode::Backspace), key(KeyCode::Backspace), key(KeyCode::Backspace)]);
    assert_eq!(app.query(), "");
    assert_eq!(codes(&app), vec!["U+0041", "U+0042"]);
    app.update(&[ctrl(KeyCode::Char('a'))]);
    assert_eq!(app.query(), "a");
}

#[test]
fn shifted_characters_are_typed_in_upper_case() {
    let mut app = App::new(two_letters());
    app.update(&[shifted(KeyCode::Char('a')), shifted(KeyCode::Char('B')), key(KeyCode::Char('c'))]);
    assert_eq!(app.query(), "ABc");
    app.update(&[shifted(KeyCode::Char('ß')), shifted(KeyCode::Char('1')), shifted(KeyCode::Char('é'))]);
    assert_eq!(app.query(), "ABcSS1É");
}

#[test]
fn typed_text_goes_behind_the_query() {
    let mut app = App::new(two_letters());
    app.type_text("04");
    app.type_text("");
    app.type_text("1");
    assert_eq!(app.query(), "041");
    assert_eq!(codes(&app), vec!["U+0041", "U+0042"]);
    app.refresh();
    assert_eq!(codes(&app), vec!["U+0041"]);
    app.request_shutdown();
    app.type_text("x");
    assert_eq!(app.query(), "041");
}

#[test]
fn changed_query_ranks_anew_and_selects_the_first_row() {
    let mut app = App::new(two_letters());
    app.update(&[key(KeyCode::Down)]);
    assert_eq!(app.selected(), 1);
    app.update(&typing("latin"));
    assert_eq!(codes(&app), vec!["U+0042", "U+0041"]);
    assert_eq!(app.selected(), 0);
}

#[test]
fn unchanged_query_keeps_table_and_selection() {
    let mut app = App::new(two_letters());
    app.update(&typing("latin"));
    app.update(&[key(KeyCode::Down)]);
    let before = codes(&app);
    app.update(&[]);
    assert_eq!(codes(&app), before);
    assert_eq!(app.selected(), 1);
    app.update(&[key(KeyCode::Char('x')), key(KeyCode::Backspace)]);
    assert_eq!(codes(&app), before);
    assert_eq!(app.selected(), 1);
    app.refresh();
    assert_eq!(codes(&app), before);
    assert_eq!(app.selected(), 1);
}

#[test]
fn events_within_a_tick_see_the_old_table() {
    let mut app = App::new(two_letters());
    let mut events = typing("0042");
    events.push(key(KeyCode::Enter));
    app.update(&events);
    assert_eq!(app.exit_buffer, Some("A".to_string()));
    assert_eq!(codes(&app), vec!["U+0042"]);
    assert!(!app.is_running());
}

#[test]
fn confirming_on_an_empty_table_does_nothing() {
    let mut app = App::new(Vec::new());
    app.update(&[key(KeyCode::Enter)]);
    assert_eq!(app.exit_buffer, None);
    assert!(app.is_running());
    let mut app = App::new(two_letters());
    app.update(&typing("zzz"));
    assert!(app.rows().is_empty());
    app.update(&[key(KeyCode::Enter), shifted(KeyCode::Enter)]);
    assert_eq!(app.exit_buffer, None);
    assert!(app.is_running());
    assert_eq!(app.selected(), 0);
}

#[test]
fn query_for_the_first_letter_then_confirm_chooses_it() {
    let mut app = App::new(two_letters());
    app.update(&typing("0041"));
    assert_eq!(codes(&app), vec!["U+0041"]);
    assert_eq!(app.rows()[0].name, "LATIN CAPITAL LETTER A");
    app.update(&[key(KeyCode::Enter)]);
    assert_eq!(app.exit_buffer, Some("A".to_string()));
    assert!(!app.is_running());
}

#[test]
fn query_a_alone_matches_no_entry() {
    let mut app = App::new(two_letters());
    app.update(&[shifted(KeyCode::Char('a'))]);
    assert_eq!(app.query(), "A");
    assert!(app.rows().is_empty());
    app.update(&[key(KeyCode::Enter)]);
    assert_eq!(app.exit_buffer, None);
    assert!(app.is_running());
}

#[test]
fn query_growing_from_a_to_ab_empties_the_table() {
    let mut app = App::new(two_letters());
    app.update(&[key(KeyCode::Down)]);
    app.update(&[key(KeyCode::Char('A'))]);
    app.update(&[key(KeyCode::Char('B'))]);
    assert_eq!(app.query(), "AB");
    assert!(app.rows().is_empty());
    assert_eq!(app.selected(), 0);
    let moves = [
        key(KeyCode::Down),
        key(KeyCode::Up),
        key(KeyCode::PageDown),
        key(KeyCode::PageUp),
        key(KeyCode::End),
        key(KeyCode::Home),
        Event::Mouse(MouseEventKind::ScrollDown),
        Event::Mouse(MouseEventKind::ScrollUp),
        key(KeyCode::Enter),
    ];
    for event in moves {
        app.update(&[event]);
        assert_eq!(app.selected(), 0);
        assert!(app.rows().is_empty());
    }
    assert_eq!(app.exit_buffer, None);
    assert!(app.is_running());
}

#[test]
fn cancel_stops_the_session_without_a_choice() {
    let mut app = App::new(two_letters());
    app.update(&[key(KeyCode::Esc)]);
    assert!(!app.is_running());
    assert_eq!(app.exit_buffer, None);
}

#[test]
fn a_stopped_session_ignores_events() {
    let mut app = App::new(two_letters());
    app.update(&[key(KeyCode::Down), key(KeyCode::Enter), key(KeyCode::Up), key(KeyCode::Enter)]);
    assert_eq!(app.exit_buffer, Some("B".to_string()));
    assert_eq!(app.selected(), 1);
    app.update(&typing("0041"));
    app.update(&[key(KeyCode::Home), key(KeyCode::Enter), key(KeyCode::Backspace)]);
    assert_eq!(app.query(), "");
    assert_eq!(app.selected(), 1);
    assert_eq!(app.exit_buffer, Some("B".to_string()));
    assert!(!app.is_running());
    let mut app = App::new(two_letters());
    app.update(&[key(KeyCode::Esc), key(KeyCode::Enter)]);
    assert_eq!(app.exit_buffer, None);
}

#[test]
fn shutdown_request_stops_the_session() {
    let mut app = App::new(two_letters());
    app.request_shutdown();
    assert!(!app.is_running());
    assert_eq!(app.exit_buffer, None);
    assert_eq!(codes(&app), vec!["U+0041", "U+0042"]);
}

#[test]
fn handling_one_event_leaves_the_table() {
    let mut app = App::new(two_letters());
    for event in typing("0042") {
        app.handle_event(&event);
    }
    assert_eq!(app.query(), "0042");
    assert_eq!(codes(&app), vec!["U+0041", "U+0042"]);
    app.refresh();
    assert_eq!(codes(&app), vec!["U+0042"]);
}

#[test]
fn replacement_glyph_is_chosen_for_a_surrogate() {
    let mut app = App::new(vec![entry(0xD800, "SURROGATE")]);
    assert_eq!(app.rows()[0].glyph, "\u{FFFD}");
    app.update(&[key(KeyCode::Enter)]);
    assert_eq!(app.exit_buffer, Some("\u{FFFD}".to_string()));
}

#[test]
fn listener_forwards_ordinary_events() {
    let mut listener = Listener::new();
    let events = [
        key(KeyCode::Char('c')),
        key(KeyCode::Char('a')),
        shifted(KeyCode::Char('C')),
        ctrl(KeyCode::Char('C')),
        ctrl(KeyCode::Char('a')),
        key(KeyCode::Enter),
        ctrl(KeyCode::Enter),
        key(KeyCode::Other),
        Event::Mouse(MouseEventKind::ScrollUp),
        Event::Other,
    ];
    for event in events {
        assert_eq!(listener.on_event(&event), ListenerAction::Forward);
    }
}

#[test]
fn listener_asks_for_shutdown_on_cancel() {
    let mut listener = Listener::new();
    assert_eq!(listener.on_event(&key(KeyCode::Esc)), ListenerAction::RequestShutdown);
    assert_eq!(listener.on_event(&key(KeyCode::Esc)), ListenerAction::RequestShutdown);
    assert_eq!(listener.on_event(&ctrl(KeyCode::Esc)), ListenerAction::RequestShutdown);
    assert_eq!(listener.on_event(&ctrl(KeyCode::Char('c'))), ListenerAction::RequestShutdown);
}

#[test]
fn second_interrupt_forces_the_exit() {
    let mut listener = Listener::new();
    assert_eq!(listener.on_event(&ctrl(KeyCode::Char('c'))), ListenerAction::RequestShutdown);
    assert_eq!(listener.on_event(&key(KeyCode::Char('x'))), ListenerAction::Forward);
    assert_eq!(listener.on_event(&key(KeyCode::Esc)), ListenerAction::RequestShutdown);
    assert_eq!(listener.on_event(&ctrl(KeyCode::Char('c'))), ListenerAction::ForceExit);
    assert_eq!(listener.on_event(&ctrl(KeyCode::Char('c'))), ListenerAction::ForceExit);
}
