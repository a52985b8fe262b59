//! The session: the query being typed, the table of entries shown for it, the
//! selected row and whether the session still runs. Events change the session
//! one by one; after a batch of events the table is brought up to date.

use crate::event::{Event, KeyCode, MouseEventKind};
use crate::fuzzy::{prune, rank};
use crate::ucd::{fmt_codepoint_spec, CharEntry, EntryView};
use rayon::iter::{IntoParallelRefIterator, ParallelIterator};
use vstd::arithmetic::div_mod::{lemma_add_mod_noop, lemma_small_mod, lemma_sub_mod_noop};
use vstd::prelude::*;

verus! {

/// How many rows a page step moves the selection.
pub const PAGE_STEP: usize = 10;

/// The character shown for a code point that is no character.
pub const REPLACEMENT: char = '\u{FFFD}';

/// `char::from_u32` of the standard library: a number is a character exactly
/// when it is at most `0x10FFFF` and no surrogate (`0xD800` to `0xDFFF`), and
/// the character then has that number.
pub assume_specification[ char::from_u32 ](i: u32) -> (r: Option<char>)
    ensures
        r == if is_scalar_value(i) {
            Some(i as char)
        } else {
            None::<char>
        },
;

/// The upper-case form that `char::to_uppercase` of the standard library
/// gives a character: one or more characters, by the Unicode case mapping that
/// depends on no locale.
pub uninterp spec fn uppercase_of(c: char) -> Seq<char>;

/// `char::to_uppercase`, collected into a string.
#[verifier::external_body]
fn to_uppercase(c: char) -> (upper: String)
    ensures
        upper@ == uppercase_of(c),
{
    c.to_uppercase().collect()
}

/// Whether `i` is the number of a character.
pub open spec fn is_scalar_value(i: u32) -> bool {
    i <= 0xD7FF || 0xE000 <= i <= 0x10FFFF
}

/// The character shown for a code point: the character itself, or the
/// replacement character where the code point is none.
pub open spec fn glyph_char(codepoint: u32) -> char {
    if is_scalar_value(codepoint) {
        codepoint as char
    } else {
        REPLACEMENT
    }
}

/// One row of the table: the texts of its four cells.
#[derive(Debug, Clone, PartialEq, Eq)]
pub struct TableRow {
    pub glyph: String,
    pub codepoint: String,
    pub name: String,
    pub unicode_1_name: String,
}

/// The cells of a row as sequences of characters.
pub struct RowView {
    pub glyph: Seq<char>,
    pub codepoint: Seq<char>,
    pub name: Seq<char>,
    pub unicode_1_name: Seq<char>,
}

impl View for TableRow {
    type V = RowView;

    open spec fn view(&self) -> RowView {
        RowView {
            glyph: self.glyph@,
            codepoint: self.codepoint@,
            name: self.name@,
            unicode_1_name: self.unicode_1_name@,
        }
    }
}

/// The row that shows `entry`: its character, its code point in the `U+`
/// notation, its name and its legacy name.
pub open spec fn row_of(entry: EntryView) -> RowView {
    RowView {
        glyph: seq![glyph_char(entry.codepoint)],
        codepoint: fmt_codepoint_spec(entry.codepoint),
        name: entry.name,
        unicode_1_name: entry.unicode_1_name,
    }
}

/// The rows that show `entries`, in the same order.
pub open spec fn rows_of(entries: Seq<CharEntry>) -> Seq<RowView> {
    Seq::new(entries.len(), |k: int| row_of(entries[k]@))
}

/// Where the selection stands after moving `count` rows down from `selected`
/// in a table of `len` rows: past the last row it goes on from the first. In
/// an empty table it stays at 0.
pub open spec fn moved_down(selected: int, count: int, len: int) -> int {
    if len <= 0 {
        0
    } else {
        (selected + count) % len
    }
}

/// Where the selection stands after moving `count` rows up from `selected`
/// in a table of `len` rows: before the first row it goes on from the last.
/// In an empty table it stays at 0.
pub open spec fn moved_up(selected: int, count: int, len: int) -> int {
    if len <= 0 {
        0
    } else {
        (selected - count) % len
    }
}

/// What a session is at one moment.
pub struct Session {
    /// The text typed so far.
    pub query: Seq<char>,
    /// The rows of the table.
    pub rows: Seq<RowView>,
    /// The selected row.
    pub selection: int,
    /// The character chosen, once a selection was confirmed.
    pub exit_choice: Option<Seq<char>>,
    /// Whether the session still runs; once it does not, it never runs again.
    pub running: bool,
}

/// The session with the selection at `selection`.
pub open spec fn select(s: Session, selection: int) -> Session {
    Session { selection, ..s }
}

/// The session with `text` typed behind the query.
pub open spec fn typed(s: Session, text: Seq<char>) -> Session {
    Session { query: s.query + text, ..s }
}

/// The session after a key press. The table is left as it is: a changed query
/// shows in the table only when the session is settled.
pub open spec fn key_effect(s: Session, code: KeyCode, shift: bool) -> Session {
    let len = s.rows.len() as int;
    match code {
        KeyCode::Esc => Session { running: false, ..s },
        KeyCode::Up => select(s, moved_up(s.selection, 1, len)),
        KeyCode::Down => select(s, moved_down(s.selection, 1, len)),
        KeyCode::PageUp => select(s, moved_up(s.selection, PAGE_STEP as int, len)),
        KeyCode::PageDown => select(s, moved_down(s.selection, PAGE_STEP as int, len)),
        KeyCode::Home => select(s, 0),
        KeyCode::End => select(
            s,
            if len == 0 {
                0
            } else {
                len - 1
            },
        ),
        KeyCode::Char(c) => typed(
            s,
            if shift {
                uppercase_of(c)
            } else {
                seq![c]
            },
        ),
        KeyCode::Backspace => if s.query.len() > 0 {
            Session { query: s.query.drop_last(), ..s }
        } else {
            s
        },
        KeyCode::Enter => if 0 <= s.selection < len {
            Session { exit_choice: Some(s.rows[s.selection].glyph), running: false, ..s }
        } else {
            s
        },
        KeyCode::Other => s,
    }
}

/// The session after one event. A session that no longer runs ignores every
/// event.
pub open spec fn effect(s: Session, event: Event) -> Session {
    if !s.running {
        s
    } else {
        match event {
            Event::Key(key) => key_effect(s, key.code, key.shift),
            Event::Mouse(MouseEventKind::ScrollUp) => select(
                s,
                moved_up(s.selection, 1, s.rows.len() as int),
            ),
            Event::Mouse(MouseEventKind::ScrollDown) => select(
                s,
                moved_down(s.selection, 1, s.rows.len() as int),
            ),
            _ => s,
        }
    }
}

/// The session after a batch of events, taken in the order they came.
pub open spec fn effects(s: Session, events: Seq<Event>) -> Session
    decreases events.len(),
{
    if events.len() == 0 {
        s
    } else {
        effect(effects(s, events.drop_last()), events.last())
    }
}

/// The session once its table is up to date. Where the query is the one the
/// table was made for, nothing changes. Otherwise the table shows the store
/// ranked for the query, and the selection is back at the first row.
pub open spec fn settled(s: Session, store: Seq<CharEntry>, shown_for: Seq<char>) -> Session {
    if s.query == shown_for {
        s
    } else {
        Session { rows: rows_of(rank(store, s.query)), selection: 0, ..s }
    }
}

/// Moving one row up from the first row of a table lands on its last row, and
/// moving one row down from the last row lands on the first.
pub proof fn lemma_wraparound(len: int)
    requires
        len > 0,
    ensures
        moved_up(0, 1, len) == len - 1,
        moved_down(len - 1, 1, len) == 0,
{
    assert((0 - 1) % len == len - 1) by (nonlinear_arith)
        requires
            len > 0,
    ;
    assert((len - 1 + 1) % len == 0) by (nonlinear_arith)
        requires
            len > 0,
    ;
}

/// A move never leaves the table: from any row and by any number of steps the
/// selection lands on a row of the table, and in an empty table on 0.
pub proof fn lemma_moves_stay_inside(selected: int, count: int, len: int)
    ensures
        len > 0 ==> 0 <= moved_up(selected, count, len) < len,
        len > 0 ==> 0 <= moved_down(selected, count, len) < len,
        len <= 0 ==> moved_up(selected, count, len) == 0 && moved_down(selected, count, len) == 0,
{
    if len > 0 {
        assert(0 <= (selected - count) % len < len) by (nonlinear_arith)
            requires
                len > 0,
        ;
        assert(0 <= (selected + count) % len < len) by (nonlinear_arith)
            requires
                len > 0,
        ;
    }
}

/// Confirming a selection in an empty table does nothing: no choice is set and
/// the session keeps running.
pub proof fn lemma_confirm_on_empty(s: Session, shift: bool, control: bool)
    requires
        s.rows.len() == 0,
    ensures
        effect(
            s,
            Event::Key(crate::event::KeyEvent { code: KeyCode::Enter, shift, control }),
        ) == s,
{
}

/// A session that stopped stays as it is: no event and no batch of events
/// changes it, so a choice once made is never replaced.
pub proof fn lemma_stopped_is_final(s: Session, events: Seq<Event>)
    requires
        !s.running,
    ensures
        effects(s, events) == s,
    decreases events.len(),
{
    if events.len() > 0 {
        lemma_stopped_is_final(s, events.drop_last());
    }
}

/// Events never touch the table, and they keep the selection inside it.
pub proof fn lemma_effect_keeps_table(s: Session, event: Event)
    requires
        s.selection == 0 || 0 <= s.selection < s.rows.len(),
    ensures
        effect(s, event).rows == s.rows,
        effect(s, event).selection == 0 || 0 <= effect(s, event).selection < s.rows.len(),
        s.exit_choice is Some ==> effect(s, event).exit_choice is Some,
        !s.running ==> !effect(s, event).running,
{
    let len = s.rows.len() as int;
    lemma_moves_stay_inside(s.selection, 1, len);
    lemma_moves_stay_inside(s.selection, PAGE_STEP as int, len);
}

/// Bringing the table up to date twice is the same as doing it once: with the
/// query unchanged, the second time changes nothing.
pub proof fn lemma_settled_twice(s: Session, store: Seq<CharEntry>, shown_for: Seq<char>)
    ensures
        settled(settled(s, store, shown_for), store, s.query) == settled(s, store, shown_for),
{
}

/// The character shown for `codepoint`, as a text of its own.
pub fn glyph(codepoint: u32) -> (text: String)
    ensures
        text@ == seq![glyph_char(codepoint)],
{
    let c = match char::from_u32(codepoint) {
        Some(c) => c,
        None => REPLACEMENT,
    };
    let mut text = String::new();
    text.push(c);
    assert(text@ =~= seq![glyph_char(codepoint)]);
    text
}

/// The row that shows `entry`.
pub fn table_row(entry: &CharEntry) -> (row: TableRow)
    ensures
        row@ == row_of(entry@),
{
    TableRow {
        glyph: glyph(entry.codepoint),
        codepoint: CharEntry::fmt_codepoint(entry.codepoint),
        name: entry.name.clone(),
        unicode_1_name: entry.unicode_1_name.clone(),
    }
}

/// rayon's `par_iter`, `map` and `collect` on a slice: `table_row` is applied
/// to every entry, on the threads of rayon's pool, and the vector collected
/// holds the rows in the order of the entries.
#[verifier::external_body]
fn table_items_from_data(data: &[&CharEntry]) -> (rows: Vec<TableRow>)
    ensures
        rows@.len() == data@.len(),
        forall|k: int| 0 <= k < rows@.len() ==> (#[trigger] rows@[k])@ == row_of(data@[k]@),
{
    data.par_iter().map(|entry| table_row(entry)).collect()
}

/// The row `count` steps below `selected` in a table of `len` rows.
pub fn wrap_down(selected: usize, count: usize, len: usize) -> (row: usize)
    ensures
        row == moved_down(selected as int, count as int, len as int),
{
    if len == 0 {
        return 0;
    }
    let s = selected % len;
    let c = count % len;
    proof {
        lemma_add_mod_noop(selected as int, count as int, len as int);
        if s + c >= len {
            assert((s + c) % (len as int) == s + c - len) by (nonlinear_arith)
                requires
                    len <= s + c < 2 * len,
            ;
        } else {
            lemma_small_mod((s + c) as nat, len as nat);
        }
    }
    if c >= len - s {
        c - (len - s)
    } else {
        s + c
    }
}

/// The row `count` steps above `selected` in a table of `len` rows.
pub fn wrap_up(selected: usize, count: usize, len: usize) -> (row: usize)
    ensures
        row == moved_up(selected as int, count as int, len as int),
{
    if len == 0 {
        return 0;
    }
    let s = selected % len;
    let c = count % len;
    proof {
        lemma_sub_mod_noop(selected as int, count as int, len as int);
        if c > s {
            assert((s - c) % (len as int) == s - c + len) by (nonlinear_arith)
                requires
                    -(len as int) < s - c < 0,
            ;
        } else {
            lemma_small_mod((s - c) as nat, len as nat);
        }
    }
    if c > s {
        len - (c - s)
    } else {
        s - c
    }
}

/// The table of a listing together with the query it was made for.
struct Table {
    rows: Vec<TableRow>,
    shown_for: String,
}

/// The store, the table that shows it for some query, and the selected row.
/// The table always shows the store ranked for that query, and the selection
/// is always a row of the table, or 0.
struct Listing {
    data: Vec<CharEntry>,
    table: Table,
    selected: usize,
}

impl Listing {
    spec fn rows(&self) -> Seq<RowView> {
        Seq::new(self.table.rows@.len(), |k: int| self.table.rows@[k]@)
    }

    #[verifier::type_invariant]
    spec fn inv(&self) -> bool {
        &&& self.rows() == rows_of(rank(self.data@, self.table.shown_for@))
        &&& (self.selected == 0 || self.selected < self.table.rows@.len())
    }

    fn new(data: Vec<CharEntry>) -> (listing: Listing)
        ensures
            listing.data@ == data@,
            listing.table.shown_for@ == Seq::<char>::empty(),
            listing.rows() == rows_of(data@),
            listing.selected == 0,
    {
        let shown_for = String::new();
        let shown = prune(data.as_slice(), shown_for.as_str());
        let rows = table_items_from_data(shown.as_slice());
        proof {
            assert(rank(data@, Seq::<char>::empty()) =~= data@);
            assert(Seq::new(rows@.len(), |k: int| rows@[k]@) =~= rows_of(data@));
        }
        Listing { data, table: Table { rows, shown_for }, selected: 0 }
    }

    fn select(&mut self, row: usize)
        requires
            row == 0 || row < old(self).rows().len(),
        ensures
            final(self).data == old(self).data,
            final(self).table == old(self).table,
            final(self).selected == row,
    {
        proof {
            use_type_invariant(&*self);
        }
        self.selected = row;
    }

    /// Shows the store ranked for `query`. Where the table was made for that
    /// very query, nothing changes; otherwise the store is ranked anew and
    /// the first row is selected.
    fn show(&mut self, query: &String)
        ensures
            final(self).data == old(self).data,
            final(self).table.shown_for@ == query@,
            query@ == old(self).table.shown_for@ ==> final(self).rows() == old(self).rows()
                && final(self).selected == old(self).selected,
            query@ != old(self).table.shown_for@ ==> final(self).rows() == rows_of(
                rank(old(self).data@, query@),
            ) && final(self).selected == 0,
    {
        proof {
            use_type_invariant(&*self);
        }
        if *query == self.table.shown_for {
            return ;
        }
        let shown = prune(self.data.as_slice(), query.as_str());
        let rows = table_items_from_data(shown.as_slice());
        proof {
            let want = rows_of(rank(self.data@, query@));
            assert(rows@.len() == want.len());
            assert forall|k: int| 0 <= k < rows@.len() implies (#[trigger] rows@[k])@ == want[k] by {
                assert(*shown@[k] == rank(self.data@, query@)[k]);
            }
            assert(Seq::new(rows@.len(), |k: int| rows@[k]@) =~= want);
        }
        self.selected = 0;
        self.table = Table { rows, shown_for: query.clone() };
    }
}

/// A session over a store of entries.
pub struct App {
    listing: Listing,
    search: String,
    running: bool,
    /// The character chosen, once a selection was confirmed.
    pub exit_buffer: Option<String>,
}

impl View for App {
    type V = Session;

    closed spec fn view(&self) -> Session {
        Session {
            query: self.search@,
            rows: self.listing.rows(),
            selection: self.listing.selected as int,
            exit_choice: match self.exit_buffer {
                Some(text) => Some(text@),
                None => None,
            },
            running: self.running,
        }
    }
}

impl App {
    /// The entries that the session searches.
    pub closed spec fn store(&self) -> Seq<CharEntry> {
        self.listing.data@
    }

    /// The query that the table was made for.
    pub closed spec fn shown_for(&self) -> Seq<char> {
        self.listing.table.shown_for@
    }

    /// What holds of every session: the table shows the store ranked for the
    /// query it was made for, and the selection is a row of the table, or 0.
    pub open spec fn wf(&self) -> bool {
        &&& self@.rows == rows_of(rank(self.store(), self.shown_for()))
        &&& (self@.selection == 0 || 0 <= self@.selection < self@.rows.len())
    }

    /// Whether the table is up to date with the query.
    pub open spec fn is_settled(&self) -> bool {
        self@.query == self.shown_for()
    }

    /// A session over `data`: the query is empty, the table shows every entry
    /// in the order of `data`, the first row is selected, nothing is chosen
    /// and the session runs.
    pub fn new(data: Vec<CharEntry>) -> (app: App)
        ensures
            app.wf(),
            app.is_settled(),
            app.store() == data@,
            app@ == (Session {
                query: Seq::<char>::empty(),
                rows: rows_of(data@),
                selection: 0,
                exit_choice: None,
                running: true,
            }),
    {
        let app = App {
            listing: Listing::new(data),
            search: String::new(),
            running: true,
            exit_buffer: None,
        };
        proof {
            use_type_invariant(&app.listing);
        }
        app
    }

    /// The text typed so far.
    pub fn query(&self) -> (query: &str)
        ensures
            query@ == self@.query,
    {
        self.search.as_str()
    }

    /// The rows of the table.
    pub fn rows(&self) -> (rows: &[TableRow])
        ensures
            rows@.len() == self@.rows.len(),
            forall|k: int| 0 <= k < rows@.len() ==> (#[trigger] rows@[k])@ == self@.rows[k],
    {
        self.listing.table.rows.as_slice()
    }

    /// The selected row.
    pub fn selected(&self) -> (selected: usize)
        ensures
            selected == self@.selection,
            selected == 0 || selected < self@.rows.len(),
    {
        proof {
            use_type_invariant(&self.listing);
        }
        self.listing.selected
    }

    /// Whether the session still runs.
    pub fn is_running(&self) -> (running: bool)
        ensures
            running == self@.running,
    {
        self.running
    }

    /// The entries that the session searches.
    pub fn data(&self) -> (data: &[CharEntry])
        ensures
            data@ == self.store(),
    {
        self.listing.data.as_slice()
    }

    /// The line of the search box: the query with a cursor block behind it.
    pub fn search_line(&self) -> (line: String)
        ensures
            line@ == self@.query.push('\u{2588}'),
    {
        let mut line = self.search.clone();
        line.push('\u{2588}');
        line
    }

    /// Stops the session, as if cancelled: it no longer runs, and nothing
    /// else changes.
    pub fn request_shutdown(&mut self)
        ensures
            final(self).wf(),
            final(self).store() == old(self).store(),
            final(self).shown_for() == old(self).shown_for(),
            final(self)@ == (Session { running: false, ..old(self)@ }),
    {
        proof {
            use_type_invariant(&self.listing);
        }
        self.running = false;
    }

    /// Types `text` behind the query of a running session. A session that no
    /// longer runs is left as it is.
    pub fn type_text(&mut self, text: &str)
        ensures
            final(self).wf(),
            final(self).store() == old(self).store(),
            final(self).shown_for() == old(self).shown_for(),
            final(self)@ == if old(self)@.running {
                typed(old(self)@, text@)
            } else {
                old(self)@
            },
    {
        proof {
            use_type_invariant(&self.listing);
        }
        if self.running {
            self.search.append(text);
        }
    }

    fn table_down(&mut self, count: usize)
        ensures
            final(self).wf(),
            final(self).store() == old(self).store(),
            final(self).shown_for() == old(self).shown_for(),
            final(self)@ == select(
                old(self)@,
                moved_down(old(self)@.selection, count as int, old(self)@.rows.len() as int),
            ),
    {
        proof {
            use_type_invariant(&self.listing);
            lemma_moves_stay_inside(self@.selection, count as int, self@.rows.len() as int);
        }
        let row = wrap_down(self.listing.selected, count, self.listing.table.rows.len());
        self.listing.select(row);
    }

    fn table_up(&mut self, count: usize)
        ensures
            final(self).wf(),
            final(self).store() == old(self).store(),
            final(self).shown_for() == old(self).shown_for(),
            final(self)@ == select(
                old(self)@,
                moved_up(old(self)@.selection, count as int, old(self)@.rows.len() as int),
            ),
    {
        proof {
            use_type_invariant(&self.listing);
            lemma_moves_stay_inside(self@.selection, count as int, self@.rows.len() as int);
        }
        let row = wrap_up(self.listing.selected, count, self.listing.table.rows.len());
        self.listing.select(row);
    }

    /// Applies one event to the session. The table is not touched: see
    /// `refresh`.
    pub fn handle_event(&mut self, event: &Event)
        ensures
            final(self).wf(),
            final(self).store() == old(self).store(),
            final(self).shown_for() == old(self).shown_for(),
            final(self)@ == effect(old(self)@, *event),
    {
        proof {
            use_type_invariant(&self.listing);
        }
        if !self.running {
            return ;
        }
        match event {
            Event::Mouse(MouseEventKind::ScrollUp) => self.table_up(1),
            Event::Mouse(MouseEventKind::ScrollDown) => self.table_down(1),
            Event::Key(key) => match key.code {
                KeyCode::Esc => {
                    self.running = false;
                },
                KeyCode::Up => self.table_up(1),
                KeyCode::Down => self.table_down(1),
                KeyCode::PageUp => self.table_up(PAGE_STEP),
                KeyCode::PageDown => self.table_down(PAGE_STEP),
                KeyCode::Home => self.listing.select(0),
                KeyCode::End => {
                    let len = self.listing.table.rows.len();
                    self.listing.select(
                        if len == 0 {
                            0
                        } else {
                            len - 1
                        },
                    );
                },
                KeyCode::Char(ch) => {
                    if key.shift {
                        let upper = to_uppercase(ch);
                        self.type_text(upper.as_str());
                    } else {
                        self.search.push(ch);
                        assert(self@.query =~= old(self)@.query + seq![ch]);
                    }
                },
                KeyCode::Backspace => {
                    self.search.pop();
                },
                KeyCode::Enter => {
                    if self.listing.selected < self.listing.table.rows.len() {
                        self.exit_buffer = Some(
                            self.listing.table.rows[self.listing.selected].glyph.clone(),
                        );
                        self.running = false;
                    }
                },
                KeyCode::Other => {},
            },
            _ => {},
        }
    }

    /// Brings the table up to date. Where the query is still the one the
    /// table was made for, nothing changes; otherwise the store is ranked
    /// anew and the first row is selected.
    pub fn refresh(&mut self)
        ensures
            final(self).wf(),
            final(self).is_settled(),
            final(self).store() == old(self).store(),
            final(self)@ == settled(old(self)@, old(self).store(), old(self).shown_for()),
    {
        self.listing.show(&self.search);
        proof {
            use_type_invariant(&self.listing);
        }
    }

    /// One tick of the session: the events are applied in the order given,
    /// then the table is brought up to date.
    pub fn update(&mut self, events: &[Event])
        ensures
            final(self).wf(),
            final(self).is_settled(),
            final(self).store() == old(self).store(),
            final(self)@ == settled(
                effects(old(self)@, events@),
                old(self).store(),
                old(self).shown_for(),
            ),
    {
        let mut i: usize = 0;
        assert(events@.take(0) =~= Seq::<Event>::empty());
        while i < events.len()
            invariant
                i <= events@.len(),
                self.store() == old(self).store(),
                self.shown_for() == old(self).shown_for(),
                self@ == effects(old(self)@, events@.take(i as int)),
            decreases events@.len() - i,
        {
            assert(events@.take(i + 1).drop_last() =~= events@.take(i as int));
            assert(events@.take(i + 1).last() == events@[i as int]);
            self.handle_event(&events[i]);
            i += 1;
        }
        assert(events@.take(events@.len() as int) =~= events@);
        self.refresh();
    }
}

} // verus!
