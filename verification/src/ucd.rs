//! Records of the Unicode character database: one `CharEntry` per line of
//! `UnicodeData.txt`, whose fields are separated by semicolons.

use crate::hex::{
    hex_upper, lemma_hex_round_trip, parse_hex_range, parse_hex_u32, push_hex, zero_padded,
};
use crate::text::{split, split_ranges, string_of, to_chars, trim, trim_range};
use vstd::prelude::*;

verus! {

/// The code point of the crab emoji, whose name gets a tag of its own.
pub const FERRIS: u32 = 0x1F980;

/// How many fields a line must have at least: the legacy name is the eleventh.
pub const MIN_FIELDS: usize = 11;

/// The general category of a character.
#[derive(Debug, Clone, Copy, PartialEq, Eq, Structural)]
pub enum GeneralCategory {
    LetterUppercase,
    LetterLowercase,
    LetterTitlecase,
    LetterModifier,
    LetterOther,
    MarkNonspacing,
    MarkSpacingCombining,
    MarkEnclosing,
    NumberDecimalDigit,
    NumberLetter,
    NumberOther,
    PunctuationConnector,
    PunctuationDash,
    PunctuationOpen,
    PunctuationClose,
    PunctuationInitialQuote,
    PunctuationFinalQuote,
    PunctuationOther,
    SymbolMath,
    SymbolCurrency,
    SymbolModifier,
    SymbolOther,
    SeparatorSpace,
    SeparatorLine,
    SeparatorParagraph,
    OtherControl,
    OtherFormat,
    OtherSurrogate,
    OtherPrivateUse,
    OtherNotAssigned,
}

/// One character of the database.
#[derive(Debug, Clone, PartialEq, Eq)]
pub struct CharEntry {
    pub codepoint: u32,
    pub name: String,
    pub category: GeneralCategory,
    pub unicode_1_name: String,
}

/// What a `CharEntry` holds, with its texts as sequences of characters.
pub struct EntryView {
    pub codepoint: u32,
    pub name: Seq<char>,
    pub category: GeneralCategory,
    pub unicode_1_name: Seq<char>,
}

impl View for CharEntry {
    type V = EntryView;

    open spec fn view(&self) -> EntryView {
        EntryView {
            codepoint: self.codepoint,
            name: self.name@,
            category: self.category,
            unicode_1_name: self.unicode_1_name@,
        }
    }
}

/// The category that the two letters `major` and `minor` abbreviate; letters
/// that abbreviate none stand for an unassigned character.
pub open spec fn category_of_letters(major: char, minor: char) -> GeneralCategory {
    match (major, minor) {
        ('L', 'u') => GeneralCategory::LetterUppercase,
        ('L', 'l') => GeneralCategory::LetterLowercase,
        ('L', 't') => GeneralCategory::LetterTitlecase,
        ('L', 'm') => GeneralCategory::LetterModifier,
        ('L', 'o') => GeneralCategory::LetterOther,
        ('M', 'n') => GeneralCategory::MarkNonspacing,
        ('M', 'c') => GeneralCategory::MarkSpacingCombining,
        ('M', 'e') => GeneralCategory::MarkEnclosing,
        ('N', 'd') => GeneralCategory::NumberDecimalDigit,
        ('N', 'l') => GeneralCategory::NumberLetter,
        ('N', 'o') => GeneralCategory::NumberOther,
        ('P', 'c') => GeneralCategory::PunctuationConnector,
        ('P', 'd') => GeneralCategory::PunctuationDash,
        ('P', 's') => GeneralCategory::PunctuationOpen,
        ('P', 'e') => GeneralCategory::PunctuationClose,
        ('P', 'i') => GeneralCategory::PunctuationInitialQuote,
        ('P', 'f') => GeneralCategory::PunctuationFinalQuote,
        ('P', 'o') => GeneralCategory::PunctuationOther,
        ('S', 'm') => GeneralCategory::SymbolMath,
        ('S', 'c') => GeneralCategory::SymbolCurrency,
        ('S', 'k') => GeneralCategory::SymbolModifier,
        ('S', 'o') => GeneralCategory::SymbolOther,
        ('Z', 's') => GeneralCategory::SeparatorSpace,
        ('Z', 'l') => GeneralCategory::SeparatorLine,
        ('Z', 'p') => GeneralCategory::SeparatorParagraph,
        ('C', 'c') => GeneralCategory::OtherControl,
        ('C', 'f') => GeneralCategory::OtherFormat,
        ('C', 's') => GeneralCategory::OtherSurrogate,
        ('C', 'o') => GeneralCategory::OtherPrivateUse,
        _ => GeneralCategory::OtherNotAssigned,
    }
}

/// The category that `code` abbreviates. Every text has a category: one that
/// is not a known two-letter code stands for an unassigned character.
pub open spec fn category_of(code: Seq<char>) -> GeneralCategory {
    if code.len() == 2 {
        category_of_letters(code[0], code[1])
    } else {
        GeneralCategory::OtherNotAssigned
    }
}

/// A code point in the usual notation: `U+`, then the number in upper-case
/// hexadecimal with at least four digits. Wider numbers keep all their digits.
pub open spec fn fmt_codepoint_spec(codepoint: u32) -> Seq<char> {
    seq!['U', '+'] + zero_padded(hex_upper(codepoint as nat), 4)
}

/// The name under which a character is listed: the name on its line, with a
/// tag behind it for the crab.
pub open spec fn listed_name(codepoint: u32, name: Seq<char>) -> Seq<char> {
    if codepoint == FERRIS {
        name + " (FERRIS)"@
    } else {
        name
    }
}

/// The entry that one line of the database describes. The line is trimmed and
/// split at semicolons; it needs at least eleven fields, of which the first is
/// the code point in hexadecimal, the second the name, the third the category
/// and the eleventh the legacy name. A line with fewer fields, or whose first
/// field is no 32-bit hexadecimal number, describes nothing.
pub open spec fn parse_line(line: Seq<char>) -> Option<EntryView> {
    let fields = split(trim(line), ';');
    if fields.len() < MIN_FIELDS {
        None
    } else {
        match parse_hex_u32(fields[0]) {
            None => None,
            Some(codepoint) => Some(
                EntryView {
                    codepoint,
                    name: listed_name(codepoint, fields[1]),
                    category: category_of(fields[2]),
                    unicode_1_name: fields[10],
                },
            ),
        }
    }
}

/// The entries that `lines` describe, in order; lines that describe nothing
/// are passed over.
pub open spec fn entries_of(lines: Seq<Seq<char>>) -> Seq<EntryView>
    decreases lines.len(),
{
    if lines.len() == 0 {
        Seq::<EntryView>::empty()
    } else {
        let before = entries_of(lines.drop_last());
        match parse_line(lines.last()) {
            Some(entry) => before.push(entry),
            None => before,
        }
    }
}

/// The entries of a whole database file: the text is trimmed and cut into
/// lines at line feeds.
pub open spec fn parse_text(text: Seq<char>) -> Seq<EntryView> {
    entries_of(split(trim(text), '\n'))
}

/// A code point written in the `U+` notation reads back as itself: behind the
/// two characters `U+` stands a hexadecimal number with the code point's value.
pub proof fn lemma_codepoint_reads_back(codepoint: u32)
    ensures
        fmt_codepoint_spec(codepoint).len() >= 6,
        fmt_codepoint_spec(codepoint).take(2) == seq!['U', '+'],
        parse_hex_u32(fmt_codepoint_spec(codepoint).skip(2)) == Some(codepoint),
{
    let digits = zero_padded(hex_upper(codepoint as nat), 4);
    lemma_hex_round_trip(codepoint, 4);
    assert(fmt_codepoint_spec(codepoint).skip(2) =~= digits);
    assert(fmt_codepoint_spec(codepoint).take(2) =~= seq!['U', '+']);
}

impl GeneralCategory {
    fn from_letters(major: char, minor: char) -> (category: GeneralCategory)
        ensures
            category == category_of_letters(major, minor),
    {
        match (major, minor) {
            ('L', 'u') => GeneralCategory::LetterUppercase,
            ('L', 'l') => GeneralCategory::LetterLowercase,
            ('L', 't') => GeneralCategory::LetterTitlecase,
            ('L', 'm') => GeneralCategory::LetterModifier,
            ('L', 'o') => GeneralCategory::LetterOther,
            ('M', 'n') => GeneralCategory::MarkNonspacing,
            ('M', 'c') => GeneralCategory::MarkSpacingCombining,
            ('M', 'e') => GeneralCategory::MarkEnclosing,
            ('N', 'd') => GeneralCategory::NumberDecimalDigit,
            ('N', 'l') => GeneralCategory::NumberLetter,
            ('N', 'o') => GeneralCategory::NumberOther,
            ('P', 'c') => GeneralCategory::PunctuationConnector,
            ('P', 'd') => GeneralCategory::PunctuationDash,
            ('P', 's') => GeneralCategory::PunctuationOpen,
            ('P', 'e') => GeneralCategory::PunctuationClose,
            ('P', 'i') => GeneralCategory::PunctuationInitialQuote,
            ('P', 'f') => GeneralCategory::PunctuationFinalQuote,
            ('P', 'o') => GeneralCategory::PunctuationOther,
            ('S', 'm') => GeneralCategory::SymbolMath,
            ('S', 'c') => GeneralCategory::SymbolCurrency,
            ('S', 'k') => GeneralCategory::SymbolModifier,
            ('S', 'o') => GeneralCategory::SymbolOther,
            ('Z', 's') => GeneralCategory::SeparatorSpace,
            ('Z', 'l') => GeneralCategory::SeparatorLine,
            ('Z', 'p') => GeneralCategory::SeparatorParagraph,
            ('C', 'c') => GeneralCategory::OtherControl,
            ('C', 'f') => GeneralCategory::OtherFormat,
            ('C', 's') => GeneralCategory::OtherSurrogate,
            ('C', 'o') => GeneralCategory::OtherPrivateUse,
            _ => GeneralCategory::OtherNotAssigned,
        }
    }

    fn from_range(chars: &[char], lo: usize, hi: usize) -> (category: GeneralCategory)
        requires
            lo <= hi <= chars@.len(),
        ensures
            category == category_of(chars@.subrange(lo as int, hi as int)),
    {
        if hi - lo == 2 {
            GeneralCategory::from_letters(chars[lo], chars[lo + 1])
        } else {
            GeneralCategory::OtherNotAssigned
        }
    }

    /// The category that the two-letter code `code` abbreviates, and
    /// `OtherNotAssigned` for any other text.
    pub fn from_code(code: &str) -> (category: GeneralCategory)
        ensures
            category == category_of(code@),
    {
        let chars = to_chars(code);
        assert(chars@.subrange(0, chars@.len() as int) =~= chars@);
        GeneralCategory::from_range(chars.as_slice(), 0, chars.len())
    }
}

impl CharEntry {
    /// Reads the entry that the line `chars[lo..hi]` describes.
    pub(crate) fn from_chars(chars: &[char], lo: usize, hi: usize) -> (entry: Option<CharEntry>)
        requires
            lo <= hi <= chars@.len(),
        ensures
            match entry {
                Some(e) => parse_line(chars@.subrange(lo as int, hi as int)) == Some(e@),
                None => parse_line(chars@.subrange(lo as int, hi as int)) is None,
            },
    {
        let (a, b) = trim_range(chars, lo, hi);
        let fields = split_ranges(chars, a, b, ';');
        if fields.len() < MIN_FIELDS {
            return None;
        }
        let codepoint = match parse_hex_range(chars, fields[0].0, fields[0].1) {
            Some(x) => x,
            None => {
                return None;
            },
        };
        let mut name = string_of(chars, fields[1].0, fields[1].1);
        if codepoint == FERRIS {
            name.append(" (FERRIS)");
        }
        let category = GeneralCategory::from_range(chars, fields[2].0, fields[2].1);
        let unicode_1_name = string_of(chars, fields[10].0, fields[10].1);
        Some(CharEntry { codepoint, name, category, unicode_1_name })
    }

    /// Reads one line of the database. Returns the entry exactly when the
    /// line, once trimmed, has at least eleven fields and its first field is a
    /// hexadecimal number of at most 32 bits.
    pub fn from_ucd_line(ucd_line: &str) -> (entry: Option<CharEntry>)
        ensures
            match entry {
                Some(e) => parse_line(ucd_line@) == Some(e@),
                None => parse_line(ucd_line@) is None,
            },
    {
        let chars = to_chars(ucd_line);
        assert(chars@.subrange(0, chars@.len() as int) =~= chars@);
        CharEntry::from_chars(chars.as_slice(), 0, chars.len())
    }

    /// Writes a code point as `U+` and at least four upper-case hexadecimal
    /// digits.
    pub fn fmt_codepoint(codepoint: u32) -> (text: String)
        ensures
            text@ == fmt_codepoint_spec(codepoint),
    {
        let mut text = String::new();
        text.push('U');
        text.push('+');
        assert(text@ =~= seq!['U', '+']);
        push_hex(&mut text, codepoint, 4);
        text
    }
}

/// Reads a whole database file: every line that describes an entry gives one,
/// in the order of the lines.
pub fn parse_unicode_data(text: &str) -> (entries: Vec<CharEntry>)
    ensures
        entries@.len() == parse_text(text@).len(),
        forall|i: int| 0 <= i < entries@.len() ==> (#[trigger] entries@[i])@ == parse_text(text@)[i],
{
    let chars = to_chars(text);
    assert(chars@.subrange(0, chars@.len() as int) =~= chars@);
    let (a, b) = trim_range(chars.as_slice(), 0, chars.len());
    let lines = split_ranges(chars.as_slice(), a, b, '\n');
    let ghost all = split(trim(text@), '\n');
    let mut entries: Vec<CharEntry> = Vec::new();
    let mut k: usize = 0;
    assert(all.take(0) =~= Seq::<Seq<char>>::empty());
    while k < lines.len()
        invariant
            k <= lines@.len() == all.len(),
            forall|j: int|
                0 <= j < lines@.len() ==> {
                    &&& (#[trigger] lines@[j]).0 <= lines@[j].1 <= chars@.len()
                    &&& chars@.subrange(lines@[j].0 as int, lines@[j].1 as int) == all[j]
                },
            entries@.len() == entries_of(all.take(k as int)).len(),
            forall|i: int|
                0 <= i < entries@.len() ==> (#[trigger] entries@[i])@ == entries_of(
                    all.take(k as int),
                )[i],
        decreases lines@.len() - k,
    {
        let line = lines[k];
        assert(all.take(k + 1).drop_last() =~= all.take(k as int));
        assert(all.take(k + 1).last() == all[k as int]);
        match CharEntry::from_chars(chars.as_slice(), line.0, line.1) {
            Some(entry) => {
                entries.push(entry);
            },
            None => {},
        }
        k += 1;
    }
    assert(all.take(lines@.len() as int) =~= all);
    entries
}

} // verus!
