use ferris_finder::hex::{hex_digit, parse_hex};
use ferris_finder::text::{is_whitespace, to_chars};
use ferris_finder::ucd::{parse_unicode_data, CharEntry, GeneralCategory, FERRIS};

const LINE_A: &str = "0041;LATIN CAPITAL LETTER A;Lu;0;L;;;;;N;;;;0061;";
const LINE_CRAB: &str = "1F980;CRAB;So;0;ON;;;;;N;;;;;";
const LINE_NUL: &str = "0000;<control>;Cc;0;BN;;;;;N;NULL;;;;";

#[test]
fn codepoint_0x41_formats_with_four_digits() {
    assert_eq!(CharEntry::fmt_codepoint(0x41), "U+0041");
}

#[test]
fn codepoint_0x1f980_keeps_all_five_digits() {
    assert_eq!(CharEntry::fmt_codepoint(0x1F980), "U+1F980");
}

#[test]
fn codepoint_formatting_edges() {
    assert_eq!(CharEntry::fmt_codepoint(0), "U+0000");
    assert_eq!(CharEntry::fmt_codepoint(0xF), "U+000F");
    assert_eq!(CharEntry::fmt_codepoint(0xABCD), "U+ABCD");
    assert_eq!(CharEntry::fmt_codepoint(0x10000), "U+10000");
    assert_eq!(CharEntry::fmt_codepoint(0x10FFFF), "U+10FFFF");
    assert_eq!(CharEntry::fmt_codepoint(u32::MAX), "U+FFFFFFFF");
}

#[test]
fn codepoint_formatting_agrees_with_std() {
    let mut n: u32 = 0;
    loop {
        assert_eq!(CharEntry::fmt_codepoint(n), format!("U+{:04X}", n));
        if n > u32::MAX - 0x1F3 {
            break;
        }
        n += 0x1F3;
        if n > 0x30000 {
            n = n.saturating_mul(3);
        }
    }
}

#[test]
fn formatted_codepoint_reads_back() {
    for n in [0u32, 9, 0x41, 0xFFFF, 0x1F980, 0x10FFFF, u32::MAX] {
        let text = CharEntry::fmt_codepoint(n);
        assert_eq!(parse_hex(&text[2..]), Some(n));
    }
}

#[test]
fn line_gives_entry() {
    let entry = CharEntry::from_ucd_line(LINE_A).unwrap();
    assert_eq!(entry.codepoint, 0x41);
    assert_eq!(entry.name, "LATIN CAPITAL LETTER A");
    assert_eq!(entry.category, GeneralCategory::LetterUppercase);
    assert_eq!(entry.unicode_1_name, "");
}

#[test]
fn line_keeps_legacy_name() {
    let entry = CharEntry::from_ucd_line(LINE_NUL).unwrap();
    assert_eq!(entry.codepoint, 0);
    assert_eq!(entry.name, "<control>");
    assert_eq!(entry.category, GeneralCategory::OtherControl);
    assert_eq!(entry.unicode_1_name, "NULL");
}

#[test]
fn crab_gets_its_tag() {
    let entry = CharEntry::from_ucd_line(LINE_CRAB).unwrap();
    assert_eq!(entry.codepoint, FERRIS);
    assert_eq!(entry.name, "CRAB (FERRIS)");
    assert_eq!(entry.category, GeneralCategory::SymbolOther);
}

#[test]
fn line_is_trimmed_first() {
    let padded = format!("  \t{}\r\n", LINE_A);
    assert_eq!(CharEntry::from_ucd_line(&padded), CharEntry::from_ucd_line(LINE_A));
    let inner = CharEntry::from_ucd_line("0041; NAME ;Lu;;;;;;;; OLD ").unwrap();
    assert_eq!(inner.name, " NAME ");
    assert_eq!(inner.unicode_1_name, " OLD");
}

#[test]
fn short_lines_give_nothing() {
    assert_eq!(CharEntry::from_ucd_line(""), None);
    assert_eq!(CharEntry::from_ucd_line("   "), None);
    assert_eq!(CharEntry::from_ucd_line("0041"), None);
    assert_eq!(CharEntry::from_ucd_line("0041;NAME"), None);
    assert_eq!(CharEntry::from_ucd_line("0041;NAME;Lu"), None);
    assert_eq!(CharEntry::from_ucd_line("0041;NAME;Lu;;;;;;;"), None);
    assert!(CharEntry::from_ucd_line("0041;NAME;Lu;;;;;;;;").is_some());
}

#[test]
fn bad_codepoints_give_nothing() {
    assert_eq!(CharEntry::from_ucd_line(";NAME;Lu;;;;;;;;"), None);
    assert_eq!(CharEntry::from_ucd_line("XYZ;NAME;Lu;;;;;;;;"), None);
    assert_eq!(CharEntry::from_ucd_line("-41;NAME;Lu;;;;;;;;"), None);
    assert_eq!(CharEntry::from_ucd_line("100000000;NAME;Lu;;;;;;;;"), None);
    assert_eq!(CharEntry::from_ucd_line("00 41;NAME;Lu;;;;;;;;"), None);
    let plus = CharEntry::from_ucd_line("+41;NAME;Lu;;;;;;;;").unwrap();
    assert_eq!(plus.codepoint, 0x41);
    let lower = CharEntry::from_ucd_line("1f980;CRAB;So;;;;;;;;").unwrap();
    assert_eq!(lower.codepoint, 0x1F980);
    assert_eq!(lower.name, "CRAB (FERRIS)");
}

#[test]
fn extra_fields_are_ignored() {
    let entry = CharEntry::from_ucd_line("41;N;Ll;3;4;5;6;7;8;9;OLD;11;12;13;14;15;16").unwrap();
    assert_eq!(entry.unicode_1_name, "OLD");
    assert_eq!(entry.category, GeneralCategory::LetterLowercase);
}

#[test]
fn every_category_code_is_known() {
    let table = [
        ("Lu", GeneralCategory::LetterUppercase),
        ("Ll", GeneralCategory::LetterLowercase),
        ("Lt", GeneralCategory::LetterTitlecase),
        ("Lm", GeneralCategory::LetterModifier),
        ("Lo", GeneralCategory::LetterOther),
        ("Mn", GeneralCategory::MarkNonspacing),
        ("Mc", GeneralCategory::MarkSpacingCombining),
        ("Me", GeneralCategory::MarkEnclosing),
        ("Nd", GeneralCategory::NumberDecimalDigit),
        ("Nl", GeneralCategory::NumberLetter),
        ("No", GeneralCategory::NumberOther),
        ("Pc", GeneralCategory::PunctuationConnector),
        ("Pd", GeneralCategory::PunctuationDash),
        ("Ps", GeneralCategory::PunctuationOpen),
        ("Pe", GeneralCategory::PunctuationClose),
        ("Pi", GeneralCategory::PunctuationInitialQuote),
        ("Pf", GeneralCategory::PunctuationFinalQuote),
        ("Po", GeneralCategory::PunctuationOther),
        ("Sm", GeneralCategory::SymbolMath),
        ("Sc", GeneralCategory::SymbolCurrency),
        ("Sk", GeneralCategory::SymbolModifier),
        ("So", GeneralCategory::SymbolOther),
        ("Zs", GeneralCategory::SeparatorSpace),
        ("Zl", GeneralCategory::SeparatorLine),
        ("Zp", GeneralCategory::SeparatorParagraph),
        ("Cc", GeneralCategory::OtherControl),
        ("Cf", GeneralCategory::OtherFormat),
        ("Cs", GeneralCategory::OtherSurrogate),
        ("Co", GeneralCategory::OtherPrivateUse),
        ("Cn", GeneralCategory::OtherNotAssigned),
    ];
    for (code, category) in table {
        assert_eq!(GeneralCategory::from_code(code), category);
        let line = format!("41;N;{};;;;;;;;", code);
        assert_eq!(CharEntry::from_ucd_line(&line).unwrap().category, category);
    }
}

#[test]
fn unknown_category_codes_are_unassigned() {
    for code in ["", "L", "Lx", "lu", "LU", "Luu", "Xx", "é!"] {
        assert_eq!(GeneralCategory::from_code(code), GeneralCategory::OtherNotAssigned);
    }
}

#[test]
fn whole_file_is_read_line_by_line() {
    let text = format!("\n{}\nnot a line\n\n{}\r\n{}\n\n", LINE_NUL, LINE_A, LINE_CRAB);
    let entries = parse_unicode_data(&text);
    assert_eq!(entries.len(), 3);
    assert_eq!(entries[0].codepoint, 0);
    assert_eq!(entries[1].codepoint, 0x41);
    assert_eq!(entries[2].name, "CRAB (FERRIS)");
    assert!(parse_unicode_data("").is_empty());
}

#[test]
fn whole_file_agrees_with_line_reader() {
    let text = format!("{}\n;;\n{}\nFFFFFFFFF;X;Lu;;;;;;;;\n{}", LINE_A, LINE_CRAB, LINE_NUL);
    let expected: Vec<CharEntry> =
        text.trim().split('\n').filter_map(CharEntry::from_ucd_line).collect();
    assert_eq!(parse_unicode_data(&text), expected);
}

#[test]
fn hex_reader_agrees_with_std() {
    let samples = [
        "", "+", "-", "0", "00", "+0", "-0", "41", "+41", "++41", "+-41", "-41", "ffffffff",
        "FFFFFFFF", "100000000", "0000000000041", "fffffffff", "1F980", "1f980", "g", "4g", "4 1",
        " 41", "41 ", "0x41", "1_000", "é", "４１", "٤١", "DeadBeef", "123456789",
    ];
    for text in samples {
        assert_eq!(parse_hex(text), u32::from_str_radix(text, 16).ok(), "{:?}", text);
    }
}

#[test]
fn hex_digits_agree_with_std() {
    for n in 0..=0x10FFFFu32 {
        if let Some(c) = char::from_u32(n) {
            assert_eq!(hex_digit(c), c.to_digit(16));
        }
    }
}

#[test]
fn whitespace_agrees_with_std() {
    for n in 0..=0x10FFFFu32 {
        if let Some(c) = char::from_u32(n) {
            assert_eq!(is_whitespace(c), c.is_whitespace(), "U+{:04X}", n);
        }
    }
}

#[test]
fn trimming_agrees_with_std() {
    let samples = [
        "", " ", "a", " a", "a ", "  a b  ", "\u{3000}x\u{2003}", "\u{85}y\u{a0}", "\u{200b}z ",
        "\t\r\n", "\u{1680}\u{2028}q\u{2029}\u{202f}\u{205f}",
    ];
    for text in samples {
        let padded = format!("{}41;N;Lu;;;;;;;;X{}", text, text);
        let trimmed = padded.trim();
        assert_eq!(CharEntry::from_ucd_line(&padded), CharEntry::from_ucd_line(trimmed));
    }
}

#[test]
fn chars_of_a_text() {
    assert_eq!(to_chars("aé🦀"), vec!['a', 'é', '🦀']);
    assert!(to_chars("").is_empty());
}
