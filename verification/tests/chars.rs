use xferlang_rs::chars::{alphabetic, alphanumeric, ascii_digit, whitespace, CharClass};

fn every_char() -> impl Iterator<Item = char> {
    (0u32..=0x10ffff).filter_map(char::from_u32)
}

#[test]
fn whitespace_is_the_unicode_property() {
    for c in every_char() {
        assert_eq!(whitespace(c), c.is_whitespace(), "U+{:04X}", c as u32);
    }
}

#[test]
fn whitespace_has_twenty_five_members() {
    assert_eq!(every_char().filter(|c| whitespace(*c)).count(), 25);
    for c in [' ', '\t', '\n', '\u{b}', '\u{c}', '\r', '\u{85}', '\u{a0}', '\u{3000}'] {
        assert!(whitespace(c));
    }
    for c in ['\u{8}', '\u{e}', '\u{1f}', '\u{180e}', '\u{200b}', '\u{feff}', 'a', '0'] {
        assert!(!whitespace(c));
    }
}

#[test]
fn alphabetic_agrees_with_the_standard_library() {
    for c in every_char() {
        assert_eq!(alphabetic(c), c.is_alphabetic(), "U+{:04X}", c as u32);
    }
}

#[test]
fn alphanumeric_agrees_with_the_standard_library() {
    for c in every_char() {
        assert_eq!(alphanumeric(c), c.is_alphanumeric(), "U+{:04X}", c as u32);
    }
}

#[test]
fn alphabetic_beyond_ascii() {
    assert!(alphabetic('a'));
    assert!(alphabetic('Z'));
    assert!(alphabetic('\u{e9}'));
    assert!(alphabetic('\u{4eac}'));
    assert!(!alphabetic('\u{1f49d}'));
    assert!(!alphabetic('1'));
    assert!(!alphabetic('_'));
    assert!(!alphabetic('\u{b2}'));
}

#[test]
fn alphanumeric_beyond_ascii() {
    assert!(alphanumeric('a'));
    assert!(alphanumeric('7'));
    assert!(alphanumeric('\u{e9}'));
    assert!(alphanumeric('\u{b2}'));
    assert!(alphanumeric('\u{661}'));
    assert!(!alphanumeric('_'));
    assert!(!alphanumeric('-'));
    assert!(!alphanumeric('\u{1f49d}'));
}

#[test]
fn digits_are_the_ascii_ones() {
    assert_eq!(every_char().filter(|c| ascii_digit(*c)).count(), 10);
    assert!(ascii_digit('0'));
    assert!(ascii_digit('9'));
    assert!(!ascii_digit('/'));
    assert!(!ascii_digit(':'));
    assert!(!ascii_digit('\u{661}'));
}

#[test]
fn classes_of_the_tokens() {
    assert!(CharClass::Whitespace.accepts('\n'));
    assert!(!CharClass::Whitespace.accepts('x'));
    assert!(CharClass::Digit.accepts('5'));
    assert!(!CharClass::Digit.accepts('-'));
    assert!(CharClass::IntegerText.accepts('-'));
    assert!(CharClass::IntegerText.accepts('5'));
    assert!(!CharClass::IntegerText.accepts('.'));
    assert!(!CharClass::IntegerText.accepts('+'));
    assert!(CharClass::DecimalText.accepts('.'));
    assert!(CharClass::DecimalText.accepts('-'));
    assert!(CharClass::DecimalText.accepts('0'));
    assert!(!CharClass::DecimalText.accepts('e'));
    assert!(!CharClass::DecimalText.accepts('E'));
    assert!(!CharClass::DecimalText.accepts('+'));
    assert!(CharClass::Alphabetic.accepts('q'));
    assert!(!CharClass::Alphabetic.accepts('1'));
    assert!(CharClass::Alphanumeric.accepts('1'));
    assert!(!CharClass::Alphanumeric.accepts('_'));
    assert!(CharClass::Identifier.accepts('_'));
    assert!(CharClass::Identifier.accepts('k'));
    assert!(CharClass::Identifier.accepts('3'));
    assert!(!CharClass::Identifier.accepts('-'));
    assert!(!CharClass::Identifier.accepts(' '));
    assert!(CharClass::Verbatim.accepts(' '));
    assert!(CharClass::Verbatim.accepts('\\'));
    assert!(!CharClass::Verbatim.accepts('"'));
}

#[test]
fn no_separator_is_part_of_a_token() {
    for c in every_char().filter(|c| whitespace(*c)) {
        assert!(!CharClass::Digit.accepts(c));
        assert!(!CharClass::IntegerText.accepts(c));
        assert!(!CharClass::DecimalText.accepts(c));
        assert!(!CharClass::Alphabetic.accepts(c));
        assert!(!CharClass::Alphanumeric.accepts(c));
        assert!(!CharClass::Identifier.accepts(c));
    }
}
