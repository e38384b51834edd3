use xferlang_rs::literal::{boolean_from_word, decimal_literal, integer_from_text};
use xferlang_rs::text::string_from_chars;

fn chars(s: &str) -> Vec<char> {
    s.chars().collect()
}

#[test]
fn integers_in_range() {
    assert_eq!(integer_from_text(&chars("0")), Some(0));
    assert_eq!(integer_from_text(&chars("42")), Some(42));
    assert_eq!(integer_from_text(&chars("-5")), Some(-5));
    assert_eq!(integer_from_text(&chars("-0")), Some(0));
    assert_eq!(integer_from_text(&chars("000123")), Some(123));
    assert_eq!(integer_from_text(&chars("-000123")), Some(-123));
    assert_eq!(integer_from_text(&chars("9223372036854775807")), Some(i64::MAX));
    assert_eq!(integer_from_text(&chars("-9223372036854775808")), Some(i64::MIN));
    assert_eq!(integer_from_text(&chars("-9223372036854775807")), Some(i64::MIN + 1));
    assert_eq!(integer_from_text(&chars("00009223372036854775807")), Some(i64::MAX));
}

#[test]
fn integers_out_of_range() {
    assert_eq!(integer_from_text(&chars("9223372036854775808")), None);
    assert_eq!(integer_from_text(&chars("-9223372036854775809")), None);
    assert_eq!(integer_from_text(&chars("18446744073709551616")), None);
    assert_eq!(integer_from_text(&chars("99999999999999999999999999999999")), None);
    assert_eq!(integer_from_text(&chars("-99999999999999999999999999999999")), None);
}

#[test]
fn integers_malformed() {
    for text in ["", "-", "--1", "1-", "1-2", "-1-", "+1", "1.0", " 1", "1 ", "1_000", "0x10", "1e3", "\u{661}"] {
        assert_eq!(integer_from_text(&chars(text)), None, "{:?}", text);
    }
}

#[test]
fn integers_agree_with_the_standard_library() {
    let alphabet = ['-', '0', '1', '9'];
    let mut texts: Vec<String> = vec![String::new()];
    for _ in 0..5 {
        let mut longer = Vec::new();
        for t in &texts {
            for c in alphabet {
                let mut u = t.clone();
                u.push(c);
                longer.push(u);
            }
        }
        for t in &longer {
            assert_eq!(integer_from_text(&chars(t)), t.parse::<i64>().ok(), "{:?}", t);
        }
        texts = longer;
    }
}

#[test]
fn decimal_literals() {
    for text in ["0", "85", "78.5", "-78.5", "1.", ".5", "-.5", "-1.", "000.000", "-0", "12345678901234567890.5"] {
        assert!(decimal_literal(&chars(text)), "{:?}", text);
    }
    for text in ["", "-", ".", "-.", "1.2.3", "1..2", "--1", "1-", "1-2", ".-5", "1e5", "+1", "1.5f", " 1", "inf", "nan", "NaN"] {
        assert!(!decimal_literal(&chars(text)), "{:?}", text);
    }
}

#[test]
fn decimal_literals_are_what_rounds_to_a_double() {
    let alphabet = ['-', '.', '0', '7'];
    let mut texts: Vec<String> = vec![String::new()];
    for _ in 0..5 {
        let mut longer = Vec::new();
        for t in &texts {
            for c in alphabet {
                let mut u = t.clone();
                u.push(c);
                longer.push(u);
            }
        }
        for t in &longer {
            assert_eq!(decimal_literal(&chars(t)), t.parse::<f64>().is_ok(), "{:?}", t);
        }
        texts = longer;
    }
}

#[test]
fn boolean_words() {
    assert_eq!(boolean_from_word(&chars("true")), Some(true));
    assert_eq!(boolean_from_word(&chars("false")), Some(false));
    for word in ["", "t", "tru", "truee", "True", "TRUE", "false ", "fals", "falsee", "yes", "1"] {
        assert_eq!(boolean_from_word(&chars(word)), None, "{:?}", word);
    }
}

#[test]
fn strings_from_characters() {
    assert_eq!(string_from_chars(&[]), "");
    assert_eq!(string_from_chars(&chars("a")), "a");
    assert_eq!(string_from_chars(&chars("hello world")), "hello world");
    assert_eq!(string_from_chars(&['\u{e9}', '\u{4eac}', '\u{1f49d}', 'x']), "\u{e9}\u{4eac}\u{1f49d}x");
}
