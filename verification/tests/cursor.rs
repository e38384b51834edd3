use xferlang_rs::chars::CharClass;
use xferlang_rs::{Element, ParseError, Parser};

#[test]
fn peek_is_idempotent() {
    let mut p = Parser::new("ab");
    assert_eq!(p.peek(), Some('a'));
    assert_eq!(p.peek(), Some('a'));
    assert_eq!(p.peek(), Some('a'));
    assert_eq!(p.next_char(), Some('a'));
    assert_eq!(p.peek(), Some('b'));
    assert_eq!(p.peek(), Some('b'));
}

#[test]
fn advance_with_and_without_lookahead() {
    let mut p = Parser::new("abc");
    assert_eq!(p.next_char(), Some('a'));
    assert_eq!(p.peek(), Some('b'));
    assert_eq!(p.next_char(), Some('b'));
    assert_eq!(p.next_char(), Some('c'));
    assert_eq!(p.next_char(), None);
    assert_eq!(p.next_char(), None);
    assert_eq!(p.peek(), None);
    assert_eq!(p.peek(), None);
    assert_eq!(p.next_char(), None);
}

#[test]
fn empty_input() {
    let mut p = Parser::new("");
    assert_eq!(p.peek(), None);
    assert_eq!(p.next_char(), None);
    p.skip_whitespace();
    assert_eq!(p.peek(), None);
}

#[test]
fn cursor_walks_scalar_values() {
    let mut p = Parser::new("\u{e9}\u{4eac}\u{1f49d}z");
    assert_eq!(p.next_char(), Some('\u{e9}'));
    assert_eq!(p.peek(), Some('\u{4eac}'));
    assert_eq!(p.next_char(), Some('\u{4eac}'));
    assert_eq!(p.next_char(), Some('\u{1f49d}'));
    assert_eq!(p.next_char(), Some('z'));
    assert_eq!(p.next_char(), None);
}

#[test]
fn skip_whitespace_stops_at_the_first_other_character() {
    let mut p = Parser::new(" \t\r\n\u{a0}\u{3000}x y");
    p.skip_whitespace();
    assert_eq!(p.peek(), Some('x'));
    p.skip_whitespace();
    assert_eq!(p.next_char(), Some('x'));
    p.skip_whitespace();
    assert_eq!(p.next_char(), Some('y'));
    p.skip_whitespace();
    assert_eq!(p.next_char(), None);
}

#[test]
fn skip_whitespace_after_a_peek() {
    let mut p = Parser::new("  x");
    assert_eq!(p.peek(), Some(' '));
    p.skip_whitespace();
    assert_eq!(p.next_char(), Some('x'));
}

#[test]
fn take_run_is_maximal() {
    let mut p = Parser::new("123-45.6abc");
    assert_eq!(p.take_run(CharClass::Digit), vec!['1', '2', '3']);
    assert_eq!(p.take_run(CharClass::Digit), Vec::<char>::new());
    assert_eq!(p.take_run(CharClass::IntegerText), vec!['-', '4', '5']);
    assert_eq!(p.take_run(CharClass::DecimalText), vec!['.', '6']);
    assert_eq!(p.take_run(CharClass::Alphabetic), vec!['a', 'b', 'c']);
    assert_eq!(p.take_run(CharClass::Alphabetic), Vec::<char>::new());
    assert_eq!(p.next_char(), None);
}

#[test]
fn take_run_after_a_peek() {
    let mut p = Parser::new("ab1");
    assert_eq!(p.peek(), Some('a'));
    assert_eq!(p.take_run(CharClass::Alphabetic), vec!['a', 'b']);
    assert_eq!(p.next_char(), Some('1'));
}

#[test]
fn identifiers() {
    let mut p = Parser::new("name_1\"x\"");
    assert_eq!(p.parse_identifier(), Ok("name_1".to_string()));
    assert_eq!(p.peek(), Some('"'));
    assert_eq!(p.parse_identifier(), Err(ParseError::ExpectedIdentifier));
    assert_eq!(p.peek(), Some('"'));
}

#[test]
fn identifiers_start_with_anything_alphanumeric() {
    assert_eq!(Parser::new("_").parse_identifier(), Ok("_".to_string()));
    assert_eq!(Parser::new("9lives").parse_identifier(), Ok("9lives".to_string()));
    assert_eq!(Parser::new("cl\u{e9}_\u{4eac}2 x").parse_identifier(), Ok("cl\u{e9}_\u{4eac}2".to_string()));
    assert_eq!(Parser::new("").parse_identifier(), Err(ParseError::ExpectedIdentifier));
    assert_eq!(Parser::new(" a").parse_identifier(), Err(ParseError::ExpectedIdentifier));
    assert_eq!(Parser::new("-a").parse_identifier(), Err(ParseError::ExpectedIdentifier));
}

#[test]
fn elements_one_after_another() {
    let mut p = Parser::new("  ?~true #1\"s\"[ ]{ }*2.5 -7rest");
    assert_eq!(p.parse_element(), Ok(Element::Null));
    assert_eq!(p.parse_element(), Ok(Element::Boolean(true)));
    assert_eq!(p.parse_element(), Ok(Element::Integer(1)));
    assert_eq!(p.parse_element(), Ok(Element::String("s".to_string())));
    assert_eq!(p.parse_element(), Ok(Element::Array(vec![])));
    assert_eq!(p.parse_element(), Ok(Element::Object(vec![])));
    assert_eq!(p.parse_element(), Ok(Element::Double("2.5".to_string())));
    assert_eq!(p.parse_element(), Ok(Element::Integer(-7)));
    assert_eq!(p.parse_element(), Err(ParseError::UnexpectedCharacter('r')));
    assert_eq!(p.peek(), Some('r'));
}

#[test]
fn element_failures_leave_the_cursor_where_they_stopped() {
    let mut p = Parser::new("#12x");
    assert_eq!(p.parse_element(), Ok(Element::Integer(12)));
    assert_eq!(p.next_char(), Some('x'));

    let mut p = Parser::new("#1-2 x");
    assert_eq!(p.parse_element(), Err(ParseError::InvalidInteger));
    assert_eq!(p.next_char(), Some(' '));

    let mut p = Parser::new("~maybe?");
    assert_eq!(p.parse_element(), Err(ParseError::InvalidBoolean));
    assert_eq!(p.next_char(), Some('?'));

    let mut p = Parser::new("^1.2.3]");
    assert_eq!(p.parse_element(), Err(ParseError::InvalidDouble));
    assert_eq!(p.next_char(), Some(']'));

    let mut p = Parser::new("\"never closed");
    assert_eq!(p.parse_element(), Err(ParseError::UnterminatedString));
    assert_eq!(p.next_char(), None);

    let mut p = Parser::new("   ");
    assert_eq!(p.parse_element(), Err(ParseError::UnexpectedEndOfInput));
    assert_eq!(p.next_char(), None);

    let mut p = Parser::new("{a 1 -}");
    assert_eq!(p.parse_element(), Err(ParseError::ExpectedIdentifier));
    assert_eq!(p.next_char(), Some('-'));
}
