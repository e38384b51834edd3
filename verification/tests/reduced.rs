use xferlang_rs::{
    parse_bool, parse_document, parse_integer, parse_list, parse_string, parse_value,
    skip_whitespace, ParseError, Parser, XferDocument, XferValue,
};

#[test]
fn parse_basic() {
    let doc = parse_document("\"hello\" 42 ~true [1 2]").unwrap();
    assert_eq!(doc.values.len(), 4);
}

#[test]
fn reduced_document_values_in_order() {
    let doc = parse_document("\"hello\" 42 ~true [1 2]").unwrap();
    assert_eq!(
        doc,
        XferDocument {
            values: vec![
                XferValue::String("hello".to_string()),
                XferValue::Integer(42),
                XferValue::Bool(true),
                XferValue::List(vec![XferValue::Integer(1), XferValue::Integer(2)]),
            ],
        }
    );
}

#[test]
fn reduced_empty_and_blank_documents_hold_nothing() {
    assert_eq!(parse_document(""), Ok(XferDocument { values: vec![] }));
    assert_eq!(parse_document(" \t\r\n "), Ok(XferDocument { values: vec![] }));
}

#[test]
fn reduced_values_need_no_separator() {
    let doc = parse_document("\"a\"\"b\"1-2~true[]").unwrap();
    assert_eq!(
        doc.values,
        vec![
            XferValue::String("a".to_string()),
            XferValue::String("b".to_string()),
            XferValue::Integer(1),
            XferValue::Integer(-2),
            XferValue::Bool(true),
            XferValue::List(vec![]),
        ]
    );
}

#[test]
fn reduced_errors() {
    assert_eq!(parse_document("\"abc"), Err(ParseError::UnterminatedString));
    assert_eq!(parse_document("~tru"), Err(ParseError::InvalidBoolean));
    assert_eq!(parse_document("~"), Err(ParseError::InvalidBoolean));
    assert_eq!(parse_document("-"), Err(ParseError::InvalidInteger));
    assert_eq!(parse_document("9223372036854775808"), Err(ParseError::InvalidInteger));
    assert_eq!(parse_document("[1 2"), Err(ParseError::UnexpectedEndOfInput));
    assert_eq!(parse_document("1 ]"), Err(ParseError::UnexpectedCharacter(']')));
    assert_eq!(parse_document("#1"), Err(ParseError::UnexpectedCharacter('#')));
    assert_eq!(parse_document("?"), Err(ParseError::UnexpectedCharacter('?')));
    assert_eq!(parse_document("{}"), Err(ParseError::UnexpectedCharacter('{')));
}

#[test]
fn reduced_integer_limits() {
    assert_eq!(
        parse_document("9223372036854775807 -9223372036854775808 -0 007").unwrap().values,
        vec![
            XferValue::Integer(i64::MAX),
            XferValue::Integer(i64::MIN),
            XferValue::Integer(0),
            XferValue::Integer(7),
        ]
    );
    assert_eq!(parse_document("-9223372036854775809"), Err(ParseError::InvalidInteger));
}

#[test]
fn reduced_boolean_word_takes_digits() {
    // The word behind `~` runs over letters and digits alike.
    assert_eq!(parse_document("~true1"), Err(ParseError::InvalidBoolean));
    assert_eq!(
        parse_document("~true\"x\"").unwrap().values,
        vec![XferValue::Bool(true), XferValue::String("x".to_string())]
    );
    assert_eq!(parse_document("~false").unwrap().values, vec![XferValue::Bool(false)]);
}

#[test]
fn reduced_sign_is_taken_once() {
    let mut chars = Parser::new("--5");
    assert_eq!(parse_integer(&mut chars), Err(ParseError::InvalidInteger));
    assert_eq!(chars.next_char(), Some('-'));
    assert_eq!(parse_integer(&mut chars), Ok(XferValue::Integer(5)));
    assert_eq!(chars.next_char(), None);
}

#[test]
fn reduced_integer_without_digits() {
    let mut chars = Parser::new("x");
    assert_eq!(parse_integer(&mut chars), Err(ParseError::InvalidInteger));
    assert_eq!(chars.peek(), Some('x'));
}

#[test]
fn reduced_value_does_not_skip_whitespace() {
    let mut chars = Parser::new(" 1");
    assert_eq!(parse_value(&mut chars), Err(ParseError::UnexpectedCharacter(' ')));
    assert_eq!(chars.peek(), Some(' '));
    skip_whitespace(&mut chars);
    assert_eq!(parse_value(&mut chars), Ok(XferValue::Integer(1)));
    assert_eq!(parse_value(&mut chars), Err(ParseError::UnexpectedEndOfInput));
}

#[test]
fn reduced_productions_leave_the_cursor_behind_the_value() {
    let mut chars = Parser::new("\"a b\"~false[1 [2 3] \"x\" ]tail");
    assert_eq!(parse_string(&mut chars), Ok(XferValue::String("a b".to_string())));
    assert_eq!(parse_bool(&mut chars), Ok(XferValue::Bool(false)));
    assert_eq!(
        parse_list(&mut chars),
        Ok(XferValue::List(vec![
            XferValue::Integer(1),
            XferValue::List(vec![XferValue::Integer(2), XferValue::Integer(3)]),
            XferValue::String("x".to_string()),
        ]))
    );
    assert_eq!(chars.next_char(), Some('t'));
}

#[test]
fn reduced_list_fails_with_its_first_bad_item() {
    assert_eq!(parse_document("[1 ~no 2]"), Err(ParseError::InvalidBoolean));
    assert_eq!(parse_document("[1 \"open"), Err(ParseError::UnterminatedString));
    assert_eq!(parse_document("[1 , 2]"), Err(ParseError::UnexpectedCharacter(',')));
}

#[test]
fn reduced_strings_keep_every_character() {
    assert_eq!(
        parse_document("\"tab\there \u{e9}\u{4eac} \\n\"").unwrap().values,
        vec![XferValue::String("tab\there \u{e9}\u{4eac} \\n".to_string())]
    );
}
