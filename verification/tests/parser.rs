use web_browser::parser::Parser;

#[test]
fn next_returns_current_char() {
    let p = Parser::new("hello".to_string());
    assert_eq!(p.next().unwrap(), 'h');
}

#[test]
fn next_on_empty_input_returns_error() {
    let p = Parser::new("".to_string());
    assert!(p.next().is_err());
}

#[test]
fn consume_advances_position() {
    let mut p = Parser::new("ab".to_string());
    assert_eq!(p.consume().unwrap(), 'a');
    assert_eq!(p.consume().unwrap(), 'b');
    assert!(p.eof());
}

#[test]
fn consume_while_collects_matching_chars() {
    let mut p = Parser::new("abc123".to_string());
    let result = p.consume_while(|c| c.is_alphabetic()).unwrap();
    assert_eq!(result, "abc");
    assert_eq!(p.pos, 3);
}

#[test]
fn consume_while_returns_empty_when_no_match() {
    let mut p = Parser::new("123".to_string());
    let result = p.consume_while(|c| c.is_alphabetic()).unwrap();
    assert_eq!(result, "");
}

#[test]
fn starts_with_checks_prefix() {
    let p = Parser::new("<div>".to_string());
    assert!(p.starts_with("<"));
    assert!(p.starts_with("<div"));
    assert!(!p.starts_with("div"));
}

#[test]
fn expect_consumes_matching_string() {
    let mut p = Parser::new("</div>".to_string());
    assert!(p.expect("</").is_ok());
    assert_eq!(p.pos, 2);
}

#[test]
fn expect_fails_on_mismatch() {
    let mut p = Parser::new("hello".to_string());
    assert!(p.expect("world").is_err());
}

#[test]
fn expect_char_consumes_matching_char() {
    let mut p = Parser::new("{".to_string());
    assert!(p.expect_char('{').is_ok());
    assert!(p.eof());
}

#[test]
fn expect_char_fails_on_mismatch() {
    let mut p = Parser::new("a".to_string());
    assert!(p.expect_char('b').is_err());
}

#[test]
fn consume_whitespace_skips_spaces_and_newlines() {
    let mut p = Parser::new("  \n\t hello".to_string());
    p.consume_whitespace().unwrap();
    assert_eq!(p.next().unwrap(), 'h');
}

#[test]
fn eof_is_true_when_fully_consumed() {
    let mut p = Parser::new("a".to_string());
    p.consume().unwrap();
    assert!(p.eof());
}

#[test]
fn eof_is_false_when_input_remains() {
    let p = Parser::new("a".to_string());
    assert!(!p.eof());
}

#[test]
fn pos_counts_bytes_of_multibyte_chars() {
    let mut p = Parser::new("é€😀x".to_string());
    assert_eq!(p.consume().unwrap(), 'é');
    assert_eq!(p.pos, 2);
    assert_eq!(p.consume().unwrap(), '€');
    assert_eq!(p.pos, 5);
    assert_eq!(p.consume().unwrap(), '😀');
    assert_eq!(p.pos, 9);
    assert_eq!(p.bytes_left(), 1);
    assert!(!p.eof());
}

#[test]
fn next_error_reports_message_and_position() {
    let mut p = Parser::new("ab".to_string());
    p.consume().unwrap();
    p.consume().unwrap();
    let e = p.next().unwrap_err();
    assert_eq!(e.message, "Unexpected end of input");
    assert_eq!(e.pos, 2);
}

#[test]
fn expect_error_leaves_position_and_quotes_expected() {
    let mut p = Parser::new("hello".to_string());
    let e = p.expect("world").unwrap_err();
    assert_eq!(e.message, "Expected \"world\"");
    assert_eq!(e.pos, 0);
    assert_eq!(p.pos, 0);
}

#[test]
fn expect_char_error_is_after_the_consumed_char() {
    let mut p = Parser::new("a".to_string());
    let e = p.expect_char('b').unwrap_err();
    assert_eq!(e.message, "Expected 'b', got 'a'");
    assert_eq!(e.pos, 1);
}

#[test]
fn consume_whitespace_skips_unicode_whitespace() {
    let mut p = Parser::new("\u{a0}\u{2003}\u{3000}x".to_string());
    p.consume_whitespace().unwrap();
    assert_eq!(p.next().unwrap(), 'x');
    assert_eq!(p.pos, 8);
}

#[test]
fn peek_looks_ahead_without_moving() {
    let p = Parser::new("ab".to_string());
    assert_eq!(p.peek(1), Some('b'));
    assert_eq!(p.peek(2), None);
    assert_eq!(p.pos, 0);
}
