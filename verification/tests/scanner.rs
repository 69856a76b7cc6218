use json_parser::parser::Error;
use json_parser::scanner::Scanner;

#[test]
fn peek_never_moves_the_cursor() {
    let mut scanner = Scanner::new("ab");
    assert_eq!(scanner.peek(), Some('a'));
    assert_eq!(scanner.peek(), Some('a'));
    assert_eq!(scanner.expect_single_any(), Ok('a'));
    assert_eq!(scanner.peek(), Some('b'));
    assert_eq!(scanner.expect_single_any(), Ok('b'));
    assert_eq!(scanner.peek(), None);
    assert_eq!(scanner.expect_single_any(), Err(Error::UnexpectedEndOfInput));
}

#[test]
fn pop_buffer_hands_out_consumed_characters() {
    let mut scanner = Scanner::new("abc");
    assert_eq!(scanner.expect_single_any(), Ok('a'));
    assert_eq!(scanner.expect_single_any(), Ok('b'));
    assert_eq!(scanner.pop_buffer(), "ab".to_string());
    assert_eq!(scanner.pop_buffer(), String::new());
    assert_eq!(scanner.expect_single_any(), Ok('c'));
    assert_eq!(scanner.pop_buffer(), "c".to_string());
}

#[test]
fn possible_consumes_only_matching_characters() {
    let mut scanner = Scanner::new("aab");
    assert_eq!(scanner.possible_single("xa"), Ok(()));
    assert_eq!(scanner.possible_many("a"), Ok(()));
    assert_eq!(scanner.pop_buffer(), "aa".to_string());
    assert_eq!(scanner.possible_single("a"), Ok(()));
    assert_eq!(scanner.pop_buffer(), String::new());
    assert_eq!(scanner.possible_many("b"), Ok(()));
    assert_eq!(scanner.pop_buffer(), "b".to_string());
    // absence of input is no failure for the optional consume
    assert_eq!(scanner.possible_single("b"), Ok(()));
    assert_eq!(scanner.peek(), None);
}

#[test]
fn expect_demands_a_matching_character() {
    let mut scanner = Scanner::new("a1");
    assert_eq!(scanner.expect_single("ab"), Ok(()));
    assert_eq!(scanner.expect_single("ab"), Err(Error::LexicalError));
    assert_eq!(scanner.expect_single_characters("0123456789"), Ok(()));
    assert_eq!(scanner.expect_single("x"), Err(Error::UnexpectedEndOfInput));
}

#[test]
fn expect_many_characters_takes_a_whole_run() {
    let mut scanner = Scanner::new("123x");
    assert_eq!(scanner.expect_many_characters("0123456789"), Ok(()));
    assert_eq!(scanner.pop_buffer(), "123".to_string());
    assert_eq!(scanner.expect_many_characters("0123456789"), Err(Error::LexicalError));
}

#[test]
fn possible_many_characters_may_consume_nothing() {
    let mut scanner = Scanner::new("xyz");
    assert_eq!(scanner.possible_many_characters("0123456789"), Ok(()));
    assert_eq!(scanner.pop_buffer(), String::new());
}

#[test]
fn take_string_compares_and_advances() {
    let mut scanner = Scanner::new("truex");
    assert_eq!(scanner.take_string("true"), Ok(()));
    assert_eq!(scanner.peek(), Some('x'));

    let mut scanner = Scanner::new("trXe");
    assert_eq!(scanner.take_string("true"), Err(Error::LexicalError));

    let mut scanner = Scanner::new("tr");
    assert_eq!(scanner.take_string("true"), Err(Error::UnexpectedEndOfInput));
    assert_eq!(scanner.peek(), Some('t'));
}
