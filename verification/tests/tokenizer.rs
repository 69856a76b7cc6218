use json_parser::parser::Error;
use json_parser::tokenizer::{Token, Tokenizer};

fn collect_tokens(json: &str) -> Vec<Token> {
    let mut tokenizer = Tokenizer::new(json);
    let mut symbols: Vec<Token> = Vec::new();
    loop {
        match tokenizer.next_token() {
            Ok(token) => symbols.push(token),
            Err(e) => {
                assert_eq!(e, Error::UnexpectedEndOfInput);
                break;
            }
        }
    }
    symbols
}

#[test]
fn parses_complex() {
    let json = "
        {
            \"true\": true,
            \"false\": false,
        }";
    let symbols = collect_tokens(json);
    let expected_symbols = vec![
        Token::ObjectOpen,
        Token::String("true".to_string()),
        Token::Colon,
        Token::True,
        Token::Comma,
        Token::String("false".to_string()),
        Token::Colon,
        Token::False,
        Token::Comma,
        Token::ObjectClose,
    ];

    assert_eq!(symbols, expected_symbols)
}

#[test]
fn tokenizes_every_kind() {
    let symbols = collect_tokens(" [ ] { } : , null true false \"a\\tb\" -12.5e+3 ");
    let expected_symbols = vec![
        Token::ArrayOpen,
        Token::ArrayClose,
        Token::ObjectOpen,
        Token::ObjectClose,
        Token::Colon,
        Token::Comma,
        Token::Null,
        Token::True,
        Token::False,
        Token::String("a\tb".to_string()),
        Token::Number("-12.5e+3".to_string()),
    ];
    assert_eq!(symbols, expected_symbols);
}

#[test]
fn number_tokens_keep_the_raw_text() {
    assert_eq!(
        collect_tokens("100.20"),
        vec![Token::Number("100.20".to_string())]
    );
}

#[test]
fn lexical_errors_are_reported() {
    let mut tokenizer = Tokenizer::new("tru");
    assert_eq!(tokenizer.next_token(), Err(Error::LexicalError));
    let mut tokenizer = Tokenizer::new("\"open");
    assert_eq!(tokenizer.next_token(), Err(Error::LexicalError));
    let mut tokenizer = Tokenizer::new("%");
    assert_eq!(tokenizer.next_token(), Err(Error::LexicalError));
    let mut tokenizer = Tokenizer::new("   ");
    assert_eq!(tokenizer.next_token(), Err(Error::UnexpectedEndOfInput));
}

#[test]
fn next_symbol_checks_the_expected_text() {
    let mut tokenizer = Tokenizer::new("yes");
    assert_eq!(tokenizer.next_symbol("yes", 7u32), Ok(7u32));
    let mut tokenizer = Tokenizer::new("yes");
    assert_eq!(tokenizer.next_symbol("yet", 7u32), Err(Error::LexicalError));
    let mut tokenizer = Tokenizer::new("ye");
    assert_eq!(
        tokenizer.next_symbol("yes", 7u32),
        Err(Error::UnexpectedEndOfInput)
    );
}
