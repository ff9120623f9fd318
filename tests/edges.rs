use lexer::classify::{
    is_close_paren, is_letter, is_number, is_open_paren, is_paren, is_quote, is_whitespace,
};
use lexer::scan::lex;
use lexer::token::{LexError, Token};

#[test]
fn empty_input_gives_no_tokens() {
    assert_eq!(lex(String::new()), Ok(vec![]));
}

#[test]
fn mixed_whitespace_gives_no_tokens() {
    assert_eq!(lex(String::from(" \t\n\r\x0C ")), Ok(vec![]));
}

#[test]
fn invalid_characters_are_reported() {
    assert_eq!(lex(String::from("#")), Err(LexError::InvalidCharacter('#')));
    assert_eq!(lex(String::from("$")), Err(LexError::InvalidCharacter('$')));
    assert_eq!(lex(String::from("(a $)")), Err(LexError::InvalidCharacter('$')));
    assert_eq!(lex(String::from("é")), Err(LexError::InvalidCharacter('é')));
}

#[test]
fn vertical_tab_is_not_whitespace() {
    assert_eq!(lex(String::from("\x0B")), Err(LexError::InvalidCharacter('\x0B')));
}

#[test]
fn invalid_character_inside_string_is_kept() {
    let expected = vec![Token::String { value: String::from("#$é") }];
    assert_eq!(lex(String::from("\"#$é\"")), Ok(expected));
}

#[test]
fn largest_number_decodes() {
    let expected = vec![Token::Number { value: i32::MAX }];
    assert_eq!(lex(String::from("2147483647")), Ok(expected));
}

#[test]
fn number_past_i32_overflows() {
    assert_eq!(
        lex(String::from("2147483648")),
        Err(LexError::NumberOverflow(String::from("2147483648")))
    );
    assert_eq!(
        lex(String::from("(x 99999999999999999999)")),
        Err(LexError::NumberOverflow(String::from("99999999999999999999")))
    );
}

#[test]
fn leading_zeros_decode() {
    let expected = vec![Token::Number { value: 7 }, Token::Number { value: 0 }];
    assert_eq!(lex(String::from("007 0")), Ok(expected));
}

#[test]
fn adjacent_runs_split_by_class() {
    let expected = vec![
        Token::Word { value: String::from("ab") },
        Token::Number { value: 12 },
        Token::Word { value: String::from("cd") },
        Token::Paren { value: '(' },
    ];
    assert_eq!(lex(String::from("ab12cd(")), Ok(expected));
}

#[test]
fn empty_and_adjacent_strings() {
    let expected = vec![
        Token::String { value: String::new() },
        Token::String { value: String::from("x y") },
    ];
    assert_eq!(lex(String::from("\"\"\"x y\"")), Ok(expected));
}

#[test]
fn unterminated_string_runs_to_end() {
    let expected = vec![
        Token::Paren { value: '(' },
        Token::String { value: String::from("abc ) 1") },
    ];
    assert_eq!(lex(String::from("(\"abc ) 1")), Ok(expected));
}

#[test]
fn lone_quote_gives_empty_string() {
    assert_eq!(lex(String::from("\"")), Ok(vec![Token::String { value: String::new() }]));
}

#[test]
fn rendered_tokens_lex_back() {
    let tokens = vec![
        Token::Paren { value: '(' },
        Token::Word { value: String::from("define") },
        Token::Number { value: 42 },
        Token::String { value: String::from("hi there, #1") },
        Token::Paren { value: ')' },
    ];
    let rendered = String::from("( define 42 \"hi there, #1\" ) ");
    assert_eq!(lex(rendered), Ok(tokens));
}

#[test]
fn token_order_follows_source() {
    let expected = vec![
        Token::Paren { value: '(' },
        Token::Paren { value: '(' },
        Token::Word { value: String::from("f") },
        Token::Number { value: 3 },
        Token::Paren { value: ')' },
        Token::Word { value: String::from("g") },
        Token::Paren { value: ')' },
    ];
    assert_eq!(lex(String::from("((f 3) g)")), Ok(expected));
}

#[test]
fn character_classes() {
    assert!(is_letter('a') && is_letter('Z') && !is_letter('1') && !is_letter('é'));
    assert!(is_whitespace(' ') && is_whitespace('\t') && is_whitespace('\n'));
    assert!(!is_whitespace('\x0B') && !is_whitespace('a'));
    assert!(is_number('0') && is_number('9') && !is_number('a') && !is_number('²'));
    assert!(is_open_paren('(') && !is_open_paren(')'));
    assert!(is_close_paren(')') && !is_close_paren('('));
    assert!(is_paren('(') && is_paren(')') && !is_paren('['));
    assert!(is_quote('"') && !is_quote('\''));
}
