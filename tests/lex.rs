use lexer::scan::lex;
use lexer::token::Token;

#[test]
fn lex_parens() {
    let input = String::from("()");
    let result = vec![Token::Paren { value: '(' }, Token::Paren { value: ')' }];

    assert_eq!(lex(input), Ok(result));
}

#[test]
fn ignores_whitespace() {
    let input = String::from("                      ");
    let result = vec![];

    assert_eq!(lex(input), Ok(result));
}

#[test]
fn lex_single_digit() {
    let input = String::from("2");
    let result = vec![Token::Number { value: 2_i32 }];

    assert_eq!(lex(input), Ok(result));
}

#[test]
fn lex_multi_digit() {
    let input = String::from("234");
    let result = vec![Token::Number { value: 234_i32 }];

    assert_eq!(lex(input), Ok(result));
}

#[test]
fn lex_single_digit_expression() {
    let input = String::from("(1 2)");
    let result = vec![
        Token::Paren { value: '(' },
        Token::Number { value: 1_i32 },
        Token::Number { value: 2_i32 },
        Token::Paren { value: ')' },
    ];

    assert_eq!(lex(input), Ok(result));
}

#[test]
fn lex_single_letter() {
    let input = String::from("a");
    let result = vec![Token::Word { value: String::from("a") }];

    assert_eq!(lex(input), Ok(result));
}

#[test]
fn lex_multi_letter() {
    let input = String::from("abc");
    let result = vec![Token::Word { value: String::from("abc") }];

    assert_eq!(lex(input), Ok(result));
}

#[test]
fn lex_single_letter_expression() {
    let input = String::from("(a b)");
    let result = vec![
        Token::Paren { value: '(' },
        Token::Word { value: String::from("a") },
        Token::Word { value: String::from("b") },
        Token::Paren { value: ')' },
    ];

    assert_eq!(lex(input), Ok(result));
}

#[test]
fn lex_string() {
    let input = String::from("\"Hello, world!\"");
    let result = vec![Token::String { value: String::from("Hello, world!") }];

    assert_eq!(lex(input), Ok(result));
}
