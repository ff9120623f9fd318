//! Tokens, lexing errors, and their mathematical views.
use vstd::prelude::*;

verus! {

/// One lexical unit.
#[derive(Debug, PartialEq, Eq)]
pub enum Token {
    /// `(` or `)`.
    Paren { value: char },
    /// The decimal value of a maximal run of digits.
    Number { value: i32 },
    /// A maximal run of ASCII letters.
    Word { value: String },
    /// The text between two double quotes, without the quotes.
    String { value: String },
}

/// Why a source text could not be lexed.
#[derive(Debug, PartialEq, Eq)]
pub enum LexError {
    /// A character outside every class, met outside a string literal.
    InvalidCharacter(char),
    /// A run of digits whose value does not fit in an `i32`; holds the digits.
    NumberOverflow(String),
}

/// What a token means: its kind and its payload as plain values.
pub ghost enum TokenView {
    Paren(char),
    Number(int),
    Word(Seq<char>),
    Str(Seq<char>),
}

pub ghost enum LexErrorView {
    InvalidCharacter(char),
    NumberOverflow(Seq<char>),
}

impl View for Token {
    type V = TokenView;

    open spec fn view(&self) -> TokenView {
        match self {
            Token::Paren { value } => TokenView::Paren(*value),
            Token::Number { value } => TokenView::Number(*value as int),
            Token::Word { value } => TokenView::Word(value@),
            Token::String { value } => TokenView::Str(value@),
        }
    }
}

impl View for LexError {
    type V = LexErrorView;

    open spec fn view(&self) -> LexErrorView {
        match self {
            LexError::InvalidCharacter(c) => LexErrorView::InvalidCharacter(*c),
            LexError::NumberOverflow(d) => LexErrorView::NumberOverflow(d@),
        }
    }
}

pub open spec fn tokens_view(ts: Seq<Token>) -> Seq<TokenView> {
    ts.map_values(|t: Token| t@)
}

pub open spec fn lex_result_view(r: Result<Vec<Token>, LexError>) -> Result<
    Seq<TokenView>,
    LexErrorView,
> {
    match r {
        Ok(ts) => Ok(tokens_view(ts@)),
        Err(e) => Err(e@),
    }
}

} // verus!
