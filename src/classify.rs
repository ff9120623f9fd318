//! Character classes that drive the scanner.
use vstd::prelude::*;

verus! {

/// An ASCII letter, `A`-`Z` or `a`-`z`.
pub open spec fn letter_char(c: char) -> bool {
    ('A' <= c && c <= 'Z') || ('a' <= c && c <= 'z')
}

/// ASCII whitespace: space, tab, line feed, form feed, carriage return.
pub open spec fn whitespace_char(c: char) -> bool {
    c == ' ' || c == '\t' || c == '\n' || c == '\x0C' || c == '\r'
}

/// An ASCII decimal digit, `0`-`9`.
pub open spec fn digit_char(c: char) -> bool {
    '0' <= c && c <= '9'
}

pub open spec fn open_paren_char(c: char) -> bool {
    c == '('
}

pub open spec fn close_paren_char(c: char) -> bool {
    c == ')'
}

pub open spec fn paren_char(c: char) -> bool {
    open_paren_char(c) || close_paren_char(c)
}

pub open spec fn quote_char(c: char) -> bool {
    c == '"'
}

/// A character that may stand outside a string literal.
pub open spec fn lexable_char(c: char) -> bool {
    paren_char(c) || whitespace_char(c) || digit_char(c) || letter_char(c) || quote_char(c)
}

pub fn is_letter(character: char) -> (r: bool)
    ensures
        r == letter_char(character),
{
    ('A' <= character && character <= 'Z') || ('a' <= character && character <= 'z')
}

pub fn is_whitespace(character: char) -> (r: bool)
    ensures
        r == whitespace_char(character),
{
    character == ' ' || character == '\t' || character == '\n' || character == '\x0C'
        || character == '\r'
}

pub fn is_number(character: char) -> (r: bool)
    ensures
        r == digit_char(character),
{
    '0' <= character && character <= '9'
}

pub fn is_open_paren(character: char) -> (r: bool)
    ensures
        r == open_paren_char(character),
{
    character == '('
}

pub fn is_close_paren(character: char) -> (r: bool)
    ensures
        r == close_paren_char(character),
{
    character == ')'
}

pub fn is_paren(character: char) -> (r: bool)
    ensures
        r == paren_char(character),
{
    is_open_paren(character) || is_close_paren(character)
}

pub fn is_quote(character: char) -> (r: bool)
    ensures
        r == quote_char(character),
{
    character == '"'
}

} // verus!
