//! The scanner: a mathematical model of lexing, and `lex`, proved to follow it.
use vstd::prelude::*;
use vstd::std_specs::iter::IteratorSpec;
use crate::classify::{
    digit_char, is_letter, is_number, is_paren, is_quote, is_whitespace, letter_char, paren_char,
    quote_char, whitespace_char,
};
use crate::token::{LexError, LexErrorView, Token, TokenView, lex_result_view, tokens_view};

verus! {

broadcast use vstd::string::group_string_axioms;

/// The three kinds of run that the scanner consumes in one go.
#[derive(Clone, Copy, PartialEq, Eq, Debug)]
pub enum RunKind {
    Digits,
    Letters,
    /// The inside of a string literal: anything but a double quote.
    Quoted,
}

pub open spec fn continues_run(kind: RunKind, c: char) -> bool {
    match kind {
        RunKind::Digits => digit_char(c),
        RunKind::Letters => letter_char(c),
        RunKind::Quoted => !quote_char(c),
    }
}

/// How many characters of `s`, from position `i` on, continue a run of `kind`.
pub open spec fn run_len(s: Seq<char>, i: int, kind: RunKind) -> nat
    decreases s.len() - i,
{
    if 0 <= i < s.len() && continues_run(kind, s[i]) {
        1 + run_len(s, i + 1, kind)
    } else {
        0
    }
}

/// The position where the run of `kind` that starts at `i` ends (never past the end of `s`).
pub open spec fn run_end_from(s: Seq<char>, i: int, kind: RunKind) -> int {
    if i + run_len(s, i, kind) <= s.len() {
        i + run_len(s, i, kind)
    } else {
        s.len() as int
    }
}

pub open spec fn digit_value(c: char) -> int {
    c as int - '0' as int
}

/// The value of a sequence of decimal digits, most significant first.
pub open spec fn decimal_value(d: Seq<char>) -> int
    decreases d.len(),
{
    if d.len() == 0 {
        0
    } else {
        decimal_value(d.drop_last()) * 10 + digit_value(d.last())
    }
}

/// Puts `first` in front of the tokens of `rest`, or passes its error on.
pub open spec fn prepend(first: Seq<TokenView>, rest: Result<Seq<TokenView>, LexErrorView>) -> Result<
    Seq<TokenView>,
    LexErrorView,
> {
    match rest {
        Ok(ts) => Ok(first + ts),
        Err(e) => Err(e),
    }
}

/// The tokens of `s` from position `i` to its end.
pub open spec fn lex_from(s: Seq<char>, i: int) -> Result<Seq<TokenView>, LexErrorView>
    decreases s.len() + 1 - i,
{
    if i < 0 || i >= s.len() {
        Ok(seq![])
    } else {
        let c = s[i];
        if paren_char(c) {
            prepend(seq![TokenView::Paren(c)], lex_from(s, i + 1))
        } else if whitespace_char(c) {
            lex_from(s, i + 1)
        } else if digit_char(c) {
            let end = run_end_from(s, i + 1, RunKind::Digits);
            let digits = s.subrange(i, end);
            if decimal_value(digits) <= i32::MAX {
                prepend(seq![TokenView::Number(decimal_value(digits))], lex_from(s, end))
            } else {
                Err(LexErrorView::NumberOverflow(digits))
            }
        } else if letter_char(c) {
            let end = run_end_from(s, i + 1, RunKind::Letters);
            prepend(seq![TokenView::Word(s.subrange(i, end))], lex_from(s, end))
        } else if quote_char(c) {
            let end = run_end_from(s, i + 1, RunKind::Quoted);
            prepend(seq![TokenView::Str(s.subrange(i + 1, end))], lex_from(s, end + 1))
        } else {
            Err(LexErrorView::InvalidCharacter(c))
        }
    }
}

/// The tokens of a whole source text.
pub open spec fn lex_spec(s: Seq<char>) -> Result<Seq<TokenView>, LexErrorView> {
    lex_from(s, 0)
}

proof fn lemma_run_len_bound(s: Seq<char>, i: int, kind: RunKind)
    requires
        0 <= i <= s.len(),
    ensures
        i + run_len(s, i, kind) <= s.len(),
        forall|k: int| i <= k < i + run_len(s, i, kind) ==> continues_run(kind, #[trigger] s[k]),
        i + run_len(s, i, kind) < s.len() ==> !continues_run(kind, s[i + run_len(s, i, kind)]),
    decreases s.len() - i,
{
    if i < s.len() && continues_run(kind, s[i]) {
        lemma_run_len_bound(s, i + 1, kind);
    }
}

proof fn lemma_decimal_value_nonneg(d: Seq<char>)
    requires
        forall|k: int| 0 <= k < d.len() ==> digit_char(#[trigger] d[k]),
    ensures
        decimal_value(d) >= 0,
    decreases d.len(),
{
    if d.len() > 0 {
        lemma_decimal_value_nonneg(d.drop_last());
    }
}

/// Relies on String::push: appends one character at the end.
#[verifier::external_body]
fn push_char(s: &mut String, c: char)
    ensures
        final(s)@ == old(s)@.push(c),
{
    s.push(c);
}

/// The characters of `chars` from `start` up to `end`, as a `String`.
fn collect_chars(chars: &Vec<char>, start: usize, end: usize) -> (r: String)
    requires
        start <= end <= chars.len(),
    ensures
        r@ == chars@.subrange(start as int, end as int),
{
    let mut r = String::new();
    let mut k: usize = start;
    while k < end
        invariant
            start <= k <= end <= chars.len(),
            r@ == chars@.subrange(start as int, k as int),
        decreases end - k,
    {
        push_char(&mut r, chars[k]);
        assert(chars@.subrange(start as int, k + 1) =~= chars@.subrange(start as int, k as int).push(chars@[k as int]));
        k += 1;
    }
    r
}

/// The end of the run of `kind` that starts at `from`.
fn run_end(chars: &Vec<char>, from: usize, kind: RunKind) -> (r: usize)
    requires
        from <= chars.len(),
    ensures
        r == from + run_len(chars@, from as int, kind),
{
    proof { lemma_run_len_bound(chars@, from as int, kind); }
    let mut k: usize = from;
    while k < chars.len() && continues(chars[k], kind)
        invariant
            from <= k <= chars.len(),
            k <= from + run_len(chars@, from as int, kind),
            run_len(chars@, from as int, kind) == (k - from) + run_len(chars@, k as int, kind),
        decreases chars.len() - k,
    {
        k += 1;
    }
    k
}

fn continues(c: char, kind: RunKind) -> (r: bool)
    ensures
        r == continues_run(kind, c),
{
    match kind {
        RunKind::Digits => is_number(c),
        RunKind::Letters => is_letter(c),
        RunKind::Quoted => !is_quote(c),
    }
}

pub(crate) proof fn lemma_run_end_from(s: Seq<char>, i: int, kind: RunKind)
    requires
        0 <= i <= s.len(),
    ensures
        run_end_from(s, i, kind) == i + run_len(s, i, kind),
        i <= run_end_from(s, i, kind) <= s.len(),
        forall|k: int| i <= k < run_end_from(s, i, kind) ==> continues_run(kind, #[trigger] s[k]),
        run_end_from(s, i, kind) < s.len() ==> !continues_run(kind, s[run_end_from(s, i, kind)]),
{
    lemma_run_len_bound(s, i, kind);
}

proof fn lemma_prepend_assoc(
    a: Seq<TokenView>,
    b: Seq<TokenView>,
    r: Result<Seq<TokenView>, LexErrorView>,
)
    ensures
        prepend(a, prepend(b, r)) == prepend(a + b, r),
{
    if let Ok(ts) = r {
        assert(a + (b + ts) =~= (a + b) + ts);
    }
}

/// The characters of `s`, one element each.
fn to_chars(s: &String) -> (r: Vec<char>)
    ensures
        r@ == s@,
{
    let mut it = s.as_str().chars();
    let mut r: Vec<char> = Vec::new();
    loop
        invariant
            s@ == r@ + IteratorSpec::remaining(&it),
            IteratorSpec::decrease(&it) is Some,
        ensures
            r@ == s@,
        decreases IteratorSpec::decrease(&it)->0,
    {
        match it.next() {
            Some(c) => {
                r.push(c);
            },
            None => {
                assert(r@ + IteratorSpec::remaining(&it) =~= r@);
                break;
            },
        }
    }
    r
}

/// The value of the digits of `chars` from `start` up to `end`, if it fits in an `i32`.
fn decode_number(chars: &Vec<char>, start: usize, end: usize) -> (r: Option<i32>)
    requires
        start <= end <= chars.len(),
        forall|k: int| start <= k < end ==> digit_char(#[trigger] chars@[k]),
    ensures
        match r {
            Some(v) => v as int == decimal_value(chars@.subrange(start as int, end as int)),
            None => decimal_value(chars@.subrange(start as int, end as int)) > i32::MAX,
        },
{
    let mut acc: i64 = 0;
    let mut overflow = false;
    let mut k: usize = start;
    while k < end
        invariant
            start <= k <= end <= chars.len(),
            forall|j: int| start <= j < end ==> digit_char(#[trigger] chars@[j]),
            overflow ==> decimal_value(chars@.subrange(start as int, k as int)) > i32::MAX,
            !overflow ==> acc == decimal_value(chars@.subrange(start as int, k as int)),
            !overflow ==> 0 <= acc <= i32::MAX,
        decreases end - k,
    {
        let c = chars[k];
        let d = (c as u32 - '0' as u32) as i64;
        let ghost prev = chars@.subrange(start as int, k as int);
        proof {
            assert(chars@.subrange(start as int, k + 1).drop_last() =~= prev);
            assert(digit_char(chars@[k as int]));
            lemma_decimal_value_nonneg(prev);
        }
        if !overflow {
            let next = acc * 10 + d;
            if next > i32::MAX as i64 {
                overflow = true;
            } else {
                acc = next;
            }
        }
        k += 1;
    }
    if overflow {
        None
    } else {
        Some(acc as i32)
    }
}

/// Splits `source` into tokens, left to right, dropping whitespace.
pub fn lex(source: String) -> (r: Result<Vec<Token>, LexError>)
    ensures
        lex_result_view(r) == lex_spec(source@),
{
    let chars = to_chars(&source);
    let ghost s = chars@;
    let mut tokens: Vec<Token> = Vec::new();
    let mut cursor: usize = 0;
    proof {
        assert(tokens_view(tokens@) =~= seq![]);
        assert(seq![] + lex_from(s, 0)->Ok_0 =~= lex_from(s, 0)->Ok_0);
    }
    while cursor < chars.len()
        invariant
            chars@ == s,
            s == source@,
            cursor <= s.len(),
            lex_spec(s) == prepend(tokens_view(tokens@), lex_from(s, cursor as int)),
        decreases chars.len() - cursor,
    {
        let c = chars[cursor];
        let ghost before = tokens@;
        let ghost at = cursor as int;
        if is_paren(c) {
            tokens.push(Token::Paren { value: c });
            cursor += 1;
            proof {
                lemma_prepend_assoc(tokens_view(before), seq![TokenView::Paren(c)], lex_from(s, cursor as int));
                assert(tokens_view(tokens@) =~= tokens_view(before) + seq![TokenView::Paren(c)]);
            }
        } else if is_whitespace(c) {
            cursor += 1;
        } else if is_number(c) {
            let end = run_end(&chars, cursor + 1, RunKind::Digits);
            proof {
                lemma_run_end_from(s, at + 1, RunKind::Digits);
            }
            match decode_number(&chars, cursor, end) {
                Some(v) => {
                    tokens.push(Token::Number { value: v });
                    cursor = end;
                    proof {
                        let t = TokenView::Number(v as int);
                        lemma_prepend_assoc(tokens_view(before), seq![t], lex_from(s, cursor as int));
                        assert(tokens_view(tokens@) =~= tokens_view(before) + seq![t]);
                    }
                },
                None => {
                    let digits = collect_chars(&chars, cursor, end);
                    return Err(LexError::NumberOverflow(digits));
                },
            }
        } else if is_letter(c) {
            let end = run_end(&chars, cursor + 1, RunKind::Letters);
            proof {
                lemma_run_end_from(s, at + 1, RunKind::Letters);
            }
            let word = collect_chars(&chars, cursor, end);
            let ghost t = TokenView::Word(word@);
            tokens.push(Token::Word { value: word });
            cursor = end;
            proof {
                lemma_prepend_assoc(tokens_view(before), seq![t], lex_from(s, cursor as int));
                assert(tokens_view(tokens@) =~= tokens_view(before) + seq![t]);
            }
        } else if is_quote(c) {
            let end = run_end(&chars, cursor + 1, RunKind::Quoted);
            proof {
                lemma_run_end_from(s, at + 1, RunKind::Quoted);
            }
            let text = collect_chars(&chars, cursor + 1, end);
            let ghost t = TokenView::Str(text@);
            tokens.push(Token::String { value: text });
            // step over the closing quote, where there is one
            if end < chars.len() {
                cursor = end + 1;
            } else {
                cursor = end;
            }
            proof {
                lemma_prepend_assoc(tokens_view(before), seq![t], lex_from(s, end + 1));
                assert(tokens_view(tokens@) =~= tokens_view(before) + seq![t]);
            }
        } else {
            return Err(LexError::InvalidCharacter(c));
        }
    }
    proof {
        assert(tokens_view(tokens@) + seq![] =~= tokens_view(tokens@));
    }
    Ok(tokens)
}

} // verus!
