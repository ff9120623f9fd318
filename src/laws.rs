//! General properties of lexing, stated over the model in `scan` and proved.
use vstd::prelude::*;
use crate::classify::{
    digit_char, letter_char, lexable_char, paren_char, quote_char, whitespace_char,
};
use crate::scan::{
    RunKind, continues_run, decimal_value, digit_value, lemma_run_end_from, lex_from, lex_spec,
    prepend, run_end_from, run_len,
};
use crate::token::{LexErrorView, TokenView};

verus! {

/// The digit character for `d` in `0..10`.
pub open spec fn digit_of(d: int) -> char {
    seq!['0', '1', '2', '3', '4', '5', '6', '7', '8', '9'][d]
}

/// The decimal digits of `n`, most significant first, with no leading zero.
pub open spec fn decimal_digits(n: nat) -> Seq<char>
    decreases n,
{
    if n < 10 {
        seq![digit_of(n as int)]
    } else {
        decimal_digits(n / 10).push(digit_of((n % 10) as int))
    }
}

/// The text of one token: parens and words as they are, numbers in decimal, strings in quotes.
pub open spec fn render_token(t: TokenView) -> Seq<char> {
    match t {
        TokenView::Paren(c) => seq![c],
        TokenView::Number(n) => decimal_digits(n as nat),
        TokenView::Word(w) => w,
        TokenView::Str(v) => seq!['"'] + v + seq!['"'],
    }
}

/// The text of a token sequence, each token followed by one space.
pub open spec fn render(ts: Seq<TokenView>) -> Seq<char>
    decreases ts.len(),
{
    if ts.len() == 0 {
        seq![]
    } else {
        render_token(ts[0]) + seq![' '] + render(ts.drop_first())
    }
}

/// A token that lexing can produce.
pub open spec fn well_formed_token(t: TokenView) -> bool {
    match t {
        TokenView::Paren(c) => paren_char(c),
        TokenView::Number(n) => 0 <= n <= i32::MAX,
        TokenView::Word(w) => w.len() > 0 && forall|k: int| 0 <= k < w.len() ==> letter_char(#[trigger] w[k]),
        TokenView::Str(v) => forall|k: int| 0 <= k < v.len() ==> !quote_char(#[trigger] v[k]),
    }
}

proof fn lemma_whitespace_from(s: Seq<char>, i: int)
    requires
        0 <= i <= s.len(),
        forall|k: int| 0 <= k < s.len() ==> whitespace_char(#[trigger] s[k]),
    ensures
        lex_from(s, i) == Ok::<Seq<TokenView>, LexErrorView>(seq![]),
    decreases s.len() - i,
{
    if i < s.len() {
        assert(whitespace_char(s[i]));
        lemma_whitespace_from(s, i + 1);
    }
}

/// Text made of whitespace alone, the empty text included, lexes to no tokens.
pub proof fn whitespace_lexes_to_nothing(s: Seq<char>)
    requires
        forall|k: int| 0 <= k < s.len() ==> whitespace_char(#[trigger] s[k]),
    ensures
        lex_spec(s) == Ok::<Seq<TokenView>, LexErrorView>(seq![]),
{
    lemma_whitespace_from(s, 0);
}

proof fn lemma_fails_from(s: Seq<char>, i: int, k: int)
    requires
        0 <= i <= k < s.len(),
        !lexable_char(s[k]),
        forall|j: int| i <= j < k ==> lexable_char(#[trigger] s[j]) && !quote_char(s[j]),
    ensures
        lex_from(s, i) is Err,
        (forall|j: int| i <= j < k ==> !digit_char(#[trigger] s[j])) ==> lex_from(s, i)
            == Err::<Seq<TokenView>, LexErrorView>(LexErrorView::InvalidCharacter(s[k])),
    decreases k - i,
{
    if i < k {
        let c = s[i];
        assert(lexable_char(c) && !quote_char(c));
        if paren_char(c) || whitespace_char(c) {
            lemma_fails_from(s, i + 1, k);
        } else if digit_char(c) {
            lemma_run_end_from(s, i + 1, RunKind::Digits);
            let e = run_end_from(s, i + 1, RunKind::Digits);
            if e > k {
                assert(continues_run(RunKind::Digits, s[k]));
            }
            lemma_fails_from(s, e, k);
        } else {
            lemma_run_end_from(s, i + 1, RunKind::Letters);
            let e = run_end_from(s, i + 1, RunKind::Letters);
            if e > k {
                assert(continues_run(RunKind::Letters, s[k]));
            }
            lemma_fails_from(s, e, k);
        }
    }
}

/// A character outside every class fails lexing when no double quote comes before it (so it
/// is not inside a string literal). Where it is the first such character and no digit comes
/// before it (so no number can overflow first), the error names that character.
pub proof fn invalid_character_fails(s: Seq<char>, k: int)
    requires
        0 <= k < s.len(),
        !lexable_char(s[k]),
        forall|j: int| 0 <= j < k ==> !quote_char(#[trigger] s[j]),
    ensures
        lex_spec(s) is Err,
        (forall|j: int| 0 <= j < k ==> lexable_char(#[trigger] s[j]) && !digit_char(s[j]))
            ==> lex_spec(s) == Err::<Seq<TokenView>, LexErrorView>(
            LexErrorView::InvalidCharacter(s[k]),
        ),
{
    // the first character outside every class decides
    let first = choose_first_invalid(s, k);
    lemma_fails_from(s, 0, first);
    if forall|j: int| 0 <= j < k ==> lexable_char(#[trigger] s[j]) && !digit_char(s[j]) {
        assert(first == k);
    }
}

/// The smallest position at or before `k` that holds a character outside every class.
proof fn choose_first_invalid(s: Seq<char>, k: int) -> (first: int)
    requires
        0 <= k < s.len(),
        !lexable_char(s[k]),
    ensures
        0 <= first <= k,
        !lexable_char(s[first]),
        forall|j: int| 0 <= j < first ==> lexable_char(#[trigger] s[j]),
        (forall|j: int| 0 <= j < k ==> lexable_char(#[trigger] s[j])) ==> first == k,
    decreases k,
{
    if exists|j: int| 0 <= j < k && !lexable_char(#[trigger] s[j]) {
        let j = choose|j: int| 0 <= j < k && !lexable_char(#[trigger] s[j]);
        choose_first_invalid(s, j)
    } else {
        k
    }
}

proof fn lemma_run_len_shift(p: Seq<char>, q: Seq<char>, i: int, kind: RunKind)
    requires
        0 <= i,
    ensures
        run_len(p + q, p.len() + i, kind) == run_len(q, i, kind),
    decreases q.len() - i,
{
    if i < q.len() {
        assert((p + q)[p.len() + i] == q[i]);
        lemma_run_len_shift(p, q, i + 1, kind);
    }
}

/// Lexing from a position depends only on the text from there on.
proof fn lemma_lex_from_shift(p: Seq<char>, q: Seq<char>, i: int)
    requires
        0 <= i,
    ensures
        lex_from(p + q, p.len() + i) == lex_from(q, i),
    decreases q.len() + 1 - i,
{
    let s = p + q;
    let n = p.len() as int;
    if i < q.len() {
        let c = q[i];
        assert(s[n + i] == c);
        if paren_char(c) || whitespace_char(c) {
            lemma_lex_from_shift(p, q, i + 1);
        } else if digit_char(c) || letter_char(c) || quote_char(c) {
            let kind = if digit_char(c) {
                RunKind::Digits
            } else if letter_char(c) {
                RunKind::Letters
            } else {
                RunKind::Quoted
            };
            lemma_run_len_shift(p, q, i + 1, kind);
            lemma_run_end_from(q, i + 1, kind);
            lemma_run_end_from(s, n + i + 1, kind);
            let e = run_end_from(q, i + 1, kind);
            assert(run_end_from(s, n + i + 1, kind) == n + e);
            assert(s.subrange(n + i, n + e) =~= q.subrange(i, e));
            assert(s.subrange(n + i + 1, n + e) =~= q.subrange(i + 1, e));
            lemma_lex_from_shift(p, q, e);
            lemma_lex_from_shift(p, q, e + 1);
        }
    }
}

/// A run of `kind` that covers `i..j` and stops at `j` has length `j - i`.
proof fn lemma_run_len_exact(s: Seq<char>, i: int, j: int, kind: RunKind)
    requires
        0 <= i <= j <= s.len(),
        forall|k: int| i <= k < j ==> continues_run(kind, #[trigger] s[k]),
        j < s.len() ==> !continues_run(kind, s[j]),
    ensures
        run_len(s, i, kind) == j - i,
    decreases j - i,
{
    if i < j {
        assert(continues_run(kind, s[i]));
        lemma_run_len_exact(s, i + 1, j, kind);
    }
}

proof fn lemma_digit_of(d: int)
    requires
        0 <= d < 10,
    ensures
        digit_char(digit_of(d)),
        digit_value(digit_of(d)) == d,
{
    let ds = seq!['0', '1', '2', '3', '4', '5', '6', '7', '8', '9'];
    assert(ds[0] == '0' && ds[1] == '1' && ds[2] == '2' && ds[3] == '3' && ds[4] == '4');
    assert(ds[5] == '5' && ds[6] == '6' && ds[7] == '7' && ds[8] == '8' && ds[9] == '9');
}

proof fn lemma_decimal_digits(n: nat)
    ensures
        decimal_digits(n).len() > 0,
        forall|k: int| 0 <= k < decimal_digits(n).len() ==> digit_char(#[trigger] decimal_digits(n)[k]),
        decimal_value(decimal_digits(n)) == n,
    decreases n,
{
    if n < 10 {
        lemma_digit_of(n as int);
        assert(decimal_digits(n).drop_last() =~= seq![]);
        assert(decimal_digits(n).last() == digit_of(n as int));
        assert(decimal_value(decimal_digits(n).drop_last()) == 0);
    } else {
        lemma_decimal_digits(n / 10);
        lemma_digit_of((n % 10) as int);
        let d = decimal_digits(n);
        assert(d.drop_last() =~= decimal_digits(n / 10));
        assert(d.last() == digit_of((n % 10) as int));
        assert((n / 10) * 10 + n % 10 == n);
        assert(decimal_value(d) == decimal_value(d.drop_last()) * 10 + digit_value(d.last()));
        assert forall|k: int| 0 <= k < d.len() implies digit_char(#[trigger] d[k]) by {
            if k < d.len() - 1 {
                assert(d[k] == decimal_digits(n / 10)[k]);
            }
        }
    }
}

/// Lexing a token's text followed by a space gives that token, then the tokens of what follows.
proof fn lemma_lex_rendered_head(t: TokenView, rest: Seq<char>)
    requires
        well_formed_token(t),
    ensures
        lex_spec(render_token(t) + seq![' '] + rest) == prepend(seq![t], lex_spec(rest)),
{
    let head = render_token(t) + seq![' '];
    let s = head + rest;
    let m = render_token(t).len() as int;
    assert(render_token(t) + seq![' '] + rest == s);
    assert(s[m] == ' ');
    lemma_lex_from_shift(head, rest, 0);
    assert(lex_from(s, m + 1) == lex_spec(rest));
    assert(lex_from(s, m) == lex_from(s, m + 1));
    match t {
        TokenView::Paren(c) => {
            assert(s[0] == c);
        },
        TokenView::Number(n) => {
            let d = decimal_digits(n as nat);
            lemma_decimal_digits(n as nat);
            assert(s[0] == d[0]);
            assert forall|k: int| 1 <= k < m implies continues_run(RunKind::Digits, #[trigger] s[k]) by {
                assert(s[k] == d[k]);
            }
            lemma_run_len_exact(s, 1, m, RunKind::Digits);
            assert(s.subrange(0, m) =~= d);
        },
        TokenView::Word(w) => {
            assert(s[0] == w[0]);
            assert forall|k: int| 1 <= k < m implies continues_run(RunKind::Letters, #[trigger] s[k]) by {
                assert(s[k] == w[k]);
            }
            lemma_run_len_exact(s, 1, m, RunKind::Letters);
            assert(s.subrange(0, m) =~= w);
        },
        TokenView::Str(v) => {
            assert(s[0] == '"');
            assert(s[m - 1] == '"');
            assert forall|k: int| 1 <= k < m - 1 implies continues_run(RunKind::Quoted, #[trigger] s[k]) by {
                assert(s[k] == v[k - 1]);
            }
            lemma_run_len_exact(s, 1, m - 1, RunKind::Quoted);
            assert(s.subrange(1, m - 1) =~= v);
        },
    }
}

/// Rendering tokens that lexing can produce, each followed by a space, and lexing that text
/// gives the same tokens back.
pub proof fn lex_render_round_trip(ts: Seq<TokenView>)
    requires
        forall|k: int| 0 <= k < ts.len() ==> well_formed_token(#[trigger] ts[k]),
    ensures
        lex_spec(render(ts)) == Ok::<Seq<TokenView>, LexErrorView>(ts),
    decreases ts.len(),
{
    if ts.len() == 0 {
        assert(ts =~= seq![]);
    } else {
        let rest = ts.drop_first();
        assert forall|k: int| 0 <= k < rest.len() implies well_formed_token(#[trigger] rest[k]) by {
            assert(rest[k] == ts[k + 1]);
        }
        lex_render_round_trip(rest);
        assert(well_formed_token(ts[0]));
        lemma_lex_rendered_head(ts[0], render(rest));
        assert(seq![ts[0]] + rest =~= ts);
    }
}

/// The characters of `s` from `i` on that are neither whitespace nor part of a string literal
/// (quotes included); `in_string` says whether position `i` lies inside one.
pub open spec fn bare_text(s: Seq<char>, i: int, in_string: bool) -> Seq<char>
    decreases s.len() - i,
{
    if i < 0 || i >= s.len() {
        seq![]
    } else if quote_char(s[i]) {
        bare_text(s, i + 1, !in_string)
    } else if in_string || whitespace_char(s[i]) {
        bare_text(s, i + 1, in_string)
    } else {
        seq![s[i]] + bare_text(s, i + 1, false)
    }
}

/// Whether, from `i` on and outside string literals, some run of digits starts with a zero
/// and has more digits after it.
pub open spec fn zero_padded_from(s: Seq<char>, i: int, in_string: bool) -> bool
    decreases s.len() - i,
{
    if i < 0 || i >= s.len() {
        false
    } else if quote_char(s[i]) {
        zero_padded_from(s, i + 1, !in_string)
    } else if !in_string && s[i] == '0' && i + 1 < s.len() && digit_char(s[i + 1]) && (i == 0
        || !digit_char(s[i - 1])) {
        true
    } else {
        zero_padded_from(s, i + 1, in_string)
    }
}

/// The text of the tokens that are not string literals, one after the other.
pub open spec fn bare_tokens_text(ts: Seq<TokenView>) -> Seq<char>
    decreases ts.len(),
{
    if ts.len() == 0 {
        seq![]
    } else {
        let piece = match ts[0] {
            TokenView::Str(_) => seq![],
            t => render_token(t),
        };
        piece + bare_tokens_text(ts.drop_first())
    }
}

proof fn lemma_bare_tokens_prepend(t: TokenView, r: Seq<TokenView>)
    ensures
        bare_tokens_text(seq![t] + r) == (if t is Str {
            seq![]
        } else {
            render_token(t)
        }) + bare_tokens_text(r),
{
    assert((seq![t] + r)[0] == t);
    assert((seq![t] + r).drop_first() =~= r);
}

/// Outside string literals, a run of characters that are neither quotes nor whitespace is
/// kept as it is.
proof fn lemma_bare_run(s: Seq<char>, i: int, e: int)
    requires
        0 <= i <= e <= s.len(),
        forall|k: int| i <= k < e ==> !quote_char(#[trigger] s[k]) && !whitespace_char(s[k]),
    ensures
        bare_text(s, i, false) == s.subrange(i, e) + bare_text(s, e, false),
        !zero_padded_from(s, i, false) ==> !zero_padded_from(s, e, false),
    decreases e - i,
{
    if i < e {
        assert(!quote_char(s[i]) && !whitespace_char(s[i]));
        lemma_bare_run(s, i + 1, e);
        assert(s.subrange(i, e) =~= seq![s[i]] + s.subrange(i + 1, e));
    } else {
        assert(s.subrange(i, e) =~= seq![]);
    }
}

/// Inside a string literal, characters up to the next quote are dropped.
proof fn lemma_bare_skip(s: Seq<char>, i: int, e: int)
    requires
        0 <= i <= e <= s.len(),
        forall|k: int| i <= k < e ==> !quote_char(#[trigger] s[k]),
    ensures
        bare_text(s, i, true) == bare_text(s, e, true),
        zero_padded_from(s, i, true) == zero_padded_from(s, e, true),
    decreases e - i,
{
    if i < e {
        assert(!quote_char(s[i]));
        lemma_bare_skip(s, i + 1, e);
    }
}

proof fn lemma_decimal_value_positive(d: Seq<char>)
    requires
        d.len() > 0,
        forall|k: int| 0 <= k < d.len() ==> digit_char(#[trigger] d[k]),
        d[0] != '0',
    ensures
        decimal_value(d) >= 1,
        d.len() > 1 ==> decimal_value(d) >= 10,
    decreases d.len(),
{
    if d.len() > 1 {
        let a = d.drop_last();
        assert(a[0] == d[0]);
        lemma_decimal_value_positive(a);
        assert(digit_char(d.last()));
    } else {
        assert(d.drop_last() =~= seq![]);
        assert(decimal_value(d.drop_last()) == 0);
    }
}

/// A run of digits without a leading zero is the decimal text of its value.
proof fn lemma_decimal_digits_of_value(d: Seq<char>)
    requires
        d.len() > 0,
        forall|k: int| 0 <= k < d.len() ==> digit_char(#[trigger] d[k]),
        d[0] != '0' || d.len() == 1,
    ensures
        decimal_value(d) >= 0,
        decimal_digits(decimal_value(d) as nat) == d,
    decreases d.len(),
{
    let b = digit_value(d.last());
    assert(digit_char(d.last()));
    lemma_digit_of(b);
    if d.len() == 1 {
        assert(d.drop_last() =~= seq![]);
        assert(decimal_value(d.drop_last()) == 0);
        assert(decimal_digits(b as nat) =~= d);
    } else {
        let a = d.drop_last();
        assert(a[0] == d[0]);
        lemma_decimal_value_positive(d);
        lemma_decimal_value_positive(a);
        lemma_decimal_digits_of_value(a);
        let n = decimal_value(d);
        assert(n == decimal_value(a) * 10 + b);
        assert(n / 10 == decimal_value(a) && n % 10 == b);
        assert(decimal_digits(n as nat) =~= a.push(d.last()));
        assert(a.push(d.last()) =~= d);
    }
}

proof fn lemma_bare_from(s: Seq<char>, i: int)
    requires
        0 <= i,
        lex_from(s, i) is Ok,
        !zero_padded_from(s, i, false),
        0 < i < s.len() && digit_char(s[i]) ==> !digit_char(s[i - 1]),
    ensures
        bare_text(s, i, false) == bare_tokens_text(lex_from(s, i)->Ok_0),
    decreases s.len() + 1 - i,
{
    if i < s.len() {
        let c = s[i];
        if paren_char(c) {
            lemma_bare_from(s, i + 1);
            lemma_bare_tokens_prepend(TokenView::Paren(c), lex_from(s, i + 1)->Ok_0);
        } else if whitespace_char(c) {
            lemma_bare_from(s, i + 1);
        } else if digit_char(c) || letter_char(c) {
            let kind = if digit_char(c) {
                RunKind::Digits
            } else {
                RunKind::Letters
            };
            lemma_run_end_from(s, i + 1, kind);
            let e = run_end_from(s, i + 1, kind);
            assert forall|k: int| i <= k < e implies !quote_char(#[trigger] s[k])
                && !whitespace_char(s[k]) by {
                if k > i {
                    assert(continues_run(kind, s[k]));
                }
            }
            lemma_bare_run(s, i, e);
            let text = s.subrange(i, e);
            let t = if digit_char(c) {
                TokenView::Number(decimal_value(text))
            } else {
                TokenView::Word(text)
            };
            if digit_char(c) {
                assert forall|k: int| 0 <= k < text.len() implies digit_char(#[trigger] text[k]) by {
                    if k > 0 {
                        assert(continues_run(kind, s[i + k]));
                    }
                }
                if e > i + 1 {
                    assert(continues_run(kind, s[i + 1]));
                }
                lemma_decimal_digits_of_value(text);
            }
            assert(render_token(t) == text);
            lemma_bare_from(s, e);
            lemma_bare_tokens_prepend(t, lex_from(s, e)->Ok_0);
        } else if quote_char(c) {
            lemma_run_end_from(s, i + 1, RunKind::Quoted);
            let e = run_end_from(s, i + 1, RunKind::Quoted);
            assert forall|k: int| i + 1 <= k < e implies !quote_char(#[trigger] s[k]) by {
                assert(continues_run(RunKind::Quoted, s[k]));
            }
            lemma_bare_skip(s, i + 1, e);
            lemma_bare_from(s, e + 1);
            lemma_bare_tokens_prepend(TokenView::Str(s.subrange(i + 1, e)), lex_from(s, e + 1)->Ok_0);
        }
    }
}

/// Tokens keep the order of the source: when lexing succeeds, the text outside string literals
/// with whitespace removed is the text of the tokens that are not string literals, in order.
/// Numbers written with leading zeros are left out, since a number's text has none.
pub proof fn tokens_follow_source_order(s: Seq<char>)
    requires
        lex_spec(s) is Ok,
        !zero_padded_from(s, 0, false),
    ensures
        bare_text(s, 0, false) == bare_tokens_text(lex_spec(s)->Ok_0),
{
    lemma_bare_from(s, 0);
}

} // verus!
