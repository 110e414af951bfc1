//! Rendering a token sequence back to text, with one parenthesis pair.
//!
//! Tokens are printed in their literal form (`Number` as a decimal string,
//! `Plus` as `+`, `Mul` as `*`), separated by single spaces; `(` sits
//! immediately before the token at `start` and `)` immediately after the
//! token at `end`.

use vstd::prelude::*;
use crate::token::Token;

verus! {

/// The decimal digit character for `d` (0 through 9).
pub open spec fn digit_char(d: int) -> char {
    seq!['0', '1', '2', '3', '4', '5', '6', '7', '8', '9'][d]
}

/// Decimal text of a non-negative value, most significant digit first.
pub open spec fn nat_chars(n: int) -> Seq<char>
    decreases n,
{
    if n < 10 {
        seq![digit_char(n)]
    } else {
        nat_chars(n / 10).push(digit_char(n % 10))
    }
}

/// Decimal text of a signed value: a leading `-` for negatives.
pub open spec fn int_chars(v: int) -> Seq<char> {
    if v < 0 {
        seq!['-'] + nat_chars(-v)
    } else {
        nat_chars(v)
    }
}

/// The literal text of one token.
pub open spec fn token_text(t: Token) -> Seq<char> {
    match t {
        Token::Number(n) => int_chars(n as int),
        Token::Plus => seq!['+'],
        Token::Mul => seq!['*'],
    }
}

/// Token `i` as printed: its literal, wrapped by `(` when `i == start` and
/// by `)` when `i == end`.
pub open spec fn piece_text(s: Seq<Token>, start: int, end: int, i: int) -> Seq<char> {
    (if i == start {
        seq!['(']
    } else {
        Seq::empty()
    }) + token_text(s[i]) + (if i == end {
        seq![')']
    } else {
        Seq::empty()
    })
}

/// The rendered tail of `s` from position `i` on: each piece preceded by a
/// single space, except the very first token of the sequence.
pub open spec fn rendered_from(s: Seq<Token>, start: int, end: int, i: int) -> Seq<char>
    decreases s.len() - i,
{
    if 0 <= i < s.len() {
        (if i > 0 {
            seq![' ']
        } else {
            Seq::empty()
        }) + piece_text(s, start, end, i) + rendered_from(s, start, end, i + 1)
    } else {
        Seq::empty()
    }
}

/// The canonical text of `s` with one parenthesis pair around `[start, end]`.
pub open spec fn rendered(s: Seq<Token>, start: int, end: int) -> Seq<char> {
    rendered_from(s, start, end, 0)
}

/// Relies on `String::push`: appends exactly the given character at the end.
#[verifier::external_body]
fn push_char(out: &mut String, c: char)
    ensures
        final(out)@ == old(out)@.push(c),
{
    out.push(c)
}

/// The decimal digit character for `d`.
fn digit_char_of(d: u64) -> (c: char)
    requires
        d < 10,
    ensures
        c == digit_char(d as int),
{
    match d {
        0 => '0',
        1 => '1',
        2 => '2',
        3 => '3',
        4 => '4',
        5 => '5',
        6 => '6',
        7 => '7',
        8 => '8',
        _ => '9',
    }
}

/// Append the decimal text of `n`.
fn push_nat_chars(out: &mut String, n: u64)
    ensures
        final(out)@ == old(out)@ + nat_chars(n as int),
    decreases n,
{
    if n < 10 {
        push_char(out, digit_char_of(n));
        assert(final(out)@ =~= old(out)@ + nat_chars(n as int));
    } else {
        push_nat_chars(out, n / 10);
        push_char(out, digit_char_of(n % 10));
        assert(final(out)@ =~= old(out)@ + nat_chars(n as int));
    }
}

/// Append the decimal text of `v`, with a `-` sign for negatives.
fn push_int_chars(out: &mut String, v: i64)
    ensures
        final(out)@ == old(out)@ + int_chars(v as int),
{
    if v >= 0 {
        push_nat_chars(out, v as u64);
    } else {
        push_char(out, '-');
        let mag: u64 = (-(v as i128)) as u64;
        push_nat_chars(out, mag);
        assert(final(out)@ =~= old(out)@ + int_chars(v as int));
    }
}

/// Reconstruct the whole expression as text with `(` immediately before the
/// token at `start` and `)` immediately after the token at `end`, tokens
/// separated by single spaces.
pub fn insert_parentheses(tokens: &Vec<Token>, start: usize, end: usize) -> (r: String)
    requires
        start <= end < tokens@.len(),
    ensures
        r@ == rendered(tokens@, start as int, end as int),
{
    let ghost s = tokens@;
    let ghost a = start as int;
    let ghost b = end as int;
    let n = tokens.len();
    let mut out = String::new();
    let mut i: usize = 0;
    while i < n
        invariant
            i <= n,
            rendered(s, a, b) == out@ + rendered_from(s, a, b, i as int),
        decreases n - i,
    {
        let ghost before = out@;
        if i > 0 {
            push_char(&mut out, ' ');
        }
        if i == start {
            push_char(&mut out, '(');
        }
        match tokens[i] {
            Token::Number(v) => push_int_chars(&mut out, v),
            Token::Plus => push_char(&mut out, '+'),
            Token::Mul => push_char(&mut out, '*'),
        }
        if i == end {
            push_char(&mut out, ')');
        }
        proof {
            let sep: Seq<char> = if i > 0 {
                seq![' ']
            } else {
                Seq::empty()
            };
            assert(out@ =~= before + sep + piece_text(s, a, b, i as int));
            assert(before + rendered_from(s, a, b, i as int) =~= out@ + rendered_from(
                s,
                a,
                b,
                i as int + 1,
            ));
        }
        i += 1;
    }
    assert(rendered(s, a, b) =~= out@);
    out
}

} // verus!
