//! The tokenizer: split a whitespace-separated expression into tokens.
//!
//! Each maximal run of non-blank characters is one word. A word that parses
//! as a signed 64-bit integer (an optional `+` or `-` sign, then decimal
//! digits, value in range) becomes a `Number`; the bare words `+` and `*`
//! become the operators; every other word is silently dropped.

use vstd::prelude::*;
use crate::token::Token;

verus! {

/// Blank characters that separate words: the Unicode `White_Space` set.
pub open spec fn is_space(c: char) -> bool {
    c == '\u{0009}' || c == '\u{000A}' || c == '\u{000B}' || c == '\u{000C}' || c == '\u{000D}'
        || c == '\u{0020}' || c == '\u{0085}' || c == '\u{00A0}' || c == '\u{1680}'
        || ('\u{2000}' <= c && c <= '\u{200A}') || c == '\u{2028}' || c == '\u{2029}'
        || c == '\u{202F}' || c == '\u{205F}' || c == '\u{3000}'
}

/// A decimal digit.
pub open spec fn is_digit_char(c: char) -> bool {
    '0' <= c && c <= '9'
}

/// The value of one decimal digit.
pub open spec fn digit_val(c: char) -> int {
    if c == '0' {
        0
    } else if c == '1' {
        1
    } else if c == '2' {
        2
    } else if c == '3' {
        3
    } else if c == '4' {
        4
    } else if c == '5' {
        5
    } else if c == '6' {
        6
    } else if c == '7' {
        7
    } else if c == '8' {
        8
    } else {
        9
    }
}

/// The value of a digit string, most significant digit first.
pub open spec fn digits_val(w: Seq<char>) -> int
    decreases w.len(),
{
    if w.len() == 0 {
        0
    } else {
        digits_val(w.drop_last()) * 10 + digit_val(w.last())
    }
}

/// Every character is a decimal digit.
pub open spec fn all_digits(w: Seq<char>) -> bool {
    forall|i: int| 0 <= i < w.len() ==> is_digit_char(w[i])
}

/// What a word means as a signed 64-bit integer: an optional sign, then at
/// least one digit, with the signed value in `i64` range; `None` otherwise.
pub open spec fn parse_int(w: Seq<char>) -> Option<i64> {
    let neg = w.len() > 0 && w[0] == '-';
    let body = if w.len() > 0 && (w[0] == '-' || w[0] == '+') {
        w.drop_first()
    } else {
        w
    };
    if body.len() > 0 && all_digits(body) {
        let v = if neg {
            -digits_val(body)
        } else {
            digits_val(body)
        };
        if i64::MIN <= v <= i64::MAX {
            Some(v as i64)
        } else {
            None
        }
    } else {
        None
    }
}

/// The token one word stands for, if any: a number when it parses as one,
/// else a bare `+` or `*`, else nothing.
pub open spec fn classify(w: Seq<char>) -> Option<Token> {
    match parse_int(w) {
        Some(v) => Some(Token::Number(v)),
        None => if w == seq!['+'] {
            Some(Token::Plus)
        } else if w == seq!['*'] {
            Some(Token::Mul)
        } else {
            None
        },
    }
}

/// Position just past the word that starts at `i`: the first blank position
/// at or after `i`, or the end.
pub open spec fn word_end(cs: Seq<char>, i: int) -> int
    decreases cs.len() - i,
{
    if 0 <= i < cs.len() && !is_space(cs[i]) {
        word_end(cs, i + 1)
    } else {
        i
    }
}

/// The tokens of the tail of `cs` from position `i` on: skip blanks, carve
/// out the next word, keep its token if it has one.
pub open spec fn spec_tokenize_from(cs: Seq<char>, i: int) -> Seq<Token>
    decreases cs.len() - i,
{
    if 0 <= i < cs.len() {
        if is_space(cs[i]) {
            spec_tokenize_from(cs, i + 1)
        } else {
            let j = word_end(cs, i);
            if i < j <= cs.len() {
                match classify(cs.subrange(i, j)) {
                    Some(t) => seq![t] + spec_tokenize_from(cs, j),
                    None => spec_tokenize_from(cs, j),
                }
            } else {
                Seq::empty()
            }
        }
    } else {
        Seq::empty()
    }
}

/// The token sequence of a whole source string.
pub open spec fn spec_tokenize(cs: Seq<char>) -> Seq<Token> {
    spec_tokenize_from(cs, 0)
}

/// A digit string has a non-negative value.
proof fn lemma_digits_val_nonneg(w: Seq<char>)
    requires
        all_digits(w),
    ensures
        digits_val(w) >= 0,
    decreases w.len(),
{
    if w.len() > 0 {
        assert(all_digits(w.drop_last()));
        lemma_digits_val_nonneg(w.drop_last());
    }
}

/// Extending a digit string multiplies its value by ten and adds a digit.
proof fn lemma_digits_val_step(w: Seq<char>, i: int)
    requires
        0 <= i < w.len(),
    ensures
        digits_val(w.take(i + 1)) == digits_val(w.take(i)) * 10 + digit_val(w[i]),
{
    assert(w.take(i + 1).drop_last() =~= w.take(i));
    assert(w.take(i + 1).last() == w[i]);
}

/// A prefix of a digit string never exceeds the whole string's value.
proof fn lemma_digits_prefix_le(w: Seq<char>, i: int)
    requires
        all_digits(w),
        0 <= i <= w.len(),
    ensures
        digits_val(w.take(i)) <= digits_val(w),
    decreases w.len() - i,
{
    if i == w.len() {
        assert(w.take(i) =~= w);
    } else {
        lemma_digits_val_step(w, i);
        assert(all_digits(w.take(i)));
        lemma_digits_val_nonneg(w.take(i));
        lemma_digits_prefix_le(w, i + 1);
    }
}

/// Whether `c` is a blank word separator.
fn is_space_char(c: char) -> (r: bool)
    ensures
        r == is_space(c),
{
    c == '\u{0009}' || c == '\u{000A}' || c == '\u{000B}' || c == '\u{000C}' || c == '\u{000D}'
        || c == '\u{0020}' || c == '\u{0085}' || c == '\u{00A0}' || c == '\u{1680}' || ('\u{2000}'
        <= c && c <= '\u{200A}') || c == '\u{2028}' || c == '\u{2029}' || c == '\u{202F}' || c
        == '\u{205F}' || c == '\u{3000}'
}

/// The value of a decimal digit character.
fn digit_value(c: char) -> (d: u64)
    requires
        is_digit_char(c),
    ensures
        d as int == digit_val(c),
{
    if c == '0' {
        0
    } else if c == '1' {
        1
    } else if c == '2' {
        2
    } else if c == '3' {
        3
    } else if c == '4' {
        4
    } else if c == '5' {
        5
    } else if c == '6' {
        6
    } else if c == '7' {
        7
    } else if c == '8' {
        8
    } else {
        9
    }
}

/// Parse a word as a signed 64-bit integer, exactly as
/// [`parse_int`] describes: optional sign, one or more digits, in range.
fn parse_integer(w: &Vec<char>) -> (r: Option<i64>)
    ensures
        r == parse_int(w@),
{
    let n = w.len();
    let mut neg = false;
    let mut idx: usize = 0;
    if n > 0 && w[0] == '-' {
        neg = true;
        idx = 1;
    } else if n > 0 && w[0] == '+' {
        idx = 1;
    }
    let ghost body = if idx == 1 {
        w@.drop_first()
    } else {
        w@
    };
    if idx >= n {
        // No digits at all.
        return None;
    }
    assert(body.len() == n - idx);
    assert(forall|k: int| 0 <= k < body.len() ==> body[k] == w@[k + idx]);
    let mut acc: u64 = 0;
    let mut k = idx;
    while k < n
        invariant
            idx <= k <= n,
            acc as int == digits_val(body.take(k - idx)),
            all_digits(body.take(k - idx)),
        decreases n - k,
    {
        let c = w[k];
        if !(('0' <= c) && (c <= '9')) {
            assert(!is_digit_char(body[k - idx]));
            assert(!all_digits(body));
            return None;
        }
        let d = digit_value(c);
        proof {
            lemma_digits_val_step(body, k - idx);
            assert(all_digits(body.take(k - idx + 1)));
        }
        let widened = match acc.checked_mul(10) {
            Some(t) => t.checked_add(d),
            None => None,
        };
        match widened {
            Some(nv) => {
                acc = nv;
            }
            None => {
                // The value has outgrown u64, so it is far outside i64
                // range whatever the sign.
                proof {
                    lemma_digits_val_nonneg(body.take(k - idx));
                    assert(digits_val(body.take(k - idx + 1)) > u64::MAX);
                    if all_digits(body) {
                        lemma_digits_prefix_le(body, k - idx + 1);
                    }
                }
                return None;
            }
        }
        k += 1;
    }
    assert(body.take(n - idx) =~= body);
    if neg {
        if acc < 9223372036854775808u64 {
            Some(-(acc as i64))
        } else if acc == 9223372036854775808u64 {
            Some(i64::MIN)
        } else {
            None
        }
    } else {
        if acc <= 9223372036854775807u64 {
            Some(acc as i64)
        } else {
            None
        }
    }
}

/// The token a word stands for, if any.
fn classify_word(w: &Vec<char>) -> (r: Option<Token>)
    ensures
        r == classify(w@),
{
    match parse_integer(w) {
        Some(v) => Some(Token::Number(v)),
        None => {
            if w.len() == 1 && w[0] == '+' {
                assert(w@ =~= seq!['+']);
                Some(Token::Plus)
            } else if w.len() == 1 && w[0] == '*' {
                assert(w@ =~= seq!['*']);
                Some(Token::Mul)
            } else {
                None
            }
        }
    }
}

/// A scan that stopped at the first blank (or the end) found the word's end.
proof fn lemma_word_end_at(cs: Seq<char>, i: int, j: int)
    requires
        0 <= i <= j <= cs.len(),
        forall|k: int| i <= k < j ==> !is_space(cs[k]),
        j == cs.len() || is_space(cs[j]),
    ensures
        word_end(cs, i) == j,
    decreases j - i,
{
    if i < j {
        lemma_word_end_at(cs, i + 1, j);
    }
}

/// Split the source into whitespace-separated words and turn each word into
/// its token, dropping unrecognized words; exactly
/// [`spec_tokenize`] of the source text.
pub fn tokenize(expr: &str) -> (tokens: Vec<Token>)
    ensures
        tokens@ == spec_tokenize(expr@),
{
    let ghost cs = expr@;
    let n = expr.unicode_len();
    let mut tokens: Vec<Token> = Vec::new();
    let mut i: usize = 0;
    assert(spec_tokenize(cs) =~= tokens@ + spec_tokenize_from(cs, 0));
    while i < n
        invariant
            i <= n == cs.len(),
            spec_tokenize(cs) == tokens@ + spec_tokenize_from(cs, i as int),
        decreases n - i,
    {
        let c = expr.get_char(i);
        if is_space_char(c) {
            i += 1;
        } else {
            let mut word: Vec<char> = Vec::new();
            word.push(c);
            let mut j = i + 1;
            assert(word@ =~= cs.subrange(i as int, j as int));
            while j < n && !is_space_char(expr.get_char(j))
                invariant
                    i < j <= n,
                    word@ == cs.subrange(i as int, j as int),
                    forall|k: int| i <= k < j ==> !is_space(cs[k]),
                decreases n - j,
            {
                word.push(expr.get_char(j));
                assert(word@ =~= cs.subrange(i as int, j + 1));
                j += 1;
            }
            proof {
                lemma_word_end_at(cs, i as int, j as int);
            }
            let token_opt = classify_word(&word);
            let ghost before = tokens@;
            match token_opt {
                Some(t) => {
                    tokens.push(t);
                    assert(before + spec_tokenize_from(cs, i as int) =~= tokens@
                        + spec_tokenize_from(cs, j as int));
                }
                None => {
                    assert(before + spec_tokenize_from(cs, i as int) =~= tokens@
                        + spec_tokenize_from(cs, j as int));
                }
            }
            i = j;
        }
    }
    assert(spec_tokenize(cs) =~= tokens@);
    tokens
}

} // verus!
