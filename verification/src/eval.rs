//! The flat-expression evaluator.
//!
//! `evaluate_expression` accepts exactly the well-formed sequences
//! (`number (operator number)*`) and returns the expression's value under
//! two's-complement wrap-around, i.e. the unbounded value of
//! [`expr_value`](crate::token::expr_value) cropped into `i64`.

use vstd::prelude::*;
use vstd::arithmetic::div_mod::{
    lemma_add_mod_noop, lemma_mod_bound, lemma_mod_multiples_vanish, lemma_mul_mod_noop_general,
    lemma_small_mod,
};
use crate::token::{chain_value, congruent, crop_i64, expr_value, tok_num, wf_expr, wrap_base, Token};

verus! {

/// Cropping keeps the value's residue modulo 2^64.
proof fn lemma_crop_congruent(x: int)
    ensures
        congruent(crop_i64(x) as int, x),
{
    let m = wrap_base();
    lemma_mod_bound(x, m);
    lemma_small_mod((x % m) as nat, m as nat);
    if x % m > i64::MAX {
        lemma_mod_multiples_vanish(-1, x % m, m);
    }
}

/// Cropping a value already in `i64` range leaves it unchanged.
pub proof fn lemma_crop_identity(x: int)
    requires
        i64::MIN <= x <= i64::MAX,
    ensures
        crop_i64(x) == x,
{
    let m = wrap_base();
    if x >= 0 {
        lemma_small_mod(x as nat, m as nat);
    } else {
        lemma_mod_multiples_vanish(1, x, m);
        lemma_small_mod((x + m) as nat, m as nat);
    }
}

/// Values congruent modulo 2^64 crop to the same `i64`.
proof fn lemma_congruent_crop_eq(a: int, b: int)
    requires
        congruent(a, b),
    ensures
        crop_i64(a) == crop_i64(b),
{
}

/// `i64::wrapping_add` is exactly addition followed by cropping.
proof fn lemma_wrapping_add_is_crop(a: i64, b: i64)
    ensures
        vstd::wrapping::i64_specs::wrapping_add(a, b) == crop_i64(a as int + b as int),
{
    let m = wrap_base();
    let x = a as int + b as int;
    if x > i64::MAX {
        lemma_mod_multiples_vanish(-1, x, m);
        lemma_crop_identity(x - m);
        lemma_congruent_crop_eq(x - m, x);
    } else if x < i64::MIN {
        lemma_mod_multiples_vanish(1, x, m);
        lemma_crop_identity(x + m);
        lemma_congruent_crop_eq(x + m, x);
    } else {
        lemma_crop_identity(x);
    }
}

/// Congruence is preserved by adding the same value.
proof fn lemma_congruent_add(a: int, b: int, c: int)
    requires
        congruent(a, b),
    ensures
        congruent(a + c, b + c),
{
    let m = wrap_base();
    lemma_add_mod_noop(a, c, m);
    lemma_add_mod_noop(b, c, m);
}

/// Congruence is preserved by multiplying by the same value.
proof fn lemma_congruent_mul(a: int, b: int, c: int)
    requires
        congruent(a, b),
    ensures
        congruent(a * c, b * c),
{
    let m = wrap_base();
    lemma_mul_mod_noop_general(a, c, m);
    lemma_mul_mod_noop_general(b, c, m);
}

/// Congruent accumulators give congruent chain values: the walk only ever
/// adds to or multiplies the accumulator, both of which respect residues.
proof fn lemma_chain_congruent(s: Seq<Token>, i: int, p: int, q: int)
    requires
        congruent(p, q),
    ensures
        congruent(chain_value(s, i, p), chain_value(s, i, q)),
    decreases s.len() - i,
{
    if 0 <= i && i + 1 < s.len() {
        let n = tok_num(s[i + 1]);
        if s[i] is Mul {
            lemma_congruent_mul(p, q, n);
            lemma_chain_congruent(s, i + 2, p * n, q * n);
        } else {
            let c = chain_value(s, i + 2, n);
            lemma_congruent_add(p, q, c);
        }
    }
}

/// The integer carried by a `Number` token.
fn token_number(t: Token) -> (v: i64)
    requires
        t is Number,
    ensures
        v as int == tok_num(t),
{
    match t {
        Token::Number(n) => n,
        Token::Plus => 0,
        Token::Mul => 0,
    }
}

/// Evaluate a flat token sequence, `*` binding tighter than `+`, both left
/// associative, on wrap-around `i64` arithmetic. Returns `None` exactly for
/// the sequences that are not of the shape `number (operator number)*`
/// (empty, adjacent numbers, adjacent operators, leading or trailing
/// operator), and otherwise the expression's value.
pub fn evaluate_expression(tokens: &Vec<Token>) -> (r: Option<i64>)
    ensures
        r == if wf_expr(tokens@) {
            Some(crop_i64(expr_value(tokens@)))
        } else {
            None::<i64>
        },
{
    let n = tokens.len();
    if n % 2 == 0 {
        // An empty sequence, or one with as many operators as numbers,
        // cannot spell `number (operator number)*`.
        return None;
    }
    // Shape pass: numbers must sit at even positions, operators at odd ones.
    let mut k: usize = 0;
    while k < n
        invariant
            k <= n,
            forall|j: int| 0 <= j < k && j % 2 == 0 ==> tokens@[j] is Number,
            forall|j: int| 0 <= j < k && j % 2 == 1 ==> (tokens@[j] is Plus || tokens@[j] is Mul),
        decreases n - k,
    {
        let ok = match tokens[k] {
            Token::Number(_) => k % 2 == 0,
            Token::Plus => k % 2 == 1,
            Token::Mul => k % 2 == 1,
        };
        if !ok {
            return None;
        }
        k += 1;
    }
    assert(wf_expr(tokens@));
    // Value pass: fold the current product, closing it into the sum at `+`.
    let mut acc: i64 = token_number(tokens[0]);
    let mut sum: i64 = 0;
    let mut i: usize = 1;
    while i < n
        invariant
            1 <= i <= n + 1,
            i % 2 == 1,
            congruent(sum as int + chain_value(tokens@, i as int, acc as int), expr_value(tokens@)),
        decreases n - i,
    {
        let m = token_number(tokens[i + 1]);
        proof {
            let s = tokens@;
            let ii = i as int;
            if s[ii] is Mul {
                lemma_crop_congruent(acc as int * m as int);
                lemma_chain_congruent(s, ii + 2, crop_i64(acc as int * m as int) as int,
                    acc as int * m as int);
                lemma_congruent_add(
                    chain_value(s, ii + 2, crop_i64(acc as int * m as int) as int),
                    chain_value(s, ii + 2, acc as int * m as int),
                    sum as int,
                );
            } else {
                lemma_wrapping_add_is_crop(sum, acc);
                lemma_crop_congruent(sum as int + acc as int);
                lemma_congruent_add(
                    crop_i64(sum as int + acc as int) as int,
                    sum as int + acc as int,
                    chain_value(s, ii + 2, m as int),
                );
            }
        }
        match tokens[i] {
            Token::Mul => {
                acc = acc.wrapping_mul(m);
            }
            _ => {
                sum = sum.wrapping_add(acc);
                acc = m;
            }
        }
        i += 2;
    }
    proof {
        lemma_wrapping_add_is_crop(sum, acc);
        lemma_congruent_crop_eq(sum as int + acc as int, expr_value(tokens@));
    }
    Some(sum.wrapping_add(acc))
}

} // verus!
