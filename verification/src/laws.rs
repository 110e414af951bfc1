//! The standard-arithmetic reading of a well-formed expression, and its
//! agreement with the evaluator's left-to-right walk.
//!
//! A well-formed sequence splits into maximal `*`-joined terms separated by
//! `+`. Its value under the usual precedence rules is the sum of the
//! products of those terms; the lemma at the bottom proves that the
//! evaluator's semantics ([`expr_value`]) computes exactly that sum.

use vstd::prelude::*;
use vstd::arithmetic::mul::lemma_mul_is_associative;
use crate::token::{chain_value, expr_value, tok_num, wf_expr, Token};

verus! {

/// Position just past the maximal `*`-joined term that starts at the number
/// position `i`.
pub open spec fn term_end(s: Seq<Token>, i: int) -> int
    decreases s.len() - i,
{
    if 0 <= i && i + 2 < s.len() && s[i + 1] is Mul {
        term_end(s, i + 2)
    } else {
        i + 1
    }
}

/// Product of the numbers of the maximal term that starts at position `i`.
pub open spec fn term_product(s: Seq<Token>, i: int) -> int
    decreases s.len() - i,
{
    if 0 <= i && i + 2 < s.len() && s[i + 1] is Mul {
        tok_num(s[i]) * term_product(s, i + 2)
    } else {
        tok_num(s[i])
    }
}

/// Sum of the products of the terms from position `i` on: the value of the
/// expression under the usual reading, `*` before `+`.
pub open spec fn sum_of_terms(s: Seq<Token>, i: int) -> int
    decreases s.len() - i,
{
    let e = term_end(s, i);
    if 0 <= i && i < e && e < s.len() {
        term_product(s, i) + sum_of_terms(s, e + 1)
    } else {
        term_product(s, i)
    }
}

/// Product of the numbers pulled in by the `*`-run that starts at operator
/// position `j` (1 when the run is empty).
spec fn run_product(s: Seq<Token>, j: int) -> int
    decreases s.len() - j,
{
    if 0 <= j && j + 1 < s.len() && s[j] is Mul {
        tok_num(s[j + 1]) * run_product(s, j + 2)
    } else {
        1
    }
}

/// Position of the first non-`*` operator at or after operator position
/// `j`, or the end.
spec fn run_end(s: Seq<Token>, j: int) -> int
    decreases s.len() - j,
{
    if 0 <= j && j + 1 < s.len() && s[j] is Mul {
        run_end(s, j + 2)
    } else {
        j
    }
}

/// A term reaches past its leading number.
proof fn lemma_term_end_lb(s: Seq<Token>, i: int)
    requires
        0 <= i,
    ensures
        i < term_end(s, i),
    decreases s.len() - i,
{
    if i + 2 < s.len() && s[i + 1] is Mul {
        lemma_term_end_lb(s, i + 2);
    }
}

/// A term's product factors into its leading number times the product of
/// the following `*`-run, which also ends where the term ends.
proof fn lemma_term_is_run(s: Seq<Token>, i: int)
    requires
        0 <= i < s.len(),
    ensures
        term_product(s, i) == tok_num(s[i]) * run_product(s, i + 1),
        term_end(s, i) == run_end(s, i + 1),
    decreases s.len() - i,
{
    if i + 2 < s.len() && s[i + 1] is Mul {
        lemma_term_is_run(s, i + 2);
        lemma_mul_is_associative(tok_num(s[i]), tok_num(s[i + 2]), run_product(s, i + 3));
    }
}

/// The evaluator's walk from operator position `j` with accumulator `p`
/// computes `p` times the pending `*`-run, plus the sum of the remaining
/// terms.
proof fn lemma_chain_is_terms(s: Seq<Token>, j: int, p: int)
    requires
        wf_expr(s),
        1 <= j <= s.len(),
        j % 2 == 1,
    ensures
        j <= run_end(s, j) <= s.len(),
        run_end(s, j) % 2 == 1,
        chain_value(s, j, p) == p * run_product(s, j) + (if run_end(s, j) < s.len() {
            sum_of_terms(s, run_end(s, j) + 1)
        } else {
            0
        }),
    decreases s.len() - j,
{
    if j + 1 >= s.len() {
        // Parity rules out j == s.len() - 1, so the walk is finished.
        assert(j == s.len());
    } else if s[j] is Mul {
        lemma_chain_is_terms(s, j + 2, p * tok_num(s[j + 1]));
        lemma_mul_is_associative(p, tok_num(s[j + 1]), run_product(s, j + 2));
    } else {
        // A `+` closes the product; what follows is a fresh expression.
        assert(s[j] is Plus);
        let e = term_end(s, j + 1);
        lemma_chain_is_terms(s, j + 2, tok_num(s[j + 1]));
        lemma_term_is_run(s, j + 1);
        lemma_term_end_lb(s, j + 1);
        if e < s.len() {
            assert(sum_of_terms(s, j + 1) == term_product(s, j + 1) + sum_of_terms(s, e + 1));
        } else {
            assert(e == s.len());
            assert(sum_of_terms(s, j + 1) == term_product(s, j + 1));
        }
    }
}

/// The evaluator agrees with standard arithmetic: the value of a
/// well-formed expression under the evaluator's left-to-right walk with `*`
/// binding tighter than `+` equals the sum of the products of its maximal
/// `*`-joined terms.
pub proof fn lemma_expr_value_is_sum_of_terms(s: Seq<Token>)
    requires
        wf_expr(s),
    ensures
        expr_value(s) == sum_of_terms(s, 0),
{
    let e = term_end(s, 0);
    lemma_chain_is_terms(s, 1, tok_num(s[0]));
    lemma_term_is_run(s, 0);
    lemma_term_end_lb(s, 0);
    if e < s.len() {
        assert(sum_of_terms(s, 0) == term_product(s, 0) + sum_of_terms(s, e + 1));
    } else {
        assert(sum_of_terms(s, 0) == term_product(s, 0));
    }
}

} // verus!
