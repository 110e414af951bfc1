//! Candidate sub-ranges and their evaluation.
//!
//! A range `[start, end]` of the token sequence is worth parenthesizing only
//! when it holds at least one number and at least one operator. Evaluating a
//! candidate means evaluating the sub-range on its own, substituting the
//! result for the range, and evaluating the substituted sequence.

use vstd::prelude::*;
use crate::eval::evaluate_expression;
use crate::token::{crop_i64, expr_value, wf_expr, Token};

verus! {

/// Some position of `[lo, hi]` holds a number.
pub open spec fn has_number(s: Seq<Token>, lo: int, hi: int) -> bool {
    exists|k: int| lo <= k <= hi && 0 <= k < s.len() && s[k] is Number
}

/// Some position of `[lo, hi]` holds an operator.
pub open spec fn has_operator(s: Seq<Token>, lo: int, hi: int) -> bool {
    exists|k: int| lo <= k <= hi && 0 <= k < s.len() && (s[k] is Plus || s[k] is Mul)
}

/// The inclusive sub-range `[start, end]` of `s`.
pub open spec fn subexpr(s: Seq<Token>, start: int, end: int) -> Seq<Token> {
    s.subrange(start, end + 1)
}

/// `s` with the range `[start, end]` collapsed into one number token holding
/// the cropped value of the sub-range.
pub open spec fn replaced(s: Seq<Token>, start: int, end: int) -> Seq<Token> {
    s.subrange(0, start) + seq![Token::Number(crop_i64(expr_value(subexpr(s, start, end))))]
        + s.subrange(end + 1, s.len() as int)
}

/// Whether `[start, end]` holds at least one number and at least one
/// operator. Ranges with `start > end` hold nothing and are rejected.
pub fn is_valid_subexpression(tokens: &Vec<Token>, start: usize, end: usize) -> (r: bool)
    requires
        end < tokens@.len(),
    ensures
        r == (has_number(tokens@, start as int, end as int) && has_operator(
            tokens@,
            start as int,
            end as int,
        )),
{
    let ghost s = tokens@;
    let n = tokens.len();
    if start > end {
        return false;
    }
    let mut num = false;
    let mut op = false;
    let mut k = start;
    while k <= end
        invariant
            start <= k <= end + 1,
            end < n == s.len(),
            num == exists|j: int| start <= j < k && s[j] is Number,
            op == exists|j: int| start <= j < k && (s[j] is Plus || s[j] is Mul),
        decreases end + 1 - k,
    {
        match tokens[k] {
            Token::Number(_) => {
                proof {
                    assert(start <= k < k + 1 && s[k as int] is Number);
                }
                num = true;
            }
            _ => {
                proof {
                    assert(start <= k < k + 1 && (s[k as int] is Plus || s[k as int] is Mul));
                }
                op = true;
            }
        }
        k += 1;
    }
    num && op
}

/// Evaluate the sub-range `[start, end]` on its own, substitute its value
/// for the range, and evaluate the substituted sequence. `None` exactly when
/// either evaluation rejects its input as malformed.
pub fn evaluate_with_parentheses(tokens: &Vec<Token>, start: usize, end: usize) -> (r: Option<
    i64,
>)
    requires
        start <= end < tokens@.len(),
    ensures
        r == if wf_expr(subexpr(tokens@, start as int, end as int)) && wf_expr(
            replaced(tokens@, start as int, end as int),
        ) {
            Some(crop_i64(expr_value(replaced(tokens@, start as int, end as int))))
        } else {
            None::<i64>
        },
{
    let ghost s = tokens@;
    let ghost a = start as int;
    let ghost b = end as int;
    let n = tokens.len();
    let mut sub: Vec<Token> = Vec::new();
    let mut k = start;
    while k <= end
        invariant
            start <= k <= end + 1,
            sub@ == s.subrange(a, k as int),
        decreases end + 1 - k,
    {
        sub.push(tokens[k]);
        proof {
            assert(sub@ =~= s.subrange(a, k + 1));
        }
        k += 1;
    }
    let sub_value = match evaluate_expression(&sub) {
        Some(v) => v,
        None => {
            return None;
        }
    };
    let mut joined: Vec<Token> = Vec::new();
    let mut k: usize = 0;
    while k < start
        invariant
            k <= start,
            joined@ == s.subrange(0, k as int),
        decreases start - k,
    {
        joined.push(tokens[k]);
        proof {
            assert(joined@ =~= s.subrange(0, k + 1));
        }
        k += 1;
    }
    joined.push(Token::Number(sub_value));
    let mut k = end + 1;
    while k < n
        invariant
            end + 1 <= k <= n,
            joined@ == s.subrange(0, a) + seq![Token::Number(crop_i64(expr_value(subexpr(s, a, b))))]
                + s.subrange(b + 1, k as int),
        decreases n - k,
    {
        joined.push(tokens[k]);
        proof {
            assert(joined@ =~= s.subrange(0, a) + seq![
                Token::Number(crop_i64(expr_value(subexpr(s, a, b)))),
            ] + s.subrange(b + 1, k + 1));
        }
        k += 1;
    }
    assert(joined@ =~= replaced(s, a, b));
    evaluate_expression(&joined)
}

} // verus!
