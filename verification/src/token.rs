//! The token alphabet and the meaning of a flat token sequence.
//!
//! A sequence is well formed when it spells `number (operator number)*`.
//! Its value is defined by a left-to-right walk in which `*` binds tighter
//! than `+`; the executable evaluator reduces that value into `i64` by
//! two's-complement wrap-around, so the mathematical value is kept here as
//! an unbounded `int` and cropped only at the very end.

use vstd::prelude::*;

verus! {

/// One lexical unit of an expression: an integer literal, `+`, or `*`.
#[derive(Clone, Copy, Debug, PartialEq, Eq, Structural)]
pub enum Token {
    Number(i64),
    Plus,
    Mul,
}

/// The integer carried by a `Number` token (0 for operators).
pub open spec fn tok_num(t: Token) -> int {
    match t {
        Token::Number(n) => n as int,
        Token::Plus => 0,
        Token::Mul => 0,
    }
}

/// A flat expression: odd length, numbers at even positions, operators at
/// odd positions, i.e. exactly the shape `number (operator number)*`.
pub open spec fn wf_expr(s: Seq<Token>) -> bool {
    &&& s.len() % 2 == 1
    &&& forall|i: int| 0 <= i < s.len() && i % 2 == 0 ==> s[i] is Number
    &&& forall|i: int| 0 <= i < s.len() && i % 2 == 1 ==> (s[i] is Plus || s[i] is Mul)
}

/// Value of the suffix of `s` that starts at operator position `i`, given
/// that the multiplicative term in progress has product `p`: a `*` folds the
/// next number into `p`, a `+` closes `p` and starts the next term. This is
/// precisely evaluation left to right with `*` binding tighter than `+`.
pub open spec fn chain_value(s: Seq<Token>, i: int, p: int) -> int
    decreases s.len() - i,
{
    if 0 <= i && i + 1 < s.len() {
        if s[i] is Mul {
            chain_value(s, i + 2, p * tok_num(s[i + 1]))
        } else {
            p + chain_value(s, i + 2, tok_num(s[i + 1]))
        }
    } else {
        p
    }
}

/// The exact (unbounded) value of a well-formed flat expression.
pub open spec fn expr_value(s: Seq<Token>) -> int {
    if s.len() > 0 {
        chain_value(s, 1, tok_num(s[0]))
    } else {
        0
    }
}

/// 2^64, the modulus of wrap-around `i64` arithmetic.
pub open spec fn wrap_base() -> int {
    0x1_0000_0000_0000_0000
}

/// The `i64` that an unbounded value becomes under two's-complement
/// wrap-around.
pub open spec fn crop_i64(x: int) -> i64 {
    vstd::wrapping::i64_specs::signed_crop(x)
}

/// Two unbounded values that wrap to the same `i64`.
pub open spec fn congruent(a: int, b: int) -> bool {
    a % wrap_base() == b % wrap_base()
}

} // verus!
