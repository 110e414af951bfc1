//! Exhaustive search over single-pair parenthesizations of a flat `+`/`*`
//! expression.
//!
//! The library tokenizes a whitespace-separated expression, evaluates flat
//! token sequences with `*` binding tighter than `+`, enumerates every
//! contiguous sub-range that can meaningfully be parenthesized, and renders
//! the placements whose value equals a target.

#![verifier::loop_isolation(false)]

pub mod token;
pub mod tokenize;
pub mod eval;
pub mod render;
pub mod search;
pub mod order;
pub mod enumerate;
pub mod laws;

pub use token::Token;
pub use tokenize::tokenize;
pub use eval::evaluate_expression;
pub use render::insert_parentheses;
pub use search::{is_valid_subexpression, evaluate_with_parentheses};
pub use enumerate::find_parenthesizations;
