//! The exhaustive enumeration: every placement of one parenthesis pair
//! whose value hits the target, reported as a sorted, duplicate-free list
//! of rendered expressions.

use vstd::prelude::*;
use crate::order::{
    insert_sorted_unique, lemma_strictly_sorted_same_set, strictly_sorted, string_views,
};
use crate::render::{insert_parentheses, rendered};
use crate::search::{
    evaluate_with_parentheses, has_number, has_operator, is_valid_subexpression, replaced, subexpr,
};
use crate::token::{crop_i64, expr_value, wf_expr, Token};

verus! {

/// Range `[start, end]` is a reported placement: a proper range holding at
/// least one number and one operator, whose sub-range and substituted
/// sequence both evaluate, the latter to `target`.
pub open spec fn is_match(s: Seq<Token>, target: i64, start: int, end: int) -> bool {
    &&& 0 <= start < end < s.len()
    &&& has_number(s, start, end)
    &&& has_operator(s, start, end)
    &&& wf_expr(subexpr(s, start, end))
    &&& wf_expr(replaced(s, start, end))
    &&& crop_i64(expr_value(replaced(s, start, end))) == target
}

/// The rendered text of every matching placement.
pub open spec fn match_renders(s: Seq<Token>, target: i64) -> Set<Seq<char>> {
    Set::new(
        |r: Seq<char>|
            exists|a: int, b: int| is_match(s, target, a, b) && r == rendered(s, a, b),
    )
}

/// The rendered text of the matching placements that the enumeration (outer
/// index `a` ascending, then inner index `b` ascending) visits before the
/// pair `(a0, b0)`.
pub open spec fn match_renders_before(s: Seq<Token>, target: i64, a0: int, b0: int) -> Set<
    Seq<char>,
> {
    Set::new(
        |r: Seq<char>|
            exists|a: int, b: int|
                is_match(s, target, a, b) && r == rendered(s, a, b) && (a < a0 || (a == a0 && b
                    < b0)),
    )
}

/// Every reported placement is a proper range with at least one number and
/// at least one operator; degenerate ranges are never reported.
pub proof fn lemma_match_is_proper_range(s: Seq<Token>, target: i64, start: int, end: int)
    requires
        is_match(s, target, start, end),
    ensures
        0 <= start < end < s.len(),
        has_number(s, start, end),
        has_operator(s, start, end),
{
}

/// Visiting the pair `(a0, b0)` extends the visited set by its render when
/// it matches and leaves the set unchanged when it does not.
proof fn lemma_enum_step(s: Seq<Token>, target: i64, a0: int, b0: int)
    ensures
        is_match(s, target, a0, b0) ==> match_renders_before(s, target, a0, b0 + 1)
            == match_renders_before(s, target, a0, b0).insert(rendered(s, a0, b0)),
        !is_match(s, target, a0, b0) ==> match_renders_before(s, target, a0, b0 + 1)
            == match_renders_before(s, target, a0, b0),
{
    let big = match_renders_before(s, target, a0, b0 + 1);
    let small = match_renders_before(s, target, a0, b0);
    assert forall|r: Seq<char>| #[trigger] big.contains(r) implies small.contains(r) || (is_match(
        s,
        target,
        a0,
        b0,
    ) && r == rendered(s, a0, b0)) by {
        let (a, b) = choose|a: int, b: int|
            is_match(s, target, a, b) && r == rendered(s, a, b) && (a < a0 || (a == a0 && b < b0
                + 1));
        if !(a == a0 && b == b0) {
            assert(is_match(s, target, a, b) && r == rendered(s, a, b) && (a < a0 || (a == a0 && b
                < b0)));
        }
    }
    assert forall|r: Seq<char>| #[trigger] small.contains(r) implies big.contains(r) by {
        let (a, b) = choose|a: int, b: int|
            is_match(s, target, a, b) && r == rendered(s, a, b) && (a < a0 || (a == a0 && b < b0));
        assert(is_match(s, target, a, b) && r == rendered(s, a, b) && (a < a0 || (a == a0 && b < b0
            + 1)));
    }
    if is_match(s, target, a0, b0) {
        assert(is_match(s, target, a0, b0) && rendered(s, a0, b0) == rendered(s, a0, b0) && (a0
            < a0 || (a0 == a0 && b0 < b0 + 1)));
        assert(big.contains(rendered(s, a0, b0)));
        assert(big =~= small.insert(rendered(s, a0, b0)));
    } else {
        assert(big =~= small);
    }
}

/// Finishing row `a0` leaves the visited set equal to the set at the start
/// of row `a0 + 1`.
proof fn lemma_enum_row_done(s: Seq<Token>, target: i64, a0: int)
    ensures
        match_renders_before(s, target, a0, s.len() as int) == match_renders_before(
            s,
            target,
            a0 + 1,
            a0 + 2,
        ),
{
    let left = match_renders_before(s, target, a0, s.len() as int);
    let right = match_renders_before(s, target, a0 + 1, a0 + 2);
    assert forall|r: Seq<char>| #[trigger] left.contains(r) implies right.contains(r) by {
        let (a, b) = choose|a: int, b: int|
            is_match(s, target, a, b) && r == rendered(s, a, b) && (a < a0 || (a == a0 && b
                < s.len()));
        assert(is_match(s, target, a, b) && r == rendered(s, a, b) && (a < a0 + 1 || (a == a0 + 1
            && b < a0 + 2)));
    }
    assert forall|r: Seq<char>| #[trigger] right.contains(r) implies left.contains(r) by {
        let (a, b) = choose|a: int, b: int|
            is_match(s, target, a, b) && r == rendered(s, a, b) && (a < a0 + 1 || (a == a0 + 1 && b
                < a0 + 2));
        assert(is_match(s, target, a, b) && r == rendered(s, a, b) && (a < a0 || (a == a0 && b
            < s.len())));
    }
    assert(left =~= right);
}

/// Once the outer index has passed every position, the visited set is the
/// full set of matches.
proof fn lemma_enum_done(s: Seq<Token>, target: i64)
    ensures
        match_renders_before(s, target, s.len() as int, s.len() as int + 1) == match_renders(
            s,
            target,
        ),
{
    let left = match_renders_before(s, target, s.len() as int, s.len() as int + 1);
    let right = match_renders(s, target);
    assert forall|r: Seq<char>| #[trigger] left.contains(r) implies right.contains(r) by {
        let (a, b) = choose|a: int, b: int|
            is_match(s, target, a, b) && r == rendered(s, a, b) && (a < s.len() || (a == s.len()
                && b < s.len() + 1));
        assert(is_match(s, target, a, b) && r == rendered(s, a, b));
    }
    assert forall|r: Seq<char>| #[trigger] right.contains(r) implies left.contains(r) by {
        let (a, b) = choose|a: int, b: int| is_match(s, target, a, b) && r == rendered(s, a, b);
        assert(is_match(s, target, a, b) && r == rendered(s, a, b) && (a < s.len() || (a == s.len()
            && b < s.len() + 1)));
    }
    assert(left =~= right);
}

/// Search every proper range of the token sequence for a single-pair
/// parenthesization whose value equals `target`. The result holds exactly
/// the rendered matching placements, sorted lexicographically and free of
/// duplicates.
pub fn find_parenthesizations(tokens: &Vec<Token>, target: i64) -> (results: Vec<String>)
    ensures
        strictly_sorted(string_views(results@)),
        string_views(results@).to_set() == match_renders(tokens@, target),
{
    let ghost s = tokens@;
    let n = tokens.len();
    let mut results: Vec<String> = Vec::new();
    proof {
        assert(string_views(results@).to_set() =~= match_renders_before(s, target, 0, 1));
    }
    let mut start: usize = 0;
    while start < n
        invariant
            start <= n == s.len(),
            strictly_sorted(string_views(results@)),
            string_views(results@).to_set() == match_renders_before(
                s,
                target,
                start as int,
                start as int + 1,
            ),
        decreases n - start,
    {
        let mut end = start + 1;
        while end < n
            invariant
                start < end <= n,
                strictly_sorted(string_views(results@)),
                string_views(results@).to_set() == match_renders_before(
                    s,
                    target,
                    start as int,
                    end as int,
                ),
            decreases n - end,
        {
            let valid = is_valid_subexpression(tokens, start, end);
            let value_opt = evaluate_with_parentheses(tokens, start, end);
            let hit = valid && (match value_opt {
                Some(v) => v == target,
                None => false,
            });
            proof {
                assert(hit == is_match(s, target, start as int, end as int));
                lemma_enum_step(s, target, start as int, end as int);
            }
            if hit {
                let text = insert_parentheses(tokens, start, end);
                insert_sorted_unique(&mut results, text);
            }
            end += 1;
        }
        proof {
            lemma_enum_row_done(s, target, start as int);
        }
        start += 1;
    }
    proof {
        lemma_enum_done(s, target);
    }
    results
}

/// The enumeration is deterministic: any two result lists that are strictly
/// sorted and hold the renders of exactly the matching placements are equal,
/// so running the search twice on identical inputs gives identical sorted,
/// deduplicated output.
pub proof fn lemma_enumeration_deterministic(
    s: Seq<Token>,
    target: i64,
    r1: Seq<Seq<char>>,
    r2: Seq<Seq<char>>,
)
    requires
        strictly_sorted(r1),
        strictly_sorted(r2),
        r1.to_set() == match_renders(s, target),
        r2.to_set() == match_renders(s, target),
    ensures
        r1 == r2,
{
    lemma_strictly_sorted_same_set(r1, r2);
}

} // verus!
