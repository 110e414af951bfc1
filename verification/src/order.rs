//! Lexicographic order on rendered strings, and insertion that keeps a
//! result list strictly sorted (sorted with no duplicates).
//!
//! Characters are ordered by their Unicode scalar value, so this order
//! agrees with the usual ordering of strings.

use vstd::prelude::*;

verus! {

/// Lexicographic "less than" on the suffixes of `a` and `b` from `i` on: a
/// proper prefix comes first, otherwise the first differing character
/// decides.
pub open spec fn lex_lt_from(a: Seq<char>, b: Seq<char>, i: int) -> bool
    decreases a.len() - i,
{
    if i >= b.len() {
        false
    } else if i >= a.len() {
        true
    } else if a[i] < b[i] {
        true
    } else if a[i] == b[i] {
        lex_lt_from(a, b, i + 1)
    } else {
        false
    }
}

/// Strict lexicographic order on character sequences.
pub open spec fn lex_lt(a: Seq<char>, b: Seq<char>) -> bool {
    lex_lt_from(a, b, 0)
}

/// A strictly ascending list: sorted, and free of duplicates.
pub open spec fn strictly_sorted(rs: Seq<Seq<char>>) -> bool {
    forall|i: int, j: int| 0 <= i < j < rs.len() ==> lex_lt(rs[i], rs[j])
}

/// The texts of a list of strings.
pub open spec fn string_views(v: Seq<String>) -> Seq<Seq<char>> {
    v.map_values(|x: String| x@)
}

/// No sequence is lexicographically below itself.
pub proof fn lemma_lex_irreflexive(a: Seq<char>, i: int)
    ensures
        !lex_lt_from(a, a, i),
    decreases a.len() - i,
{
    if i < a.len() {
        lemma_lex_irreflexive(a, i + 1);
    }
}

/// The order is transitive.
pub proof fn lemma_lex_transitive(a: Seq<char>, b: Seq<char>, c: Seq<char>, i: int)
    requires
        lex_lt_from(a, b, i),
        lex_lt_from(b, c, i),
    ensures
        lex_lt_from(a, c, i),
    decreases a.len() - i,
{
    if i < a.len() && i < b.len() && i < c.len() && a[i] == b[i] && b[i] == c[i] {
        lemma_lex_transitive(a, b, c, i + 1);
    }
}

/// The order is connected: two sequences neither of which is below the
/// other are equal character for character.
pub proof fn lemma_lex_connected(a: Seq<char>, b: Seq<char>, i: int)
    requires
        0 <= i <= a.len(),
        i <= b.len(),
        !lex_lt_from(a, b, i),
        !lex_lt_from(b, a, i),
    ensures
        a.len() == b.len(),
        forall|j: int| i <= j < a.len() ==> a[j] == b[j],
    decreases a.len() - i,
{
    if i < a.len() && i < b.len() {
        assert(a[i] == b[i]);
        lemma_lex_connected(a, b, i + 1);
    }
}

/// A strictly sorted list is determined by the set of its elements: two
/// strictly sorted lists holding the same elements are equal.
pub proof fn lemma_strictly_sorted_same_set(x: Seq<Seq<char>>, y: Seq<Seq<char>>)
    requires
        strictly_sorted(x),
        strictly_sorted(y),
        x.to_set() == y.to_set(),
    ensures
        x == y,
    decreases x.len(),
{
    if x.len() == 0 {
        if y.len() > 0 {
            assert(y.contains(y[0]));
            assert(y.to_set().contains(y[0]));
            assert(x.contains(y[0]));
            assert(false);
        }
        assert(x =~= y);
    } else if y.len() == 0 {
        assert(x.contains(x[0]));
        assert(x.to_set().contains(x[0]));
        assert(y.contains(x[0]));
        assert(false);
    } else {
        // The two heads are each other's least elements, hence equal.
        assert(x.contains(x[0]));
        assert(x.to_set().contains(x[0]));
        assert(y.contains(x[0]));
        let k = choose|k: int| 0 <= k < y.len() && y[k] == x[0];
        assert(y.contains(y[0]));
        assert(y.to_set().contains(y[0]));
        assert(x.contains(y[0]));
        let j = choose|j: int| 0 <= j < x.len() && x[j] == y[0];
        if k > 0 && j > 0 {
            assert(lex_lt(y[0], y[k]));
            assert(lex_lt(x[0], x[j]));
            lemma_lex_transitive(x[0], y[0], x[0], 0);
            lemma_lex_irreflexive(x[0], 0);
            assert(false);
        }
        assert(x[0] == y[0]);
        // The tails hold the same elements and are strictly sorted.
        let xt = x.skip(1);
        let yt = y.skip(1);
        assert forall|p: int, q: int| 0 <= p < q < xt.len() implies lex_lt(xt[p], xt[q]) by {
            assert(lex_lt(x[p + 1], x[q + 1]));
        }
        assert forall|p: int, q: int| 0 <= p < q < yt.len() implies lex_lt(yt[p], yt[q]) by {
            assert(lex_lt(y[p + 1], y[q + 1]));
        }
        assert forall|e: Seq<char>| #[trigger] xt.to_set().contains(e) implies yt.to_set().contains(
            e,
        ) by {
            let p = choose|p: int| 0 <= p < xt.len() && xt[p] == e;
            assert(x[p + 1] == e);
            assert(lex_lt(x[0], x[p + 1]));
            lemma_lex_irreflexive(e, 0);
            assert(e != x[0]);
            assert(x.to_set().contains(e));
            assert(y.contains(e));
            let q = choose|q: int| 0 <= q < y.len() && y[q] == e;
            assert(q != 0);
            assert(yt[q - 1] == e);
            assert(yt.contains(e));
        }
        assert forall|e: Seq<char>| #[trigger] yt.to_set().contains(e) implies xt.to_set().contains(
            e,
        ) by {
            let p = choose|p: int| 0 <= p < yt.len() && yt[p] == e;
            assert(y[p + 1] == e);
            assert(lex_lt(y[0], y[p + 1]));
            lemma_lex_irreflexive(e, 0);
            assert(e != y[0]);
            assert(y.to_set().contains(e));
            assert(x.contains(e));
            let q = choose|q: int| 0 <= q < x.len() && x[q] == e;
            assert(q != 0);
            assert(xt[q - 1] == e);
            assert(xt.contains(e));
        }
        assert(xt.to_set() =~= yt.to_set());
        lemma_strictly_sorted_same_set(xt, yt);
        assert forall|i: int| 0 <= i < x.len() implies x[i] == y[i] by {
            if i > 0 {
                assert(xt[i - 1] == yt[i - 1]);
            }
        }
        assert(x =~= y);
    }
}

/// Whether `a` comes strictly before `b` in lexicographic order.
pub fn str_lex_lt(a: &String, b: &String) -> (r: bool)
    ensures
        r == lex_lt(a@, b@),
{
    let an = a.as_str().unicode_len();
    let bn = b.as_str().unicode_len();
    let mut i: usize = 0;
    while i < an && i < bn
        invariant
            i <= an == a@.len(),
            i <= bn == b@.len(),
            lex_lt(a@, b@) == lex_lt_from(a@, b@, i as int),
        decreases an - i,
    {
        let ca = a.as_str().get_char(i);
        let cb = b.as_str().get_char(i);
        if ca < cb {
            return true;
        }
        if ca != cb {
            return false;
        }
        i += 1;
    }
    i < bn
}

/// Insert `x` into a strictly sorted list, keeping it strictly sorted:
/// the list gains `x` unless an equal string is already present.
pub fn insert_sorted_unique(v: &mut Vec<String>, x: String)
    requires
        strictly_sorted(string_views(old(v)@)),
    ensures
        strictly_sorted(string_views(final(v)@)),
        string_views(final(v)@).to_set() == string_views(old(v)@).to_set().insert(x@),
{
    let ghost vs = string_views(v@);
    let n = v.len();
    let mut i: usize = 0;
    while i < n && str_lex_lt(&v[i], &x)
        invariant
            i <= n == v@.len(),
            v@ == old(v)@,
            forall|j: int| 0 <= j < i ==> lex_lt(vs[j], x@),
        decreases n - i,
    {
        i += 1;
    }
    if i < n && !str_lex_lt(&x, &v[i]) {
        // Neither order holds, so the candidate is already present.
        proof {
            lemma_lex_connected(x@, vs[i as int], 0);
            assert(x@ =~= vs[i as int]);
            assert(string_views(v@).to_set() =~= string_views(old(v)@).to_set().insert(x@));
        }
    } else {
        proof {
            // Everything at or past position i sits above x.
            assert forall|j: int| i <= j < vs.len() implies lex_lt(x@, vs[j]) by {
                assert(lex_lt(x@, vs[i as int]));
                if j > i {
                    assert(lex_lt(vs[i as int], vs[j]));
                    lemma_lex_transitive(x@, vs[i as int], vs[j], 0);
                }
            }
        }
        v.insert(i, x);
        proof {
            let ii = i as int;
            let nvs = string_views(v@);
            assert(nvs =~= vs.insert(ii, x@));
            assert(forall|j: int| 0 <= j < ii ==> nvs[j] == vs[j]);
            assert(nvs[ii] == x@);
            assert(forall|j: int| ii <= j < vs.len() ==> nvs[j + 1] == vs[j]);
            assert forall|p: int, q: int| 0 <= p < q < nvs.len() implies lex_lt(nvs[p], nvs[q]) by {
                if q < ii {
                    assert(lex_lt(vs[p], vs[q]));
                } else if p > ii {
                    assert(lex_lt(vs[p - 1], vs[q - 1]));
                } else if p < ii && q == ii {
                    assert(lex_lt(vs[p], x@));
                } else if p == ii {
                    assert(lex_lt(x@, vs[q - 1]));
                } else if p < ii && q > ii {
                    assert(lex_lt(vs[p], vs[q - 1]));
                }
            }
            assert forall|e: Seq<char>| #[trigger] nvs.to_set().contains(e) implies vs.to_set().contains(e) || e == x@ by {
                let k = choose|k: int| 0 <= k < nvs.len() && nvs[k] == e;
                if k < ii {
                    assert(vs[k] == e);
                } else if k > ii {
                    assert(vs[k - 1] == e);
                }
            }
            assert forall|e: Seq<char>| vs.to_set().contains(e) || e == x@ implies #[trigger] nvs.to_set().contains(e) by {
                if vs.contains(e) {
                    let k = choose|k: int| 0 <= k < vs.len() && vs[k] == e;
                    if k < ii {
                        assert(nvs[k] == e);
                    } else {
                        assert(nvs[k + 1] == e);
                    }
                } else {
                    assert(nvs[ii] == e);
                }
            }
            assert(nvs.to_set() =~= vs.to_set().insert(x@));
        }
    }
}

} // verus!
