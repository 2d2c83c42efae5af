//! Sequences of matches kept in strictly increasing `(start, pattern_id, end)`
//! order: the facts about them, lookup by binary search, and the sorted,
//! duplicate-free merge that `MatchSet` builds on.
use crate::match_type::{key_lt, same_key, Match};
use vstd::prelude::*;

verus! {

/// Every element is strictly below every later one; in particular no two
/// elements denote the same finding.
pub open spec fn strictly_sorted(s: Seq<Match>) -> bool {
    forall|i: int, j: int| 0 <= i < j < s.len() ==> key_lt(#[trigger] s[i], #[trigger] s[j])
}

/// Some element of `s` denotes the same finding as `m`.
pub open spec fn has_key(s: Seq<Match>, m: Match) -> bool {
    exists|i: int| 0 <= i < s.len() && same_key(#[trigger] s[i], m)
}

/// Every element of `out` is, padding included, one of the elements of `src`.
pub open spec fn drawn_from(out: Seq<Match>, src: Seq<Match>) -> bool {
    forall|j: int| 0 <= j < out.len() ==> #[trigger] src.contains(out[j])
}

/// Every finding of `src` is present in `out`.
pub open spec fn keeps_keys(out: Seq<Match>, src: Seq<Match>) -> bool {
    forall|i: int| 0 <= i < src.len() ==> #[trigger] has_key(out, src[i])
}

/// `out` is the sorted, duplicate-free form of `src`: the findings of `src`,
/// each once, in increasing order. Where `src` holds one finding several
/// times with different padding, which of those elements stays is left open.
pub open spec fn canonical(out: Seq<Match>, src: Seq<Match>) -> bool {
    &&& strictly_sorted(out)
    &&& drawn_from(out, src)
    &&& keeps_keys(out, src)
}

/// `p` is where `m` belongs in `s`: everything before it is below `m`,
/// everything from it on is above `m`.
pub open spec fn slot_for(s: Seq<Match>, m: Match, p: int) -> bool {
    &&& 0 <= p <= s.len()
    &&& forall|i: int| 0 <= i < p ==> key_lt(#[trigger] s[i], m)
    &&& forall|i: int| p <= i < s.len() ==> key_lt(m, #[trigger] s[i])
}

/// The sequence after adding `m`: unchanged if the finding is already
/// present, otherwise `m` placed at its slot.
pub open spec fn inserted(s: Seq<Match>, m: Match) -> Seq<Match> {
    if has_key(s, m) {
        s
    } else {
        s.insert(choose|p: int| slot_for(s, m, p), m)
    }
}

/// A slot, where it exists, is unique.
pub proof fn lemma_slot_unique(s: Seq<Match>, m: Match, p: int, q: int)
    requires
        slot_for(s, m, p),
        slot_for(s, m, q),
    ensures
        p == q,
{
    if p < q {
        assert(key_lt(s[p], m));
        assert(key_lt(m, s[p]));
    } else if q < p {
        assert(key_lt(s[q], m));
        assert(key_lt(m, s[q]));
    }
}

/// Placing `m` at its slot keeps the sequence strictly sorted.
pub proof fn lemma_insert_at_slot(s: Seq<Match>, m: Match, p: int)
    requires
        strictly_sorted(s),
        slot_for(s, m, p),
    ensures
        strictly_sorted(s.insert(p, m)),
        s.insert(p, m).len() == s.len() + 1,
{
    let t = s.insert(p, m);
    assert forall|i: int, j: int| 0 <= i < j < t.len() implies key_lt(#[trigger] t[i], #[trigger] t[j]) by {
        if j < p {
            assert(t[i] == s[i] && t[j] == s[j]);
        } else if j == p {
            assert(t[i] == s[i]);
        } else if i < p {
            assert(t[i] == s[i] && t[j] == s[j - 1]);
            assert(key_lt(s[i], m));
            assert(key_lt(m, s[j - 1]));
        } else if i == p {
            assert(t[j] == s[j - 1]);
        } else {
            assert(t[i] == s[i - 1] && t[j] == s[j - 1]);
        }
    }
}

/// In a strictly sorted sequence without the finding of `m`, `m` has a slot,
/// and `inserted` puts `m` there.
pub proof fn lemma_inserted_at(s: Seq<Match>, m: Match, p: int)
    requires
        strictly_sorted(s),
        !has_key(s, m),
        slot_for(s, m, p),
    ensures
        inserted(s, m) == s.insert(p, m),
        strictly_sorted(inserted(s, m)),
{
    let q: int = choose|q: int| slot_for(s, m, q);
    lemma_slot_unique(s, m, p, q);
    lemma_insert_at_slot(s, m, p);
}

/// `canonical` survives replacing the source by one with the same findings
/// drawn from a larger pool.
pub proof fn lemma_canonical_compose(r: Seq<Match>, a: Seq<Match>, b: Seq<Match>, sa: Seq<Match>, sb: Seq<Match>)
    requires
        canonical(r, a + b),
        drawn_from(a, sa),
        keeps_keys(a, sa),
        drawn_from(b, sb),
        keeps_keys(b, sb),
    ensures
        canonical(r, sa + sb),
{
    let ab = a + b;
    let s = sa + sb;
    assert forall|j: int| 0 <= j < r.len() implies #[trigger] s.contains(r[j]) by {
        assert(ab.contains(r[j]));
        let k: int = choose|k: int| 0 <= k < ab.len() && ab[k] == r[j];
        if k < a.len() {
            assert(ab[k] == a[k]);
            assert(sa.contains(a[k]));
            let t: int = choose|t: int| 0 <= t < sa.len() && sa[t] == a[k];
            assert(s[t] == sa[t]);
        } else {
            assert(ab[k] == b[k - a.len()]);
            assert(sb.contains(b[k - a.len()]));
            let t: int = choose|t: int| 0 <= t < sb.len() && sb[t] == b[k - a.len()];
            assert(s[sa.len() + t] == sb[t]);
        }
    }
    assert forall|i: int| 0 <= i < s.len() implies has_key(r, #[trigger] s[i]) by {
        if i < sa.len() {
            assert(s[i] == sa[i]);
            assert(has_key(a, sa[i]));
            let k: int = choose|k: int| 0 <= k < a.len() && same_key(a[k], sa[i]);
            assert(ab[k] == a[k]);
            assert(has_key(r, ab[k]));
            let t: int = choose|t: int| 0 <= t < r.len() && same_key(r[t], ab[k]);
            assert(same_key(r[t], s[i]));
        } else {
            assert(s[i] == sb[i - sa.len()]);
            assert(has_key(b, sb[i - sa.len()]));
            let k: int = choose|k: int| 0 <= k < b.len() && same_key(b[k], sb[i - sa.len()]);
            assert(ab[a.len() + k] == b[k]);
            assert(has_key(r, ab[a.len() + k]));
            let t: int = choose|t: int| 0 <= t < r.len() && same_key(r[t], ab[a.len() + k]);
            assert(same_key(r[t], s[i]));
        }
    }
}

/// A strictly sorted sequence is its own canonical form.
pub proof fn lemma_sorted_is_canonical(s: Seq<Match>)
    requires
        strictly_sorted(s),
    ensures
        canonical(s, s),
{
    assert forall|j: int| 0 <= j < s.len() implies s.contains(#[trigger] s[j]) by {}
    assert forall|i: int| 0 <= i < s.len() implies has_key(s, #[trigger] s[i]) by {
        assert(same_key(s[i], s[i]));
    }
}

/// In a strictly sorted sequence without the finding of `m`, `m` has a slot.
pub proof fn lemma_slot_exists(s: Seq<Match>, m: Match) -> (p: int)
    requires
        strictly_sorted(s),
        !has_key(s, m),
    ensures
        slot_for(s, m, p),
    decreases s.len(),
{
    if s.len() == 0 {
        0
    } else {
        let t = s.drop_last();
        assert forall|i: int, j: int| 0 <= i < j < t.len() implies key_lt(#[trigger] t[i], #[trigger] t[j]) by {
            assert(t[i] == s[i] && t[j] == s[j]);
        }
        assert(!has_key(t, m)) by {
            if has_key(t, m) {
                let k: int = choose|k: int| 0 <= k < t.len() && same_key(t[k], m);
                assert(s[k] == t[k]);
            }
        }
        let q = lemma_slot_exists(t, m);
        let last = s[s.len() - 1];
        assert(!same_key(last, m));
        if key_lt(last, m) {
            assert forall|i: int| 0 <= i < s.len() implies key_lt(#[trigger] s[i], m) by {
                if i < s.len() - 1 {
                    assert(key_lt(s[i], last));
                }
            }
            s.len() as int
        } else {
            assert forall|i: int| 0 <= i < q implies key_lt(#[trigger] s[i], m) by {
                assert(s[i] == t[i]);
            }
            assert forall|i: int| q <= i < s.len() implies key_lt(m, #[trigger] s[i]) by {
                if i < s.len() - 1 {
                    assert(s[i] == t[i]);
                }
            }
            q
        }
    }
}

/// What `inserted` holds: the old elements, and `m` exactly when its
/// finding was missing; and it stays strictly sorted.
pub proof fn lemma_inserted_contents(s: Seq<Match>, m: Match)
    requires
        strictly_sorted(s),
    ensures
        strictly_sorted(inserted(s, m)),
        has_key(inserted(s, m), m),
        forall|e: Match| #[trigger] inserted(s, m).contains(e) <==> (s.contains(e) || (e == m
            && !has_key(s, m))),
        forall|e: Match| #[trigger] has_key(inserted(s, m), e) <==> (has_key(s, e) || same_key(e, m)),
{
    if has_key(s, m) {
        assert forall|e: Match| #[trigger] has_key(inserted(s, m), e) <==> (has_key(s, e) || same_key(e, m)) by {
            if same_key(e, m) {
                let k: int = choose|k: int| 0 <= k < s.len() && same_key(s[k], m);
                assert(same_key(s[k], e));
            }
        }
    } else {
        let p = lemma_slot_exists(s, m);
        lemma_inserted_at(s, m, p);
        let t = s.insert(p, m);
        assert(t[p] == m);
        assert(same_key(t[p], m));
        assert forall|e: Match| #[trigger] t.contains(e) <==> (s.contains(e) || (e == m && !has_key(s, m))) by {
            if t.contains(e) {
                let k: int = choose|k: int| 0 <= k < t.len() && t[k] == e;
                if k < p {
                    assert(s[k] == e);
                } else if k > p {
                    assert(s[k - 1] == e);
                }
            }
            if s.contains(e) {
                let k: int = choose|k: int| 0 <= k < s.len() && s[k] == e;
                if k < p {
                    assert(t[k] == e);
                } else {
                    assert(t[k + 1] == e);
                }
            }
        }
        assert forall|e: Match| #[trigger] has_key(t, e) <==> (has_key(s, e) || same_key(e, m)) by {
            if has_key(t, e) {
                let k: int = choose|k: int| 0 <= k < t.len() && same_key(t[k], e);
                if k < p {
                    assert(s[k] == t[k]);
                } else if k > p {
                    assert(s[k - 1] == t[k]);
                }
            }
            if has_key(s, e) {
                let k: int = choose|k: int| 0 <= k < s.len() && same_key(s[k], e);
                if k < p {
                    assert(t[k] == s[k]);
                } else {
                    assert(t[k + 1] == s[k]);
                }
            }
        }
    }
}

/// Two strictly sorted sequences holding the same elements are equal.
pub proof fn lemma_sorted_unique(x: Seq<Match>, y: Seq<Match>)
    requires
        strictly_sorted(x),
        strictly_sorted(y),
        forall|e: Match| x.contains(e) <==> y.contains(e),
    ensures
        x == y,
    decreases x.len(),
{
    if x.len() == 0 {
        if y.len() > 0 {
            assert(y.contains(y[0]));
        }
        assert(x =~= y);
    } else {
        assert(x.contains(x[0]));
        assert(y.len() > 0);
        assert(y.contains(y[0]));
        let k: int = choose|k: int| 0 <= k < y.len() && y[k] == x[0];
        let j: int = choose|j: int| 0 <= j < x.len() && x[j] == y[0];
        if k > 0 {
            assert(key_lt(y[0], y[k]));
            if j > 0 {
                assert(key_lt(x[0], x[j]));
            }
            assert(false);
        }
        let x1 = x.drop_first();
        let y1 = y.drop_first();
        assert forall|a: int, b: int| 0 <= a < b < x1.len() implies key_lt(#[trigger] x1[a], #[trigger] x1[b]) by {
            assert(x1[a] == x[a + 1] && x1[b] == x[b + 1]);
        }
        assert forall|a: int, b: int| 0 <= a < b < y1.len() implies key_lt(#[trigger] y1[a], #[trigger] y1[b]) by {
            assert(y1[a] == y[a + 1] && y1[b] == y[b + 1]);
        }
        assert forall|e: Match| x1.contains(e) <==> y1.contains(e) by {
            if x1.contains(e) {
                let a: int = choose|a: int| 0 <= a < x1.len() && x1[a] == e;
                assert(x[a + 1] == e);
                assert(key_lt(x[0], x[a + 1]));
                assert(y.contains(e));
                let b: int = choose|b: int| 0 <= b < y.len() && y[b] == e;
                assert(b != 0);
                assert(y1[b - 1] == e);
            }
            if y1.contains(e) {
                let a: int = choose|a: int| 0 <= a < y1.len() && y1[a] == e;
                assert(y[a + 1] == e);
                assert(key_lt(y[0], y[a + 1]));
                assert(x.contains(e));
                let b: int = choose|b: int| 0 <= b < x.len() && x[b] == e;
                assert(b != 0);
                assert(x1[b - 1] == e);
            }
        }
        lemma_sorted_unique(x1, y1);
        assert(x =~= seq![x[0]] + x1);
        assert(y =~= seq![y[0]] + y1);
    }
}

/// Two strictly sorted sequences holding the same findings agree finding by
/// finding; they can differ only in padding.
pub proof fn lemma_sorted_keys_unique(x: Seq<Match>, y: Seq<Match>)
    requires
        strictly_sorted(x),
        strictly_sorted(y),
        forall|e: Match| has_key(x, e) <==> has_key(y, e),
    ensures
        x.len() == y.len(),
        forall|i: int| 0 <= i < x.len() ==> same_key(#[trigger] x[i], y[i]),
    decreases x.len(),
{
    if x.len() == 0 {
        if y.len() > 0 {
            assert(same_key(y[0], y[0]));
            assert(has_key(y, y[0]));
        }
    } else {
        assert(same_key(x[0], x[0]));
        assert(has_key(x, x[0]));
        assert(has_key(y, x[0]));
        assert(y.len() > 0);
        assert(same_key(y[0], y[0]));
        assert(has_key(y, y[0]));
        assert(has_key(x, y[0]));
        let k: int = choose|k: int| 0 <= k < y.len() && same_key(y[k], x[0]);
        let j: int = choose|j: int| 0 <= j < x.len() && same_key(x[j], y[0]);
        if k > 0 {
            assert(key_lt(y[0], y[k]));
            if j > 0 {
                assert(key_lt(x[0], x[j]));
            }
            assert(false);
        }
        let x1 = x.drop_first();
        let y1 = y.drop_first();
        assert forall|a: int, b: int| 0 <= a < b < x1.len() implies key_lt(#[trigger] x1[a], #[trigger] x1[b]) by {
            assert(x1[a] == x[a + 1] && x1[b] == x[b + 1]);
        }
        assert forall|a: int, b: int| 0 <= a < b < y1.len() implies key_lt(#[trigger] y1[a], #[trigger] y1[b]) by {
            assert(y1[a] == y[a + 1] && y1[b] == y[b + 1]);
        }
        assert forall|e: Match| has_key(x1, e) <==> has_key(y1, e) by {
            if has_key(x1, e) {
                let a: int = choose|a: int| 0 <= a < x1.len() && same_key(x1[a], e);
                assert(x[a + 1] == x1[a]);
                assert(key_lt(x[0], x[a + 1]));
                assert(has_key(x, e));
                assert(has_key(y, e));
                let b: int = choose|b: int| 0 <= b < y.len() && same_key(y[b], e);
                assert(b != 0);
                assert(y1[b - 1] == y[b]);
            }
            if has_key(y1, e) {
                let a: int = choose|a: int| 0 <= a < y1.len() && same_key(y1[a], e);
                assert(y[a + 1] == y1[a]);
                assert(key_lt(y[0], y[a + 1]));
                assert(has_key(y, e));
                assert(has_key(x, e));
                let b: int = choose|b: int| 0 <= b < x.len() && same_key(x[b], e);
                assert(b != 0);
                assert(x1[b - 1] == x[b]);
            }
        }
        lemma_sorted_keys_unique(x1, y1);
        assert forall|i: int| 0 <= i < x.len() implies same_key(#[trigger] x[i], y[i]) by {
            if i > 0 {
                assert(x[i] == x1[i - 1] && y[i] == y1[i - 1]);
            }
        }
    }
}

/// Adding a finding that is already present changes nothing: inserting the
/// same match twice is inserting it once.
pub proof fn lemma_insert_idempotent(s: Seq<Match>, m: Match)
    requires
        strictly_sorted(s),
    ensures
        inserted(inserted(s, m), m) == inserted(s, m),
{
    lemma_inserted_contents(s, m);
}

/// Inserting two different findings gives the same set whichever goes in
/// first.
pub proof fn lemma_insert_commutes(s: Seq<Match>, a: Match, b: Match)
    requires
        strictly_sorted(s),
        !same_key(a, b),
    ensures
        inserted(inserted(s, a), b) == inserted(inserted(s, b), a),
{
    lemma_inserted_contents(s, a);
    lemma_inserted_contents(s, b);
    lemma_inserted_contents(inserted(s, a), b);
    lemma_inserted_contents(inserted(s, b), a);
    let x = inserted(inserted(s, a), b);
    let y = inserted(inserted(s, b), a);
    assert forall|e: Match| x.contains(e) <==> y.contains(e) by {
        if same_key(b, a) {
            assert(same_key(a, b));
        }
    }
    lemma_sorted_unique(x, y);
}

/// Inserting one match yields the canonical form of the old matches followed
/// by it: `insert` agrees with extending by that single match.
pub proof fn lemma_insert_is_extend_by_one(s: Seq<Match>, m: Match)
    requires
        strictly_sorted(s),
    ensures
        canonical(inserted(s, m), s.push(m)),
{
    lemma_inserted_contents(s, m);
    let t = inserted(s, m);
    let src = s.push(m);
    assert forall|j: int| 0 <= j < t.len() implies src.contains(#[trigger] t[j]) by {
        assert(t.contains(t[j]));
        if s.contains(t[j]) {
            let k: int = choose|k: int| 0 <= k < s.len() && s[k] == t[j];
            assert(src[k] == s[k]);
        } else {
            assert(src[s.len() as int] == m);
        }
    }
    assert forall|i: int| 0 <= i < src.len() implies has_key(t, #[trigger] src[i]) by {
        if i < s.len() {
            assert(src[i] == s[i]);
            assert(same_key(s[i], s[i]));
            assert(has_key(s, s[i]));
        } else {
            assert(src[i] == m);
        }
    }
}

/// A finding of a sequence drawn from `src` is a finding of every sequence
/// that keeps the findings of `src`.
proof fn lemma_keys_carry_over(x: Seq<Match>, y: Seq<Match>, src: Seq<Match>, e: Match)
    requires
        drawn_from(x, src),
        keeps_keys(y, src),
        has_key(x, e),
    ensures
        has_key(y, e),
{
    let k: int = choose|k: int| 0 <= k < x.len() && same_key(x[k], e);
    assert(src.contains(x[k]));
    let t: int = choose|t: int| 0 <= t < src.len() && src[t] == x[k];
    assert(has_key(y, src[t]));
    let u: int = choose|u: int| 0 <= u < y.len() && same_key(y[u], src[t]);
    assert(same_key(y[u], e));
}

/// The sorted, duplicate-free form of a sequence is fixed up to padding:
/// two canonical forms of one source agree finding by finding.
pub proof fn lemma_canonical_determined(x: Seq<Match>, y: Seq<Match>, src: Seq<Match>)
    requires
        canonical(x, src),
        canonical(y, src),
    ensures
        x.len() == y.len(),
        forall|i: int| 0 <= i < x.len() ==> same_key(#[trigger] x[i], y[i]),
{
    lemma_same_findings(x, y, src);
    lemma_sorted_keys_unique(x, y);
}

/// Two sequences drawn from `src` that keep its findings hold the same
/// findings.
proof fn lemma_same_findings(x: Seq<Match>, y: Seq<Match>, src: Seq<Match>)
    requires
        drawn_from(x, src),
        keeps_keys(x, src),
        drawn_from(y, src),
        keeps_keys(y, src),
    ensures
        forall|e: Match| has_key(x, e) <==> has_key(y, e),
{
    assert forall|e: Match| has_key(x, e) implies has_key(y, e) by {
        lemma_keys_carry_over(x, y, src, e);
    }
    assert forall|e: Match| has_key(y, e) implies has_key(x, e) by {
        lemma_keys_carry_over(y, x, src, e);
    }
}

/// Binary search of a strictly sorted vector for the finding of `m`:
/// `Ok(i)` where element `i` is that finding, `Err(p)` with `p` its slot.
pub fn search(v: &Vec<Match>, m: &Match) -> (r: Result<usize, usize>)
    requires
        strictly_sorted(v@),
    ensures
        match r {
            Ok(i) => i < v.len() && same_key(v@[i as int], *m),
            Err(p) => slot_for(v@, *m, p as int),
        },
        r is Err <==> !has_key(v@, *m),
{
    let mut lo: usize = 0;
    let mut hi: usize = v.len();
    while lo < hi
        invariant
            lo <= hi <= v.len(),
            strictly_sorted(v@),
            forall|i: int| 0 <= i < lo ==> key_lt(#[trigger] v@[i], *m),
            forall|i: int| hi <= i < v.len() ==> key_lt(*m, #[trigger] v@[i]),
        decreases hi - lo,
    {
        let mid: usize = lo + (hi - lo) / 2;
        if v[mid].precedes(m) {
                assert forall|i: int| 0 <= i < mid + 1 implies key_lt(#[trigger] v@[i], *m) by {
                    if i < mid {
                        assert(key_lt(v@[i], v@[mid as int]));
                    }
                }
                lo = mid + 1;
        } else if m.precedes(&v[mid]) {
                assert forall|i: int| mid <= i < v.len() implies key_lt(*m, #[trigger] v@[i]) by {
                    if i > mid {
                        assert(key_lt(v@[mid as int], v@[i]));
                    }
                }
                hi = mid;
        } else {
                assert(same_key(v@[mid as int], *m));
                assert(has_key(v@, *m));
                return Ok(mid);
        }
    }
    assert forall|i: int| 0 <= i < v.len() implies !same_key(#[trigger] v@[i], *m) by {
        if i < lo {
            assert(key_lt(v@[i], *m));
        } else {
            assert(key_lt(*m, v@[i]));
        }
    }
    Err(lo)
}

/// Merges two strictly sorted vectors into the canonical form of their
/// concatenation. Where both hold a finding, the element of `a` is kept.
pub fn merge_sorted(a: &Vec<Match>, b: &Vec<Match>) -> (r: Vec<Match>)
    requires
        strictly_sorted(a@),
        strictly_sorted(b@),
    ensures
        canonical(r@, a@ + b@),
        r@.len() <= a@.len() + b@.len(),
{
    let ghost ab = a@ + b@;
    let mut out: Vec<Match> = Vec::new();
    let mut i: usize = 0;
    let mut j: usize = 0;
    while i < a.len() || j < b.len()
        invariant
            i <= a.len(),
            j <= b.len(),
            ab == a@ + b@,
            strictly_sorted(a@),
            strictly_sorted(b@),
            strictly_sorted(out@),
            out@.len() <= i + j,
            drawn_from(out@, ab),
            forall|k: int| 0 <= k < i ==> has_key(out@, #[trigger] a@[k]),
            forall|k: int| 0 <= k < j ==> has_key(out@, #[trigger] b@[k]),
            out@.len() > 0 ==> forall|k: int| i <= k < a.len() ==> key_lt(out@.last(), #[trigger] a@[k]),
            out@.len() > 0 ==> forall|k: int| j <= k < b.len() ==> key_lt(out@.last(), #[trigger] b@[k]),
        decreases a.len() + b.len() - i - j,
    {
        let ghost old_out = out@;
        let take_a: bool;
        let take_b: bool;
        if i < a.len() && j < b.len() {
            if a[i].precedes(&b[j]) {
                take_a = true;
                take_b = false;
            } else if b[j].precedes(&a[i]) {
                take_a = false;
                take_b = true;
            } else {
                take_a = true;
                take_b = true;
            }
        } else if i < a.len() {
            take_a = true;
            take_b = false;
        } else {
            take_a = false;
            take_b = true;
        }
        let x = if take_a { a[i] } else { b[j] };
        // `x` is the least remaining element.
        assert(take_a ==> x == a@[i as int]);
        assert(!take_a ==> x == b@[j as int]);
        assert(take_a && take_b ==> same_key(a@[i as int], b@[j as int]));
        assert(take_a && !take_b && j < b.len() ==> key_lt(a@[i as int], b@[j as int]));
        assert(!take_a && i < a.len() ==> key_lt(b@[j as int], a@[i as int]));
        out.push(x);
        assert(out@ == old_out.push(x));
        if take_a {
            assert(ab[i as int] == a@[i as int]);
        } else {
            assert(ab[a.len() + j] == b@[j as int]);
        }
        assert forall|t: int| 0 <= t < out@.len() implies ab.contains(#[trigger] out@[t]) by {
            if t < old_out.len() {
                assert(out@[t] == old_out[t]);
            } else {
                if take_a {
                    assert(ab[i as int] == out@[t]);
                } else {
                    assert(ab[a.len() + j] == out@[t]);
                }
            }
        }
        assert forall|p: int, q: int| 0 <= p < q < out@.len() implies key_lt(#[trigger] out@[p], #[trigger] out@[q]) by {
            if q == old_out.len() {
                assert(out@[p] == old_out[p]);
                if p < old_out.len() - 1 {
                    assert(key_lt(old_out[p], old_out.last()));
                }
                if take_a {
                    assert(key_lt(old_out.last(), a@[i as int]));
                } else {
                    assert(key_lt(old_out.last(), b@[j as int]));
                }
            } else {
                assert(out@[p] == old_out[p] && out@[q] == old_out[q]);
            }
        }
        let ghost ni: int = if take_a { i + 1 } else { i as int };
        let ghost nj: int = if take_b { j + 1 } else { j as int };
        assert forall|k: int| 0 <= k < ni implies has_key(out@, #[trigger] a@[k]) by {
            if k < i {
                assert(has_key(old_out, a@[k]));
                let t: int = choose|t: int| 0 <= t < old_out.len() && same_key(old_out[t], a@[k]);
                assert(out@[t] == old_out[t]);
            } else {
                assert(out@[old_out.len() as int] == x);
            }
        }
        assert forall|k: int| 0 <= k < nj implies has_key(out@, #[trigger] b@[k]) by {
            if k < j {
                assert(has_key(old_out, b@[k]));
                let t: int = choose|t: int| 0 <= t < old_out.len() && same_key(old_out[t], b@[k]);
                assert(out@[t] == old_out[t]);
            } else {
                assert(out@[old_out.len() as int] == x);
            }
        }
        assert forall|k: int| ni <= k < a.len() implies key_lt(out@.last(), #[trigger] a@[k]) by {
            assert(out@.last() == x);
            if i < a.len() {
                if k > i {
                    assert(key_lt(a@[i as int], a@[k]));
                }
            }
        }
        assert forall|k: int| nj <= k < b.len() implies key_lt(out@.last(), #[trigger] b@[k]) by {
            assert(out@.last() == x);
            if j < b.len() {
                if k > j {
                    assert(key_lt(b@[j as int], b@[k]));
                }
            }
        }
        if take_a {
            i = i + 1;
        }
        if take_b {
            j = j + 1;
        }
    }
    assert forall|k: int| 0 <= k < ab.len() implies has_key(out@, #[trigger] ab[k]) by {
        if k < a.len() {
            assert(ab[k] == a@[k]);
        } else {
            assert(ab[k] == b@[k - a.len()]);
        }
    }
    out
}

/// The canonical form of `v[lo..hi]`, by merge sort.
pub fn sort_range(v: &Vec<Match>, lo: usize, hi: usize) -> (r: Vec<Match>)
    requires
        lo <= hi <= v.len(),
    ensures
        canonical(r@, v@.subrange(lo as int, hi as int)),
        r@.len() <= hi - lo,
    decreases hi - lo,
{
    if hi - lo == 0 {
        let r: Vec<Match> = Vec::new();
        assert(v@.subrange(lo as int, hi as int) =~= Seq::<Match>::empty());
        r
    } else if hi - lo == 1 {
        let mut r: Vec<Match> = Vec::new();
        r.push(v[lo]);
        let ghost s = v@.subrange(lo as int, hi as int);
        assert(s[0] == r@[0]);
        assert(s.contains(r@[0]));
        assert(has_key(r@, s[0]));
        r
    } else {
        let mid: usize = lo + (hi - lo) / 2;
        let a = sort_range(v, lo, mid);
        let b = sort_range(v, mid, hi);
        let r = merge_sorted(&a, &b);
        proof {
            lemma_canonical_compose(
                r@,
                a@,
                b@,
                v@.subrange(lo as int, mid as int),
                v@.subrange(mid as int, hi as int),
            );
            assert(v@.subrange(lo as int, mid as int) + v@.subrange(mid as int, hi as int)
                =~= v@.subrange(lo as int, hi as int));
        }
        r
    }
}

} // verus!
