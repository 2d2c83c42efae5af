//! The per-pattern views of a set of matches: the matches of one pattern,
//! the count per pattern and the distinct patterns.
use crate::match_type::{key_lt, Match};
use crate::order::strictly_sorted;
use std::collections::HashMap;
use std::collections::TryReserveError;
use vstd::prelude::*;

verus! {

/// The matches of `s` that carry pattern `p`, in their order.
pub open spec fn with_pattern(s: Seq<Match>, p: u32) -> Seq<Match> {
    s.filter(|m: Match| m.pattern_id == p)
}

/// How many matches of `s` carry pattern `p`.
pub open spec fn count_of(s: Seq<Match>, p: u32) -> nat {
    with_pattern(s, p).len()
}

/// The number of matches per pattern, for every pattern that occurs in `s`.
pub open spec fn pattern_tally(s: Seq<Match>) -> Map<u32, usize> {
    Map::new(|p: u32| count_of(s, p) > 0, |p: u32| count_of(s, p) as usize)
}

/// Some match of `s` carries pattern `p`.
pub open spec fn carries(s: Seq<Match>, p: u32) -> bool {
    exists|i: int| 0 <= i < s.len() && (#[trigger] s[i]).pattern_id == p
}

/// `ids` lists, in strictly increasing order, exactly the patterns that
/// occur in `s`.
pub open spec fn lists_patterns(ids: Seq<u32>, s: Seq<Match>) -> bool {
    &&& forall|i: int, j: int| 0 <= i < j < ids.len() ==> #[trigger] ids[i] < #[trigger] ids[j]
    &&& forall|p: u32| ids.contains(p) <==> carries(s, p)
}

/// Counting one more match with pattern `m.pattern_id` moves the tally of
/// `s` to that of `s` followed by `m`.
proof fn lemma_tally_push(s: Seq<Match>, m: Match)
    ensures
        forall|p: u32| #[trigger] count_of(s.push(m), p) == count_of(s, p) + if m.pattern_id == p { 1nat } else { 0nat },
{
    assert forall|p: u32| #[trigger] count_of(s.push(m), p) == count_of(s, p) + if m.pattern_id == p { 1nat } else { 0nat } by {
        reveal(Seq::filter);
        assert(s.push(m).drop_last() =~= s);
    }
}

/// A pattern is counted exactly when some match carries it.
proof fn lemma_counted_iff_carried(s: Seq<Match>, p: u32)
    ensures
        count_of(s, p) > 0 <==> carries(s, p),
{
    let pred = |m: Match| m.pattern_id == p;
    let f = s.filter(pred);
    if carries(s, p) {
        let i: int = choose|i: int| 0 <= i < s.len() && (#[trigger] s[i]).pattern_id == p;
        s.lemma_filter_contains(pred, i);
        assert(f.contains(s[i]));
    }
    if f.len() > 0 {
        s.lemma_filter_pred(pred, 0);
        s.lemma_filter_contains_rev(pred, f[0]);
        assert(f.contains(f[0]));
        let i: int = choose|i: int| 0 <= i < s.len() && s[i] == f[0];
        assert(s[i].pattern_id == p);
    }
}

/// The per-pattern views agree: a pattern has a count exactly when some
/// match carries it, its count is the number of matches that selecting that
/// pattern keeps, and the distinct pattern list holds exactly the counted
/// patterns.
pub proof fn lemma_pattern_views_agree(s: Seq<Match>, ids: Seq<u32>)
    requires
        lists_patterns(ids, s),
        s.len() <= usize::MAX,
    ensures
        forall|p: u32| #[trigger] pattern_tally(s).contains_key(p) <==> carries(s, p),
        forall|p: u32| #[trigger] pattern_tally(s).contains_key(p) ==> pattern_tally(s)[p] == with_pattern(s, p).len(),
        ids.to_set() == pattern_tally(s).dom(),
{
    assert forall|p: u32| #[trigger] pattern_tally(s).contains_key(p) <==> carries(s, p) by {
        lemma_counted_iff_carried(s, p);
    }
    assert forall|p: u32| #[trigger] pattern_tally(s).contains_key(p) implies pattern_tally(s)[p] == with_pattern(s, p).len() by {
        s.lemma_filter_len(|m: Match| m.pattern_id == p);
    }
    assert forall|p: u32| ids.to_set().contains(p) <==> #[trigger] pattern_tally(s).dom().contains(p) by {
        lemma_counted_iff_carried(s, p);
    }
    assert(ids.to_set() =~= pattern_tally(s).dom());
}

/// The sum of the counts of the patterns listed in `ids`.
pub open spec fn tally_total(s: Seq<Match>, ids: Seq<u32>) -> nat
    decreases ids.len(),
{
    if ids.len() == 0 {
        0
    } else {
        tally_total(s, ids.drop_last()) + count_of(s, ids.last())
    }
}

/// How many entries of `ids` equal `p`.
pub open spec fn occurrences(ids: Seq<u32>, p: u32) -> nat
    decreases ids.len(),
{
    if ids.len() == 0 {
        0
    } else {
        occurrences(ids.drop_last(), p) + if ids.last() == p { 1nat } else { 0nat }
    }
}

/// Adding one match adds one to the count of its pattern for each time that
/// pattern is listed.
proof fn lemma_tally_total_push(s: Seq<Match>, m: Match, ids: Seq<u32>)
    ensures
        tally_total(s.push(m), ids) == tally_total(s, ids) + occurrences(ids, m.pattern_id),
    decreases ids.len(),
{
    if ids.len() > 0 {
        lemma_tally_total_push(s, m, ids.drop_last());
        lemma_tally_push(s, m);
        assert(count_of(s.push(m), ids.last()) == count_of(s, ids.last()) + if m.pattern_id
            == ids.last() { 1nat } else { 0nat });
    }
}

/// In a list of distinct IDs, a listed ID occurs once.
proof fn lemma_occurs_once(ids: Seq<u32>, p: u32)
    requires
        forall|i: int, j: int| 0 <= i < j < ids.len() ==> #[trigger] ids[i] < #[trigger] ids[j],
        ids.contains(p),
    ensures
        occurrences(ids, p) == 1,
    decreases ids.len(),
{
    let t = ids.drop_last();
    assert forall|i: int, j: int| 0 <= i < j < t.len() implies #[trigger] t[i] < #[trigger] t[j] by {
        assert(t[i] == ids[i] && t[j] == ids[j]);
    }
    if ids.last() == p {
        assert(!t.contains(p)) by {
            if t.contains(p) {
                let k: int = choose|k: int| 0 <= k < t.len() && t[k] == p;
                assert(ids[k] < ids[ids.len() - 1]);
            }
        }
        lemma_occurs_none(t, p);
    } else {
        let k: int = choose|k: int| 0 <= k < ids.len() && ids[k] == p;
        assert(t[k] == p);
        lemma_occurs_once(t, p);
    }
}

/// An ID that is not listed does not occur.
proof fn lemma_occurs_none(ids: Seq<u32>, p: u32)
    requires
        !ids.contains(p),
    ensures
        occurrences(ids, p) == 0,
    decreases ids.len(),
{
    if ids.len() > 0 {
        let t = ids.drop_last();
        assert(!t.contains(p)) by {
            if t.contains(p) {
                let k: int = choose|k: int| 0 <= k < t.len() && t[k] == p;
                assert(ids[k] == p);
            }
        }
        assert(ids[ids.len() - 1] == ids.last());
        lemma_occurs_none(t, p);
    }
}

/// The counts of the patterns an empty sequence lists are all zero.
proof fn lemma_tally_total_empty(ids: Seq<u32>)
    ensures
        tally_total(Seq::<Match>::empty(), ids) == 0,
    decreases ids.len(),
{
    if ids.len() > 0 {
        lemma_tally_total_empty(ids.drop_last());
        reveal(Seq::filter);
        assert(count_of(Seq::<Match>::empty(), ids.last()) == 0);
    }
}

/// Summing over distinct IDs that include every pattern of `s` counts each
/// match of `s` once.
proof fn lemma_tally_total_covers(s: Seq<Match>, ids: Seq<u32>)
    requires
        forall|i: int, j: int| 0 <= i < j < ids.len() ==> #[trigger] ids[i] < #[trigger] ids[j],
        forall|i: int| 0 <= i < s.len() ==> ids.contains(#[trigger] s[i].pattern_id),
    ensures
        tally_total(s, ids) == s.len(),
    decreases s.len(),
{
    if s.len() == 0 {
        assert(s =~= Seq::<Match>::empty());
        lemma_tally_total_empty(ids);
    } else {
        let t = s.drop_last();
        let m = s.last();
        assert forall|i: int| 0 <= i < t.len() implies ids.contains(#[trigger] t[i].pattern_id) by {
            assert(t[i] == s[i]);
        }
        lemma_tally_total_covers(t, ids);
        assert(s =~= t.push(m));
        lemma_tally_total_push(t, m, ids);
        assert(ids.contains(s[s.len() - 1].pattern_id));
        lemma_occurs_once(ids, m.pattern_id);
    }
}

/// The per-pattern counts add up to the number of matches.
pub proof fn lemma_counts_sum_to_len(s: Seq<Match>, ids: Seq<u32>)
    requires
        lists_patterns(ids, s),
    ensures
        tally_total(s, ids) == s.len(),
{
    assert forall|i: int| 0 <= i < s.len() implies ids.contains(#[trigger] s[i].pattern_id) by {
        assert(carries(s, s[i].pattern_id));
    }
    lemma_tally_total_covers(s, ids);
}

/// Two strictly increasing lists of IDs with the same members are equal.
proof fn lemma_increasing_lists_equal(a: Seq<u32>, b: Seq<u32>)
    requires
        forall|i: int, j: int| 0 <= i < j < a.len() ==> #[trigger] a[i] < #[trigger] a[j],
        forall|i: int, j: int| 0 <= i < j < b.len() ==> #[trigger] b[i] < #[trigger] b[j],
        forall|p: u32| a.contains(p) <==> b.contains(p),
    ensures
        a == b,
    decreases a.len(),
{
    if a.len() == 0 {
        if b.len() > 0 {
            assert(b.contains(b[0]));
        }
        assert(a =~= b);
    } else {
        assert(a.contains(a[0]));
        assert(b.len() > 0);
        assert(b.contains(b[0]));
        let j: int = choose|j: int| 0 <= j < b.len() && b[j] == a[0];
        let k: int = choose|k: int| 0 <= k < a.len() && a[k] == b[0];
        if j > 0 {
            assert(b[0] < b[j]);
        }
        if k > 0 {
            assert(a[0] < a[k]);
        }
        assert(a[0] == b[0]);
        let ra = a.drop_first();
        let rb = b.drop_first();
        assert forall|i: int, l: int| 0 <= i < l < ra.len() implies #[trigger] ra[i] < #[trigger] ra[l] by {
            assert(ra[i] == a[i + 1] && ra[l] == a[l + 1]);
        }
        assert forall|i: int, l: int| 0 <= i < l < rb.len() implies #[trigger] rb[i] < #[trigger] rb[l] by {
            assert(rb[i] == b[i + 1] && rb[l] == b[l + 1]);
        }
        assert forall|p: u32| ra.contains(p) <==> rb.contains(p) by {
            if ra.contains(p) {
                let x: int = choose|x: int| 0 <= x < ra.len() && ra[x] == p;
                assert(a[x + 1] == p);
                assert(a[0] < a[x + 1]);
                assert(a.contains(p));
                let y: int = choose|y: int| 0 <= y < b.len() && b[y] == p;
                assert(y != 0);
                assert(rb[y - 1] == p);
            }
            if rb.contains(p) {
                let x: int = choose|x: int| 0 <= x < rb.len() && rb[x] == p;
                assert(b[x + 1] == p);
                assert(b[0] < b[x + 1]);
                assert(b.contains(p));
                let y: int = choose|y: int| 0 <= y < a.len() && a[y] == p;
                assert(y != 0);
                assert(ra[y - 1] == p);
            }
        }
        lemma_increasing_lists_equal(ra, rb);
        assert(a =~= seq![a[0]] + ra);
        assert(b =~= seq![b[0]] + rb);
    }
}

/// The list of distinct patterns of a set is unique: any two lists that
/// each name, in increasing order, exactly the patterns of `s` are equal.
/// So `try_pattern_ids`, when it succeeds, gives what `pattern_ids` gives.
pub proof fn lemma_pattern_id_list_unique(a: Seq<u32>, b: Seq<u32>, s: Seq<Match>)
    requires
        lists_patterns(a, s),
        lists_patterns(b, s),
    ensures
        a == b,
{
    lemma_increasing_lists_equal(a, b);
}

/// Appends to the empty `out` the matches of the ordered `s` that carry
/// pattern `p`.
pub(crate) fn select_pattern(s: &Vec<Match>, p: u32, out: Vec<Match>) -> (r: Vec<Match>)
    requires
        strictly_sorted(s@),
        out@ == Seq::<Match>::empty(),
    ensures
        r@ == with_pattern(s@, p),
        strictly_sorted(r@),
{
    let n: usize = s.len();
    let mut out = out;
    let mut i: usize = 0;
    while i < n
        invariant
            n == s@.len(),
            i <= n,
            strictly_sorted(s@),
            out@ == with_pattern(s@.take(i as int), p),
            strictly_sorted(out@),
            forall|t: int, j: int| 0 <= t < out@.len() && i <= j < n ==> key_lt(#[trigger] out@[t], #[trigger] s@[j]),
        decreases n - i,
    {
        let m: Match = s[i];
        let ghost old_out = out@;
        proof {
            reveal(Seq::filter);
            assert(s@.take(i + 1).drop_last() =~= s@.take(i as int));
            assert(s@.take(i + 1).last() == m);
        }
        if m.pattern_id == p {
            out.push(m);
            assert forall|t: int, j: int| 0 <= t < out@.len() && i + 1 <= j < n implies key_lt(#[trigger] out@[t], #[trigger] s@[j]) by {
                if t < old_out.len() {
                    assert(out@[t] == old_out[t]);
                } else {
                    assert(key_lt(s@[i as int], s@[j]));
                }
            }
            assert forall|a: int, b: int| 0 <= a < b < out@.len() implies key_lt(#[trigger] out@[a], #[trigger] out@[b]) by {
                if b == old_out.len() {
                    assert(out@[a] == old_out[a]);
                } else {
                    assert(out@[a] == old_out[a] && out@[b] == old_out[b]);
                }
            }
        }
        i = i + 1;
    }
    assert(s@.take(n as int) =~= s@);
    out
}

/// Adds to `counts`, which must be empty, the tally of `s`.
pub(crate) fn tally_patterns(s: &Vec<Match>, counts: HashMap<u32, usize>) -> (r: HashMap<u32, usize>)
    requires
        counts@ == Map::<u32, usize>::empty(),
    ensures
        r@ == pattern_tally(s@),
{
    broadcast use vstd::std_specs::hash::group_hash_axioms;
    let n: usize = s.len();
    let mut counts = counts;
    let mut i: usize = 0;
    assert(counts@ =~= pattern_tally(s@.take(0))) by {
        reveal(Seq::filter);
    }
    while i < n
        invariant
            n == s@.len(),
            i <= n,
            counts@ == pattern_tally(s@.take(i as int)),
        decreases n - i,
    {
        let pid: u32 = s[i].pattern_id;
        proof {
            assert(s@.take(i + 1) =~= s@.take(i as int).push(s@[i as int]));
            lemma_tally_push(s@.take(i as int), s@[i as int]);
            s@.take(i as int).filter(|m: Match| m.pattern_id == pid).lemma_filter_len(|m: Match| m.pattern_id == pid);
        }
        match counts.get(&pid) {
            Some(c) => {
                let c: usize = *c;
                counts.insert(pid, c + 1);
            },
            None => {
                counts.insert(pid, 1);
            },
        }
        assert(counts@ =~= pattern_tally(s@.take(i + 1)));
        i = i + 1;
    }
    assert(s@.take(n as int) =~= s@);
    counts
}

/// std's `HashMap::try_reserve`: tries to make room for `additional` more
/// entries. It leaves the entries as they were, whether it succeeds or not;
/// whether it succeeds depends on the allocator.
#[verifier::external_body]
pub(crate) fn reserve_tally(counts: &mut HashMap<u32, usize>, additional: usize) -> (r: std::result::Result<(), TryReserveError>)
    ensures
        final(counts)@ == old(counts)@,
{
    counts.try_reserve(additional)
}

/// Binary search of the strictly increasing `ids` for `p`: `Ok(i)` where
/// `ids[i] == p`, or `Err(k)` where `p` belongs.
fn locate_id(ids: &Vec<u32>, p: u32) -> (r: std::result::Result<usize, usize>)
    requires
        forall|i: int, j: int| 0 <= i < j < ids@.len() ==> #[trigger] ids@[i] < #[trigger] ids@[j],
    ensures
        match r {
            Ok(i) => i < ids@.len() && ids@[i as int] == p,
            Err(k) => k <= ids@.len() && (forall|i: int| 0 <= i < k ==> #[trigger] ids@[i] < p) && (forall|i: int| k <= i < ids@.len() ==> p < #[trigger] ids@[i]),
        },
{
    let mut lo: usize = 0;
    let mut hi: usize = ids.len();
    while lo < hi
        invariant
            lo <= hi <= ids@.len(),
            forall|i: int, j: int| 0 <= i < j < ids@.len() ==> #[trigger] ids@[i] < #[trigger] ids@[j],
            forall|i: int| 0 <= i < lo ==> #[trigger] ids@[i] < p,
            forall|i: int| hi <= i < ids@.len() ==> p < #[trigger] ids@[i],
        decreases hi - lo,
    {
        let mid: usize = lo + (hi - lo) / 2;
        if ids[mid] < p {
            lo = mid + 1;
        } else if ids[mid] > p {
            hi = mid;
        } else {
            return Ok(mid);
        }
    }
    Err(lo)
}

/// Adds to `ids`, which must be empty, the distinct patterns of `s` in
/// increasing order.
pub(crate) fn distinct_patterns(s: &Vec<Match>, ids: Vec<u32>) -> (r: Vec<u32>)
    requires
        ids@ == Seq::<u32>::empty(),
    ensures
        lists_patterns(r@, s@),
{
    let n: usize = s.len();
    let mut ids = ids;
    let mut i: usize = 0;
    while i < n
        invariant
            n == s@.len(),
            i <= n,
            forall|a: int, b: int| 0 <= a < b < ids@.len() ==> #[trigger] ids@[a] < #[trigger] ids@[b],
            forall|p: u32| ids@.contains(p) <==> carries(s@.take(i as int), p),
        decreases n - i,
    {
        let pid: u32 = s[i].pattern_id;
        let ghost before = ids@;
        match locate_id(&ids, pid) {
            Ok(_) => {},
            Err(k) => {
                ids.insert(k, pid);
                assert forall|a: int, b: int| 0 <= a < b < ids@.len() implies #[trigger] ids@[a] < #[trigger] ids@[b] by {
                    if b < k {
                        assert(ids@[a] == before[a] && ids@[b] == before[b]);
                    } else if b == k {
                        assert(ids@[a] == before[a]);
                    } else if a < k {
                        assert(ids@[a] == before[a] && ids@[b] == before[b - 1]);
                    } else if a == k {
                        assert(ids@[b] == before[b - 1]);
                    } else {
                        assert(ids@[a] == before[a - 1] && ids@[b] == before[b - 1]);
                    }
                }
            },
        }
        assert forall|p: u32| ids@.contains(p) <==> carries(s@.take(i + 1), p) by {
            let t = s@.take(i + 1);
            if ids@.contains(p) {
                let q: int = choose|q: int| 0 <= q < ids@.len() && ids@[q] == p;
                if p == pid {
                    assert(t[i as int] == s@[i as int]);
                } else {
                    assert(before.contains(p)) by {
                        if ids@ != before {
                            let k: int = choose|k: int| 0 <= k <= before.len() && ids@ == before.insert(k, pid);
                            if q < k {
                                assert(before[q] == p);
                            } else {
                                assert(before[q - 1] == p);
                            }
                        }
                    }
                    let w: int = choose|w: int| 0 <= w < i && (#[trigger] s@.take(i as int)[w]).pattern_id == p;
                    assert(t[w] == s@.take(i as int)[w]);
                }
            }
            if carries(t, p) {
                let w: int = choose|w: int| 0 <= w < t.len() && (#[trigger] t[w]).pattern_id == p;
                if w < i {
                    assert(s@.take(i as int)[w] == t[w]);
                    assert(before.contains(p));
                    let q: int = choose|q: int| 0 <= q < before.len() && before[q] == p;
                    if ids@ != before {
                        let k: int = choose|k: int| 0 <= k <= before.len() && ids@ == before.insert(k, pid);
                        if q < k {
                            assert(ids@[q] == p);
                        } else {
                            assert(ids@[q + 1] == p);
                        }
                    }
                } else {
                    assert(t[w] == s@[i as int]);
                    if ids@ == before {
                        let q: int = choose|q: int| 0 <= q < ids@.len() && ids@[q] == pid;
                        assert(ids@[q] == pid);
                    } else {
                        let k: int = choose|k: int| 0 <= k <= before.len() && ids@ == before.insert(k, pid);
                        assert(ids@[k] == pid);
                    }
                }
            }
        }
        i = i + 1;
    }
    assert(s@.take(n as int) =~= s@);
    ids
}

} // verus!
