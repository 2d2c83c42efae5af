//! Merging the ordered matches of a set into groups of overlapping (or
//! touching) matches: what the result is, the facts about it, and the loop
//! that computes it.
use crate::match_type::{key_lt, Match};
use crate::order::strictly_sorted;
use vstd::prelude::*;

verus! {

/// A group led by `cur` takes in the next match `m`: their ranges overlap,
/// or `m` is an empty range at a byte that `cur` covers, or `m` starts where
/// `cur` ends and both carry the same pattern.
pub open spec fn joins(cur: Match, m: Match) -> bool {
    ||| cur.meets(m)
    ||| m.start == m.end && cur.start <= m.start && m.start < cur.end
    ||| cur.end == m.start && cur.pattern_id == m.pattern_id
}

/// `cur` with its end pushed out to cover `m`'s end.
pub open spec fn stretched(cur: Match, m: Match) -> Match {
    Match {
        pattern_id: cur.pattern_id,
        start: cur.start,
        end: if m.end > cur.end {
            m.end
        } else {
            cur.end
        },
        padding: cur.padding,
    }
}

/// The groups formed from `cur` followed by `rest`, one match per group:
/// each group keeps its first match's pattern, start and padding and ends at
/// the furthest end among its members.
pub open spec fn coalesce(cur: Match, rest: Seq<Match>) -> Seq<Match>
    decreases rest.len(),
{
    if rest.len() == 0 {
        seq![cur]
    } else if joins(cur, rest[0]) {
        coalesce(stretched(cur, rest[0]), rest.drop_first())
    } else {
        seq![cur] + coalesce(rest[0], rest.drop_first())
    }
}

/// The result of merging the ordered matches `s` into groups.
pub open spec fn merged(s: Seq<Match>) -> Seq<Match> {
    if s.len() == 0 {
        s
    } else {
        coalesce(s[0], s.drop_first())
    }
}

/// Some match of `t` contains the byte range of `x`.
pub open spec fn covered_by(t: Seq<Match>, x: Match) -> bool {
    exists|i: int| 0 <= i < t.len() && (#[trigger] t[i]).covers(x)
}

/// Every match has a well-formed byte range (`start <= end`).
pub open spec fn all_valid(s: Seq<Match>) -> bool {
    forall|i: int| 0 <= i < s.len() ==> (#[trigger] s[i]).start <= s[i].end
}

/// Each match ends no later than any later match starts: the ranges are
/// pairwise disjoint and in order.
pub open spec fn chained(t: Seq<Match>) -> bool {
    forall|i: int, j: int| 0 <= i < j < t.len() ==> (#[trigger] t[i]).end <= (#[trigger] t[j]).start
}

/// No match of `t` would take the next one into its group.
pub open spec fn settled(t: Seq<Match>) -> bool {
    forall|i: int| 0 <= i < t.len() - 1 ==> !joins(#[trigger] t[i], t[i + 1])
}

/// Stretching a group head keeps it below every later match.
proof fn lemma_stretched_below(cur: Match, m: Match, x: Match)
    requires
        key_lt(cur, m),
        key_lt(m, x),
        key_lt(cur, x),
    ensures
        key_lt(stretched(cur, m), x),
{
}

/// The tail of a strictly sorted sequence is strictly sorted and above its
/// head.
proof fn lemma_sorted_tail(rest: Seq<Match>)
    requires
        strictly_sorted(rest),
        rest.len() > 0,
    ensures
        strictly_sorted(rest.drop_first()),
        forall|k: int| 0 <= k < rest.len() - 1 ==> key_lt(rest[0], #[trigger] rest.drop_first()[k]),
{
    let r = rest.drop_first();
    assert forall|a: int, b: int| 0 <= a < b < r.len() implies key_lt(#[trigger] r[a], #[trigger] r[b]) by {
        assert(r[a] == rest[a + 1] && r[b] == rest[b + 1]);
    }
    assert forall|k: int| 0 <= k < rest.len() - 1 implies key_lt(rest[0], #[trigger] r[k]) by {
        assert(r[k] == rest[k + 1]);
    }
}

/// The groups are at most as many as the matches that form them.
proof fn lemma_coalesce_len(cur: Match, rest: Seq<Match>)
    ensures
        coalesce(cur, rest).len() <= rest.len() + 1,
    decreases rest.len(),
{
    if rest.len() > 0 {
        if joins(cur, rest[0]) {
            lemma_coalesce_len(stretched(cur, rest[0]), rest.drop_first());
        } else {
            lemma_coalesce_len(rest[0], rest.drop_first());
        }
    }
}

/// Every match that goes into the groups is contained in one of them.
proof fn lemma_coalesce_covers(cur: Match, rest: Seq<Match>)
    requires
        strictly_sorted(rest),
        forall|k: int| 0 <= k < rest.len() ==> key_lt(cur, #[trigger] rest[k]),
    ensures
        covered_by(coalesce(cur, rest), cur),
        forall|k: int| 0 <= k < rest.len() ==> covered_by(coalesce(cur, rest), #[trigger] rest[k]),
    decreases rest.len(),
{
    let t = coalesce(cur, rest);
    if rest.len() == 0 {
        assert(t[0] == cur);
        assert(t[0].covers(cur));
    } else {
        let r0 = rest[0];
        let r = rest.drop_first();
        lemma_sorted_tail(rest);
        if joins(cur, r0) {
            let c = stretched(cur, r0);
            assert forall|k: int| 0 <= k < r.len() implies key_lt(c, #[trigger] r[k]) by {
                assert(r[k] == rest[k + 1]);
                lemma_stretched_below(cur, r0, r[k]);
            }
            lemma_coalesce_covers(c, r);
            let i: int = choose|i: int| 0 <= i < t.len() && (#[trigger] t[i]).covers(c);
            assert(t[i].covers(cur));
            assert(t[i].covers(r0));
            assert forall|k: int| 0 <= k < rest.len() implies covered_by(t, #[trigger] rest[k]) by {
                if k > 0 {
                    assert(rest[k] == r[k - 1]);
                }
            }
        } else {
            let tail = coalesce(r0, r);
            lemma_coalesce_covers(r0, r);
            assert(t == seq![cur] + tail);
            assert(t[0] == cur && t[0].covers(cur));
            assert forall|x: Match| covered_by(tail, x) implies covered_by(t, x) by {
                let i: int = choose|i: int| 0 <= i < tail.len() && (#[trigger] tail[i]).covers(x);
                assert(t[i + 1] == tail[i]);
            }
            assert forall|k: int| 0 <= k < rest.len() implies covered_by(t, #[trigger] rest[k]) by {
                if k > 0 {
                    assert(rest[k] == r[k - 1]);
                }
                assert(covered_by(tail, rest[k]));
            }
        }
    }
}

/// With well-formed ranges, the groups are well-formed, pairwise disjoint
/// and in order, and no group would take in the next one.
proof fn lemma_coalesce_shape(cur: Match, rest: Seq<Match>)
    requires
        strictly_sorted(rest),
        forall|k: int| 0 <= k < rest.len() ==> key_lt(cur, #[trigger] rest[k]),
        cur.start <= cur.end,
        all_valid(rest),
    ensures
        coalesce(cur, rest).len() >= 1,
        coalesce(cur, rest)[0].start == cur.start,
        coalesce(cur, rest)[0].pattern_id == cur.pattern_id,
        coalesce(cur, rest)[0].end >= cur.end,
        forall|i: int| 0 <= i < coalesce(cur, rest).len() ==> cur.start <= (#[trigger] coalesce(cur, rest)[i]).start,
        all_valid(coalesce(cur, rest)),
        chained(coalesce(cur, rest)),
        settled(coalesce(cur, rest)),
    decreases rest.len(),
{
    let t = coalesce(cur, rest);
    if rest.len() == 0 {
        assert(t =~= seq![cur]);
    } else {
        let r0 = rest[0];
        let r = rest.drop_first();
        lemma_sorted_tail(rest);
        assert(all_valid(r)) by {
            assert forall|k: int| 0 <= k < r.len() implies (#[trigger] r[k]).start <= r[k].end by {
                assert(r[k] == rest[k + 1]);
            }
        }
        assert(r0.start <= r0.end);
        if joins(cur, r0) {
            let c = stretched(cur, r0);
            assert forall|k: int| 0 <= k < r.len() implies key_lt(c, #[trigger] r[k]) by {
                assert(r[k] == rest[k + 1]);
                lemma_stretched_below(cur, r0, r[k]);
            }
            lemma_coalesce_shape(c, r);
        } else {
            let tail = coalesce(r0, r);
            lemma_coalesce_shape(r0, r);
            assert(t == seq![cur] + tail);
            // `r0` starts at or after `cur` ends, since their ranges do not meet.
            assert(key_lt(cur, r0));
            assert(r0.start >= cur.end);
            assert forall|i: int| 0 <= i < t.len() implies cur.start <= (#[trigger] t[i]).start by {
                if i > 0 {
                    assert(t[i] == tail[i - 1]);
                }
            }
            assert forall|i: int| 0 <= i < t.len() implies (#[trigger] t[i]).start <= t[i].end by {
                if i > 0 {
                    assert(t[i] == tail[i - 1]);
                }
            }
            assert forall|i: int, j: int| 0 <= i < j < t.len() implies (#[trigger] t[i]).end <= (#[trigger] t[j]).start by {
                assert(t[j] == tail[j - 1]);
                if i > 0 {
                    assert(t[i] == tail[i - 1]);
                }
            }
            assert forall|i: int| 0 <= i < t.len() - 1 implies !joins(#[trigger] t[i], t[i + 1]) by {
                assert(t[i + 1] == tail[i]);
                if i > 0 {
                    assert(t[i] == tail[i - 1]);
                }
            }
        }
    }
}

/// Groups that no longer take each other in are left as they are.
proof fn lemma_coalesce_settled(t: Seq<Match>)
    requires
        t.len() >= 1,
        settled(t),
    ensures
        coalesce(t[0], t.drop_first()) == t,
    decreases t.len(),
{
    let r = t.drop_first();
    if r.len() == 0 {
        assert(t =~= seq![t[0]]);
    } else {
        assert(r[0] == t[1]);
        assert(!joins(t[0], t[1]));
        assert forall|i: int| 0 <= i < r.len() - 1 implies !joins(#[trigger] r[i], r[i + 1]) by {
            assert(r[i] == t[i + 1] && r[i + 1] == t[i + 2]);
        }
        lemma_coalesce_settled(r);
        assert(t =~= seq![t[0]] + r);
    }
}

/// Merging never adds matches.
pub proof fn lemma_merge_shrinks(s: Seq<Match>)
    ensures
        merged(s).len() <= s.len(),
{
    if s.len() > 0 {
        lemma_coalesce_len(s[0], s.drop_first());
    }
}

/// Merging loses no match: every match of the ordered `s` lies within one of
/// the merged matches.
pub proof fn lemma_merge_covers(s: Seq<Match>)
    requires
        strictly_sorted(s),
    ensures
        forall|k: int| 0 <= k < s.len() ==> covered_by(merged(s), #[trigger] s[k]),
{
    if s.len() > 0 {
        lemma_sorted_tail(s);
        lemma_coalesce_covers(s[0], s.drop_first());
        assert forall|k: int| 0 <= k < s.len() implies covered_by(merged(s), #[trigger] s[k]) by {
            if k > 0 {
                assert(s[k] == s.drop_first()[k - 1]);
            }
        }
    }
}

/// After merging a set of matches with well-formed ranges, no two merged
/// matches overlap:
/// each ends no later than the next one starts.
pub proof fn lemma_merge_disjoint(s: Seq<Match>)
    requires
        strictly_sorted(s),
        all_valid(s),
    ensures
        chained(merged(s)),
        forall|i: int, j: int| 0 <= i < merged(s).len() && 0 <= j < merged(s).len() && i != j
            ==> !(#[trigger] merged(s)[i]).meets(#[trigger] merged(s)[j]),
{
    if s.len() > 0 {
        lemma_sorted_tail(s);
        assert(all_valid(s.drop_first())) by {
            assert forall|k: int| 0 <= k < s.len() - 1 implies (#[trigger] s.drop_first()[k]).start <= s.drop_first()[k].end by {
                assert(s.drop_first()[k] == s[k + 1]);
            }
        }
        assert(s[0].start <= s[0].end);
        lemma_coalesce_shape(s[0], s.drop_first());
        let t = merged(s);
        assert forall|i: int, j: int| 0 <= i < t.len() && 0 <= j < t.len() && i != j implies !(#[trigger] t[i]).meets(#[trigger] t[j]) by {
            if i < j {
                assert(t[i].end <= t[j].start);
            } else {
                assert(t[j].end <= t[i].start);
            }
        }
    }
}

/// Merging a set of matches with well-formed ranges a second time changes
/// nothing.
pub proof fn lemma_merge_idempotent(s: Seq<Match>)
    requires
        strictly_sorted(s),
        all_valid(s),
    ensures
        merged(merged(s)) == merged(s),
{
    if s.len() > 0 {
        lemma_sorted_tail(s);
        assert(all_valid(s.drop_first())) by {
            assert forall|k: int| 0 <= k < s.len() - 1 implies (#[trigger] s.drop_first()[k]).start <= s.drop_first()[k].end by {
                assert(s.drop_first()[k] == s[k + 1]);
            }
        }
        assert(s[0].start <= s[0].end);
        lemma_coalesce_shape(s[0], s.drop_first());
        lemma_coalesce_settled(merged(s));
    }
}

/// Merging a set of matches with well-formed ranges leaves nothing more to
/// merge: no merged match would take in the next one.
pub proof fn lemma_merge_settled(s: Seq<Match>)
    requires
        strictly_sorted(s),
        all_valid(s),
    ensures
        settled(merged(s)),
{
    if s.len() > 0 {
        lemma_sorted_tail(s);
        assert(all_valid(s.drop_first())) by {
            assert forall|k: int| 0 <= k < s.len() - 1 implies (#[trigger] s.drop_first()[k]).start <= s.drop_first()[k].end by {
                assert(s.drop_first()[k] == s[k + 1]);
            }
        }
        assert(s[0].start <= s[0].end);
        lemma_coalesce_shape(s[0], s.drop_first());
    }
}

/// Byte `b` lies in the range of some match of `src`.
pub open spec fn holds_byte(src: Seq<Match>, b: int) -> bool {
    exists|k: int| 0 <= k < src.len() && (#[trigger] src[k]).start <= b && b < src[k].end
}

/// Every byte of a group lies in one of the matches of `src` it was formed
/// from.
proof fn lemma_coalesce_bytes(cur: Match, rest: Seq<Match>, src: Seq<Match>)
    requires
        forall|b: int| cur.start <= b < cur.end ==> #[trigger] holds_byte(src, b),
        forall|k: int| 0 <= k < rest.len() ==> src.contains(#[trigger] rest[k]),
    ensures
        forall|i: int, b: int|
            #![trigger coalesce(cur, rest)[i], holds_byte(src, b)]
            0 <= i < coalesce(cur, rest).len() && coalesce(cur, rest)[i].start <= b
                && b < coalesce(cur, rest)[i].end ==> holds_byte(src, b),
    decreases rest.len(),
{
    let t = coalesce(cur, rest);
    if rest.len() == 0 {
        assert(t =~= seq![cur]);
        assert forall|i: int, b: int|
            #![trigger t[i], holds_byte(src, b)]
            0 <= i < t.len() && t[i].start <= b && b < t[i].end implies holds_byte(src, b) by {
            assert(t[i] == cur);
        }
    } else {
        let r0 = rest[0];
        let r = rest.drop_first();
        assert(src.contains(r0));
        let k0: int = choose|k: int| 0 <= k < src.len() && src[k] == r0;
        assert forall|k: int| 0 <= k < r.len() implies src.contains(#[trigger] r[k]) by {
            assert(r[k] == rest[k + 1]);
        }
        if joins(cur, r0) {
            let c = stretched(cur, r0);
            assert forall|b: int| c.start <= b < c.end implies #[trigger] holds_byte(src, b) by {
                if b >= cur.end {
                    assert(src[k0].start <= b && b < src[k0].end);
                }
            }
            lemma_coalesce_bytes(c, r, src);
            assert(t == coalesce(c, r));
        } else {
            assert forall|b: int| r0.start <= b < r0.end implies #[trigger] holds_byte(src, b) by {
                assert(src[k0].start <= b && b < src[k0].end);
            }
            lemma_coalesce_bytes(r0, r, src);
            let tail = coalesce(r0, r);
            assert(t == seq![cur] + tail);
            assert forall|i: int, b: int|
                #![trigger t[i], holds_byte(src, b)]
                0 <= i < t.len() && t[i].start <= b && b < t[i].end implies holds_byte(src, b) by {
                if i > 0 {
                    assert(t[i] == tail[i - 1]);
                }
            }
        }
    }
}

/// Merging adds no bytes: every byte of a merged match lies in one of the
/// matches merged. With `lemma_merge_covers`, the merged matches cover
/// exactly the bytes that the matches of `s` covered.
pub proof fn lemma_merge_adds_no_bytes(s: Seq<Match>)
    ensures
        forall|i: int, b: int|
            #![trigger merged(s)[i], holds_byte(s, b)]
            0 <= i < merged(s).len() && merged(s)[i].start <= b && b < merged(s)[i].end
                ==> holds_byte(s, b),
{
    if s.len() > 0 {
        assert forall|b: int| s[0].start <= b < s[0].end implies #[trigger] holds_byte(s, b) by {
            assert(s[0].start <= b && b < s[0].end);
        }
        assert forall|k: int| 0 <= k < s.drop_first().len() implies s.contains(#[trigger] s.drop_first()[k]) by {
            assert(s.drop_first()[k] == s[k + 1]);
        }
        lemma_coalesce_bytes(s[0], s.drop_first(), s);
    }
}

/// One match more after `rest` either joins the last group or forms a group
/// of its own.
proof fn lemma_coalesce_push(cur: Match, rest: Seq<Match>, m: Match)
    ensures
        coalesce(cur, rest).len() >= 1,
        coalesce(cur, rest.push(m)) == ({
            let t = coalesce(cur, rest);
            if joins(t.last(), m) {
                t.update(t.len() - 1, stretched(t.last(), m))
            } else {
                t.push(m)
            }
        }),
    decreases rest.len(),
{
    let t = coalesce(cur, rest);
    let rm = rest.push(m);
    if rest.len() == 0 {
        assert(rm =~= seq![m]);
        assert(rm.drop_first() =~= Seq::<Match>::empty());
        assert(t =~= seq![cur]);
        if joins(cur, m) {
            assert(coalesce(stretched(cur, m), rm.drop_first()) == seq![stretched(cur, m)]);
            assert(coalesce(cur, rm) == coalesce(stretched(cur, m), rm.drop_first()));
            assert(seq![stretched(cur, m)] =~= t.update(0, stretched(cur, m)));
        } else {
            assert(coalesce(m, rm.drop_first()) == seq![m]);
            assert(coalesce(cur, rm) == seq![cur] + coalesce(m, rm.drop_first()));
            assert(seq![cur] + seq![m] =~= t.push(m));
        }
    } else {
        let r0 = rest[0];
        let r = rest.drop_first();
        assert(rm[0] == r0);
        assert(rm.drop_first() =~= r.push(m));
        if joins(cur, r0) {
            lemma_coalesce_push(stretched(cur, r0), r, m);
        } else {
            let tail = coalesce(r0, r);
            lemma_coalesce_push(r0, r, m);
            assert(t == seq![cur] + tail);
            assert(t.last() == tail.last());
            if joins(tail.last(), m) {
                assert(seq![cur] + tail.update(tail.len() - 1, stretched(tail.last(), m))
                    =~= t.update(t.len() - 1, stretched(t.last(), m)));
            } else {
                assert(seq![cur] + tail.push(m) =~= t.push(m));
            }
        }
    }
}

/// Merging goes one match at a time. Nothing merges to nothing, and a single
/// match is merged into itself.
/// After the matches `s`, one more match `m` joins the last merged match `g`
/// when their ranges overlap, when `m` is an empty range at a byte `g`
/// covers, or when `m` starts where `g` ends and carries `g`'s pattern; `g`
/// then keeps its pattern, start and padding and ends at the later of the two
/// ends. Otherwise `m` follows as a merged match of its own; in particular
/// a match of another pattern that only touches `g` stays apart from it.
pub proof fn lemma_merge_one_more(s: Seq<Match>, m: Match)
    ensures
        merged(Seq::<Match>::empty()) == Seq::<Match>::empty(),
        s.len() == 0 ==> merged(s.push(m)) == seq![m],
        s.len() > 0 ==> merged(s).len() >= 1,
        s.len() > 0 ==> merged(s.push(m)) == ({
            let t = merged(s);
            let g = t.last();
            if (g.start < m.end && m.start < g.end) || (m.start == m.end && g.start <= m.start
                && m.start < g.end) || (g.end == m.start && g.pattern_id == m.pattern_id) {
                t.update(
                    t.len() - 1,
                    Match {
                        pattern_id: g.pattern_id,
                        start: g.start,
                        end: if m.end > g.end {
                            m.end
                        } else {
                            g.end
                        },
                        padding: g.padding,
                    },
                )
            } else {
                t.push(m)
            }
        }),
{
    if s.len() == 0 {
        assert(s.push(m) =~= seq![m]);
        assert(seq![m].drop_first() =~= Seq::<Match>::empty());
    } else {
        assert(s.push(m)[0] == s[0]);
        assert(s.push(m).drop_first() =~= s.drop_first().push(m));
        lemma_coalesce_push(s[0], s.drop_first(), m);
    }
}

/// Appends to the empty `out` the groups of the ordered, non-empty `s`.
pub(crate) fn coalesce_into(s: &Vec<Match>, out: Vec<Match>) -> (r: Vec<Match>)
    requires
        strictly_sorted(s@),
        s@.len() >= 1,
        out@ == Seq::<Match>::empty(),
    ensures
        r@ == merged(s@),
        strictly_sorted(r@),
{
    let n: usize = s.len();
    let mut out = out;
    let mut current: Match = s[0];
    let mut i: usize = 1;
    assert(s@.skip(1) =~= s@.drop_first());
    while i < n
        invariant
            n == s@.len(),
            1 <= i <= n,
            strictly_sorted(s@),
            out@ + coalesce(current, s@.skip(i as int)) == merged(s@),
            strictly_sorted(out@),
            out@.len() > 0 ==> key_lt(out@.last(), current),
            forall|j: int| i <= j < n ==> key_lt(current, #[trigger] s@[j]),
        decreases n - i,
    {
        let m: Match = s[i];
        let ghost rest = s@.skip(i as int);
        assert(rest[0] == m);
        assert(rest.drop_first() =~= s@.skip(i + 1));
        if current.overlaps(&m) || (m.start == m.end && current.start <= m.start && m.start
            < current.end) || (current.end == m.start && current.pattern_id == m.pattern_id) {
            let ghost before = current;
            if m.end > current.end {
                current.end = m.end;
            }
            assert(current == stretched(before, m));
            assert forall|j: int| i + 1 <= j < n implies key_lt(current, #[trigger] s@[j]) by {
                assert(key_lt(before, m));
                assert(key_lt(m, s@[j]));
                assert(key_lt(before, s@[j]));
            }
        } else {
            let ghost old_out = out@;
            out.push(current);
            proof {
                assert(old_out.push(current) + coalesce(m, s@.skip(i + 1)) =~= old_out
                    + (seq![current] + coalesce(m, s@.skip(i + 1))));
                assert forall|p: int, q: int| 0 <= p < q < out@.len() implies key_lt(
                    #[trigger] out@[p],
                    #[trigger] out@[q],
                ) by {
                    if q == old_out.len() && p < old_out.len() - 1 {
                        assert(key_lt(old_out[p], old_out.last()));
                    }
                }
                assert forall|j: int| i + 1 <= j < n implies key_lt(m, #[trigger] s@[j]) by {
                    assert(key_lt(s@[i as int], s@[j]));
                }
            }
            current = m;
        }
        i = i + 1;
    }
    let ghost old_out = out@;
    assert(s@.skip(n as int) =~= Seq::<Match>::empty());
    out.push(current);
    assert forall|p: int, q: int| 0 <= p < q < out@.len() implies key_lt(
        #[trigger] out@[p],
        #[trigger] out@[q],
    ) by {
        if q == old_out.len() && p < old_out.len() - 1 {
            assert(key_lt(old_out[p], old_out.last()));
        }
    }
    out
}

} // verus!
