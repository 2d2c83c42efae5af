//! The sorted, deduplicated collection of matches.
use crate::error::{Error, Result};
use crate::match_type::Match;
use crate::merge::{coalesce_into, merged};
use crate::patterns::{
    distinct_patterns, lists_patterns, pattern_tally, reserve_tally, select_pattern, tally_patterns,
    with_pattern,
};
use crate::order::{
    canonical, has_key, inserted, lemma_canonical_compose, lemma_inserted_at,
    lemma_sorted_is_canonical, merge_sorted, search, slot_for, sort_range, strictly_sorted,
};
use std::collections::HashMap;
use std::collections::TryReserveError;
use vstd::prelude::*;
use vstd::std_specs::iter::IteratorSpec;

verus! {

/// Sorted, deduplicated collection of matches.
///
/// The matches are kept in strictly increasing `(start, pattern_id, end)`
/// order, so no finding is held twice.
#[derive(Debug)]
pub struct MatchSet {
    matches: Vec<Match>,
}

impl View for MatchSet {
    type V = Seq<Match>;

    closed spec fn view(&self) -> Seq<Match> {
        self.matches@
    }
}

impl MatchSet {
    #[verifier::type_invariant]
    spec fn sorted_inv(self) -> bool {
        strictly_sorted(self.matches@)
    }

    /// Create an empty match set.
    pub fn new() -> (s: Self)
        ensures
            s@ == Seq::<Match>::empty(),
    {
        Self { matches: Vec::new() }
    }

    /// Create an empty match set whose storage is reserved up front for
    /// `cap` matches; fails with `OutOfMemory` when that reservation fails.
    pub fn try_with_capacity(cap: usize) -> (r: Result<Self>)
        ensures
            cap == 0 ==> r is Ok,
            match r {
                Ok(s) => s@ == Seq::<Match>::empty(),
                Err(e) => e is OutOfMemory,
            },
    {
        let mut vec: Vec<Match> = Vec::new();
        match reserve_more(&mut vec, cap) {
            Ok(()) => Ok(Self { matches: vec }),
            Err(e) => Err(e),
        }
    }

    /// Create an empty match set with room for `cap` matches, the request
    /// clamped to the largest capacity a `Vec<Match>` can describe.
    pub fn with_capacity(cap: usize) -> (s: Self)
        ensures
            s@ == Seq::<Match>::empty(),
    {
        let max_cap: usize = capacity_limit();
        let cap: usize = if cap < max_cap { cap } else { max_cap };
        Self { matches: Vec::with_capacity(cap) }
    }

    /// Insert a match, keeping the order; a match whose finding is already
    /// present is not added again. Fails with `OutOfMemory`, leaving the set
    /// unchanged, when room for the new match cannot be reserved.
    pub fn try_insert(&mut self, m: Match) -> (r: Result<()>)
        ensures
            strictly_sorted(final(self)@),
            has_key(old(self)@, m) ==> r is Ok,
            match r {
                Ok(()) => final(self)@ == inserted(old(self)@, m),
                Err(e) => final(self)@ == old(self)@ && e is OutOfMemory,
            },
    {
        proof {
            use_type_invariant(&*self);
        }
        match search(&self.matches, &m) {
            Ok(_) => Ok(()),
            Err(pos) => {
                let mut v: Vec<Match> = Vec::new();
                std::mem::swap(&mut v, &mut self.matches);
                match reserve_more(&mut v, 1) {
                    Ok(()) => {
                        proof {
                            lemma_inserted_at(v@, m, pos as int);
                        }
                        v.insert(pos, m);
                        self.matches = v;
                        Ok(())
                    },
                    Err(e) => {
                        self.matches = v;
                        Err(e)
                    },
                }
            },
        }
    }

    /// Insert a match, keeping the order; a match whose finding is already
    /// present is not added again.
    pub fn insert(&mut self, m: Match)
        ensures
            strictly_sorted(final(self)@),
            final(self)@ == inserted(old(self)@, m),
    {
        proof {
            use_type_invariant(&*self);
        }
        match search(&self.matches, &m) {
            Ok(_) => {},
            Err(pos) => {
                let mut v: Vec<Match> = Vec::new();
                std::mem::swap(&mut v, &mut self.matches);
                proof {
                    lemma_inserted_at(v@, m, pos as int);
                }
                v.insert(pos, m);
                self.matches = v;
            },
        }
    }

    /// Reserve room for `additional` more matches. A request for nothing
    /// always succeeds; otherwise a failed reservation is reported as
    /// `OutOfMemory`. The matches are never changed.
    pub fn try_reserve(&mut self, additional: usize) -> (r: Result<()>)
        ensures
            strictly_sorted(final(self)@),
            final(self)@ == old(self)@,
            additional == 0 ==> r is Ok,
            match r {
                Ok(()) => true,
                Err(e) => e is OutOfMemory,
            },
    {
        proof {
            use_type_invariant(&*self);
        }
        let mut v: Vec<Match> = Vec::new();
        std::mem::swap(&mut v, &mut self.matches);
        let reserved = reserve_more(&mut v, additional);
        self.matches = v;
        reserved
    }

    /// Add every match of `items`, then restore the order and drop repeated
    /// findings: the set becomes the canonical form of its old matches
    /// followed by `items`. Where one finding occurs with different padding,
    /// which of those elements is kept is not fixed.
    pub fn extend(&mut self, items: Vec<Match>)
        ensures
            strictly_sorted(final(self)@),
            canonical(final(self)@, old(self)@ + items@),
    {
        proof {
            use_type_invariant(&*self);
        }
        let n: usize = items.len();
        let sorted_items = sort_range(&items, 0, n);
        let merged = merge_sorted(&self.matches, &sorted_items);
        proof {
            assert(items@.subrange(0, n as int) =~= items@);
            lemma_sorted_is_canonical(self.matches@);
            lemma_canonical_compose(merged@, self.matches@, sorted_items@, self.matches@, items@);
        }
        self.matches = merged;
    }

    /// Add every match of `items`, as `extend` does. Room for as many more
    /// matches as `items` holds is reserved first; when that fails, the set
    /// is left unchanged and `OutOfMemory` is returned. Adding nothing always
    /// succeeds.
    pub fn try_extend(&mut self, items: Vec<Match>) -> (r: Result<()>)
        ensures
            strictly_sorted(final(self)@),
            items@.len() == 0 ==> r is Ok,
            match r {
                Ok(()) => canonical(final(self)@, old(self)@ + items@),
                Err(e) => final(self)@ == old(self)@ && e is OutOfMemory,
            },
    {
        match self.try_reserve(items.len()) {
            Ok(()) => {
                self.extend(items);
                Ok(())
            },
            Err(e) => Err(e),
        }
    }

    /// Merge overlapping matches into a minimal covering set, as
    /// `merge_overlapping` does. Room for the result is reserved first; when
    /// that fails the set is left unchanged and `OutOfMemory` is returned.
    pub fn try_merge_overlapping(&mut self) -> (r: Result<()>)
        ensures
            strictly_sorted(final(self)@),
            old(self)@.len() < 2 ==> r is Ok,
            match r {
                Ok(()) => final(self)@ == merged(old(self)@),
                Err(e) => final(self)@ == old(self)@ && e is OutOfMemory,
            },
    {
        proof {
            use_type_invariant(&*self);
        }
        let n: usize = self.matches.len();
        if n < 2 {
            proof {
                if n == 1 {
                    assert(self.matches@.drop_first() =~= Seq::<Match>::empty());
                    assert(merged(self.matches@) =~= self.matches@);
                }
            }
            return Ok(());
        }
        let mut out: Vec<Match> = Vec::new();
        if let Err(e) = reserve_more(&mut out, n) {
            return Err(e);
        }
        let r = coalesce_into(&self.matches, out);
        self.matches = r;
        Ok(())
    }

    /// Merge overlapping matches into a minimal covering set. A match joins
    /// the current group when it overlaps it, when it is an empty range at a
    /// byte the group covers, or when it starts where the group ends and
    /// carries the group's pattern. Each group keeps its first match's
    /// pattern ID, start and padding and ends at the furthest end among its
    /// members.
    pub fn merge_overlapping(&mut self)
        ensures
            strictly_sorted(final(self)@),
            final(self)@ == merged(old(self)@),
    {
        proof {
            use_type_invariant(&*self);
        }
        let n: usize = self.matches.len();
        if n < 2 {
            proof {
                if n == 1 {
                    assert(self.matches@.drop_first() =~= Seq::<Match>::empty());
                    assert(merged(self.matches@) =~= self.matches@);
                }
            }
            return;
        }
        let out: Vec<Match> = Vec::with_capacity(n);
        let r = coalesce_into(&self.matches, out);
        self.matches = r;
    }

    /// A new set holding the matches with the given pattern ID, in order.
    pub fn filter_by_pattern(&self, pattern_id: u32) -> (r: Self)
        ensures
            r@ == with_pattern(self@, pattern_id),
            strictly_sorted(r@),
    {
        proof {
            use_type_invariant(self);
        }
        MatchSet { matches: select_pattern(&self.matches, pattern_id, Vec::new()) }
    }

    /// A new set holding the matches with the given pattern ID, in order;
    /// room for every match of `self` is reserved first, and a failed
    /// reservation is reported as `OutOfMemory`.
    pub fn try_filter_by_pattern(&self, pattern_id: u32) -> (r: Result<Self>)
        ensures
            self@.len() == 0 ==> r is Ok,
            match r {
                Ok(f) => f@ == with_pattern(self@, pattern_id) && strictly_sorted(f@),
                Err(e) => e is OutOfMemory,
            },
    {
        proof {
            use_type_invariant(self);
        }
        let mut out: Vec<Match> = Vec::new();
        match reserve_more(&mut out, self.matches.len()) {
            Ok(()) => Ok(MatchSet { matches: select_pattern(&self.matches, pattern_id, out) }),
            Err(e) => Err(e),
        }
    }

    /// The number of matches for each pattern ID that occurs in the set.
    pub fn pattern_counts(&self) -> (r: HashMap<u32, usize>)
        ensures
            r@ == pattern_tally(self@),
    {
        tally_patterns(&self.matches, HashMap::new())
    }

    /// The number of matches for each pattern ID that occurs in the set;
    /// room for as many entries as the set has matches is reserved first,
    /// and a failed reservation is reported as `OutOfMemory`.
    pub fn try_pattern_counts(&self) -> (r: Result<HashMap<u32, usize>>)
        ensures
            self@.len() == 0 ==> r is Ok,
            match r {
                Ok(c) => c@ == pattern_tally(self@),
                Err(e) => e is OutOfMemory,
            },
    {
        let mut counts: HashMap<u32, usize> = HashMap::new();
        let n: usize = self.matches.len();
        if n > 0 {
            if let Err(e) = reserve_tally(&mut counts, n) {
                return Err(out_of_memory(e));
            }
        }
        Ok(tally_patterns(&self.matches, counts))
    }

    /// The distinct pattern IDs in the set, in increasing order.
    pub fn pattern_ids(&self) -> (ids: Vec<u32>)
        ensures
            lists_patterns(ids@, self@),
    {
        distinct_patterns(&self.matches, Vec::new())
    }

    /// The distinct pattern IDs in the set, in increasing order; room for
    /// one ID per match is reserved first, and a failed reservation is
    /// reported as `OutOfMemory`.
    pub fn try_pattern_ids(&self) -> (r: Result<Vec<u32>>)
        ensures
            self@.len() == 0 ==> r is Ok,
            match r {
                Ok(ids) => lists_patterns(ids@, self@),
                Err(e) => e is OutOfMemory,
            },
    {
        let mut ids: Vec<u32> = Vec::new();
        match reserve_more(&mut ids, self.matches.len()) {
            Ok(()) => Ok(distinct_patterns(&self.matches, ids)),
            Err(e) => Err(e),
        }
    }

    /// Number of matches in the set.
    pub fn len(&self) -> (n: usize)
        ensures
            n == self@.len(),
    {
        self.matches.len()
    }

    /// Whether the set is empty.
    pub fn is_empty(&self) -> (b: bool)
        ensures
            b == (self@.len() == 0),
    {
        self.matches.is_empty()
    }

    /// The matches, in order, as a slice.
    pub fn as_slice(&self) -> (s: &[Match])
        ensures
            s@ == self@,
            strictly_sorted(s@),
    {
        proof {
            use_type_invariant(self);
        }
        self.matches.as_slice()
    }

    /// An iterator over the matches, in order.
    pub fn iter(&self) -> (it: std::slice::Iter<'_, Match>)
        ensures
            it.remaining() == self@.as_ref(),
    {
        broadcast use vstd::std_specs::slice::axiom_spec_slice_iter;
        self.matches.as_slice().iter()
    }

    /// Consume the set into a `Vec`, in order.
    pub fn into_vec(self) -> (v: Vec<Match>)
        ensures
            v@ == self@,
            strictly_sorted(v@),
    {
        proof {
            use_type_invariant(&self);
        }
        self.matches
    }
}

/// Reserves room for `additional` more elements of `v`. Asking for nothing
/// always succeeds; a failed reservation is reported as `OutOfMemory`.
fn reserve_more<T>(v: &mut Vec<T>, additional: usize) -> (r: Result<()>)
    ensures
        final(v)@ == old(v)@,
        additional == 0 ==> r is Ok,
        match r {
            Ok(()) => true,
            Err(e) => e is OutOfMemory,
        },
{
    if additional == 0 {
        return Ok(());
    }
    match v.try_reserve(additional) {
        Ok(()) => Ok(()),
        Err(e) => Err(out_of_memory(e)),
    }
}

/// The library's error for a failed reservation: `OutOfMemory`, carrying
/// std's description of the failure.
fn out_of_memory(e: TryReserveError) -> (r: Error)
    ensures
        r is OutOfMemory,
{
    Error::OutOfMemory { message: e.to_string() }
}

/// The largest number of matches whose storage a `Vec` can describe:
/// `isize::MAX` bytes divided by the size of a match. (A zero-sized element
/// would need no storage at all, so then the limit is `isize::MAX` itself.)
fn capacity_limit() -> (n: usize)
    ensures
        n <= isize::MAX,
        n as nat == if vstd::layout::size_of::<Match>() > 0 {
            (isize::MAX as nat) / vstd::layout::size_of::<Match>()
        } else {
            isize::MAX as nat
        },
{
    let size: usize = std::mem::size_of::<Match>();
    if size > 0 {
        (isize::MAX as usize) / size
    } else {
        isize::MAX as usize
    }
}

impl Clone for MatchSet {
    fn clone(&self) -> (s: Self)
        ensures
            s@ == self@,
    {
        proof {
            use_type_invariant(self);
        }
        let matches = self.matches.clone();
        assert(matches@ =~= self.matches@);
        MatchSet { matches }
    }
}

impl Default for MatchSet {
    fn default() -> (s: Self)
        ensures
            s@ == Seq::<Match>::empty(),
    {
        MatchSet::new()
    }
}

} // verus!
