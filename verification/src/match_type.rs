//! The match record shared by every matching backend, and its raw GPU form.
use std::cmp::Ordering;
use vstd::prelude::*;
use vstd::std_specs::cmp::PartialEqSpecImpl;
use vstd::std_specs::cmp::PartialOrdSpecImpl;
use vstd::std_specs::convert::FromSpec;
use vstd::std_specs::convert::FromSpecImpl;

verus! {

/// GPU-internal match representation: four `u32` words laid out as
/// `[pattern_id, start, end, padding]`.
#[derive(Debug, Clone, Copy)]
pub struct GpuMatch(
    /// Raw GPU match fields: `[pattern_id, start, end, padding]`.
    pub [u32; 4],
);

/// A match result from pattern scanning.
///
/// Offsets are `u32`; `end` is exclusive. The `padding` word travels with the
/// match but takes no part in equality, ordering or hashing.
#[derive(Debug, Clone, Copy)]
pub struct Match {
    /// Index of the pattern that matched (0-based, in insertion order).
    pub pattern_id: u32,
    /// Byte offset where the match starts (inclusive).
    pub start: u32,
    /// Byte offset where the match ends (exclusive).
    pub end: u32,
    /// Padding for GPU alignment. Ignored in equality comparisons.
    pub padding: u32,
}

/// Two matches denote the same finding: same pattern and same byte range.
/// This is what `==` on `Match` means; `padding` is not looked at.
pub open spec fn same_key(a: Match, b: Match) -> bool {
    a.pattern_id == b.pattern_id && a.start == b.start && a.end == b.end
}

/// The order of matches: by `start`, then `pattern_id`, then `end`.
pub open spec fn key_lt(a: Match, b: Match) -> bool {
    ||| a.start < b.start
    ||| a.start == b.start && a.pattern_id < b.pattern_id
    ||| a.start == b.start && a.pattern_id == b.pattern_id && a.end < b.end
}

/// The three-way comparison that `partial_cmp` returns.
pub open spec fn key_order(a: Match, b: Match) -> Ordering {
    if key_lt(a, b) {
        Ordering::Less
    } else if same_key(a, b) {
        Ordering::Equal
    } else {
        Ordering::Greater
    }
}

impl Match {
    /// Length of the byte range, zero when `end <= start`.
    pub open spec fn span(self) -> int {
        if self.end >= self.start {
            self.end - self.start
        } else {
            0
        }
    }

    /// The byte range of `self` includes that of `other`.
    pub open spec fn covers(self, other: Match) -> bool {
        self.start <= other.start && self.end >= other.end
    }

    /// The half-open byte ranges of `self` and `other` intersect.
    pub open spec fn meets(self, other: Match) -> bool {
        self.start < other.end && other.start < self.end
    }

    /// Construct a match from its public fields; `padding` is zero.
    pub fn from_parts(pattern_id: u32, start: u32, end: u32) -> (m: Self)
        ensures
            m == (Match { pattern_id, start, end, padding: 0 }),
    {
        Self { pattern_id, start, end, padding: 0 }
    }

    /// Returns the padding field (reserved for GPU flags).
    pub fn padding(&self) -> (p: u32)
        ensures
            p == self.padding,
    {
        self.padding
    }

    /// Create a match with an explicit padding value.
    pub fn from_parts_with_padding(pattern_id: u32, start: u32, end: u32, padding: u32) -> (m: Self)
        ensures
            m == (Match { pattern_id, start, end, padding }),
    {
        Self { pattern_id, start, end, padding }
    }

    /// Returns `true` if this match's byte range fully contains `other`.
    pub fn contains(&self, other: &Match) -> (b: bool)
        ensures
            b == self.covers(*other),
    {
        self.start <= other.start && self.end >= other.end
    }

    /// Returns `true` if this match's byte range overlaps with `other`.
    pub fn overlaps(&self, other: &Match) -> (b: bool)
        ensures
            b == self.meets(*other),
    {
        self.start < other.end && other.start < self.end
    }

    /// Byte length of the matched region (saturating at zero).
    pub fn len(&self) -> (n: u32)
        ensures
            n == self.span(),
    {
        self.end.saturating_sub(self.start)
    }

    /// Returns `true` if the match has zero length (`start == end`).
    pub fn is_empty(&self) -> (b: bool)
        ensures
            b == (self.start == self.end),
    {
        self.start == self.end
    }

    /// `self` comes strictly before `other` in the `(start, pattern_id, end)` order.
    pub fn precedes(&self, other: &Match) -> (b: bool)
        ensures
            b == key_lt(*self, *other),
    {
        self.start < other.start || (self.start == other.start && (self.pattern_id < other.pattern_id
            || (self.pattern_id == other.pattern_id && self.end < other.end)))
    }

    /// Three-way comparison by `(start, pattern_id, end)`.
    pub fn compare(&self, other: &Match) -> (o: Ordering)
        ensures
            o == key_order(*self, *other),
    {
        if self.start < other.start {
            Ordering::Less
        } else if self.start > other.start {
            Ordering::Greater
        } else if self.pattern_id < other.pattern_id {
            Ordering::Less
        } else if self.pattern_id > other.pattern_id {
            Ordering::Greater
        } else if self.end < other.end {
            Ordering::Less
        } else if self.end > other.end {
            Ordering::Greater
        } else {
            Ordering::Equal
        }
    }
}

impl Default for Match {
    fn default() -> (m: Self)
        ensures
            m == (Match { pattern_id: 0, start: 0, end: 0, padding: 0 }),
    {
        Match { pattern_id: 0, start: 0, end: 0, padding: 0 }
    }
}

impl PartialEq for Match {
    fn eq(&self, other: &Self) -> (r: bool) {
        self.pattern_id == other.pattern_id && self.start == other.start && self.end == other.end
    }
}

impl PartialEqSpecImpl for Match {
    open spec fn obeys_eq_spec() -> bool {
        true
    }

    open spec fn eq_spec(&self, other: &Match) -> bool {
        same_key(*self, *other)
    }
}

impl Eq for Match {

}

impl PartialOrd for Match {
    fn partial_cmp(&self, other: &Self) -> (r: Option<Ordering>) {
        Some(self.compare(other))
    }
}

impl PartialOrdSpecImpl for Match {
    open spec fn obeys_partial_cmp_spec() -> bool {
        true
    }

    open spec fn partial_cmp_spec(&self, other: &Match) -> Option<Ordering> {
        Some(key_order(*self, *other))
    }
}

impl Ord for Match {
    /// Total order by `(start, pattern_id, end)`, the same as `partial_cmp`.
    /// It forwards to `Match::compare`; its clause is the one `compare` is
    /// proved to meet, taken on trust here.
    #[verifier::external_body]
    fn cmp(&self, other: &Self) -> (o: Ordering)
        ensures
            o == key_order(*self, *other),
    {
        self.compare(other)
    }
}

/// std's `Hash` for `u32`: feeds the integer to the hasher. Nothing is
/// claimed of the hasher's state afterwards.
pub assume_specification<H: std::hash::Hasher>[<u32 as std::hash::Hash>::hash::<H>](
    data: &u32,
    state: &mut H,
);

impl std::hash::Hash for Match {
    fn hash<H: std::hash::Hasher>(&self, state: &mut H) {
        self.pattern_id.hash(state);
        self.start.hash(state);
        self.end.hash(state);
    }
}

impl From<GpuMatch> for Match {
    fn from(value: GpuMatch) -> (m: Self) {
        Self { pattern_id: value.0[0], start: value.0[1], end: value.0[2], padding: value.0[3] }
    }
}

impl FromSpecImpl<GpuMatch> for Match {
    open spec fn obeys_from_spec() -> bool {
        true
    }

    open spec fn from_spec(v: GpuMatch) -> Match {
        Match { pattern_id: v.0[0], start: v.0[1], end: v.0[2], padding: v.0[3] }
    }
}

impl From<Match> for GpuMatch {
    fn from(value: Match) -> (g: Self) {
        Self([value.pattern_id, value.start, value.end, value.padding])
    }
}

impl FromSpecImpl<Match> for GpuMatch {
    open spec fn obeys_from_spec() -> bool {
        true
    }

    open spec fn from_spec(v: Match) -> GpuMatch {
        GpuMatch([v.pattern_id, v.start, v.end, v.padding])
    }
}

/// Converting a match to its GPU words and back gives the match back,
/// padding included.
pub proof fn lemma_match_gpu_roundtrip(m: Match)
    ensures
        <Match as FromSpec<GpuMatch>>::from_spec(
            <GpuMatch as FromSpec<Match>>::from_spec(m),
        ) == m,
{
}

/// Converting GPU words to a match and back gives the same four words.
pub proof fn lemma_gpu_match_roundtrip(g: GpuMatch)
    ensures
        <GpuMatch as FromSpec<Match>>::from_spec(
            <Match as FromSpec<GpuMatch>>::from_spec(g),
        ).0 =~= g.0,
{
}

/// Overlap is symmetric.
pub proof fn lemma_overlaps_symmetric(a: Match, b: Match)
    ensures
        a.meets(b) == b.meets(a),
{
}

/// Every match contains itself; containment is transitive.
pub proof fn lemma_contains_preorder(a: Match, b: Match, c: Match)
    ensures
        a.covers(a),
        a.covers(b) && b.covers(c) ==> a.covers(c),
{
}

/// `==` and the order agree: exactly one of `a < b`, `a == b`, `b < a` holds,
/// and `<` is transitive. Padding never decides any of them.
pub proof fn lemma_order_is_total(a: Match, b: Match, c: Match)
    ensures
        key_lt(a, b) || same_key(a, b) || key_lt(b, a),
        !(key_lt(a, b) && same_key(a, b)),
        !(key_lt(a, b) && key_lt(b, a)),
        !key_lt(a, a),
        key_lt(a, b) && key_lt(b, c) ==> key_lt(a, c),
{
}

} // verus!
