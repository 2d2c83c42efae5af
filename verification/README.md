# matchkit

Vocabulary types for multi-pattern matching, verified with Verus.

- `src/match_type.rs` — `Match` (pattern id, byte range, padding) and its raw
  GPU form `GpuMatch`; equality, order and hashing by `(start, pattern_id,
  end)` with the padding ignored; lossless conversions both ways.
- `src/order.rs` — strictly ordered sequences of matches: binary search,
  sorted insertion, a duplicate-free merge sort, and the facts about them.
- `src/match_set.rs` — `MatchSet`, always strictly sorted and free of repeated
  findings, with insertion, bulk extension, merging and per-pattern views,
  each in a plain and an allocation-checked (`try_*`) form.
- `src/merge.rs` — what merging overlapping matches produces, and the proofs
  that it never adds matches and covers exactly the bytes the matches
  covered, and, for every input whose ranges are well-formed
  (`start <= end`), that it leaves no overlaps, leaves nothing more to merge
  and is idempotent.
- `src/patterns.rs` — selection by pattern, counts per pattern and the
  distinct pattern list, with the proofs that they agree and that the list
  is unique.
- `src/error.rs` — the shared error type, its messages, and the proof that
  every message but a backend's own carries a `fix:` hint.
- `src/matcher.rs` — the buffer handling that backends share.
- `app/lib.rs` — what Verus does not take: the async `Matcher` and
  `BlockMatcher` traits, the error type with `std::error::Error`, and the
  `repr(C)`/`bytemuck` layout of the match types.

## Design notes

- `MatchSet` has no `IntoIterator` impls: Verus stops with an internal error
  on `IntoIterator`'s associated types. `iter()` and `into_vec()` give the
  same matches in order.
- `extend` and `try_extend` take a `Vec<Match>`: Verus stops on a parameter
  bound by `IntoIterator<Item = Match>` too. `app/` has `extend_from_iter`
  and `try_extend_from_iter` for any iterator; `try_extend_from_iter` first
  reserves room for the iterator's lower size hint, so an iterator that
  claims more than can be reserved fails before it is run.
- Merging joins a match into the current group when the two overlap, when the
  match is an empty range at a byte the group covers, or when it starts where
  the group ends with the same pattern. Both `merge_overlapping` and
  `try_merge_overlapping` merge this way, so that merged matches never
  overlap and merging twice changes nothing.
- `Error::Backend` carries the backend error's message as a `String`.

Four test expectations are left out of `tests/` because they contradict the
documented merge and the other tests:
`test_merge_zero_length`, `test_adv_merge_chained_adjacent` and
`test_off_by_one_first_byte` expect touching matches of one pattern to stay
apart, which `match_set_merge_adjacent` rules out;
`campaign_matchset_merge_disjoint_patterns` expects overlapping matches of
different patterns to stay apart, which
`merge_overlapping_preserves_first_pattern_id_in_group` rules out.

Two tests of `try_extend` are left out as well, `test_try_extend_exhaustion`
and `matchset_try_extend_oom_preserves_state`: they hand `try_extend` an
iterator that yields nothing but claims a size too large to reserve, which a
`Vec` argument cannot do.
