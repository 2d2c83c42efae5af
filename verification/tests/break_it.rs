use matchkit::{Error, GpuMatch, Match, MatchSet};
use std::mem;

#[test]
fn test_zero_length_bounds_logic() {
    let m = Match::from_parts(0, 5, 5);
    // Even if length is 0, start <= other.start && end >= other.end.
    // 5 <= 5 && 5 >= 5 is true. It should contain itself.
    assert!(m.contains(&m), "Zero-length match should contain itself");
}

#[test]
fn test_contains_edge_case_longer_end() {
    let m1 = Match::from_parts(0, 5, 10);
    let m2 = Match::from_parts(0, 5, 15);
    assert!(!m1.contains(&m2), "m1 cannot contain m2 if m2 ends later");
}

#[test]
fn test_maximum_u32_bounds() {
    let m = Match::from_parts(u32::MAX, u32::MAX - 10, u32::MAX);
    assert_eq!(
        m.len(),
        10,
        "Length calculation near u32::MAX should not overflow"
    );
}

#[test]
fn test_overlap_max_bounds() {
    let m1 = Match::from_parts(0, u32::MAX - 5, u32::MAX);
    let m2 = Match::from_parts(0, u32::MAX - 2, u32::MAX);
    assert!(
        m1.overlaps(&m2),
        "Overlaps logic should correctly handle values near u32::MAX"
    );
}

#[test]
fn test_large_input_bounds() {
    let large_size = 1024 * 1024 * 5; // 5MB
    let m = Match::from_parts(1, 0, large_size);
    assert_eq!(
        m.len(),
        large_size,
        "Should accurately represent 5MB match length"
    );
}

#[test]
fn test_malformed_inverted_bounds() {
    let m = Match::from_parts(0, 20, 10);
    // saturating_sub makes length 0. But overlaps might misbehave.
    let valid = Match::from_parts(0, 15, 25);
    // valid overlaps m if 15 < 10 (false).
    assert!(
        !m.overlaps(&valid),
        "Inverted bound matches should not erroneously overlap valid matches"
    );
}

#[test]
fn test_malformed_large_start_zero_end() {
    let m = Match::from_parts(0, u32::MAX, 0);
    assert_eq!(
        m.len(),
        0,
        "Length must be 0 for invalid huge start / zero end"
    );
}

#[test]
fn test_zero_id_and_bounds() {
    let m = Match::from_parts(0, 0, 0);
    assert!(m.is_empty(), "All zeros should be empty");
}

#[test]
fn test_unicode_surrogate_byte_len() {
    // 3 bytes per surrogate typically in UTF-8
    let m = Match::from_parts(0, 0, 3);
    assert_eq!(
        m.len(),
        3,
        "Length calculation must respect exact byte offsets"
    );
}

#[test]
fn test_duplicate_entries_insert() {
    let mut s = MatchSet::new();
    s.insert(Match::from_parts(1, 10, 20));
    s.insert(Match::from_parts(1, 10, 20));
    assert_eq!(
        s.len(),
        1,
        "MatchSet should implicitly dedup via binary_search in insert"
    );
}

#[test]
fn test_duplicate_entries_try_insert() {
    let mut s = MatchSet::new();
    s.try_insert(Match::from_parts(1, 10, 20)).unwrap();
    s.try_insert(Match::from_parts(1, 10, 20)).unwrap();
    assert_eq!(
        s.len(),
        1,
        "try_insert should implicitly dedup exact duplicates"
    );
}

#[test]
fn test_merge_bound_inclusion() {
    let mut s = MatchSet::new();
    s.insert(Match::from_parts(1, 0, 10));
    s.insert(Match::from_parts(1, 9, 20));
    s.merge_overlapping();
    assert_eq!(s.len(), 1, "Overlapping by 1 byte should merge");
    assert_eq!(s.as_slice()[0].end, 20, "Merged end should be maximum");
}

#[test]
fn test_resource_exhaustion_100k() {
    let mut s = MatchSet::new();
    let matches: Vec<_> = (0..100_000)
        .map(|i| Match::from_parts(1, i * 2, (i * 2) + 1))
        .collect();
    s.extend(matches);
    assert_eq!(
        s.len(),
        100_000,
        "Should handle 100K non-overlapping inserts via extend"
    );
}

#[test]
fn test_resource_exhaustion_merge_100k() {
    let mut s = MatchSet::new();
    let matches: Vec<_> = (0..100_000)
        .map(|i| Match::from_parts(1, i, i + 2))
        .collect();
    s.extend(matches);
    s.merge_overlapping();
    assert_eq!(
        s.len(),
        1,
        "Should successfully merge 100K overlapping items into 1"
    );
    assert_eq!(
        s.as_slice()[0].end,
        100_001,
        "Final end bound should be 100001"
    );
}

#[test]
fn test_try_capacity_oom_graceful() {
    let s = MatchSet::try_with_capacity(usize::MAX);
    assert!(
        s.is_err(),
        "try_with_capacity on usize::MAX should return backend error gracefully"
    );
}

#[test]
fn test_try_insert_exhaustion() {
    // If we allocate exactly up to a near-max threshold, trying to insert 1 more might trigger OOM gracefully.
    // Instead of forcing physical OOM which kills the runner, we verify try_insert propagates memory errors correctly
    // by mocking a failure if possible, or ensuring the Result wrapper is sound.
    let mut s = MatchSet::new();
    let res = s.try_insert(Match::from_parts(0, 0, 1));
    assert!(res.is_ok(), "Normal try_insert should succeed");
}

#[test]
fn test_try_merge_exhaustion_safety() {
    let mut s = MatchSet::new();
    s.insert(Match::from_parts(1, 0, 10));
    s.insert(Match::from_parts(1, 5, 15));
    let res = s.try_merge_overlapping();
    assert!(res.is_ok(), "Normal try_merge_overlapping should succeed");
}

#[test]
fn test_gpu_match_buffer_layout() {
    let g = GpuMatch([42, 100, 200, 0]);
    let m: Match = g.into();
    assert_eq!(
        m.pattern_id, 42,
        "GpuMatch pattern_id offset must be index 0"
    );
    assert_eq!(m.start, 100, "GpuMatch start offset must be index 1");
    assert_eq!(m.end, 200, "GpuMatch end offset must be index 2");
    assert_eq!(m.padding(), 0, "GpuMatch padding offset must be index 3");
}

#[test]
fn test_equality_ignores_padding() {
    let m1 = Match::from_parts_with_padding(1, 10, 20, 999);
    let m2 = Match::from_parts_with_padding(1, 10, 20, 888);
    // PartialEq checks pattern_id, start, end. Padding is ignored in Eq/PartialEq implementation.
    assert_eq!(m1, m2, "Match equality should ignore padding differences");
}

#[test]
fn test_match_ordering_edge_cases() {
    let mut s = MatchSet::new();
    // Insert reverse
    s.insert(Match::from_parts(3, 10, 20));
    s.insert(Match::from_parts(2, 10, 20));
    s.insert(Match::from_parts(1, 10, 20));
    // Should sort by start, then pattern_id
    assert_eq!(
        s.as_slice()[0].pattern_id,
        1,
        "Ordering should resolve ties by pattern_id"
    );
}

#[test]
fn test_filter_by_pattern() {
    let mut s = MatchSet::new();
    s.insert(Match::from_parts(1, 0, 10));
    s.insert(Match::from_parts(2, 0, 10));
    let s2 = s.filter_by_pattern(1);
    assert_eq!(
        s2.len(),
        1,
        "Filter should return exactly items matching ID"
    );
    assert_eq!(
        s2.as_slice()[0].pattern_id,
        1,
        "Filter must preserve correct items"
    );
}

#[test]
fn test_pattern_counts_accumulation() {
    let mut s = MatchSet::new();
    s.insert(Match::from_parts(5, 0, 10));
    s.insert(Match::from_parts(5, 20, 30));
    let counts = s.pattern_counts();
    assert_eq!(
        counts.get(&5),
        Some(&2),
        "Pattern counts should accurately sum unique instances"
    );
}

#[test]
fn test_pattern_ids_deduplication() {
    let mut s = MatchSet::new();
    s.insert(Match::from_parts(9, 0, 10));
    s.insert(Match::from_parts(9, 20, 30));
    s.insert(Match::from_parts(4, 10, 20));
    let ids = s.pattern_ids();
    assert_eq!(
        ids,
        vec![4, 9],
        "Pattern IDs must be sorted and deduplicated"
    );
}

#[test]
fn test_merge_disjoint_segments() {
    let mut s = MatchSet::new();
    s.insert(Match::from_parts(1, 0, 10));
    s.insert(Match::from_parts(1, 20, 30));
    s.merge_overlapping();
    assert_eq!(s.len(), 2, "Disjoint segments must not be merged");
}

#[test]
fn test_transitive_contains_boundary() {
    let m1 = Match::from_parts(0, 0, 100);
    let m2 = Match::from_parts(0, 50, 100);
    let m3 = Match::from_parts(0, 50, 50);
    assert!(m1.contains(&m2), "m1 contains m2");
    assert!(m2.contains(&m3), "m2 contains zero-length m3 at boundary");
    assert!(m1.contains(&m3), "Contains should be logically transitive");
}

#[test]
fn test_empty_subset_overlaps() {
    let s1 = MatchSet::new();
    let mut s2 = MatchSet::new();
    s2.insert(Match::from_parts(1, 0, 10));
    // A completely empty set shouldn't have weird length issues
    assert!(s1.is_empty(), "New set is empty");
    assert!(!s2.is_empty(), "Set with insert is not empty");
}

#[test]
fn test_multi_pattern_merge_precedence() {
    let mut s = MatchSet::new();
    // ID 2 starts earlier, ID 1 starts later but overlaps.
    s.insert(Match::from_parts(2, 0, 15));
    s.insert(Match::from_parts(1, 5, 20));
    s.merge_overlapping();
    // Since 2 is earlier, it sorts first. Merge takes the first pattern ID.
    assert_eq!(
        s.as_slice()[0].pattern_id,
        2,
        "Merge must take the pattern ID of the earlier-starting match"
    );
    assert_eq!(
        s.as_slice()[0].end,
        20,
        "Merge must take the maximum end bound"
    );
}

#[test]
fn test_try_extend_empty() {
    let mut s = MatchSet::new();
    let res = s.try_extend(std::iter::empty::<Match>().collect());
    assert!(res.is_ok(), "try_extend on empty iterator should succeed");
    assert!(s.is_empty(), "Set should remain empty");
}

#[test]
fn test_adv_match_size_exact_16() {
    assert_eq!(mem::size_of::<Match>(), 16, "Match must be exactly 16 bytes");
    assert_eq!(mem::align_of::<Match>(), 4, "Match must have alignment of 4");
}

#[test]
fn test_adv_match_pattern_id_max() {
    let m = Match::from_parts(u32::MAX, 10, 20);
    assert_eq!(m.pattern_id, u32::MAX, "pattern_id should handle u32::MAX");
}

#[test]
fn test_adv_match_start_max() {
    let m = Match::from_parts(0, u32::MAX, u32::MAX);
    assert_eq!(m.start, u32::MAX, "start should handle u32::MAX");
}

#[test]
fn test_adv_match_end_max() {
    let m = Match::from_parts(0, 0, u32::MAX);
    assert_eq!(m.end, u32::MAX, "end should handle u32::MAX");
}

#[test]
fn test_adv_match_all_fields_max() {
    let m = Match::from_parts(u32::MAX, u32::MAX, u32::MAX);
    assert_eq!(m.pattern_id, u32::MAX);
    assert_eq!(m.start, u32::MAX);
    assert_eq!(m.end, u32::MAX);
}

#[test]
fn test_adv_match_all_fields_and_padding_max() {
    let m = Match::from_parts_with_padding(u32::MAX, u32::MAX, u32::MAX, u32::MAX);
    assert_eq!(m.pattern_id, u32::MAX);
    assert_eq!(m.start, u32::MAX);
    assert_eq!(m.end, u32::MAX);
    assert_eq!(m.padding(), u32::MAX);
}

#[test]
fn test_adv_error_input_too_large() {
    let e = Error::InputTooLarge { bytes: usize::MAX, max_bytes: 100 };
    let s = e.to_string();
    assert!(s.contains("scan input is too large"));
    assert!(s.contains("fix:"));
}

#[test]
fn test_adv_error_match_buffer_overflow() {
    let e = Error::MatchBufferOverflow { count: usize::MAX, max: 100 };
    let s = e.to_string();
    assert!(s.contains("too many matches"));
    assert!(s.contains("fix:"));
}

#[test]
fn test_adv_error_empty_pattern_set() {
    let e = Error::EmptyPatternSet;
    let s = e.to_string();
    assert!(s.contains("pattern set is empty"));
    assert!(s.contains("fix:"));
}

#[test]
fn test_adv_error_empty_pattern() {
    let e = Error::EmptyPattern { index: usize::MAX };
    let s = e.to_string();
    assert!(s.contains(&usize::MAX.to_string()));
    assert!(s.contains("is empty"));
    assert!(s.contains("fix:"));
}

#[test]
fn test_adv_error_pattern_compilation_failed() {
    let e = Error::PatternCompilationFailed { reason: "adv reason".into() };
    let s = e.to_string();
    assert!(s.contains("adv reason"));
    assert!(s.contains("pattern compilation failed"));
}

#[test]
fn test_adv_match_zero_offsets() {
    let m = Match::from_parts(0, 0, 0);
    assert_eq!(m.start, 0);
    assert_eq!(m.end, 0);
    assert!(m.is_empty());
}

#[test]
fn test_adv_match_zero_offsets_contains() {
    let m = Match::from_parts(0, 0, 0);
    assert!(m.contains(&m));
}

#[test]
fn test_adv_match_zero_offsets_overlaps() {
    let m = Match::from_parts(0, 0, 0);
    assert!(!m.overlaps(&m));
}

#[test]
fn test_adv_match_max_offsets_len() {
    let m = Match::from_parts(0, u32::MAX, u32::MAX);
    assert_eq!(m.len(), 0);
    assert!(m.is_empty());
}

#[test]
fn test_adv_match_max_offsets_overlaps() {
    let m1 = Match::from_parts(0, u32::MAX - 10, u32::MAX);
    let m2 = Match::from_parts(0, u32::MAX - 20, u32::MAX - 5);
    assert!(m1.overlaps(&m2));
}

#[test]
fn test_adv_match_overlap_exact() {
    let m1 = Match::from_parts(0, 10, 20);
    let m2 = Match::from_parts(0, 10, 20);
    assert!(m1.overlaps(&m2));
}

#[test]
fn test_adv_match_overlap_one_byte() {
    let m1 = Match::from_parts(0, 10, 20);
    let m2 = Match::from_parts(0, 19, 30);
    assert!(m1.overlaps(&m2));
    assert!(m2.overlaps(&m1));
}

#[test]
fn test_adv_match_overlap_adjacent() {
    let m1 = Match::from_parts(0, 10, 20);
    let m2 = Match::from_parts(0, 20, 30);
    assert!(!m1.overlaps(&m2));
    assert!(!m2.overlaps(&m1));
}

#[test]
fn test_adv_match_overlap_contained() {
    let m1 = Match::from_parts(0, 10, 50);
    let m2 = Match::from_parts(0, 20, 30);
    assert!(m1.overlaps(&m2));
    assert!(m2.overlaps(&m1));
}

#[test]
fn test_adv_match_overlap_max_exact() {
    let m1 = Match::from_parts(0, u32::MAX - 10, u32::MAX);
    let m2 = Match::from_parts(0, u32::MAX - 10, u32::MAX);
    assert!(m1.overlaps(&m2));
}

#[test]
fn test_adv_match_overlap_inverted_bounds() {
    let m1 = Match::from_parts(0, 50, 10);
    let m2 = Match::from_parts(0, 0, 20);
    // 50 < 20 (false), 0 < 10 (true). Overlap should be false.
    assert!(!m1.overlaps(&m2));
}

#[test]
fn test_adv_merge_zero_offset_matches() {
    let mut s = MatchSet::new();
    s.insert(Match::from_parts(0, 0, 0));
    s.insert(Match::from_parts(0, 0, 0));
    s.merge_overlapping();
    assert_eq!(s.len(), 1); // Exact duplicates are deduped
}

#[test]
fn test_adv_gpumatch_fields() {
    let g = GpuMatch([u32::MAX, 1, 2, u32::MAX]);
    assert_eq!(g.0[0], u32::MAX);
    assert_eq!(g.0[1], 1);
    assert_eq!(g.0[2], 2);
    assert_eq!(g.0[3], u32::MAX);
}

#[test]
fn test_adv_eq_with_different_padding() {
    let m1 = Match::from_parts_with_padding(1, 0, 10, u32::MAX);
    let m2 = Match::from_parts_with_padding(1, 0, 10, 0);
    assert_eq!(m1, m2);
}

#[test]
fn test_adv_match_ord_rules() {
    let m1 = Match::from_parts(10, 0, 10);
    let m2 = Match::from_parts(5, 0, 10);
    assert!(m2 < m1);
}

#[test]
fn test_adv_match_ord_end_rules() {
    let m1 = Match::from_parts(5, 0, 20);
    let m2 = Match::from_parts(5, 0, 10);
    assert!(m2 < m1);
}

#[test]
fn test_adv_error_result_type() {
    let res: matchkit::Result<Match> = Err(Error::EmptyPatternSet);
    assert!(res.is_err());
}
