//! The buffer handling that matching backends share.
use crate::match_type::Match;
use vstd::prelude::*;

verus! {

/// Appends a batch of matches found by one scan to the caller's buffer, in
/// the order found, and returns how many were appended. This is what a
/// backend's `scan_into` / `scan_block_into` does once its scan has produced
/// the batch.
pub fn append_matches(buf: &mut Vec<Match>, matches: Vec<Match>) -> (count: usize)
    ensures
        final(buf)@ == old(buf)@ + matches@,
        count == matches@.len(),
{
    let count: usize = matches.len();
    let mut matches = matches;
    buf.append(&mut matches);
    count
}

} // verus!
