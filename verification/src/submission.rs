//! A submission as the engine sees it: plain values only.
//!
//! Timestamps are seconds since the Unix epoch.  The boundary that talks to
//! the remote service converts its own date representation into these plain
//! fields before anything here runs.

use vstd::prelude::*;
use crate::verdict::Verdict;

verus! {

/// One submission from the remote judge's log.
#[derive(Clone, Copy, Debug, PartialEq, Eq)]
pub struct Submission {
    pub id: u64,
    pub user_id: u32,
    pub problem_id: u32,
    pub verdict: Verdict,
    /// Seconds since the Unix epoch.
    pub created_at: u64,
    /// Seconds since the Unix epoch.
    pub updated_at: u64,
    pub execute_id: u32,
    pub length: usize,
    pub memory_usage: Option<u64>,
    pub time_usage: Option<u64>,
    pub score: Option<i32>,
}

/// Merge order: ascending creation time, ties broken by ascending
/// submission id.  The tie-break is a deliberate, stable choice; the remote
/// service does not document an order among equal timestamps.
pub open spec fn sub_le(a: Submission, b: Submission) -> bool {
    a.created_at < b.created_at || (a.created_at == b.created_at && a.id <= b.id)
}

/// The batch is in merge order.
pub open spec fn sorted_by_time(s: Seq<Submission>) -> bool {
    forall|i: int, j: int| 0 <= i < j < s.len() ==> sub_le(#[trigger] s[i], #[trigger] s[j])
}

} // verus!
