//! Incremental scoreboard engine for a remote judge.
//!
//! The crate keeps, for a roster of contestants and problems, each
//! contestant's best-known verdict per problem, derived from the judge's
//! submission log.  Synchronization is incremental: a watermark timestamp
//! marks the newest submission already merged, and only newer submissions
//! change the state.  The aggregate state can be serialized to a byte blob
//! and restored, and projected into a renderer-agnostic grid for display.

pub mod codec;
pub mod laws;
pub mod meta;
pub mod scoreboard;
pub mod seq_util;
pub mod submission;
pub mod sync;
pub mod table;
pub mod verdict;
