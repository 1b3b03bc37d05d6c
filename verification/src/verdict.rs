//! Verdict codes of the remote judge and their three-way collapse.
//!
//! The remote service reports one of ten fine-grained verdicts per
//! submission.  The merge state machine only distinguishes three buckets:
//! accepted, rejected (any non-accepted terminal verdict) and pending
//! (not yet judged).  Raw numeric codes are mapped to the enumeration
//! once, at the API boundary, and never re-examined by the state machine.

use vstd::prelude::*;

verus! {

/// A fine-grained verdict as reported by the remote judge.
#[derive(Clone, Copy, Debug, PartialEq, Eq, Structural)]
pub enum Verdict {
    Pending,
    Judging,
    SystemError,
    CompileError,
    RuntimeError,
    MemoryLimitExceeded,
    TimeLimitExceeded,
    OutputLimitExceeded,
    WrongAnswer,
    Accepted,
}

/// The three-way collapse of a [`Verdict`] used by the merge state machine.
#[derive(Clone, Copy, Debug, PartialEq, Eq, Structural)]
pub enum CollapsedVerdict {
    Accepted,
    Rejected,
    Pending,
}

/// The numeric code the remote service uses for each verdict.
pub open spec fn spec_code(v: Verdict) -> u32 {
    match v {
        Verdict::Pending => 1,
        Verdict::Judging => 2,
        Verdict::SystemError => 3,
        Verdict::CompileError => 4,
        Verdict::RuntimeError => 5,
        Verdict::MemoryLimitExceeded => 6,
        Verdict::TimeLimitExceeded => 7,
        Verdict::OutputLimitExceeded => 8,
        Verdict::WrongAnswer => 9,
        Verdict::Accepted => 10,
    }
}

/// The verdict a numeric code denotes, if any.
pub open spec fn spec_from_code(code: u32) -> Option<Verdict> {
    if code == 1 { Some(Verdict::Pending) }
    else if code == 2 { Some(Verdict::Judging) }
    else if code == 3 { Some(Verdict::SystemError) }
    else if code == 4 { Some(Verdict::CompileError) }
    else if code == 5 { Some(Verdict::RuntimeError) }
    else if code == 6 { Some(Verdict::MemoryLimitExceeded) }
    else if code == 7 { Some(Verdict::TimeLimitExceeded) }
    else if code == 8 { Some(Verdict::OutputLimitExceeded) }
    else if code == 9 { Some(Verdict::WrongAnswer) }
    else if code == 10 { Some(Verdict::Accepted) }
    else { None }
}

/// The collapsed bucket of a verdict.  System, compile and runtime errors,
/// the three resource-limit verdicts and a wrong answer are all terminal
/// rejections; pending and judging are transient.
pub open spec fn spec_collapse(v: Verdict) -> CollapsedVerdict {
    match v {
        Verdict::Accepted => CollapsedVerdict::Accepted,
        Verdict::Pending => CollapsedVerdict::Pending,
        Verdict::Judging => CollapsedVerdict::Pending,
        _ => CollapsedVerdict::Rejected,
    }
}

impl Verdict {
    /// Maps a raw numeric verdict code of the remote service.
    /// Codes outside the documented range denote no verdict.
    pub fn from_code(code: u32) -> (r: Option<Verdict>)
        ensures
            r == spec_from_code(code),
    {
        match code {
            1 => Some(Verdict::Pending),
            2 => Some(Verdict::Judging),
            3 => Some(Verdict::SystemError),
            4 => Some(Verdict::CompileError),
            5 => Some(Verdict::RuntimeError),
            6 => Some(Verdict::MemoryLimitExceeded),
            7 => Some(Verdict::TimeLimitExceeded),
            8 => Some(Verdict::OutputLimitExceeded),
            9 => Some(Verdict::WrongAnswer),
            10 => Some(Verdict::Accepted),
            _ => None,
        }
    }

    /// The numeric code of this verdict; `from_code` maps it back.
    pub fn code(self) -> (r: u32)
        ensures
            r == spec_code(self),
            spec_from_code(r) == Some(self),
    {
        match self {
            Verdict::Pending => 1,
            Verdict::Judging => 2,
            Verdict::SystemError => 3,
            Verdict::CompileError => 4,
            Verdict::RuntimeError => 5,
            Verdict::MemoryLimitExceeded => 6,
            Verdict::TimeLimitExceeded => 7,
            Verdict::OutputLimitExceeded => 8,
            Verdict::WrongAnswer => 9,
            Verdict::Accepted => 10,
        }
    }

    /// The collapsed bucket of this verdict.
    pub fn collapse(self) -> (r: CollapsedVerdict)
        ensures
            r == spec_collapse(self),
    {
        match self {
            Verdict::Accepted => CollapsedVerdict::Accepted,
            Verdict::Pending => CollapsedVerdict::Pending,
            Verdict::Judging => CollapsedVerdict::Pending,
            _ => CollapsedVerdict::Rejected,
        }
    }
}

} // verus!
