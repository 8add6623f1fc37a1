//! The outcome of a deduction attempt.
//!
//! A contradiction is not an exception: it is the normal return channel
//! for "this search branch is unsatisfiable", and the driver backtracks
//! on it.  An explanation is structured data naming the affected cell,
//! so that carrying one imposes no formatting cost when no diagnostic
//! sink is attached.

use vstd::prelude::*;

verus! {

/// A structured explanation of a deduction outcome: the affected cell.
#[derive(Clone, Copy, Debug, PartialEq, Eq, Structural)]
pub struct StepDesc {
    /// The flat index of the affected cell.
    pub cell: usize,
}

/// The tagged outcome of a deduction attempt.
#[derive(Clone, Copy, Debug, PartialEq, Eq)]
pub enum StepResult {
    /// No deduction was available.
    NoProgress,
    /// At least one mask shrank.
    Progress(Option<StepDesc>),
    /// Some mask became empty: the branch is unsatisfiable.
    Contradiction(Option<StepDesc>),
}

impl StepResult {
    /// Whether this outcome reports no deduction.
    pub fn is_no_progress(&self) -> (r: bool)
        ensures
            r == (self is NoProgress),
    {
        match self {
            StepResult::NoProgress => true,
            _ => false,
        }
    }

    /// Whether this outcome reports that a mask shrank.
    pub fn is_progress(&self) -> (r: bool)
        ensures
            r == (self is Progress),
    {
        match self {
            StepResult::Progress(_) => true,
            _ => false,
        }
    }

    /// Whether this outcome reports a contradiction.
    pub fn is_contradiction(&self) -> (r: bool)
        ensures
            r == (self is Contradiction),
    {
        match self {
            StepResult::Contradiction(_) => true,
            _ => false,
        }
    }

    /// The explanation carried by the outcome, if any.
    pub fn description(&self) -> (r: Option<StepDesc>)
        ensures
            self is NoProgress ==> r is None,
            self matches StepResult::Progress(d) ==> r == d,
            self matches StepResult::Contradiction(d) ==> r == d,
    {
        match self {
            StepResult::NoProgress => None,
            StepResult::Progress(d) => *d,
            StepResult::Contradiction(d) => *d,
        }
    }
}

} // verus!
