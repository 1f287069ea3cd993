//! The kinds of failure that the kernel reports.

use vstd::prelude::*;

verus! {

/// A failure reported by the kernel or by one of its resources.
#[derive(Clone, Copy, Debug, PartialEq, Eq, Structural)]
pub enum SimError {
    /// A resource was given a capacity or a level that it cannot hold.
    InvalidParameters,
    /// More was asked of a buffer than it held.
    ResourceUnderflow,
    /// A buffer was asked to move a negative amount.
    NegativeAmount,
    /// A unit was returned to a pool that had none outstanding.
    Overflow,
    /// A process or a resource was named that does not exist.
    UnknownId,
    /// An event arrived for a process that had already completed.
    TerminatedProcess,
    /// A run has taken as many steps as it can count.
    Exhausted,
}

impl SimError {
    /// Whether the failure ends a run. The two failures of a buffer are handed
    /// to the process that caused them; every other failure is fatal.
    pub open spec fn is_fatal(self) -> bool {
        !(self is ResourceUnderflow || self is NegativeAmount)
    }

    /// The diagnostic that goes with the failure.
    pub open spec fn text(self) -> Seq<char> {
        match self {
            SimError::InvalidParameters => "invalid parameters"@,
            SimError::ResourceUnderflow => "cannot draw more than the buffer holds"@,
            SimError::NegativeAmount => "cannot move a negative amount"@,
            SimError::Overflow => "cannot release a unit of a pool that has none outstanding"@,
            SimError::UnknownId => "no such process or resource"@,
            SimError::TerminatedProcess => "cannot resume a process that has run to its end"@,
            SimError::Exhausted => "the run has taken as many steps as it can count"@,
        }
    }

    /// The diagnostic that goes with the failure.
    pub fn message(&self) -> (message: &'static str)
        ensures
            message@ == self.text(),
    {
        match self {
            SimError::InvalidParameters => "invalid parameters",
            SimError::ResourceUnderflow => "cannot draw more than the buffer holds",
            SimError::NegativeAmount => "cannot move a negative amount",
            SimError::Overflow => "cannot release a unit of a pool that has none outstanding",
            SimError::UnknownId => "no such process or resource",
            SimError::TerminatedProcess => "cannot resume a process that has run to its end",
            SimError::Exhausted => "the run has taken as many steps as it can count",
        }
    }

    /// Whether the failure ends a run.
    pub fn fatal(&self) -> (b: bool)
        ensures
            b == self.is_fatal(),
    {
        match self {
            SimError::ResourceUnderflow => false,
            SimError::NegativeAmount => false,
            _ => true,
        }
    }
}

} // verus!
