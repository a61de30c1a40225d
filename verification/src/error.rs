//! The ways in which an operation of this crate can fail.

use vstd::prelude::*;

verus! {

/// Why an operation failed. None of these is meant to be recovered from: a
/// caller stops on any of them. An operation that fails leaves every value it
/// was given as it found it.
#[derive(Clone, Copy, Debug, PartialEq, Eq, Structural)]
pub enum NsError {
    /// The memory asked for does not make a layout, or the heap cannot hold it.
    AllocationFailure,
    /// A cell's strong count is beyond the largest count that may be raised.
    CounterOverflow,
    /// A resource of size zero was offered for registration.
    ZeroSizedResource,
    /// A resource was offered for registration after the registry was frozen.
    RegistrationAfterFreeze,
}

impl NsError {
    /// The words for this failure.
    pub open spec fn spec_message(&self) -> Seq<char> {
        match self {
            NsError::AllocationFailure => "memory allocation failed"@,
            NsError::CounterOverflow => "ResArc counter overflow"@,
            NsError::ZeroSizedResource => "Resource has zero size"@,
            NsError::RegistrationAfterFreeze => "Resource registered after the registry was frozen"@,
        }
    }

    /// The words for this failure, for a caller that stops on it.
    pub fn message(&self) -> (r: &'static str)
        ensures
            r@ == self.spec_message(),
    {
        match self {
            NsError::AllocationFailure => "memory allocation failed",
            NsError::CounterOverflow => "ResArc counter overflow",
            NsError::ZeroSizedResource => "Resource has zero size",
            NsError::RegistrationAfterFreeze => "Resource registered after the registry was frozen",
        }
    }
}

} // verus!
