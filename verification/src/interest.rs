//! The verdict that a call site caches, and the generation it belongs to.

use vstd::prelude::*;

verus! {

/// What a filter makes of a call site. `Never` is the only disabling
/// verdict; `Always` and `Sometimes` both let the call site through until
/// the generation changes.
#[derive(Clone, Copy, Debug, PartialEq, Eq, Structural)]
pub enum Interest {
    Always,
    Never,
    Sometimes,
}

impl Interest {
    /// Whether the verdict lets the call site through.
    pub open spec fn spec_is_enabled(self) -> bool {
        self != Interest::Never
    }

    /// Whether the verdict lets the call site through.
    pub fn is_enabled(self) -> (r: bool)
        ensures
            r == self.spec_is_enabled(),
    {
        match self {
            Interest::Never => false,
            _ => true,
        }
    }

    /// The verdict that records the result of an evaluation.
    pub open spec fn spec_from_enabled(enabled: bool) -> Interest {
        if enabled {
            Interest::Always
        } else {
            Interest::Never
        }
    }

    /// The verdict that records the result of an evaluation.
    pub fn from_enabled(enabled: bool) -> (r: Interest)
        ensures
            r == Self::spec_from_enabled(enabled),
            r.spec_is_enabled() == enabled,
    {
        if enabled {
            Interest::Always
        } else {
            Interest::Never
        }
    }
}

/// A verdict together with the generation of the filter it was computed
/// against. The two are read and replaced as one unit.
#[derive(Clone, Copy, Debug, PartialEq, Eq, Structural)]
pub struct CachedInterest {
    pub generation: u64,
    pub verdict: Interest,
}

/// The mathematical content of a cached verdict.
pub struct CachedInterestView {
    pub generation: nat,
    pub verdict: Interest,
}

impl View for CachedInterest {
    type V = CachedInterestView;

    open spec fn view(&self) -> CachedInterestView {
        CachedInterestView { generation: self.generation as nat, verdict: self.verdict }
    }
}

} // verus!
