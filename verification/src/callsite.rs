//! Call sites: the fixed places in a program that emit events or open spans.

use vstd::prelude::*;
use crate::level::Level;

verus! {

/// The identity of a call site: where it stands, the level it declares and
/// the target it reports under.
#[derive(Debug)]
pub struct CallSite {
    pub file: String,
    pub line: u32,
    pub level: Level,
    pub target: String,
}

/// The mathematical content of a call site.
pub struct CallSiteView {
    pub file: Seq<char>,
    pub line: u32,
    pub level: Level,
    pub target: Seq<char>,
}

impl View for CallSite {
    type V = CallSiteView;

    open spec fn view(&self) -> CallSiteView {
        CallSiteView { file: self.file@, line: self.line, level: self.level, target: self.target@ }
    }
}

impl CallSite {
    /// Whether two call sites have the same identity.
    pub fn same_as(&self, other: &CallSite) -> (r: bool)
        ensures
            r == (self@ == other@),
    {
        self.line == other.line && self.level == other.level && self.file == other.file
            && self.target == other.target
    }
}

/// The stable index of a registered call site.
#[derive(Clone, Copy, Debug, PartialEq, Eq, Structural)]
pub struct CallSiteId(pub usize);

impl View for CallSiteId {
    type V = int;

    open spec fn view(&self) -> int {
        self.0 as int
    }
}

} // verus!
