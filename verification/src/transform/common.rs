//! What several transforms share.
use vstd::prelude::*;

verus! {

/// How closely two things are compared. Each level checks what the levels
/// before it check.
#[derive(Clone, Copy, Debug, PartialEq, Eq, Structural)]
pub enum CheckLevel {
    NoCheck,
    Layout,
    Names,
    Descriptions,
}

impl CheckLevel {
    /// The place of the level among the levels.
    pub open spec fn rank(self) -> int {
        match self {
            CheckLevel::NoCheck => 0,
            CheckLevel::Layout => 1,
            CheckLevel::Names => 2,
            CheckLevel::Descriptions => 3,
        }
    }

    /// Whether this level checks what `other` checks.
    pub open spec fn covers(self, other: CheckLevel) -> bool {
        self.rank() >= other.rank()
    }

    /// Whether this level checks what `other` checks.
    pub fn includes_level(self, other: CheckLevel) -> (r: bool)
        ensures
            r == self.covers(other),
    {
        match other {
            CheckLevel::NoCheck => true,
            CheckLevel::Layout => !matches!(self, CheckLevel::NoCheck),
            CheckLevel::Names => matches!(self, CheckLevel::Names | CheckLevel::Descriptions),
            CheckLevel::Descriptions => matches!(self, CheckLevel::Descriptions),
        }
    }
}

} // verus!
