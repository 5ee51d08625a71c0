//! What each level of comparison covers.
use crate::transform::common::CheckLevel;
use vstd::prelude::*;

verus! {

/// Every level covers no check, and itself; layout is covered by names, and names by
/// descriptions; and nothing else is covered.
pub proof fn lemma_covers(level: CheckLevel)
    ensures
        level.covers(CheckLevel::NoCheck),
        level.covers(CheckLevel::Layout) <==> !(level is NoCheck),
        level.covers(CheckLevel::Names) <==> level is Names || level is Descriptions,
        level.covers(CheckLevel::Descriptions) <==> level is Descriptions,
{
}

} // verus!
