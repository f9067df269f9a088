//! Shortcuts: the arcs that a contraction adds.

use crate::network::IdxNodeKey;
use vstd::prelude::*;

verus! {

/// The arc from `snode_idx` to `enode_idx` of cost `length` that was added
/// when node `mnode_idx`, which lay between them, was contracted.
#[derive(Clone, Copy, Debug, PartialEq, Eq, Structural)]
pub struct CHContraction {
    pub snode_idx: IdxNodeKey,
    pub enode_idx: IdxNodeKey,
    pub mnode_idx: IdxNodeKey,
    pub length: u32,
}

impl CHContraction {
    /// The index of the node the shortcut starts at.
    pub fn start_code(&self) -> (code: u32)
        ensures
            code == self.snode_idx.0,
    {
        self.snode_idx.0
    }
}

/// The shortcuts are sorted by the node they start at.
pub open spec fn sorted_by_start(list: Seq<CHContraction>) -> bool {
    forall|i: int, j: int|
        0 <= i <= j < list.len() ==> (#[trigger] list[i]).snode_idx.0 <= (
        #[trigger] list[j]).snode_idx.0
}

} // verus!
