//! Names of physical places: segments, blocks, slots, rows and graph nodes.

use vstd::prelude::*;

verus! {

/// The number of a segment.
#[derive(Clone, Copy, Debug, PartialEq, Eq, Structural, Hash)]
pub struct SegmentId(pub u64);

/// The number of a block within a segment.
#[derive(Clone, Copy, Debug, PartialEq, Eq, Structural, Hash)]
pub struct BlockId(pub u32);

/// The number of a row within a block.
#[derive(Clone, Copy, Debug, PartialEq, Eq, Structural, Hash)]
pub struct SlotId(pub u32);

/// The number of a graph node.
#[derive(Clone, Copy, Debug, PartialEq, Eq, Structural, Hash)]
pub struct NodeId(pub u64);

/// The physical place of a row.
#[derive(Clone, Copy, Debug, PartialEq, Eq, Structural, Hash)]
pub struct RowLocator {
    pub segment: SegmentId,
    pub block: BlockId,
    pub slot: SlotId,
}

impl RowLocator {
    /// The place with the given segment, block and slot.
    pub fn new(segment: SegmentId, block: BlockId, slot: SlotId) -> (res: Self)
        ensures
            res == (RowLocator { segment, block, slot }),
    {
        RowLocator { segment, block, slot }
    }
}

} // verus!
