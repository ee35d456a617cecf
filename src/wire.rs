//! Records exchanged between the ORAM client and the bucket store.
use vstd::prelude::*;

verus! {

/// Tag of an empty slot.
pub const EMPTY: i32 = -1;

/// One slot of a bucket: a logical address tag and its payload, or the empty
/// slot `(EMPTY, EMPTY)`.
#[derive(Clone, Copy, Debug, PartialEq, Eq, Structural)]
pub struct Block {
    pub index: i32,
    pub value: i32,
}

/// The padding slot.
pub open spec fn empty_block() -> Block {
    Block { index: EMPTY, value: EMPTY }
}

impl Block {
    /// The padding slot.
    pub fn empty() -> (r: Block)
        ensures
            r == empty_block(),
    {
        Block { index: EMPTY, value: EMPTY }
    }

    /// The slot holds a logical block rather than padding.
    pub open spec fn is_occupied(self) -> bool {
        self.index != EMPTY
    }
}

/// Why the bucket store refused a request.
#[derive(Clone, Copy, Debug, PartialEq, Eq, Structural)]
pub enum StoreError {
    /// A bucket index is outside the tree.
    NotFound,
    /// The number of blocks is not the number of indices times the bucket size.
    Invalid,
}

/// A batched overwrite of whole buckets: bucket `indices[k]` receives the
/// `k`-th run of bucket-size blocks.
#[derive(Debug)]
pub struct WriteBlockRequest {
    pub indices: Vec<i32>,
    pub blocks: Vec<Block>,
}

} // verus!
