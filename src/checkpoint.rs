//! The unit the skip index traverses: a run of documents and the byte range
//! that holds them.
use vstd::prelude::*;

verus! {

/// A document ordinal within a segment.
pub type DocId = u32;

/// Fanout of the skip index: checkpoints per block.
pub const PERIOD: usize = 8;

/// Documents `first_doc ..= last_doc` stored in bytes `start_offset .. end_offset`.
#[derive(Clone, Copy, Debug, PartialEq, Eq, Structural)]
pub struct Checkpoint {
    pub first_doc: DocId,
    pub last_doc: DocId,
    pub start_offset: u64,
    pub end_offset: u64,
}

/// A checkpoint whose document range and byte range are not reversed.
pub open spec fn checkpoint_valid(c: Checkpoint) -> bool {
    c.first_doc <= c.last_doc && c.start_offset <= c.end_offset
}

/// Every checkpoint of `cps` is valid.
pub open spec fn checkpoints_valid(cps: Seq<Checkpoint>) -> bool {
    forall|i: int| 0 <= i < cps.len() ==> checkpoint_valid(#[trigger] cps[i])
}

/// Each checkpoint begins with the document and the byte where the previous one ended.
pub open spec fn checkpoints_adjacent(cps: Seq<Checkpoint>) -> bool {
    forall|i: int|
        0 <= i < cps.len() - 1 ==> {
            &&& (#[trigger] cps[i + 1]).first_doc == cps[i].last_doc + 1
            &&& cps[i + 1].start_offset == cps[i].end_offset
        }
}

} // verus!
