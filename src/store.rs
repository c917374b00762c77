//! The document store file: compressed blocks, then the skip index, then an
//! 8-byte little-endian trailer giving where the skip index starts.
use vstd::prelude::*;
use vstd::bytes::{spec_u64_from_le_bytes, u64_from_le_bytes};
use crate::checkpoint::{Checkpoint, DocId};
use crate::error::StoreError;
use crate::skip_index::{LayerCursor, SkipIndex, layer_ranges, layer_seq, seek_from};
use crate::varint::{vint_read, deserialize_vint};

verus! {

/// Where the skip index of the store file `file` starts (the end of the
/// compressed blocks), as its trailer gives it.
pub open spec fn store_split(file: Seq<u8>) -> Result<int, StoreError> {
    if file.len() < 8 {
        Err(StoreError::Truncated)
    } else {
        let offset = spec_u64_from_le_bytes(file.subrange(file.len() - 8, file.len() as int));
        if offset > file.len() - 8 {
            Err(StoreError::InvalidData)
        } else {
            Ok(offset as int)
        }
    }
}

/// Splits a store file into the compressed blocks and the skip index: the
/// length of the first part.
pub fn split_file(file: &[u8]) -> (r: Result<usize, StoreError>)
    ensures
        match store_split(file@) {
            Ok(offset) => r == Ok::<usize, StoreError>(offset as usize),
            Err(e) => r == Err::<usize, StoreError>(e),
        },
{
    let len = file.len();
    if len < 8 {
        return Err(StoreError::Truncated);
    }
    let offset = u64_from_le_bytes(&file[len - 8..len]);
    if offset > (len - 8) as u64 {
        return Err(StoreError::InvalidData);
    }
    Ok(offset as usize)
}

/// The document `count` places after the one at `pos` in a decompressed
/// block, where each document is a varint length followed by that many bytes.
pub open spec fn doc_parse(block: Seq<u8>, pos: int, count: nat) -> Result<Seq<u8>, StoreError>
    decreases count,
{
    match vint_read(block, pos) {
        Err(e) => Err(e),
        Ok((len, n)) => {
            let start = pos + n;
            if start + len > block.len() {
                Err(StoreError::Truncated)
            } else if count == 0 {
                Ok(block.subrange(start, start + len))
            } else {
                doc_parse(block, start + len, (count - 1) as nat)
            }
        },
    }
}

/// Bytes taken by the compressed blocks and by the skip index.
#[derive(Clone, Copy, Debug, PartialEq, Eq, Structural)]
pub struct StoreSpaceUsage {
    pub data_usage: usize,
    pub offsets_usage: usize,
}

/// Reads documents off a store file.
pub struct StoreReader {
    data: Vec<u8>,
    skip_index: SkipIndex,
    space_usage: StoreSpaceUsage,
}

impl StoreReader {
    /// The compressed blocks.
    pub closed spec fn data(&self) -> Seq<u8> {
        self.data@
    }

    pub closed spec fn index(&self) -> SkipIndex {
        self.skip_index
    }

    pub closed spec fn usage(&self) -> StoreSpaceUsage {
        self.space_usage
    }

    pub closed spec fn wf(&self) -> bool {
        self.skip_index.wf()
    }

    /// Opens a store file.
    pub fn open(store_file: Vec<u8>) -> (r: Result<StoreReader, StoreError>)
        ensures
            match store_split(store_file@) {
                Err(e) => r matches Err(enc_second) && enc_second == e,
                Ok(offset) => r matches Ok(reader) && {
                    &&& reader.wf()
                    &&& reader.data() == store_file@.subrange(0, offset)
                    &&& reader.index().bytes() == store_file@.subrange(offset, store_file@.len() - 8)
                    &&& reader.index().ranges() == layer_ranges(reader.index().bytes())
                    &&& reader.usage() == (StoreSpaceUsage {
                        data_usage: offset as usize,
                        offsets_usage: (store_file@.len() - 8 - offset) as usize,
                    })
                },
            },
    {
        let offset = match split_file(store_file.as_slice()) {
            Ok(o) => o,
            Err(e) => {
                return Err(e);
            },
        };
        let len = store_file.len();
        let index_bytes = copy_range(store_file.as_slice(), offset, len - 8);
        let data = copy_range(store_file.as_slice(), 0, offset);
        let skip_index = SkipIndex::from_bytes(index_bytes);
        let space_usage = StoreSpaceUsage { data_usage: offset, offsets_usage: len - 8 - offset };
        Ok(StoreReader { data, skip_index, space_usage })
    }

    /// The checkpoint of the block that holds `doc_id`.
    pub fn block_offset(&self, doc_id: DocId) -> (r: Option<Checkpoint>)
        requires
            self.wf(),
        ensures
            r == seek_from(self.index().bytes(), self.index().ranges(), 0, 0, 0, doc_id),
    {
        self.skip_index.seek(doc_id)
    }

    /// The checkpoints of every block of the store, in order.
    pub fn iter_blocks(&self) -> (r: LayerCursor<'_>)
        requires
            self.wf(),
        ensures
            r.wf(),
            self.index().ranges().len() == 0 ==> r.rest() == Seq::<Checkpoint>::empty(),
            self.index().ranges().len() > 0 ==> r.rest() == layer_seq(
                self.index().bytes().subrange(self.index().ranges().last().0, self.index().ranges().last().1),
                0,
                0,
            ),
    {
        self.skip_index.cursor()
    }

    /// The compressed blocks, one after the other.
    pub fn block_data(&self) -> (r: &[u8])
        ensures
            r@ == self.data(),
    {
        self.data.as_slice()
    }

    /// The compressed bytes of the block `checkpoint` points to.
    pub fn compressed_block(&self, checkpoint: Checkpoint) -> (r: Result<Vec<u8>, StoreError>)
        ensures
            checkpoint.start_offset <= checkpoint.end_offset <= self.data().len() ==> (r matches Ok(v)
                && v@ == self.data().subrange(checkpoint.start_offset as int, checkpoint.end_offset as int)),
            !(checkpoint.start_offset <= checkpoint.end_offset <= self.data().len()) ==> r == Err::<
                Vec<u8>,
                StoreError,
            >(StoreError::InvalidData),
    {
        if checkpoint.start_offset > checkpoint.end_offset || checkpoint.end_offset > self.data.len() as u64 {
            return Err(StoreError::InvalidData);
        }
        Ok(copy_range(self.data.as_slice(), checkpoint.start_offset as usize, checkpoint.end_offset as usize))
    }

    /// Reads document `doc_id` out of `block`, the decompressed bytes of the
    /// block that `block_offset(doc_id)` gives: the documents of the block
    /// stand one after the other, each a varint length and that many bytes.
    pub fn get(&self, doc_id: DocId, block: &[u8]) -> (r: Result<Vec<u8>, StoreError>)
        requires
            self.wf(),
        ensures
            match seek_from(self.index().bytes(), self.index().ranges(), 0, 0, 0, doc_id) {
                None => r == Err::<Vec<u8>, StoreError>(StoreError::DocNotFound),
                Some(c) => match doc_parse(
                    block@,
                    0,
                    if doc_id >= c.first_doc { (doc_id - c.first_doc) as nat } else { 0 },
                ) {
                    Ok(doc) => r matches Ok(v) && v@ == doc,
                    Err(e) => r == Err::<Vec<u8>, StoreError>(e),
                },
            },
    {
        let checkpoint = match self.skip_index.seek(doc_id) {
            Some(c) => c,
            None => {
                return Err(StoreError::DocNotFound);
            },
        };
        let count: u32 = if doc_id >= checkpoint.first_doc { doc_id - checkpoint.first_doc } else { 0 };
        let mut pos: usize = 0;
        let mut i: u32 = 0;
        loop
            invariant
                self.wf(),
                seek_from(self.index().bytes(), self.index().ranges(), 0, 0, 0, doc_id) == Some(checkpoint),
                count == if doc_id >= checkpoint.first_doc { (doc_id - checkpoint.first_doc) as nat } else { 0 },
                pos <= block@.len(),
                i <= count,
                doc_parse(block@, 0, count as nat) == doc_parse(block@, pos as int, (count - i) as nat),
            decreases count - i,
        {
            let ghost start_pos = pos as int;
            let len = match deserialize_vint(block, &mut pos) {
                Ok(v) => v,
                Err(e) => {
                    return Err(e);
                },
            };
            if len > (block.len() - pos) as u64 {
                return Err(StoreError::Truncated);
            }
            let end = pos + len as usize;
            assert(doc_parse(block@, start_pos, (count - i) as nat) == if i == count {
                Ok::<Seq<u8>, StoreError>(block@.subrange(pos as int, end as int))
            } else {
                doc_parse(block@, end as int, (count - i - 1) as nat)
            });
            if i == count {
                return Ok(copy_range(block, pos, end));
            }
            pos = end;
            i = i + 1;
        }
    }

    /// Bytes taken by the compressed blocks and by the skip index.
    pub fn space_usage(&self) -> (r: StoreSpaceUsage)
        ensures
            r == self.usage(),
    {
        self.space_usage
    }
}

/// A copy of `bytes[start .. end]`.
fn copy_range(bytes: &[u8], start: usize, end: usize) -> (r: Vec<u8>)
    requires
        start <= end <= bytes@.len(),
    ensures
        r@ == bytes@.subrange(start as int, end as int),
{
    let mut out: Vec<u8> = Vec::with_capacity(end - start);
    let mut k: usize = start;
    while k < end
        invariant
            start <= k <= end,
            end <= bytes@.len(),
            out@ == bytes@.subrange(start as int, k as int),
        decreases end - k,
    {
        out.push(bytes[k]);
        assert(bytes@.subrange(start as int, k + 1) =~= out@);
        k = k + 1;
    }
    out
}

} // verus!
