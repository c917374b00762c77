//! A block of up to `PERIOD` checkpoints and its delta-coded byte form.
use vstd::prelude::*;
use crate::checkpoint::{Checkpoint, DocId, PERIOD, checkpoint_valid, checkpoints_valid, checkpoints_adjacent};
use crate::error::StoreError;
use crate::varint::{vint_encoding, vint_read, lemma_vint_round_trip, lemma_vint_encoding_nonempty, serialize_vint, deserialize_vint};

verus! {

/// The two varints that stand for one checkpoint: its document count and its byte length.
pub open spec fn checkpoint_bytes(c: Checkpoint) -> Seq<u8> {
    vint_encoding((c.last_doc - c.first_doc + 1) as nat) + vint_encoding((c.end_offset - c.start_offset) as nat)
}

/// The checkpoints' varint pairs, in order.
pub open spec fn checkpoints_bytes(cps: Seq<Checkpoint>) -> Seq<u8>
    decreases cps.len(),
{
    if cps.len() == 0 {
        seq![]
    } else {
        checkpoints_bytes(cps.drop_last()) + checkpoint_bytes(cps.last())
    }
}

/// Serialized form of a block: its length, then (when not empty) the byte
/// offset where its first checkpoint starts and the pair of each checkpoint.
/// The first document is not stored: whoever reads the block knows it.
pub open spec fn block_bytes(cps: Seq<Checkpoint>) -> Seq<u8> {
    if cps.len() == 0 {
        vint_encoding(0)
    } else {
        vint_encoding(cps.len()) + vint_encoding(cps[0].start_offset as nat) + checkpoints_bytes(cps)
    }
}

/// Decoding `count` varint pairs at `pos`, the first checkpoint starting at
/// document `doc` and byte `offset`: the checkpoints and the position after them.
pub open spec fn pairs_parse(s: Seq<u8>, pos: int, count: nat, doc: nat, offset: nat) -> Result<
    (Seq<Checkpoint>, int),
    StoreError,
>
    decreases count,
{
    if count == 0 {
        Ok((seq![], pos))
    } else {
        match vint_read(s, pos) {
            Err(e) => Err(e),
            Ok((num_docs, n1)) => match vint_read(s, pos + n1) {
                Err(e) => Err(e),
                Ok((num_bytes, n2)) => if num_docs == 0 || doc + num_docs - 1 > u32::MAX || offset
                    + num_bytes > u64::MAX {
                    Err(StoreError::InvalidData)
                } else {
                    let c = Checkpoint {
                        first_doc: doc as u32,
                        last_doc: (doc + num_docs - 1) as u32,
                        start_offset: offset as u64,
                        end_offset: (offset + num_bytes) as u64,
                    };
                    match pairs_parse(
                        s,
                        pos + n1 + n2,
                        (count - 1) as nat,
                        (doc + num_docs) as nat,
                        (offset + num_bytes) as nat,
                    ) {
                        Err(e) => Err(e),
                        Ok((rest, end)) => Ok((seq![c] + rest, end)),
                    }
                },
            },
        }
    }
}

/// Decoding a block at `pos` whose first document is `first_doc`: its
/// checkpoints and the position after it.
pub open spec fn block_parse(s: Seq<u8>, pos: int, first_doc: nat) -> Result<(Seq<Checkpoint>, int), StoreError> {
    if pos >= s.len() {
        Err(StoreError::Truncated)
    } else {
        match vint_read(s, pos) {
            Err(e) => Err(e),
            Ok((len, n0)) => if len == 0 {
                Ok((seq![], pos + n0))
            } else {
                match vint_read(s, pos + n0) {
                    Err(e) => Err(e),
                    Ok((start, n1)) => pairs_parse(s, pos + n0 + n1, len as nat, first_doc, start as nat),
                }
            },
        }
    }
}

/// A successful decoding of `count` pairs yields `count` checkpoints.
proof fn lemma_pairs_parse_len(s: Seq<u8>, pos: int, count: nat, doc: nat, offset: nat)
    ensures
        pairs_parse(s, pos, count, doc, offset) matches Ok((cps, _)) ==> cps.len() == count,
    decreases count,
{
    if count > 0 {
        match vint_read(s, pos) {
            Err(e) => {},
            Ok((num_docs, n1)) => match vint_read(s, pos + n1) {
                Err(e) => {},
                Ok((num_bytes, n2)) => {
                    lemma_pairs_parse_len(s, pos + n1 + n2, (count - 1) as nat, (doc + num_docs) as nat, (offset + num_bytes) as nat);
                },
            },
        }
    }
}

/// The pairs of a non-empty run: those of its first checkpoint, then the rest.
proof fn lemma_checkpoints_bytes_front(cps: Seq<Checkpoint>)
    requires
        cps.len() > 0,
    ensures
        checkpoints_bytes(cps) == checkpoint_bytes(cps[0]) + checkpoints_bytes(cps.drop_first()),
    decreases cps.len(),
{
    if cps.len() == 1 {
        assert(cps.drop_last() =~= seq![]);
        assert(cps.drop_first() =~= seq![]);
        assert(checkpoints_bytes(cps) =~= checkpoint_bytes(cps[0]) + checkpoints_bytes(cps.drop_first()));
    } else {
        lemma_checkpoints_bytes_front(cps.drop_last());
        assert(cps.drop_last().drop_first() =~= cps.drop_first().drop_last());
        assert(cps.drop_first().last() == cps.last());
        assert(checkpoints_bytes(cps) =~= checkpoint_bytes(cps[0]) + checkpoints_bytes(cps.drop_first()));
    }
}

/// `s[pos .. pos + t.len()]` is `t`.
pub open spec fn bytes_at(s: Seq<u8>, pos: int, t: Seq<u8>) -> bool {
    0 <= pos && pos + t.len() <= s.len() && s.subrange(pos, pos + t.len()) == t
}

/// Where `a + b` stands at `pos`, `a` stands at `pos` and `b` right after it.
pub proof fn lemma_bytes_at_split(s: Seq<u8>, pos: int, a: Seq<u8>, b: Seq<u8>)
    requires
        bytes_at(s, pos, a + b),
    ensures
        bytes_at(s, pos, a),
        bytes_at(s, pos + a.len(), b),
{
    let ab = a + b;
    assert(s.subrange(pos, pos + a.len()) =~= ab.subrange(0, a.len() as int));
    assert(ab.subrange(0, a.len() as int) =~= a);
    assert(s.subrange(pos + a.len(), pos + a.len() + b.len()) =~= ab.subrange(a.len() as int, ab.len() as int));
    assert(ab.subrange(a.len() as int, ab.len() as int) =~= b);
}

/// Dropping the first checkpoint keeps a run valid and adjacent.
proof fn lemma_drop_first_keeps(cps: Seq<Checkpoint>)
    requires
        cps.len() > 0,
        checkpoints_valid(cps),
        checkpoints_adjacent(cps),
    ensures
        checkpoints_valid(cps.drop_first()),
        checkpoints_adjacent(cps.drop_first()),
{
    let rest = cps.drop_first();
    assert forall|i: int| 0 <= i < rest.len() implies checkpoint_valid(#[trigger] rest[i]) by {
        assert(rest[i] == cps[i + 1]);
    }
    assert forall|i: int| 0 <= i < rest.len() - 1 implies (#[trigger] rest[i + 1]).first_doc == rest[i].last_doc + 1
        && rest[i + 1].start_offset == rest[i].end_offset by {
        assert(rest[i] == cps[i + 1]);
        assert(rest[i + 1] == cps[i + 2]);
    }
}

/// The pairs of valid, adjacent checkpoints decode back to them.
proof fn lemma_pairs_round_trip(cps: Seq<Checkpoint>, s: Seq<u8>, pos: int)
    requires
        checkpoints_valid(cps),
        checkpoints_adjacent(cps),
        bytes_at(s, pos, checkpoints_bytes(cps)),
    ensures
        cps.len() > 0 ==> pairs_parse(
            s,
            pos,
            cps.len(),
            cps[0].first_doc as nat,
            cps[0].start_offset as nat,
        ) == Ok::<(Seq<Checkpoint>, int), StoreError>((cps, pos + checkpoints_bytes(cps).len())),
    decreases cps.len(),
{
    if cps.len() > 0 {
        let c = cps[0];
        assert(checkpoint_valid(c));
        let nd = (c.last_doc - c.first_doc + 1) as nat;
        let nb = (c.end_offset - c.start_offset) as nat;
        let enc_first = vint_encoding(nd);
        let enc_second = vint_encoding(nb);
        let rest = cps.drop_first();
        let rb = checkpoints_bytes(rest);
        lemma_checkpoints_bytes_front(cps);
        assert(checkpoints_bytes(cps) =~= enc_first + (enc_second + rb));
        lemma_bytes_at_split(s, pos, enc_first, enc_second + rb);
        lemma_bytes_at_split(s, pos + enc_first.len(), enc_second, rb);
        lemma_vint_round_trip(nd, s, pos);
        lemma_vint_round_trip(nb, s, pos + enc_first.len());
        let pairs_pos = pos + enc_first.len() + enc_second.len();
        lemma_drop_first_keeps(cps);
        lemma_pairs_round_trip(rest, s, pairs_pos);
        assert(vint_read(s, pos) == Ok::<(u64, nat), StoreError>((nd as u64, enc_first.len())));
        assert(vint_read(s, pos + enc_first.len()) == Ok::<(u64, nat), StoreError>((nb as u64, enc_second.len())));
        let tail = pairs_parse(s, pairs_pos, (cps.len() - 1) as nat, (c.first_doc + nd) as nat, (c.start_offset + nb) as nat);
        if rest.len() > 0 {
            assert(rest[0] == cps[1]);
            assert(tail == Ok::<(Seq<Checkpoint>, int), StoreError>((rest, pairs_pos + rb.len())));
        } else {
            assert(rest =~= seq![]);
            assert(rb =~= seq![]);
            assert(tail == Ok::<(Seq<Checkpoint>, int), StoreError>((rest, pairs_pos + rb.len())));
        }
        assert(seq![c] + rest =~= cps);
        assert(pairs_parse(s, pos, cps.len(), c.first_doc as nat, c.start_offset as nat)
            == Ok::<(Seq<Checkpoint>, int), StoreError>((seq![c] + rest, pairs_pos + rb.len())));
    }
}

/// A block of valid, adjacent checkpoints, read back knowing its first
/// document, gives the same checkpoints, and the read ends right after its
/// bytes.
pub proof fn lemma_block_round_trip(cps: Seq<Checkpoint>, s: Seq<u8>, pos: int, first_doc: nat)
    requires
        checkpoints_valid(cps),
        checkpoints_adjacent(cps),
        cps.len() <= PERIOD,
        cps.len() > 0 ==> cps[0].first_doc == first_doc,
        bytes_at(s, pos, block_bytes(cps)),
    ensures
        block_parse(s, pos, first_doc) == Ok::<(Seq<Checkpoint>, int), StoreError>((cps, pos + block_bytes(cps).len())),
{
    let enc_count = vint_encoding(cps.len());
    lemma_vint_encoding_nonempty(cps.len());
    if cps.len() == 0 {
        lemma_vint_round_trip(0, s, pos);
        assert(vint_read(s, pos) == Ok::<(u64, nat), StoreError>((0, enc_count.len())));
        assert(cps =~= seq![]);
    } else {
        let enc_first = vint_encoding(cps[0].start_offset as nat);
        let rb = checkpoints_bytes(cps);
        assert(block_bytes(cps) =~= enc_count + (enc_first + rb));
        lemma_bytes_at_split(s, pos, enc_count, enc_first + rb);
        lemma_bytes_at_split(s, pos + enc_count.len(), enc_first, rb);
        lemma_vint_round_trip(cps.len(), s, pos);
        lemma_vint_round_trip(cps[0].start_offset as nat, s, pos + enc_count.len());
        lemma_pairs_round_trip(cps, s, pos + enc_count.len() + enc_first.len());
        assert(vint_read(s, pos) == Ok::<(u64, nat), StoreError>((cps.len() as u64, enc_count.len())));
        assert(vint_read(s, pos + enc_count.len()) == Ok::<(u64, nat), StoreError>((cps[0].start_offset, enc_first.len())));
    }
}

/// Reading a block where the input has already ended fails with `Truncated`.
pub proof fn lemma_block_rejects_empty(s: Seq<u8>, pos: int, first_doc: nat)
    requires
        pos >= s.len(),
    ensures
        block_parse(s, pos, first_doc) == Err::<(Seq<Checkpoint>, int), StoreError>(StoreError::Truncated),
{
}

/// An ordered run of checkpoints.
pub struct Block {
    pub checkpoints: Vec<Checkpoint>,
}

impl View for Block {
    type V = Seq<Checkpoint>;

    open spec fn view(&self) -> Seq<Checkpoint> {
        self.checkpoints@
    }
}

impl Default for Block {
    fn default() -> (b: Block)
        ensures
            b@ == Seq::<Checkpoint>::empty(),
    {
        Block { checkpoints: Vec::with_capacity(PERIOD) }
    }
}

impl Block {
    /// The first document of the first checkpoint and the last document of the
    /// last one, or `None` for an empty block.
    pub fn first_last_doc(&self) -> (r: Option<(DocId, DocId)>)
        ensures
            self@.len() == 0 ==> r is None,
            self@.len() > 0 ==> r == Some((self@[0].first_doc, self@.last().last_doc)),
    {
        if self.checkpoints.len() == 0 {
            return None;
        }
        let first = self.checkpoints[0].first_doc;
        let last = self.checkpoints[self.checkpoints.len() - 1].last_doc;
        Some((first, last))
    }

    /// Appends a checkpoint.
    pub fn push(&mut self, checkpoint: Checkpoint)
        ensures
            final(self)@ == old(self)@.push(checkpoint),
    {
        self.checkpoints.push(checkpoint);
    }

    pub fn len(&self) -> (r: usize)
        ensures
            r == self@.len(),
    {
        self.checkpoints.len()
    }

    pub fn get(&self, idx: usize) -> (r: Checkpoint)
        requires
            idx < self@.len(),
        ensures
            r == self@[idx as int],
    {
        self.checkpoints[idx]
    }

    /// Removes every checkpoint.
    pub fn clear(&mut self)
        ensures
            final(self)@ == Seq::<Checkpoint>::empty(),
    {
        self.checkpoints.clear();
    }

    /// Appends the block's serialized form to `buffer`.
    pub fn serialize(&self, buffer: &mut Vec<u8>)
        requires
            checkpoints_valid(self@),
        ensures
            final(buffer)@ == old(buffer)@ + block_bytes(self@),
    {
        let n = self.checkpoints.len();
        serialize_vint(n as u64, buffer);
        if n == 0 {
            return;
        }
        serialize_vint(self.checkpoints[0].start_offset, buffer);
        let ghost head = buffer@;
        let mut i: usize = 0;
        while i < n
            invariant
                n == self@.len(),
                i <= n,
                checkpoints_valid(self@),
                buffer@ == head + checkpoints_bytes(self@.take(i as int)),
                head == old(buffer)@ + vint_encoding(n as nat) + vint_encoding(self@[0].start_offset as nat),
            decreases n - i,
        {
            let c = self.checkpoints[i];
            assert(checkpoint_valid(self@[i as int]));
            let ghost before = buffer@;
            serialize_vint((c.last_doc - c.first_doc) as u64 + 1, buffer);
            serialize_vint(c.end_offset - c.start_offset, buffer);
            proof {
                let t = self@.take(i + 1);
                assert(t.drop_last() =~= self@.take(i as int));
                assert(t.last() == c);
                assert(buffer@ =~= head + checkpoints_bytes(t));
            }
            i = i + 1;
        }
        assert(self@.take(n as int) =~= self@);
    }

    /// Replaces the block's checkpoints by those of the block serialized at
    /// `*pos`, whose first document is `first_doc`, and moves `*pos` past it;
    /// on failure the block and `*pos` are left as they were.
    pub fn deserialize(&mut self, data: &[u8], pos: &mut usize, first_doc: u64) -> (r: Result<(), StoreError>)
        requires
            *old(pos) <= data@.len(),
        ensures
            match block_parse(data@, *old(pos) as int, first_doc as nat) {
                Ok((cps, end)) => r is Ok && final(self)@ == cps && *final(pos) == end,
                Err(e) => r == Err::<(), StoreError>(e) && final(self)@ == old(self)@ && *final(pos)
                    == *old(pos),
            },
    {
        let start = *pos;
        if start >= data.len() {
            return Err(StoreError::Truncated);
        }
        let mut p: usize = start;
        let len = match deserialize_vint(data, &mut p) {
            Ok(v) => v,
            Err(e) => {
                *pos = start;
                return Err(e);
            },
        };
        if len == 0 {
            self.checkpoints.clear();
            *pos = p;
            return Ok(());
        }
        let first_offset = match deserialize_vint(data, &mut p) {
            Ok(v) => v,
            Err(e) => {
                *pos = start;
                return Err(e);
            },
        };
        let ghost n01 = p;
        let mut checkpoints: Vec<Checkpoint> = Vec::new();
        let mut doc: u64 = first_doc;
        let mut offset: u64 = first_offset;
        let mut i: u64 = 0;
        proof {
            lemma_pairs_parse_len(data@, n01 as int, len as nat, first_doc as nat, first_offset as nat);
            match pairs_parse(data@, n01 as int, len as nat, first_doc as nat, first_offset as nat) {
                Ok((cps, end)) => {
                    assert(cps.skip(0) =~= cps);
                    assert(checkpoints@ =~= cps.take(0));
                },
                Err(e) => {},
            }
        }
        while i < len
            invariant
                start == *old(pos),
                self@ == old(self)@,
                start < data@.len(),
                p <= data@.len(),
                i <= len,
                block_parse(data@, start as int, first_doc as nat) == pairs_parse(data@, n01 as int, len as nat, first_doc as nat, first_offset as nat),
                match pairs_parse(data@, n01 as int, len as nat, first_doc as nat, first_offset as nat) {
                    Ok((cps, end)) => {
                        &&& pairs_parse(data@, p as int, (len - i) as nat, doc as nat, offset as nat) == Ok::<(Seq<Checkpoint>, int), StoreError>((cps.skip(i as int), end))
                        &&& checkpoints@ == cps.take(i as int)
                    },
                    Err(e) => pairs_parse(data@, p as int, (len - i) as nat, doc as nat, offset as nat) == Err::<(Seq<Checkpoint>, int), StoreError>(e),
                },
            decreases len - i,
        {
            proof {
                lemma_pairs_parse_len(data@, n01 as int, len as nat, first_doc as nat, first_offset as nat);
            }
            let ghost pi = p;
            let num_docs = match deserialize_vint(data, &mut p) {
                Ok(v) => v,
                Err(e) => {
                    proof {
                        lemma_pairs_parse_len(data@, n01 as int, len as nat, first_doc as nat, first_offset as nat);
                        assert(pairs_parse(data@, pi as int, (len - i) as nat, doc as nat, offset as nat)
                            == Err::<(Seq<Checkpoint>, int), StoreError>(e));
                    }
                    *pos = start;
                    return Err(e);
                },
            };
            let num_bytes = match deserialize_vint(data, &mut p) {
                Ok(v) => v,
                Err(e) => {
                    proof {
                        lemma_pairs_parse_len(data@, n01 as int, len as nat, first_doc as nat, first_offset as nat);
                        assert(pairs_parse(data@, pi as int, (len - i) as nat, doc as nat, offset as nat)
                            == Err::<(Seq<Checkpoint>, int), StoreError>(e));
                    }
                    *pos = start;
                    return Err(e);
                },
            };
            if num_docs == 0 || num_docs > u32::MAX as u64 + 1 || doc > u32::MAX as u64 + 1 - num_docs
                || num_bytes > u64::MAX - offset {
                assert(pairs_parse(data@, pi as int, (len - i) as nat, doc as nat, offset as nat)
                    == Err::<(Seq<Checkpoint>, int), StoreError>(StoreError::InvalidData));
                *pos = start;
                return Err(StoreError::InvalidData);
            }
            let c = Checkpoint {
                first_doc: doc as u32,
                last_doc: (doc + num_docs - 1) as u32,
                start_offset: offset,
                end_offset: offset + num_bytes,
            };
            proof {
                let tail = pairs_parse(data@, p as int, (len - i - 1) as nat, (doc + num_docs) as nat, (offset + num_bytes) as nat);
                assert(pairs_parse(data@, pi as int, (len - i) as nat, doc as nat, offset as nat) == match tail {
                    Err(e) => Err(e),
                    Ok((rest, end)) => Ok((seq![c] + rest, end)),
                });
                match pairs_parse(data@, n01 as int, len as nat, first_doc as nat, first_offset as nat) {
                    Ok((cps, end)) => {
                        let rest = cps.skip(i as int);
                        match tail {
                            Ok((r2, enc_second)) => {
                                assert(seq![c] + r2 == rest);
                                assert(rest[0] == c);
                                assert(cps.skip(i + 1) =~= rest.drop_first());
                                assert(r2 =~= rest.drop_first());
                                assert(checkpoints@.push(c) =~= cps.take(i + 1));
                            },
                            Err(enc_second) => {},
                        }
                    },
                    Err(e) => {},
                }
            }
            checkpoints.push(c);
            doc = doc + num_docs;
            offset = offset + num_bytes;
            i = i + 1;
        }
        proof {
            match pairs_parse(data@, n01 as int, len as nat, first_doc as nat, first_offset as nat) {
                Ok((cps, end)) => {
                    lemma_pairs_parse_len(data@, n01 as int, len as nat, first_doc as nat, first_offset as nat);
                    assert(cps.take(len as int) =~= cps);
                },
                Err(e) => {},
            }
        }
        self.checkpoints = checkpoints;
        *pos = p;
        Ok(())
    }
}

} // verus!
