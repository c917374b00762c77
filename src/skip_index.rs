//! Reads the skip index: parses the header, walks the base layer, and looks a
//! document up by descending the tower.
use vstd::prelude::*;
use crate::checkpoint::{Checkpoint, DocId};
use crate::block::{Block, block_parse, pairs_parse};
use crate::error::StoreError;
use crate::varint::{vint_parse, vint_read, deserialize_vint};

verus! {

/// The first document after the checkpoints `cps`, which start at `doc`.
pub open spec fn next_doc(cps: Seq<Checkpoint>, doc: nat) -> nat {
    if cps.len() == 0 {
        doc
    } else {
        (cps.last().last_doc + 1) as nat
    }
}

/// The checkpoints of the blocks of layer `s` from byte `pos` on, the first
/// block starting at document `doc` and each next block where the one before
/// it ended. The sequence ends where `s` ends or where a block does not decode.
pub open spec fn layer_seq(s: Seq<u8>, pos: int, doc: nat) -> Seq<Checkpoint>
    decreases s.len() - pos,
{
    if pos < 0 || pos >= s.len() {
        Seq::empty()
    } else {
        match block_parse(s, pos, doc) {
            Err(_) => Seq::empty(),
            Ok((cps, next)) => if next <= pos || next > s.len() {
                Seq::empty()
            } else {
                cps + layer_seq(s, next, next_doc(cps, doc))
            },
        }
    }
}

/// A block that decodes ends after its first byte, and not after the input.
proof fn lemma_block_parse_advances(s: Seq<u8>, pos: int, first_doc: nat)
    ensures
        block_parse(s, pos, first_doc) matches Ok((cps, next)) ==> pos < next <= s.len(),
{
    if 0 <= pos < s.len() {
        match vint_read(s, pos) {
            Err(_) => {},
            Ok((len, n0)) => {
                lemma_vint_parse_bound(s, pos);
                if len != 0 {
                    lemma_vint_parse_bound(s, pos + n0);
                    match vint_read(s, pos + n0) {
                        Err(_) => {},
                        Ok((start, n1)) => {
                            lemma_pairs_parse_advances(s, pos + n0 + n1, len as nat, first_doc, start as nat);
                        },
                    }
                }
            },
        }
    }
}

/// A varint that decodes takes at least one byte and ends inside the input.
proof fn lemma_vint_parse_bound(s: Seq<u8>, pos: int)
    ensures
        vint_parse(s, pos) matches Some((v, n)) ==> n >= 1 && pos + n <= s.len() && pos >= 0,
    decreases s.len() - pos,
{
    if 0 <= pos < s.len() && s[pos] < 128 {
        lemma_vint_parse_bound(s, pos + 1);
    }
}

/// Decoded pairs end at or after where they start, and inside the input.
proof fn lemma_pairs_parse_advances(s: Seq<u8>, pos: int, count: nat, doc: nat, offset: nat)
    requires
        0 <= pos <= s.len(),
    ensures
        pairs_parse(s, pos, count, doc, offset) matches Ok((cps, next)) ==> pos <= next <= s.len(),
    decreases count,
{
    if count > 0 {
        lemma_vint_parse_bound(s, pos);
        match vint_read(s, pos) {
            Err(_) => {},
            Ok((num_docs, n1)) => {
                lemma_vint_parse_bound(s, pos + n1);
                match vint_read(s, pos + n1) {
                    Err(_) => {},
                    Ok((num_bytes, n2)) => {
                        lemma_pairs_parse_advances(
                            s,
                            pos + n1 + n2,
                            (count - 1) as nat,
                            (doc + num_docs) as nat,
                            (offset + num_bytes) as nat,
                        );
                    },
                }
            },
        }
    }
}

/// Walks the checkpoints of one layer, one block at a time.
pub struct LayerCursor<'a> {
    data: &'a [u8],
    pos: usize,
    block: Block,
    idx: usize,
    doc: u64,
}

impl<'a> LayerCursor<'a> {
    /// The checkpoints the cursor has still to produce.
    pub closed spec fn rest(&self) -> Seq<Checkpoint> {
        self.block@.skip(self.idx as int) + layer_seq(self.data@, self.pos as int, self.doc as nat)
    }

    pub closed spec fn wf(&self) -> bool {
        self.idx <= self.block@.len() && self.pos <= self.data@.len()
    }

    /// A cursor that produces nothing.
    fn empty() -> (r: LayerCursor<'a>)
        ensures
            r.wf(),
            r.rest() == Seq::<Checkpoint>::empty(),
    {
        let r = LayerCursor { data: &[], pos: 0, block: Block::default(), idx: 0, doc: 0 };
        assert(r.rest() =~= Seq::<Checkpoint>::empty());
        r
    }

    /// A cursor over the layer `data` from byte `pos`, where the first block
    /// starts at document `doc`.
    fn at(data: &'a [u8], pos: usize, doc: DocId) -> (r: LayerCursor<'a>)
        requires
            pos <= data@.len(),
        ensures
            r.wf(),
            r.rest() == layer_seq(data@, pos as int, doc as nat),
    {
        let r = LayerCursor { data, pos, block: Block::default(), idx: 0, doc: doc as u64 };
        assert(r.block@.skip(0) =~= Seq::<Checkpoint>::empty());
        assert(r.rest() =~= layer_seq(data@, pos as int, doc as nat));
        r
    }

    /// The next checkpoint, or `None` once the layer is exhausted.
    pub fn next(&mut self) -> (r: Option<Checkpoint>)
        requires
            old(self).wf(),
        ensures
            final(self).wf(),
            old(self).rest().len() == 0 ==> r is None && final(self).rest() == old(self).rest(),
            old(self).rest().len() > 0 ==> r == Some(old(self).rest()[0]) && final(self).rest()
                == old(self).rest().drop_first(),
    {
        loop
            invariant
                self.wf(),
                self.rest() == old(self).rest(),
            decreases self.data@.len() - self.pos, self.block@.len() - self.idx,
        {
            if self.idx < self.block.len() {
                let c = self.block.get(self.idx);
                let ghost before = self.rest();
                self.idx = self.idx + 1;
                proof {
                    assert(self.block@.skip(self.idx - 1)[0] == c);
                    assert(self.block@.skip(self.idx as int) =~= self.block@.skip(self.idx - 1).drop_first());
                    assert(self.rest() =~= before.drop_first());
                }
                return Some(c);
            }
            assert(self.block@.skip(self.idx as int) =~= Seq::<Checkpoint>::empty());
            if self.pos >= self.data.len() {
                return None;
            }
            let ghost pos0 = self.pos as int;
            let mut p = self.pos;
            let mut fresh = Block::default();
            proof {
                lemma_block_parse_advances(self.data@, pos0, self.doc as nat);
            }
            match fresh.deserialize(self.data, &mut p, self.doc) {
                Err(_) => {
                    self.pos = self.data.len();
                    return None;
                },
                Ok(()) => {},
            }
            let n = fresh.len();
            if n > 0 {
                self.doc = fresh.get(n - 1).last_doc as u64 + 1;
            }
            self.block = fresh;
            self.idx = 0;
            self.pos = p;
            assert(self.block@.skip(0) =~= self.block@);
        }
    }
}

/// Decoding `count` varints at `pos`: the values and the position after them.
pub open spec fn ends_parse(s: Seq<u8>, pos: int, count: nat) -> Option<(Seq<u64>, int)>
    decreases count,
{
    if count == 0 {
        Some((Seq::empty(), pos))
    } else {
        match vint_read(s, pos) {
            Err(_) => None,
            Ok((v, n)) => match ends_parse(s, pos + n, (count - 1) as nat) {
                None => None,
                Some((rest, end)) => Some((seq![v] + rest, end)),
            },
        }
    }
}

/// Cumulative layer ends that never decrease and stay within `payload` bytes.
pub open spec fn ends_fit(ends: Seq<u64>, payload: int) -> bool {
    &&& forall|i: int| 0 < i < ends.len() ==> ends[i - 1] <= #[trigger] ends[i]
    &&& ends.len() > 0 ==> ends.last() <= payload
}

/// The byte range of each layer, top layer first, as the header of `s` gives
/// them; none when the header is malformed.
pub open spec fn layer_ranges(s: Seq<u8>) -> Seq<(int, int)> {
    match vint_read(s, 0) {
        Err(_) => Seq::empty(),
        Ok((count, n0)) => match ends_parse(s, n0 as int, count as nat) {
            None => Seq::empty(),
            Some((ends, p)) => if ends_fit(ends, s.len() - p) {
                Seq::new(
                    ends.len(),
                    |i: int| (p + if i == 0 { 0 } else { ends[i - 1] as int }, p + ends[i] as int),
                )
            } else {
                Seq::empty()
            },
        },
    }
}

/// The first checkpoint of `cps` whose last document is at least `target`.
pub open spec fn first_reaching(cps: Seq<Checkpoint>, target: DocId) -> Option<Checkpoint>
    decreases cps.len(),
{
    if cps.len() == 0 {
        None
    } else if cps[0].last_doc >= target {
        Some(cps[0])
    } else {
        first_reaching(cps.drop_first(), target)
    }
}

/// Looking `target` up from layer `i` down, starting in layer `i` at byte
/// `lo` with document `doc`.
pub open spec fn seek_from(s: Seq<u8>, ranges: Seq<(int, int)>, i: int, lo: int, doc: nat, target: DocId) -> Option<
    Checkpoint,
>
    decreases ranges.len() - i,
{
    if i < 0 || i >= ranges.len() {
        None
    } else {
        let bytes = s.subrange(ranges[i].0, ranges[i].1);
        let found = if 0 <= lo <= bytes.len() {
            first_reaching(layer_seq(bytes, lo, doc), target)
        } else {
            None
        };
        match found {
            None => None,
            Some(c) => if i + 1 == ranges.len() {
                Some(c)
            } else {
                seek_from(s, ranges, i + 1, c.start_offset as int, c.first_doc as nat, target)
            },
        }
    }
}

/// The skip index over a serialized tower of layers.
pub struct SkipIndex {
    data: Vec<u8>,
    layers: Vec<(usize, usize)>,
}

impl SkipIndex {
    /// The serialized index.
    pub closed spec fn bytes(&self) -> Seq<u8> {
        self.data@
    }

    /// The byte range of each layer within `bytes()`, top layer first.
    pub closed spec fn ranges(&self) -> Seq<(int, int)> {
        self.layers@.map_values(|r: (usize, usize)| (r.0 as int, r.1 as int))
    }

    pub closed spec fn wf(&self) -> bool {
        forall|i: int| 0 <= i < self.layers@.len() ==> (#[trigger] self.layers@[i]).0 <= self.layers@[i].1 <= self.data@.len()
    }

    /// Opens the index serialized in `data`. A malformed header gives an index
    /// without layers.
    pub fn from_bytes(data: Vec<u8>) -> (r: SkipIndex)
        ensures
            r.wf(),
            r.bytes() == data@,
            r.ranges() == layer_ranges(data@),
    {
        let mut p: usize = 0;
        let count = match deserialize_vint(data.as_slice(), &mut p) {
            Ok(v) => v,
            Err(_) => {
                let r = SkipIndex { data, layers: Vec::new() };
                assert(r.ranges() =~= layer_ranges(r.data@));
                return r;
            },
        };
        let ends = match read_ends(data.as_slice(), &mut p, count) {
            Some(e) => e,
            None => {
                let r = SkipIndex { data, layers: Vec::new() };
                assert(r.ranges() =~= layer_ranges(r.data@));
                return r;
            },
        };
        let payload = data.len() - p;
        if !ends_fit_exec(&ends, payload) {
            let r = SkipIndex { data, layers: Vec::new() };
            assert(r.ranges() =~= layer_ranges(r.data@));
            return r;
        }
        let layers = ranges_of(&ends, p, data.len());
        let r = SkipIndex { data, layers };
        assert(r.ranges() =~= layer_ranges(r.data@));
        r
    }

    /// A cursor over the checkpoints of the base layer.
    pub fn cursor(&self) -> (r: LayerCursor<'_>)
        requires
            self.wf(),
        ensures
            r.wf(),
            self.ranges().len() == 0 ==> r.rest() == Seq::<Checkpoint>::empty(),
            self.ranges().len() > 0 ==> r.rest() == layer_seq(
                self.bytes().subrange(self.ranges().last().0, self.ranges().last().1),
                0,
                0,
            ),
    {
        let n = self.layers.len();
        if n == 0 {
            return LayerCursor::empty();
        }
        let (start, end) = self.layers[n - 1];
        let layer = &self.data.as_slice()[start..end];
        LayerCursor::at(layer, 0, 0)
    }

    /// The checkpoint that `target` leads to when descending the tower: in
    /// each layer, from the block the layer above points to, the first
    /// checkpoint whose last document is at least `target`. `None` when some
    /// layer has no such checkpoint, or there are no layers.
    pub fn seek(&self, target: DocId) -> (r: Option<Checkpoint>)
        requires
            self.wf(),
        ensures
            r == seek_from(self.bytes(), self.ranges(), 0, 0, 0, target),
    {
        let n = self.layers.len();
        let mut lo: u64 = 0;
        let mut doc: DocId = 0;
        let mut i: usize = 0;
        while i < n
            invariant
                n == self.layers@.len(),
                self.wf(),
                i <= n,
                seek_from(self.bytes(), self.ranges(), 0, 0, 0, target) == seek_from(
                    self.bytes(),
                    self.ranges(),
                    i as int,
                    lo as int,
                    doc as nat,
                    target,
                ),
            decreases n - i,
        {
            let (start, end) = self.layers[i];
            let layer = &self.data.as_slice()[start..end];
            assert(self.ranges()[i as int] == (start as int, end as int));
            assert(layer@ == self.bytes().subrange(start as int, end as int));
            if lo > layer.len() as u64 {
                return None;
            }
            match seek_in_layer(layer, lo as usize, doc, target) {
                None => {
                    return None;
                },
                Some(c) => {
                    if i + 1 == n {
                        return Some(c);
                    }
                    lo = c.start_offset;
                    doc = c.first_doc;
                },
            }
            i = i + 1;
        }
        None
    }
}

/// Reads `count` varints at `*pos`.
fn read_ends(data: &[u8], pos: &mut usize, count: u64) -> (r: Option<Vec<u64>>)
    requires
        *old(pos) <= data@.len(),
    ensures
        *final(pos) <= data@.len(),
        match ends_parse(data@, *old(pos) as int, count as nat) {
            Some((all, end)) => (r matches Some(v) && v@ == all) && *final(pos) == end,
            None => r is None,
        },
{
    let ghost s = data@;
    let ghost start_pos = *pos as int;
    let mut ends: Vec<u64> = Vec::new();
    let mut i: u64 = 0;
    proof {
        lemma_ends_parse_len(s, start_pos, count as nat);
        match ends_parse(s, start_pos, count as nat) {
            Some((all, end)) => {
                assert(all.skip(0) =~= all);
                assert(ends@ =~= all.take(0));
            },
            None => {},
        }
    }
    while i < count
        invariant
            s == data@,
            start_pos == *old(pos) as int,
            *pos <= s.len(),
            i <= count,
            match ends_parse(s, start_pos, count as nat) {
                Some((all, end)) => {
                    &&& ends_parse(s, *pos as int, (count - i) as nat) == Some((all.skip(i as int), end))
                    &&& ends@ == all.take(i as int)
                    &&& all.len() == count
                },
                None => ends_parse(s, *pos as int, (count - i) as nat) is None,
            },
        decreases count - i,
    {
        let ghost pi = *pos as int;
        match deserialize_vint(data, pos) {
            Ok(v) => {
                proof {
                    assert(ends_parse(s, pi, (count - i) as nat) == match ends_parse(s, *pos as int, (count - i - 1) as nat) {
                        None => None,
                        Some((r2, enc_second)) => Some((seq![v] + r2, enc_second)),
                    });
                    match ends_parse(s, start_pos, count as nat) {
                        Some((all, end)) => {
                            let rest = all.skip(i as int);
                            assert(rest[0] == v);
                            assert(all.skip(i + 1) =~= rest.drop_first());
                            assert(ends@.push(v) =~= all.take(i + 1));
                        },
                        None => {},
                    }
                }
                ends.push(v);
            },
            Err(_) => {
                proof {
                    assert(ends_parse(s, pi, (count - i) as nat) is None);
                }
                return None;
            },
        }
        i = i + 1;
    }
    proof {
        match ends_parse(s, start_pos, count as nat) {
            Some((all, end)) => {
                assert(all.take(count as int) =~= all);
                assert(ends_parse(s, *pos as int, 0) == Some((Seq::<u64>::empty(), *pos as int)));
            },
            None => {},
        }
    }
    Some(ends)
}

/// Decoding `count` varints gives `count` values.
proof fn lemma_ends_parse_len(s: Seq<u8>, pos: int, count: nat)
    ensures
        ends_parse(s, pos, count) matches Some((all, end)) ==> all.len() == count,
    decreases count,
{
    if count > 0 {
        match vint_read(s, pos) {
            Err(_) => {},
            Ok((v, n)) => {
                lemma_ends_parse_len(s, pos + n, (count - 1) as nat);
            },
        }
    }
}

/// Whether `ends` never decreases and stays within `payload`.
fn ends_fit_exec(ends: &Vec<u64>, payload: usize) -> (r: bool)
    ensures
        r == ends_fit(ends@, payload as int),
{
    let n = ends.len();
    let mut k: usize = 1;
    while k < n
        invariant
            n == ends@.len(),
            1 <= k,
            k <= n || n == 0,
            forall|j: int| 0 < j < k && j < n ==> ends@[j - 1] <= #[trigger] ends@[j],
        decreases n - k,
    {
        if ends[k - 1] > ends[k] {
            return false;
        }
        k = k + 1;
    }
    n == 0 || ends[n - 1] <= payload as u64
}

/// The layer ranges that fitting cumulative `ends` give, the layers starting
/// at byte `p` of a region of `len` bytes.
fn ranges_of(ends: &Vec<u64>, p: usize, len: usize) -> (r: Vec<(usize, usize)>)
    requires
        p <= len,
        ends_fit(ends@, len - p),
    ensures
        r@.len() == ends@.len(),
        forall|j: int| 0 <= j < r@.len() ==> (#[trigger] r@[j]).0 <= r@[j].1 <= len,
        forall|j: int| 0 <= j < r@.len() ==> (#[trigger] r@[j]).0 == p + if j == 0 { 0 } else { ends@[j - 1] as int },
        forall|j: int| 0 <= j < r@.len() ==> (#[trigger] r@[j]).1 == p + ends@[j] as int,
{
    let n = ends.len();
    let mut layers: Vec<(usize, usize)> = Vec::new();
    let mut k: usize = 0;
    while k < n
        invariant
            n == ends@.len(),
            k <= n,
            p <= len,
            ends_fit(ends@, len - p),
            layers@.len() == k,
            forall|j: int| 0 <= j < k ==> (#[trigger] layers@[j]).0 <= layers@[j].1 <= len,
            forall|j: int| 0 <= j < k ==> (#[trigger] layers@[j]).0 == p + if j == 0 { 0 } else { ends@[j - 1] as int },
            forall|j: int| 0 <= j < k ==> (#[trigger] layers@[j]).1 == p + ends@[j] as int,
        decreases n - k,
    {
        proof {
            lemma_ends_below_last(ends@, k as int);
            if k > 0 {
                lemma_ends_below_last(ends@, k - 1);
            }
        }
        let start = if k == 0 { p } else { p + ends[k - 1] as usize };
        let end = p + ends[k] as usize;
        layers.push((start, end));
        k = k + 1;
    }
    layers
}

/// The first checkpoint from byte `lo` of `layer` on, the block there
/// starting at document `doc`, whose last document is at least `target`.
fn seek_in_layer(layer: &[u8], lo: usize, doc: DocId, target: DocId) -> (r: Option<Checkpoint>)
    requires
        lo <= layer@.len(),
    ensures
        r == first_reaching(layer_seq(layer@, lo as int, doc as nat), target),
{
    let mut cursor = LayerCursor::at(layer, lo, doc);
    let ghost all = cursor.rest();
    loop
        invariant
            cursor.wf(),
            all == layer_seq(layer@, lo as int, doc as nat),
            first_reaching(cursor.rest(), target) == first_reaching(all, target),
        decreases cursor.rest().len(),
    {
        let ghost before = cursor.rest();
        proof {
            if before.len() > 0 {
                assert(first_reaching(before, target) == if before[0].last_doc >= target {
                    Some(before[0])
                } else {
                    first_reaching(before.drop_first(), target)
                });
            }
        }
        match cursor.next() {
            None => {
                return None;
            },
            Some(c) => {
                if c.last_doc >= target {
                    return Some(c);
                }
            },
        }
    }
}

/// Non-decreasing ends are at most the last one.
proof fn lemma_ends_below_last(ends: Seq<u64>, k: int)
    requires
        0 <= k < ends.len(),
        forall|i: int| 0 < i < ends.len() ==> ends[i - 1] <= #[trigger] ends[i],
    ensures
        ends[k] <= ends.last(),
    decreases ends.len() - k,
{
    if k < ends.len() - 1 {
        lemma_ends_below_last(ends, k + 1);
    }
}

} // verus!
