//! Writes the skip index: a tower of layers, each block of a layer summed up
//! by one checkpoint of the layer above.
use vstd::prelude::*;
use crate::checkpoint::{Checkpoint, PERIOD, checkpoint_valid, checkpoints_valid};
use crate::block::{Block, block_bytes};
use crate::varint::{vint_encoding, serialize_vint};

verus! {

/// A layer being written: the bytes of its flushed blocks and its pending checkpoints.
pub type LayerState = (Seq<u8>, Seq<Checkpoint>);

/// The checkpoint that stands for the block `pending`, written at bytes `start .. end`.
pub open spec fn pointer_of(pending: Seq<Checkpoint>, start: nat, end: nat) -> Checkpoint {
    Checkpoint {
        first_doc: pending[0].first_doc,
        last_doc: pending.last().last_doc,
        start_offset: start as u64,
        end_offset: end as u64,
    }
}

/// Writing out the pending block of a layer: the new bytes and the pointer to
/// the block, if there was one.
pub open spec fn layer_flush(buf: Seq<u8>, pending: Seq<Checkpoint>) -> (Seq<u8>, Option<Checkpoint>) {
    if pending.len() == 0 {
        (buf, None)
    } else {
        let bytes = buf + block_bytes(pending);
        (bytes, Some(pointer_of(pending, buf.len(), bytes.len())))
    }
}

/// Adding a checkpoint to a layer: the new state, and the pointer to the block
/// that this filled.
pub open spec fn layer_insert(l: LayerState, cp: Checkpoint) -> (LayerState, Option<Checkpoint>) {
    let pending = l.1.push(cp);
    if pending.len() == PERIOD {
        let (bytes, ptr) = layer_flush(l.0, pending);
        ((bytes, Seq::empty()), ptr)
    } else {
        ((l.0, pending), None)
    }
}

/// Adding `cp` to layer `i` and each pointer it produces to the layer above,
/// opening a new layer on top where needed.
pub open spec fn cascade(layers: Seq<LayerState>, i: int, cp: Checkpoint) -> Seq<LayerState>
    decreases layers.len() - i,
{
    if i < 0 || i >= layers.len() {
        layers.push((Seq::empty(), seq![cp]))
    } else {
        let (l, ptr) = layer_insert(layers[i], cp);
        let next = layers.update(i, l);
        match ptr {
            None => next,
            Some(q) => cascade(next, i + 1, q),
        }
    }
}

/// Final bytes of layers `i ..`, each after its pending block, with `carry`
/// (the pointer to the last block of the layer below) added, is written out.
pub open spec fn flushed_layers(layers: Seq<LayerState>, i: int, carry: Option<Checkpoint>) -> Seq<Seq<u8>>
    decreases layers.len() - i,
{
    if i < 0 || i >= layers.len() {
        Seq::empty()
    } else {
        let pending = match carry {
            Some(c) => layers[i].1.push(c),
            None => layers[i].1,
        };
        let (bytes, ptr) = layer_flush(layers[i].0, pending);
        seq![bytes] + flushed_layers(layers, i + 1, ptr)
    }
}

/// The byte sequences one after the other.
pub open spec fn concat(bufs: Seq<Seq<u8>>) -> Seq<u8>
    decreases bufs.len(),
{
    if bufs.len() == 0 {
        Seq::empty()
    } else {
        concat(bufs.drop_last()) + bufs.last()
    }
}

/// The varints of `vals`, one after the other.
pub open spec fn vint_items_bytes(vals: Seq<nat>) -> Seq<u8>
    decreases vals.len(),
{
    if vals.len() == 0 {
        Seq::empty()
    } else {
        vint_items_bytes(vals.drop_last()) + vint_encoding(vals.last())
    }
}

/// Where each layer ends, counted from the start of the first.
pub open spec fn layer_ends(layers: Seq<Seq<u8>>) -> Seq<nat> {
    Seq::new(layers.len(), |i: int| concat(layers.take(i + 1)).len())
}

/// The serialized skip index over layers given top layer first: the count and
/// end of each layer, then the layers.
pub open spec fn index_bytes(layers: Seq<Seq<u8>>) -> Seq<u8> {
    vint_encoding(layers.len()) + vint_items_bytes(layer_ends(layers)) + concat(layers)
}

/// All docs of `a` come before all docs of `b`.
pub open spec fn docs_before(a: Seq<Checkpoint>, b: Seq<Checkpoint>) -> bool {
    forall|x: int, y: int| 0 <= x < a.len() && 0 <= y < b.len() ==> #[trigger] a[x].last_doc < #[trigger] b[y].first_doc
}

/// Valid checkpoints, each ending before the next begins.
pub open spec fn strictly_increasing(cps: Seq<Checkpoint>) -> bool {
    &&& checkpoints_valid(cps)
    &&& forall|x: int, y: int| 0 <= x < y < cps.len() ==> #[trigger] cps[x].last_doc < #[trigger] cps[y].first_doc
}

/// One layer of the tower being written.
struct LayerBuilder {
    buffer: Vec<u8>,
    block: Block,
}

impl LayerBuilder {
    closed spec fn state(&self) -> LayerState {
        (self.buffer@, self.block@)
    }

    fn new() -> (r: LayerBuilder)
        ensures
            r.state() == (Seq::<u8>::empty(), Seq::<Checkpoint>::empty()),
    {
        LayerBuilder { buffer: Vec::new(), block: Block::default() }
    }

    fn finish(self) -> (r: Vec<u8>)
        ensures
            r@ == self.state().0,
    {
        self.buffer
    }

    fn push(&mut self, cp: Checkpoint)
        ensures
            final(self).state() == (old(self).state().0, old(self).state().1.push(cp)),
    {
        self.block.push(cp);
    }

    /// Writes out the pending block and returns the pointer to it.
    fn flush_block(&mut self) -> (r: Option<Checkpoint>)
        requires
            strictly_increasing(old(self).state().1),
        ensures
            (final(self).state().0, r) == layer_flush(old(self).state().0, old(self).state().1),
            final(self).state().1 == Seq::<Checkpoint>::empty(),
            r is Some ==> final(self).state().0.len() <= u64::MAX,
    {
        match self.block.first_last_doc() {
            None => None,
            Some((first_doc, last_doc)) => {
                let start_offset = self.buffer.len() as u64;
                self.block.serialize(&mut self.buffer);
                let end_offset = self.buffer.len() as u64;
                self.block.clear();
                Some(Checkpoint { first_doc, last_doc, start_offset, end_offset })
            },
        }
    }

    /// Adds a checkpoint; returns the pointer to the block it filled, if it did.
    fn insert(&mut self, cp: Checkpoint) -> (r: Option<Checkpoint>)
        requires
            strictly_increasing(old(self).state().1.push(cp)),
            old(self).state().1.len() < PERIOD,
        ensures
            (final(self).state(), r) == layer_insert(old(self).state(), cp),
            r is Some ==> final(self).state().0.len() <= u64::MAX,
    {
        self.push(cp);
        if self.block.len() == PERIOD {
            self.flush_block()
        } else {
            None
        }
    }
}

/// Layers ready to take more checkpoints: each pending block strictly
/// increasing and not full, a higher layer's pending checkpoints before a lower
/// one's, and none after `last`.
pub open spec fn layers_wf(layers: Seq<LayerState>, last: int) -> bool {
    &&& forall|j: int| 0 <= j < layers.len() ==> strictly_increasing(#[trigger] layers[j].1)
    &&& forall|j: int| 0 <= j < layers.len() ==> (#[trigger] layers[j].1).len() < PERIOD
    &&& forall|j: int, k: int| 0 <= j < k < layers.len() ==> docs_before(#[trigger] layers[k].1, #[trigger] layers[j].1)
    &&& forall|j: int, x: int| 0 <= j < layers.len() && 0 <= x < layers[j].1.len() ==> #[trigger] layers[j].1[x].last_doc <= last
}

/// Midway through an insertion: `ptr` is on its way into layer `i`, every
/// layer below has just flushed, and `ptr` comes after every pending
/// checkpoint from layer `i` up.
pub open spec fn cascade_ready(layers: Seq<LayerState>, i: int, ptr: Checkpoint, last: int) -> bool {
    &&& layers_wf(layers, last)
    &&& 0 <= i <= layers.len()
    &&& checkpoint_valid(ptr)
    &&& ptr.last_doc <= last
    &&& forall|j: int| i <= j < layers.len() ==> docs_before(#[trigger] layers[j].1, seq![ptr])
    &&& forall|j: int| 0 <= j < i ==> (#[trigger] layers[j].1).len() == 0
}

/// The checkpoint on its way into a layer keeps that layer's pending block
/// strictly increasing.
proof fn lemma_push_increasing(layers: Seq<LayerState>, i: int, ptr: Checkpoint, last: int)
    requires
        cascade_ready(layers, i, ptr, last),
        i < layers.len(),
    ensures
        strictly_increasing(layers[i].1.push(ptr)),
{
    let pending = layers[i].1;
    let pushed = pending.push(ptr);
    assert(docs_before(pending, seq![ptr]));
    assert(strictly_increasing(pending));
    assert forall|x: int, y: int| 0 <= x < y < pushed.len() implies #[trigger] pushed[x].last_doc < #[trigger] pushed[y].first_doc by {
        if y == pending.len() {
            assert(seq![ptr][0] == ptr);
            assert(pending[x].last_doc < seq![ptr][0].first_doc);
        }
    }
    assert forall|x: int| 0 <= x < pushed.len() implies checkpoint_valid(#[trigger] pushed[x]) by {
        if x < pending.len() {
            assert(checkpoint_valid(pending[x]));
        }
    }
}

/// One step of an insertion keeps the layers in order.
proof fn lemma_cascade_step(layers: Seq<LayerState>, i: int, ptr: Checkpoint, last: int)
    requires
        cascade_ready(layers, i, ptr, last),
        i < layers.len(),
        layer_insert(layers[i], ptr).1 is Some ==> layer_insert(layers[i], ptr).0.0.len() <= u64::MAX,
    ensures
        ({
            let (l, q) = layer_insert(layers[i], ptr);
            let next = layers.update(i, l);
            &&& strictly_increasing(layers[i].1.push(ptr))
            &&& q is None ==> layers_wf(next, last)
            &&& q matches Some(p) ==> cascade_ready(next, i + 1, p, last)
        }),
{
    let pending = layers[i].1;
    let pushed = pending.push(ptr);
    assert(docs_before(pending, seq![ptr]));
    assert forall|x: int, y: int| 0 <= x < y < pushed.len() implies #[trigger] pushed[x].last_doc < #[trigger] pushed[y].first_doc by {
        if y == pending.len() {
            assert(seq![ptr][0] == ptr);
            assert(pending[x].last_doc < seq![ptr][0].first_doc);
        }
    }
    assert forall|x: int| 0 <= x < pushed.len() implies checkpoint_valid(#[trigger] pushed[x]) by {
        if x < pending.len() {
            assert(checkpoint_valid(pending[x]));
        }
    }
    let (l, q) = layer_insert(layers[i], ptr);
    let next = layers.update(i, l);
    assert forall|j: int, k: int| 0 <= j < k < next.len() implies docs_before(#[trigger] next[k].1, #[trigger] next[j].1) by {
        if k == i {
        } else if j == i {
            if q is None {
                assert forall|x: int, y: int| 0 <= x < next[k].1.len() && 0 <= y < next[j].1.len() implies #[trigger] next[k].1[x].last_doc < #[trigger] next[j].1[y].first_doc by {
                    assert(docs_before(layers[k].1, layers[i].1));
                    assert(docs_before(layers[k].1, seq![ptr]));
                    if y == pending.len() {
                        assert(seq![ptr][0] == ptr);
                        assert(layers[k].1[x].last_doc < seq![ptr][0].first_doc);
                    }
                }
            }
        } else {
            assert(docs_before(layers[k].1, layers[j].1));
        }
    }
    assert forall|j: int, x: int| 0 <= j < next.len() && 0 <= x < next[j].1.len() implies #[trigger] next[j].1[x].last_doc <= last by {
        if j == i && q is None && x == pending.len() {
        } else if j != i {
            assert(layers[j].1[x].last_doc <= last);
        } else {
            assert(layers[j].1[x].last_doc <= last);
        }
    }
    assert forall|j: int| 0 <= j < next.len() implies strictly_increasing(#[trigger] next[j].1) by {
        if j != i {
            assert(strictly_increasing(layers[j].1));
        }
    }
    assert forall|j: int| 0 <= j < next.len() implies (#[trigger] next[j].1).len() < PERIOD by {
        if j != i {
            assert(layers[j].1.len() < PERIOD);
        }
    }
    match q {
        None => {},
        Some(p) => {
            assert(pushed[0].first_doc <= pushed[0].last_doc);
            if pushed.len() > 1 {
                assert(pushed[0].last_doc < pushed[pushed.len() - 1].first_doc);
            }
            assert(pushed.last().first_doc <= pushed.last().last_doc);
            assert forall|j: int| i + 1 <= j < next.len() implies docs_before(#[trigger] next[j].1, seq![p]) by {
                assert(docs_before(layers[j].1, layers[i].1));
                assert(docs_before(layers[j].1, seq![ptr]));
                assert forall|x: int, y: int| 0 <= x < next[j].1.len() && 0 <= y < 1 implies #[trigger] next[j].1[x].last_doc < #[trigger] seq![p][y].first_doc by {
                    assert(seq![p][0] == p);
                    assert(seq![ptr][0] == ptr);
                    if pending.len() > 0 {
                        assert(layers[j].1[x].last_doc < layers[i].1[0].first_doc);
                    } else {
                        assert(layers[j].1[x].last_doc < seq![ptr][0].first_doc);
                    }
                }
            }
        },
    }
}

/// `carry`, when there is one, is valid and comes after every pending
/// checkpoint of layers `i ..`.
pub open spec fn carry_ok(layers: Seq<LayerState>, i: int, carry: Option<Checkpoint>) -> bool {
    match carry {
        None => true,
        Some(p) => {
            &&& checkpoint_valid(p)
            &&& forall|j: int| i <= j < layers.len() ==> docs_before(#[trigger] layers[j].1, seq![p])
        },
    }
}

/// The pending block of layer `i` with the carried pointer added.
pub open spec fn pending_with(layers: Seq<LayerState>, i: int, carry: Option<Checkpoint>) -> Seq<Checkpoint> {
    match carry {
        Some(c) => layers[i].1.push(c),
        None => layers[i].1,
    }
}

/// Flushing layer `i` with the carried pointer keeps the next pointer in order.
proof fn lemma_flush_step(layers: Seq<LayerState>, i: int, carry: Option<Checkpoint>, last: int)
    requires
        layers_wf(layers, last),
        0 <= i < layers.len(),
        carry_ok(layers, i, carry),
    ensures
        strictly_increasing(pending_with(layers, i, carry)),
        layer_flush(layers[i].0, pending_with(layers, i, carry)).0.len() <= u64::MAX ==> carry_ok(
            layers,
            i + 1,
            layer_flush(layers[i].0, pending_with(layers, i, carry)).1,
        ),
{
    let pending = layers[i].1;
    let pushed = pending_with(layers, i, carry);
    assert(strictly_increasing(pending));
    match carry {
        None => {},
        Some(c) => {
            assert(docs_before(pending, seq![c]));
            assert forall|x: int, y: int| 0 <= x < y < pushed.len() implies #[trigger] pushed[x].last_doc < #[trigger] pushed[y].first_doc by {
                if y == pending.len() {
                    assert(seq![c][0] == c);
                    assert(pending[x].last_doc < seq![c][0].first_doc);
                }
            }
            assert forall|x: int| 0 <= x < pushed.len() implies checkpoint_valid(#[trigger] pushed[x]) by {
                if x < pending.len() {
                    assert(checkpoint_valid(pending[x]));
                }
            }
        },
    }
    let (b, q) = layer_flush(layers[i].0, pushed);
    if b.len() <= u64::MAX {
        match q {
            None => {},
            Some(p) => {
                assert(pushed[0].first_doc <= pushed[0].last_doc);
                if pushed.len() > 1 {
                    assert(pushed[0].last_doc < pushed[pushed.len() - 1].first_doc);
                }
                assert(pushed.last().first_doc <= pushed.last().last_doc);
                assert forall|j: int| i + 1 <= j < layers.len() implies docs_before(#[trigger] layers[j].1, seq![p]) by {
                    assert(docs_before(layers[j].1, layers[i].1));
                    assert forall|x: int, y: int| 0 <= x < layers[j].1.len() && 0 <= y < 1 implies #[trigger] layers[j].1[x].last_doc < #[trigger] seq![p][y].first_doc by {
                        assert(seq![p][0] == p);
                        if pending.len() > 0 {
                            assert(layers[j].1[x].last_doc < layers[i].1[0].first_doc);
                        } else {
                            let c = carry.unwrap();
                            assert(docs_before(layers[j].1, seq![c]));
                            assert(seq![c][0] == c);
                            assert(layers[j].1[x].last_doc < seq![c][0].first_doc);
                        }
                    }
                }
            },
        }
    }
}

/// A prefix of the layers is no longer than all of them.
pub(crate) proof fn lemma_concat_take_len(bufs: Seq<Seq<u8>>, m: int)
    requires
        0 <= m <= bufs.len(),
    ensures
        concat(bufs.take(m)).len() <= concat(bufs).len(),
    decreases bufs.len() - m,
{
    if m < bufs.len() {
        assert(bufs.take(m + 1).drop_last() =~= bufs.take(m));
        lemma_concat_take_len(bufs, m + 1);
    } else {
        assert(bufs.take(m) =~= bufs);
    }
}

/// Builds the skip index from checkpoints given in document order.
pub struct SkipIndexBuilder {
    layers: Vec<LayerBuilder>,
    last_doc: Ghost<int>,
}

impl SkipIndexBuilder {
    /// The layers being written, base layer first.
    pub closed spec fn state(&self) -> Seq<LayerState> {
        self.layers@.map_values(|l: LayerBuilder| l.state())
    }

    /// The last document inserted so far (-1 before the first insertion).
    pub closed spec fn last_doc(&self) -> int {
        self.last_doc@
    }

    pub closed spec fn wf(&self) -> bool {
        layers_wf(self.state(), self.last_doc@)
    }

    pub fn new() -> (r: SkipIndexBuilder)
        ensures
            r.wf(),
            r.state() == Seq::<LayerState>::empty(),
            r.last_doc() == -1,
    {
        let r = SkipIndexBuilder { layers: Vec::new(), last_doc: Ghost(-1) };
        assert(r.state() =~= Seq::<LayerState>::empty());
        r
    }

    /// Opens layer `layer_id` if it is the next one above the top.
    fn get_layer(&mut self, layer_id: usize)
        requires
            layer_id <= old(self).layers@.len(),
        ensures
            final(self).last_doc == old(self).last_doc,
            final(self).layers@.len() == old(self).layers@.len() + if layer_id == old(self).layers@.len() { 1int } else { 0int },
            layer_id < old(self).layers@.len() ==> final(self).state() == old(self).state(),
            layer_id == old(self).layers@.len() ==> final(self).state() == old(self).state().push(
                (Seq::<u8>::empty(), Seq::<Checkpoint>::empty()),
            ),
    {
        if layer_id == self.layers.len() {
            self.layers.push(LayerBuilder::new());
            assert(self.state() =~= old(self).state().push((Seq::<u8>::empty(), Seq::<Checkpoint>::empty())));
        }
    }

    /// Adds `checkpoint` to the base layer; each block this fills adds its
    /// pointer to the layer above, and so on up the tower.
    pub fn insert(&mut self, checkpoint: Checkpoint)
        requires
            old(self).wf(),
            checkpoint_valid(checkpoint),
            checkpoint.first_doc > old(self).last_doc(),
        ensures
            final(self).wf(),
            final(self).last_doc() == checkpoint.last_doc,
            final(self).state() == cascade(old(self).state(), 0, checkpoint),
    {
        let ghost last = checkpoint.last_doc as int;
        self.last_doc = Ghost(last);
        let mut skip_pointer = checkpoint;
        let mut layer_id: usize = 0;
        proof {
            let st = self.state();
            assert forall|j: int, x: int| 0 <= j < st.len() && 0 <= x < st[j].1.len() implies #[trigger] st[j].1[x].last_doc <= last by {
                assert(st[j].1[x].last_doc <= old(self).last_doc());
            }
            assert forall|j: int| 0 <= j < st.len() implies docs_before(#[trigger] st[j].1, seq![checkpoint]) by {
                assert forall|x: int, y: int| 0 <= x < st[j].1.len() && 0 <= y < 1 implies #[trigger] st[j].1[x].last_doc < #[trigger] seq![checkpoint][y].first_doc by {
                    assert(seq![checkpoint][0] == checkpoint);
                }
            }
        }
        loop
            invariant
                self.last_doc@ == last,
                last == checkpoint.last_doc,
                cascade_ready(self.state(), layer_id as int, skip_pointer, last),
                cascade(old(self).state(), 0, checkpoint) == cascade(self.state(), layer_id as int, skip_pointer),
            decreases self.layers@.len() + 1 - layer_id,
        {
            if layer_id == self.layers.len() {
                let ghost before = self.state();
                self.get_layer(layer_id);
                let ghost mid = self.layers@;
                let ghost after_get = self.state();
                assert(self.state()[layer_id as int] == (Seq::<u8>::empty(), Seq::<Checkpoint>::empty()));
                assert(mid[layer_id as int].state() == self.state()[layer_id as int]);
                let mut layer = self.layers.pop().unwrap();
                layer.push(skip_pointer);
                self.layers.push(layer);
                assert(self.layers@ =~= mid.update(layer_id as int, layer));
                proof {
                    let st = self.state();
                    assert(Seq::<Checkpoint>::empty().push(skip_pointer) =~= seq![skip_pointer]);
                    assert(mid[layer_id as int].state() == (Seq::<u8>::empty(), Seq::<Checkpoint>::empty()));
                    assert(st[layer_id as int] == layer.state());
                    assert(st[layer_id as int] == (Seq::<u8>::empty(), seq![skip_pointer]));
                    assert forall|j: int| 0 <= j < before.len() implies st[j] == before[j] by {
                        assert(self.layers@[j] == mid[j]);
                        assert(after_get[j] == mid[j].state());
                    }
                    assert(st =~= before.push((Seq::<u8>::empty(), seq![skip_pointer])));
                    assert(strictly_increasing(seq![skip_pointer]));
                    assert forall|j: int, k: int| 0 <= j < k < st.len() implies docs_before(#[trigger] st[k].1, #[trigger] st[j].1) by {
                        if k < before.len() {
                            assert(docs_before(before[k].1, before[j].1));
                        } else {
                            assert(before[j].1.len() == 0);
                        }
                    }
                    assert forall|j: int, x: int| 0 <= j < st.len() && 0 <= x < st[j].1.len() implies #[trigger] st[j].1[x].last_doc <= last by {
                        if j < before.len() {
                            assert(before[j].1[x].last_doc <= last);
                        }
                    }
                    assert forall|j: int| 0 <= j < st.len() implies strictly_increasing(#[trigger] st[j].1) by {
                        if j < before.len() {
                            assert(strictly_increasing(before[j].1));
                        }
                    }
                    assert forall|j: int| 0 <= j < st.len() implies (#[trigger] st[j].1).len() < PERIOD by {
                        if j < before.len() {
                            assert(before[j].1.len() < PERIOD);
                        }
                    }
                }
                return;
            }
            let ghost before = self.state();
            proof {
                lemma_push_increasing(before, layer_id as int, skip_pointer, last);
            }
            let ghost mid = self.layers@;
            let mut layer = self.layers.remove(layer_id);
            let filled = layer.insert(skip_pointer);
            self.layers.insert(layer_id, layer);
            assert(self.layers@ =~= mid.update(layer_id as int, layer));
            proof {
                lemma_cascade_step(before, layer_id as int, skip_pointer, last);
            }
            match filled {
                None => {
                    assert(self.last_doc@ == last);
                    assert(self.state() =~= before.update(layer_id as int, layer_insert(before[layer_id as int], skip_pointer).0));
                    return;
                },
                Some(q) => {
                    assert(self.state() =~= before.update(layer_id as int, layer_insert(before[layer_id as int], skip_pointer).0));
                    skip_pointer = q;
                    layer_id = layer_id + 1;
                },
            }
        }
    }

    /// Appends the skip index to `output`: the count and cumulative end of
    /// each layer, top layer first, then the layers in that order.
    pub fn write(self, output: &mut Vec<u8>)
        requires
            self.wf(),
            concat(flushed_layers(self.state(), 0, None).reverse()).len() <= u64::MAX,
        ensures
            final(output)@ == old(output)@ + index_bytes(flushed_layers(self.state(), 0, None).reverse()),
    {
        let ghost st = self.state();
        let ghost flushed = flushed_layers(st, 0, None);
        let mut layers = self.layers;
        let mut done: Vec<Vec<u8>> = Vec::new();
        let mut carry: Option<Checkpoint> = None;
        let ghost mut i: int = 0;
        proof {
            assert(flushed_layers(st, 0, None) =~= Seq::<Seq<u8>>::empty() + flushed_layers(st, 0, None));
        }
        while layers.len() > 0
            invariant
                layers_wf(st, self.last_doc@),
                0 <= i <= st.len(),
                layers@.len() == st.len() - i,
                forall|j: int| 0 <= j < layers@.len() ==> (#[trigger] layers@[j]).state() == st[i + j],
                carry_ok(st, i, carry),
                done@.len() == i,
                flushed == done@.map_values(|b: Vec<u8>| b@) + flushed_layers(st, i, carry),
            decreases layers@.len(),
        {
            let mut layer = layers.remove(0);
            assert(layer.state() == st[i]);
            proof {
                lemma_flush_step(st, i, carry, self.last_doc@);
            }
            match carry {
                Some(c) => layer.push(c),
                None => {},
            }
            assert(layer.state().1 == pending_with(st, i, carry));
            let next = layer.flush_block();
            proof {
                lemma_flush_step(st, i, carry, self.last_doc@);
            }
            let ghost prev_done = done@.map_values(|b: Vec<u8>| b@);
            let buf = layer.finish();
            done.push(buf);
            proof {
                let (b, q) = layer_flush(st[i].0, pending_with(st, i, carry));
                assert(flushed_layers(st, i, carry) == seq![b] + flushed_layers(st, i + 1, q));
                assert(done@.map_values(|b: Vec<u8>| b@) =~= prev_done.push(b));
                assert(flushed =~= done@.map_values(|b: Vec<u8>| b@) + flushed_layers(st, i + 1, q));
                assert forall|j: int| 0 <= j < layers@.len() implies (#[trigger] layers@[j]).state() == st[i + 1 + j] by {
                }
                i = i + 1;
            }
            carry = next;
        }
        proof {
            assert(flushed_layers(st, i, carry) =~= Seq::<Seq<u8>>::empty());
            assert(flushed =~= done@.map_values(|b: Vec<u8>| b@));
        }
        let ghost tops = flushed.reverse();
        let n = done.len();
        serialize_vint(n as u64, output);
        let ghost head = output@;
        let mut offset: u64 = 0;
        let mut m: usize = 0;
        proof {
            assert(layer_ends(tops).take(0) =~= Seq::<nat>::empty());
            assert(tops.take(0) =~= Seq::<Seq<u8>>::empty());
            assert(output@ =~= head + vint_items_bytes(layer_ends(tops).take(0)));
        }
        while m < n
            invariant
                n == done@.len(),
                tops.len() == n,
                forall|j: int| 0 <= j < n ==> #[trigger] tops[j] == done@[n - 1 - j]@,
                concat(tops).len() <= u64::MAX,
                m <= n,
                offset == concat(tops.take(m as int)).len(),
                output@ == head + vint_items_bytes(layer_ends(tops).take(m as int)),
            decreases n - m,
        {
            proof {
                assert(tops.take(m + 1).drop_last() =~= tops.take(m as int));
                lemma_concat_take_len(tops, m + 1);
            }
            offset = offset + done[n - 1 - m].len() as u64;
            serialize_vint(offset, output);
            proof {
                let ends = layer_ends(tops);
                assert(ends.take(m + 1).drop_last() =~= ends.take(m as int));
            }
            m = m + 1;
        }
        proof {
            assert(layer_ends(tops).take(n as int) =~= layer_ends(tops));
        }
        let ghost mid = output@;
        m = 0;
        while m < n
            invariant
                n == done@.len(),
                tops.len() == n,
                forall|j: int| 0 <= j < n ==> #[trigger] tops[j] == done@[n - 1 - j]@,
                m <= n,
                output@ == mid + concat(tops.take(m as int)),
            decreases n - m,
        {
            output.extend_from_slice(done[n - 1 - m].as_slice());
            proof {
                assert(tops.take(m + 1).drop_last() =~= tops.take(m as int));
            }
            m = m + 1;
        }
        proof {
            assert(tops.take(n as int) =~= tops);
            assert(output@ =~= old(output)@ + index_bytes(tops));
        }
    }
}

} // verus!
