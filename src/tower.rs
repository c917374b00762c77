//! What the skip index written for a run of checkpoints reads back as.
use vstd::prelude::*;
use vstd::arithmetic::power::pow;
use crate::block::{block_bytes, bytes_at, lemma_block_round_trip, lemma_bytes_at_split};
use crate::checkpoint::{Checkpoint, DocId, PERIOD, checkpoint_valid, checkpoints_valid, checkpoints_adjacent};
use crate::error::StoreError;
use crate::skip_index::{layer_seq, next_doc, ends_parse, ends_fit, layer_ranges, first_reaching, seek_from};
use crate::skip_index_builder::{LayerState, cascade, layer_insert, layer_flush, flushed_layers, concat, vint_items_bytes, layer_ends, index_bytes, lemma_concat_take_len, pointer_of};
use crate::varint::{vint_encoding, vint_read, lemma_vint_round_trip, lemma_vint_encoding_nonempty};

verus! {

/// The layers of a new builder after inserting `xs` in order.
pub open spec fn built(xs: Seq<Checkpoint>) -> Seq<LayerState>
    decreases xs.len(),
{
    if xs.len() == 0 {
        Seq::empty()
    } else {
        cascade(built(xs.drop_last()), 0, xs.last())
    }
}

/// The skip index that a builder given `xs` writes.
pub open spec fn index_of(xs: Seq<Checkpoint>) -> Seq<u8> {
    index_bytes(flushed_layers(built(xs), 0, None).reverse())
}

/// The blocks of `xs`, `PERIOD` checkpoints each but the last, serialized one
/// after the other.
pub open spec fn chunks_bytes(xs: Seq<Checkpoint>) -> Seq<u8>
    decreases xs.len(),
{
    if xs.len() == 0 {
        Seq::empty()
    } else if xs.len() <= PERIOD {
        block_bytes(xs)
    } else {
        block_bytes(xs.take(PERIOD as int)) + chunks_bytes(xs.skip(PERIOD as int))
    }
}

/// Inserting leaves the layers below the one inserted into as they were, and
/// adds at most one layer.
proof fn lemma_cascade_keeps_below(layers: Seq<LayerState>, i: int, cp: Checkpoint)
    requires
        0 <= i <= layers.len(),
    ensures
        layers.len() <= cascade(layers, i, cp).len() <= layers.len() + 1,
        forall|j: int| 0 <= j < i ==> #[trigger] cascade(layers, i, cp)[j] == layers[j],
    decreases layers.len() - i,
{
    if i < layers.len() {
        let (l, ptr) = layer_insert(layers[i], cp);
        let next = layers.update(i, l);
        match ptr {
            None => {},
            Some(q) => {
                lemma_cascade_keeps_below(next, i + 1, q);
            },
        }
    }
}

/// Serializing blocks of whole multiples of `PERIOD` one after the other.
proof fn lemma_chunks_bytes_append(a: Seq<Checkpoint>, b: Seq<Checkpoint>)
    requires
        a.len() % 8 == 0,
    ensures
        chunks_bytes(a + b) == chunks_bytes(a) + chunks_bytes(b),
    decreases a.len(),
{
    if a.len() == 0 {
        assert(a + b =~= b);
        assert(chunks_bytes(a) + chunks_bytes(b) =~= chunks_bytes(b));
    } else {
        let ab = a + b;
        assert(ab.take(8) =~= a.take(8));
        if a.len() == 8 {
            if b.len() == 0 {
                assert(ab =~= a);
                assert(chunks_bytes(a) + chunks_bytes(b) =~= chunks_bytes(a));
            } else {
                assert(ab.skip(8) =~= b);
                assert(a.take(8) =~= a);
            }
        } else {
            assert(ab.skip(8) =~= a.skip(8) + b);
            lemma_chunks_bytes_append(a.skip(8), b);
        }
    }
}

/// The base layer of a builder given `xs`: the blocks of its whole multiple of
/// `PERIOD` written, the rest pending.
proof fn lemma_built_base(xs: Seq<Checkpoint>)
    ensures
        built(xs).len() <= xs.len(),
        xs.len() > 0 ==> built(xs).len() > 0 && built(xs)[0] == (
            chunks_bytes(xs.take(8 * (xs.len() / 8) as int)),
            xs.skip(8 * (xs.len() / 8) as int),
        ),
    decreases xs.len(),
{
    if xs.len() > 0 {
        let init = xs.drop_last();
        let x = xs.last();
        lemma_built_base(init);
        let st = built(init);
        lemma_cascade_keeps_below(st, 0, x);
        let n = xs.len() as int;
        let f0 = 8 * (init.len() / 8) as int;
        if init.len() == 0 {
            assert(xs.take(0) =~= Seq::<Checkpoint>::empty());
            assert(xs.skip(0) =~= seq![x]);
            assert(Seq::<Checkpoint>::empty().push(x) =~= seq![x]);
        } else {
            lemma_cascade_keeps_below(st.update(0, layer_insert(st[0], x).0), 1, x);
            let pending = st[0].1.push(x);
            assert(init.skip(f0).push(x) =~= xs.skip(f0));
            assert(init.take(f0) =~= xs.take(f0));
            match layer_insert(st[0], x).1 {
                None => {},
                Some(q) => {
                    lemma_cascade_keeps_below(st.update(0, layer_insert(st[0], x).0), 1, q);
                },
            }
            if pending.len() == 8 {
                assert(n == f0 + 8);
                assert(8 * (n / 8) == n);
                lemma_chunks_bytes_append(xs.take(f0), xs.skip(f0));
                assert(xs.take(f0) + xs.skip(f0) =~= xs);
                assert(xs.take(n) =~= xs);
                assert(xs.skip(n) =~= Seq::<Checkpoint>::empty());
                assert(chunks_bytes(xs.skip(f0)) == block_bytes(xs.skip(f0)));
            } else {
                assert(8 * (n / 8) == f0);
            }
        }
    }
}

/// The checkpoints read back from a serialized run of blocks.
proof fn lemma_chunks_read_back(xs: Seq<Checkpoint>, s: Seq<u8>, pos: int, doc: nat)
    requires
        checkpoints_valid(xs),
        checkpoints_adjacent(xs),
        xs.len() > 0 ==> xs[0].first_doc == doc,
        bytes_at(s, pos, chunks_bytes(xs)),
        pos + chunks_bytes(xs).len() == s.len(),
    ensures
        layer_seq(s, pos, doc) == xs,
    decreases xs.len(),
{
    if xs.len() == 0 {
        assert(layer_seq(s, pos, doc) =~= xs);
    } else if xs.len() <= 8 {
        lemma_block_round_trip(xs, s, pos, doc);
        lemma_vint_encoding_nonempty(xs.len());
        let next = pos + block_bytes(xs).len();
        assert(layer_seq(s, next, next_doc(xs, doc)) =~= Seq::<Checkpoint>::empty());
        assert(xs + Seq::<Checkpoint>::empty() =~= xs);
    } else {
        let first = xs.take(8);
        let rest = xs.skip(8);
        lemma_bytes_at_split(s, pos, block_bytes(first), chunks_bytes(rest));
        lemma_take_keeps(xs, 8);
        lemma_skip_keeps(xs, 8);
        lemma_block_round_trip(first, s, pos, doc);
        lemma_vint_encoding_nonempty(first.len());
        let next = pos + block_bytes(first).len();
        assert(rest[0] == xs[8]);
        assert(first.last() == xs[7]);
        assert(xs[7int + 1].first_doc == xs[7int].last_doc + 1);
        lemma_chunks_read_back(rest, s, next, next_doc(first, doc));
        assert(first + rest =~= xs);
    }
}

/// A prefix of a valid, adjacent run is valid and adjacent.
proof fn lemma_take_keeps(xs: Seq<Checkpoint>, k: int)
    requires
        0 <= k <= xs.len(),
        checkpoints_valid(xs),
        checkpoints_adjacent(xs),
    ensures
        checkpoints_valid(xs.take(k)),
        checkpoints_adjacent(xs.take(k)),
{
    let t = xs.take(k);
    assert forall|i: int| 0 <= i < t.len() implies checkpoint_valid(#[trigger] t[i]) by {
        assert(t[i] == xs[i]);
    }
    assert forall|i: int| 0 <= i < t.len() - 1 implies (#[trigger] t[i + 1]).first_doc == t[i].last_doc + 1
        && t[i + 1].start_offset == t[i].end_offset by {
        assert(t[i + 1] == xs[i + 1]);
        assert(t[i] == xs[i]);
    }
}

/// A suffix of a valid, adjacent run is valid and adjacent.
proof fn lemma_skip_keeps(xs: Seq<Checkpoint>, k: int)
    requires
        0 <= k <= xs.len(),
        checkpoints_valid(xs),
        checkpoints_adjacent(xs),
    ensures
        checkpoints_valid(xs.skip(k)),
        checkpoints_adjacent(xs.skip(k)),
{
    let t = xs.skip(k);
    assert forall|i: int| 0 <= i < t.len() implies checkpoint_valid(#[trigger] t[i]) by {
        assert(t[i] == xs[i + k]);
    }
    assert forall|i: int| 0 <= i < t.len() - 1 implies (#[trigger] t[i + 1]).first_doc == t[i].last_doc + 1
        && t[i + 1].start_offset == t[i].end_offset by {
        let j = i + k;
        assert(t[i + 1] == xs[j + 1]);
        assert(t[i] == xs[j]);
        assert(xs[j + 1].first_doc == xs[j].last_doc + 1 && xs[j + 1].start_offset == xs[j].end_offset);
    }
}

/// Each layer gives one final byte sequence, the base layer's first.
proof fn lemma_flushed_len(layers: Seq<LayerState>, i: int, carry: Option<Checkpoint>)
    requires
        0 <= i <= layers.len(),
    ensures
        flushed_layers(layers, i, carry).len() == layers.len() - i,
    decreases layers.len() - i,
{
    if i < layers.len() {
        let pending = match carry {
            Some(c) => layers[i].1.push(c),
            None => layers[i].1,
        };
        lemma_flushed_len(layers, i + 1, layer_flush(layers[i].0, pending).1);
    }
}

/// The varints of a non-empty list: the first, then the rest.
proof fn lemma_items_front(vals: Seq<nat>)
    requires
        vals.len() > 0,
    ensures
        vint_items_bytes(vals) == vint_encoding(vals[0]) + vint_items_bytes(vals.drop_first()),
    decreases vals.len(),
{
    if vals.len() == 1 {
        assert(vals.drop_last() =~= Seq::<nat>::empty());
        assert(vals.drop_first() =~= Seq::<nat>::empty());
        assert(vint_items_bytes(vals) =~= vint_encoding(vals[0]) + vint_items_bytes(vals.drop_first()));
    } else {
        lemma_items_front(vals.drop_last());
        assert(vals.drop_last().drop_first() =~= vals.drop_first().drop_last());
        assert(vint_items_bytes(vals) =~= vint_encoding(vals[0]) + vint_items_bytes(vals.drop_first()));
    }
}

/// A list of varints that fit in `u64` reads back.
proof fn lemma_items_read_back(vals: Seq<nat>, s: Seq<u8>, pos: int)
    requires
        forall|i: int| 0 <= i < vals.len() ==> #[trigger] vals[i] <= u64::MAX,
        bytes_at(s, pos, vint_items_bytes(vals)),
    ensures
        ends_parse(s, pos, vals.len()) == Some((
            Seq::new(vals.len(), |i: int| vals[i] as u64),
            pos + vint_items_bytes(vals).len(),
        )),
    decreases vals.len(),
{
    if vals.len() == 0 {
        assert(Seq::new(vals.len(), |i: int| vals[i] as u64) =~= Seq::<u64>::empty());
    } else {
        lemma_items_front(vals);
        let e = vint_encoding(vals[0]);
        let rest = vals.drop_first();
        lemma_bytes_at_split(s, pos, e, vint_items_bytes(rest));
        lemma_vint_round_trip(vals[0], s, pos);
        assert(vals[0] <= u64::MAX);
        assert(vint_read(s, pos) == Ok::<(u64, nat), StoreError>((vals[0] as u64, e.len())));
        assert forall|i: int| 0 <= i < rest.len() implies #[trigger] rest[i] <= u64::MAX by {
            assert(rest[i] == vals[i + 1]);
        }
        lemma_items_read_back(rest, s, pos + e.len());
        assert(seq![vals[0] as u64] + Seq::new(rest.len(), |i: int| rest[i] as u64) =~= Seq::new(
            vals.len(),
            |i: int| vals[i] as u64,
        ));
    }
}

/// The layer ends never decrease, and the last is the length of all layers.
proof fn lemma_layer_ends(tops: Seq<Seq<u8>>)
    ensures
        forall|i: int| 0 < i < tops.len() ==> layer_ends(tops)[i - 1] <= #[trigger] layer_ends(tops)[i],
        forall|i: int| 0 <= i < tops.len() ==> #[trigger] layer_ends(tops)[i] <= concat(tops).len(),
        tops.len() > 0 ==> layer_ends(tops).last() == concat(tops).len(),
        tops.len() > 1 ==> layer_ends(tops)[tops.len() - 2] == concat(tops.drop_last()).len(),
{
    let ends = layer_ends(tops);
    assert forall|i: int| 0 < i < tops.len() implies ends[i - 1] <= #[trigger] ends[i] by {
        assert(tops.take(i + 1).drop_last() =~= tops.take(i));
    }
    assert forall|i: int| 0 <= i < tops.len() implies #[trigger] ends[i] <= concat(tops).len() by {
        lemma_concat_take_len(tops, i + 1);
    }
    if tops.len() > 0 {
        assert(tops.take(tops.len() as int) =~= tops);
    }
    if tops.len() > 1 {
        assert(tops.take(tops.len() - 1) =~= tops.drop_last());
    }
}

/// The length of the header of a written index.
pub open spec fn header_len(tops: Seq<Seq<u8>>) -> int {
    (vint_encoding(tops.len()).len() + vint_items_bytes(layer_ends(tops)).len()) as int
}

/// The header of a written index reads back as the layer ends.
proof fn lemma_index_header(tops: Seq<Seq<u8>>)
    requires
        tops.len() <= u64::MAX,
        concat(tops).len() <= u64::MAX,
    ensures
        ({
            let s = index_bytes(tops);
            let p = header_len(tops);
            let ends = layer_ends(tops);
            &&& vint_read(s, 0) == Ok::<(u64, nat), StoreError>((tops.len() as u64, vint_encoding(tops.len()).len()))
            &&& ends_parse(s, vint_encoding(tops.len()).len() as int, tops.len()) == Some((
                Seq::new(ends.len(), |i: int| ends[i] as u64),
                p,
            ))
            &&& ends_fit(Seq::new(ends.len(), |i: int| ends[i] as u64), s.len() - p)
        }),
{
    let s = index_bytes(tops);
    let n = tops.len();
    let ends = layer_ends(tops);
    let enc_count = vint_encoding(n);
    let items = vint_items_bytes(ends);
    let body = concat(tops);
    assert(s =~= enc_count + (items + body));
    assert(s.subrange(0, s.len() as int) =~= s);
    lemma_bytes_at_split(s, 0, enc_count, items + body);
    lemma_bytes_at_split(s, enc_count.len() as int, items, body);
    lemma_vint_round_trip(n, s, 0);
    lemma_layer_ends(tops);
    lemma_items_read_back(ends, s, enc_count.len() as int);
    let e64 = Seq::new(ends.len(), |i: int| ends[i] as u64);
    assert forall|i: int| 0 < i < e64.len() implies e64[i - 1] <= #[trigger] e64[i] by {
        assert(ends[i - 1] <= ends[i]);
    }
}

/// The header of a written index gives one range per layer, the last range
/// holding the last layer.
#[verifier::rlimit(50)]
proof fn lemma_index_layers(tops: Seq<Seq<u8>>)
    requires
        tops.len() <= u64::MAX,
        concat(tops).len() <= u64::MAX,
    ensures
        layer_ranges(index_bytes(tops)).len() == tops.len(),
        tops.len() > 0 ==> ({
            let r = layer_ranges(index_bytes(tops)).last();
            index_bytes(tops).subrange(r.0, r.1) == tops.last()
        }),
{
    let s = index_bytes(tops);
    let n = tops.len();
    let ends = layer_ends(tops);
    let p = header_len(tops);
    let e64 = Seq::new(ends.len(), |i: int| ends[i] as u64);
    lemma_index_header(tops);
    let ranges = Seq::new(e64.len(), |i: int| (p + if i == 0 { 0 } else { e64[i - 1] as int }, p + e64[i] as int));
    assert(layer_ranges(s) == ranges);
    if n > 0 {
        lemma_index_last(tops);
    }
}

/// The last layer of a written index stands after the header and the layers
/// before it.
proof fn lemma_index_last(tops: Seq<Seq<u8>>)
    requires
        tops.len() > 0,
    ensures
        ({
            let s = index_bytes(tops);
            let p = header_len(tops);
            let ends = layer_ends(tops);
            let start = p + if tops.len() == 1 { 0 } else { ends[tops.len() - 2] as int };
            &&& p + ends.last() == s.len()
            &&& s.subrange(start, p + ends.last()) == tops.last()
        }),
{
    let s = index_bytes(tops);
    let n = tops.len();
    let ends = layer_ends(tops);
    let body = concat(tops);
    let p = header_len(tops);
    lemma_layer_ends(tops);
    assert(s =~= vint_encoding(n) + vint_items_bytes(ends) + body);
    assert(body =~= concat(tops.drop_last()) + tops.last());
    if n == 1 {
        assert(tops.drop_last() =~= Seq::<Seq<u8>>::empty());
    }
    let start = p + concat(tops.drop_last()).len();
    assert(s.subrange(start, s.len() as int) =~= tops.last());
}

/// A gapless run of checkpoints that starts at document zero, inserted in
/// order into a new builder and written, opens as an index whose cursor
/// gives back exactly that run; an empty run opens with no layers.
#[verifier::rlimit(60)]
pub proof fn lemma_skip_index_round_trip(xs: Seq<Checkpoint>)
    requires
        checkpoints_valid(xs),
        checkpoints_adjacent(xs),
        xs.len() > 0 ==> xs[0].first_doc == 0,
        xs.len() <= u64::MAX,
        concat(flushed_layers(built(xs), 0, None).reverse()).len() <= u64::MAX,
    ensures
        xs.len() == 0 ==> layer_ranges(index_of(xs)).len() == 0,
        xs.len() > 0 ==> ({
            let s = index_of(xs);
            let r = layer_ranges(s);
            &&& r.len() > 0
            &&& layer_seq(s.subrange(r.last().0, r.last().1), 0, 0) == xs
        }),
{
    let st = built(xs);
    let fl = flushed_layers(st, 0, None);
    let tops = fl.reverse();
    lemma_built_base(xs);
    lemma_flushed_len(st, 0, None);
    lemma_index_layers(tops);
    if xs.len() > 0 {
        let f = 8 * (xs.len() / 8) as int;
        let tail = xs.skip(f);
        lemma_chunks_bytes_append(xs.take(f), tail);
        assert(xs.take(f) + tail =~= xs);
        assert(fl[0] == layer_flush(st[0].0, st[0].1).0);
        if tail.len() == 0 {
            assert(chunks_bytes(tail) =~= Seq::<u8>::empty());
            assert(fl[0] =~= chunks_bytes(xs));
        } else {
            assert(fl[0] =~= chunks_bytes(xs));
        }
        assert(tops.last() == fl[0]);
        let bytes = chunks_bytes(xs);
        assert(bytes.subrange(0, bytes.len() as int) =~= bytes);
        lemma_chunks_read_back(xs, bytes, 0, 0);
    }
}

/// The checkpoint that stands for the block `cps[lo .. hi]` of the layer `cps`.
pub open spec fn chunk_pointer(cps: Seq<Checkpoint>, lo: int, hi: int) -> Checkpoint {
    pointer_of(cps.subrange(lo, hi), chunks_bytes(cps.take(lo)).len(), chunks_bytes(cps.take(hi)).len())
}

/// The checkpoints of the layer above `cps`: one for each block of `cps`.
pub open spec fn block_pointers(cps: Seq<Checkpoint>) -> Seq<Checkpoint> {
    Seq::new(
        ((cps.len() + 7) / 8) as nat,
        |k: int| chunk_pointer(cps, 8 * k, if 8 * k + 8 <= cps.len() { 8 * k + 8 } else { cps.len() as int }),
    )
}

/// A layer of whole blocks has an eighth as many pointers.
proof fn lemma_block_pointers_len(cps: Seq<Checkpoint>)
    ensures
        block_pointers(cps).len() == (cps.len() + 7) / 8,
        cps.len() >= 8 ==> block_pointers(cps).len() < cps.len(),
        cps.len() > 0 ==> block_pointers(cps).len() > 0,
{
}

#[via_fn]
proof fn lemma_tower_decreases(s: Seq<Checkpoint>) {
    if s.len() >= 8 {
        let f = 8 * (s.len() / 8);
        lemma_block_pointers_len(s.take(f as int));
    }
}

/// The layers of a builder whose base layer has been given `s`: whole blocks
/// written, the rest pending, and the pointers of the written blocks given to
/// the layer above.
pub open spec fn tower_state(s: Seq<Checkpoint>) -> Seq<LayerState>
    decreases s.len() via lemma_tower_decreases
{
    if s.len() == 0 {
        Seq::empty()
    } else if s.len() < 8 {
        seq![(Seq::<u8>::empty(), s)]
    } else {
        let f = 8 * (s.len() / 8);
        seq![(chunks_bytes(s.take(f as int)), s.skip(f as int))] + tower_state(block_pointers(s.take(f as int)))
    }
}

/// Inserting one layer up works the same under a layer added below.
proof fn lemma_cascade_shift(a: LayerState, t: Seq<LayerState>, i: int, q: Checkpoint)
    requires
        0 <= i <= t.len(),
    ensures
        cascade(seq![a] + t, i + 1, q) == seq![a] + cascade(t, i, q),
    decreases t.len() - i,
{
    let at = seq![a] + t;
    if i == t.len() {
        assert(at.push((Seq::<u8>::empty(), seq![q])) =~= seq![a] + t.push((Seq::<u8>::empty(), seq![q])));
    } else {
        assert(at[i + 1] == t[i]);
        let (l, ptr) = layer_insert(t[i], q);
        assert(at.update(i + 1, l) =~= seq![a] + t.update(i, l));
        match ptr {
            None => {},
            Some(p) => {
                lemma_cascade_shift(a, t.update(i, l), i + 1, p);
            },
        }
    }
}

/// Pointers of whole blocks followed by one more block.
proof fn lemma_block_pointers_append(a: Seq<Checkpoint>, b: Seq<Checkpoint>)
    requires
        a.len() % 8 == 0,
        0 < b.len() <= 8,
    ensures
        block_pointers(a + b) == block_pointers(a).push(
            pointer_of(b, chunks_bytes(a).len(), chunks_bytes(a).len() + block_bytes(b).len()),
        ),
{
    let ab = a + b;
    let pa = block_pointers(a);
    let pab = block_pointers(ab);
    lemma_chunks_bytes_append(a, b);
    assert(chunks_bytes(b) == block_bytes(b));
    assert(pab.len() == pa.len() + 1);
    assert forall|k: int| 0 <= k < pa.len() implies pab[k] == pa[k] by {
        let hi = 8 * k + 8;
        assert(hi <= a.len());
        assert(ab.subrange(8 * k, hi) =~= a.subrange(8 * k, hi));
        assert(ab.take(8 * k) =~= a.take(8 * k));
        assert(ab.take(hi) =~= a.take(hi));
    }
    let k = pa.len() as int;
    assert(8 * k == a.len());
    assert(ab.subrange(8 * k, ab.len() as int) =~= b);
    assert(ab.take(8 * k) =~= a);
    assert(ab.take(ab.len() as int) =~= ab);
    assert(pab =~= pa.push(pointer_of(b, chunks_bytes(a).len(), chunks_bytes(a).len() + block_bytes(b).len())));
}

/// Inserting a checkpoint into the tower of `s` gives the tower of `s` with
/// it appended.
proof fn lemma_cascade_tower(s: Seq<Checkpoint>, x: Checkpoint)
    ensures
        cascade(tower_state(s), 0, x) == tower_state(s.push(x)),
    decreases s.len(),
{
    let s2 = s.push(x);
    if s.len() == 0 {
        assert(s2 =~= seq![x]);
        assert(Seq::<LayerState>::empty().push((Seq::<u8>::empty(), seq![x])) =~= seq![(Seq::<u8>::empty(), seq![x])]);
    } else if s.len() < 7 {
        assert(cascade(tower_state(s), 0, x) =~= seq![(Seq::<u8>::empty(), s2)]);
    } else if s.len() == 7 {
        let bytes = block_bytes(s2);
        let ptr = pointer_of(s2, 0, bytes.len());
        assert(Seq::<u8>::empty() + bytes =~= bytes);
        assert(s2.take(8) =~= s2);
        assert(s2.skip(8) =~= Seq::<Checkpoint>::empty());
        assert(chunks_bytes(s2) == bytes);
        assert(chunks_bytes(s2.take(0)) =~= Seq::<u8>::empty());
        assert(s2.subrange(0, 8) =~= s2);
        let bp = block_pointers(s2);
        assert(bp =~= seq![ptr]);
        assert(tower_state(seq![ptr]) == seq![(Seq::<u8>::empty(), seq![ptr])]);
        let st = tower_state(s);
        assert(st == seq![(Seq::<u8>::empty(), s)]);
        let (l, q) = layer_insert(st[0], x);
        assert(l == (bytes, Seq::<Checkpoint>::empty()));
        assert(q == Some(ptr));
        let next = st.update(0, l);
        assert(cascade(st, 0, x) == cascade(next, 1, ptr));
        assert(cascade(next, 1, ptr) == next.push((Seq::<u8>::empty(), seq![ptr])));
        assert(cascade(tower_state(s), 0, x) =~= seq![(bytes, Seq::<Checkpoint>::empty()), (Seq::<u8>::empty(), seq![ptr])]);
        assert(tower_state(s2) =~= seq![(bytes, Seq::<Checkpoint>::empty()), (Seq::<u8>::empty(), seq![ptr])]);
    } else {
        let f = (8 * (s.len() / 8)) as int;
        let full = s.take(f);
        let rest = s.skip(f);
        let c = chunks_bytes(full);
        let p = block_pointers(full);
        let up = tower_state(p);
        lemma_block_pointers_len(full);
        assert(tower_state(s) == seq![(c, rest)] + up);
        let pending = rest.push(x);
        if pending.len() < 8 {
            let f2 = 8 * (s2.len() / 8);
            assert(f2 == f);
            assert(s2.take(f) =~= full);
            assert(s2.skip(f) =~= pending);
            assert(cascade(tower_state(s), 0, x) =~= seq![(c, pending)] + up);
        } else {
            let bytes = c + block_bytes(pending);
            let ptr = pointer_of(pending, c.len(), bytes.len());
            assert(s2.len() == f + 8);
            assert(8 * (s2.len() / 8) == f + 8);
            assert(full + pending =~= s2);
            assert(s2.take(f + 8) =~= s2);
            assert(s2.skip(f + 8) =~= Seq::<Checkpoint>::empty());
            lemma_chunks_bytes_append(full, pending);
            assert(chunks_bytes(pending) == block_bytes(pending));
            lemma_block_pointers_append(full, pending);
            assert(block_pointers(s2) == p.push(ptr));
            let after0 = (tower_state(s)).update(0, (bytes, Seq::<Checkpoint>::empty()));
            assert(after0 =~= seq![(bytes, Seq::<Checkpoint>::empty())] + up);
            lemma_block_pointers_len(full);
            lemma_cascade_shift((bytes, Seq::<Checkpoint>::empty()), up, 0, ptr);
            lemma_cascade_tower(p, ptr);
            assert(cascade(tower_state(s), 0, x) == cascade(after0, 1, ptr));
        }
    }
}

/// A new builder given `xs` holds the tower of `xs`.
proof fn lemma_built_tower(xs: Seq<Checkpoint>)
    ensures
        built(xs) == tower_state(xs),
    decreases xs.len(),
{
    if xs.len() > 0 {
        lemma_built_tower(xs.drop_last());
        lemma_cascade_tower(xs.drop_last(), xs.last());
        assert(xs.drop_last().push(xs.last()) =~= xs);
    }
}

/// `s` with `c` appended when there is one.
pub open spec fn with_carry(s: Seq<Checkpoint>, c: Option<Checkpoint>) -> Seq<Checkpoint> {
    match c {
        Some(p) => s.push(p),
        None => s,
    }
}

/// The pointer that the base layer given `s`, with `c` handed up from below,
/// hands up when written.
pub open spec fn carry_out(s: Seq<Checkpoint>, c: Option<Checkpoint>) -> Option<Checkpoint> {
    let f = 8 * (s.len() / 8);
    let written = chunks_bytes(s.take(f as int));
    let pending = with_carry(s.skip(f as int), c);
    if pending.len() == 0 {
        None
    } else {
        Some(pointer_of(pending, written.len(), written.len() + block_bytes(pending).len()))
    }
}

/// The checkpoints of each written layer, base layer first, for a base layer
/// given `s` that receives `c` from below.
pub open spec fn final_seqs(s: Seq<Checkpoint>, c: Option<Checkpoint>) -> Seq<Seq<Checkpoint>>
    decreases s.len() via lemma_final_decreases
{
    if s.len() == 0 {
        Seq::empty()
    } else if s.len() < 8 {
        seq![with_carry(s, c)]
    } else {
        let f = 8 * (s.len() / 8);
        seq![with_carry(s, c)] + final_seqs(block_pointers(s.take(f as int)), carry_out(s, c))
    }
}

#[via_fn]
proof fn lemma_final_decreases(s: Seq<Checkpoint>, c: Option<Checkpoint>) {
    if s.len() >= 8 {
        let f = 8 * (s.len() / 8);
        lemma_block_pointers_len(s.take(f as int));
    }
}

/// Writing out a layer under a layer added below works the same.
proof fn lemma_flushed_shift(a: LayerState, t: Seq<LayerState>, i: int, c: Option<Checkpoint>)
    requires
        0 <= i <= t.len(),
    ensures
        flushed_layers(seq![a] + t, i + 1, c) == flushed_layers(t, i, c),
    decreases t.len() - i,
{
    if i < t.len() {
        let at = seq![a] + t;
        assert(at[i + 1] == t[i]);
        let pending = match c {
            Some(p) => t[i].1.push(p),
            None => t[i].1,
        };
        lemma_flushed_shift(a, t, i + 1, layer_flush(t[i].0, pending).1);
    }
}

/// The written layers of the tower of `s` are the blocks of the final
/// checkpoint sequences, and each layer's sequence is the pointers of the one
/// below.
proof fn lemma_final_layers(s: Seq<Checkpoint>, c: Option<Checkpoint>)
    requires
        s.len() > 0,
    ensures
        flushed_layers(tower_state(s), 0, c).len() == final_seqs(s, c).len(),
        final_seqs(s, c).len() == tower_state(s).len(),
        final_seqs(s, c)[0] == with_carry(s, c),
        forall|l: int| 0 <= l < final_seqs(s, c).len() ==> #[trigger] flushed_layers(tower_state(s), 0, c)[l]
            == chunks_bytes(final_seqs(s, c)[l]),
        forall|l: int| 0 <= l < final_seqs(s, c).len() - 1 ==> #[trigger] final_seqs(s, c)[l + 1]
            == block_pointers(final_seqs(s, c)[l]),
        final_seqs(s, c).last().len() <= 8,
    decreases s.len(),
{
    let f = (8 * (s.len() / 8)) as int;
    let full = s.take(f);
    let rest = s.skip(f);
    let written = chunks_bytes(full);
    let pending = with_carry(rest, c);
    let s2 = with_carry(s, c);
    assert(full + pending =~= s2);
    lemma_chunks_bytes_append(full, pending);
    lemma_flushed_len(tower_state(s), 0, c);
    if s.len() < 8 {
        assert(f == 0);
        assert(full =~= Seq::<Checkpoint>::empty());
        assert(written =~= Seq::<u8>::empty());
        assert(Seq::<u8>::empty() + chunks_bytes(pending) =~= chunks_bytes(pending));
        assert(pending =~= s2);
        if pending.len() > 0 {
            assert(chunks_bytes(pending) == block_bytes(pending));
            assert(Seq::<u8>::empty() + block_bytes(pending) =~= block_bytes(pending));
        }
        assert(flushed_layers(tower_state(s), 0, c)[0] == chunks_bytes(s2));
    } else {
        let p = block_pointers(full);
        let q = carry_out(s, c);
        lemma_block_pointers_len(full);
        lemma_final_layers(p, q);
        let head: LayerState = (written, rest);
        assert(tower_state(s) == seq![head] + tower_state(p));
        lemma_flushed_shift(head, tower_state(p), 0, q);
        if pending.len() > 0 {
            assert(chunks_bytes(pending) == block_bytes(pending));
            lemma_block_pointers_append(full, pending);
        } else {
            assert(pending =~= Seq::<Checkpoint>::empty());
            assert(s2 =~= full);
            assert(written + Seq::<u8>::empty() =~= written);
        }
        assert(block_pointers(s2) == with_carry(p, q));
        let fl = flushed_layers(tower_state(s), 0, c);
        let fs = final_seqs(s, c);
        assert(fl == seq![chunks_bytes(s2)] + flushed_layers(tower_state(p), 0, q));
        assert(fs == seq![s2] + final_seqs(p, q));
        assert forall|l: int| 0 <= l < fs.len() implies #[trigger] fl[l] == chunks_bytes(fs[l]) by {
            if l > 0 {
                assert(fl[l] == flushed_layers(tower_state(p), 0, q)[l - 1]);
                assert(fs[l] == final_seqs(p, q)[l - 1]);
            }
        }
        assert forall|l: int| 0 <= l < fs.len() - 1 implies #[trigger] fs[l + 1] == block_pointers(fs[l]) by {
            assert(fs[l + 1] == final_seqs(p, q)[l]);
            if l > 0 {
                let m = l - 1;
                assert(fs[l] == final_seqs(p, q)[m]);
                assert(final_seqs(p, q)[m + 1] == block_pointers(final_seqs(p, q)[m]));
            } else {
                assert(fs[0] == s2);
                assert(final_seqs(p, q)[0] == with_carry(p, q));
            }
        }
        assert(fs.last() == final_seqs(p, q).last());
    }
}

/// The tower of `n >= 1` checkpoints has `k` layers, where `8^(k-1) <= n < 8^k`.
proof fn lemma_tower_height(s: Seq<Checkpoint>)
    requires
        s.len() > 0,
    ensures
        tower_state(s).len() >= 1,
        pow(8, (tower_state(s).len() - 1) as nat) <= s.len() < pow(8, tower_state(s).len()),
    decreases s.len(),
{
    reveal(pow);
    let n = tower_state(s).len();
    if s.len() < 8 {
        assert(pow(8, 0) == 1);
        assert(pow(8, 1) == 8 * pow(8, 0));
    } else {
        let f = (8 * (s.len() / 8)) as int;
        let p = block_pointers(s.take(f));
        lemma_block_pointers_len(s.take(f));
        assert(p.len() == s.len() / 8);
        lemma_tower_height(p);
        let m = tower_state(p).len();
        assert(tower_state(s) == seq![(chunks_bytes(s.take(f)), s.skip(f))] + tower_state(p));
        assert(n == m + 1);
        assert(pow(8, m) == 8 * pow(8, (m - 1) as nat));
        assert(pow(8, (m + 1) as nat) == 8 * pow(8, m));
    }
}

/// Writing `n >= 1` checkpoints: the number of layers `k` has
/// `8^(k-1) <= n < 8^k`; the base layer holds the checkpoints themselves, each
/// layer above holds one checkpoint per block of the layer below, so
/// `(count + 7) / 8` of them; the top layer is a single block; and each
/// written layer is the blocks of its checkpoints.
pub proof fn lemma_layer_fanout(xs: Seq<Checkpoint>)
    requires
        xs.len() > 0,
    ensures
        ({
            let k = built(xs).len();
            let fs = final_seqs(xs, None);
            let written = flushed_layers(built(xs), 0, None);
            &&& k >= 1
            &&& pow(8, (k - 1) as nat) <= xs.len() < pow(8, k)
            &&& fs.len() == k && written.len() == k
            &&& fs[0] == xs
            &&& forall|l: int| 0 <= l < k - 1 ==> #[trigger] fs[l + 1] == block_pointers(fs[l])
            &&& forall|l: int| 0 <= l < k - 1 ==> (#[trigger] fs[l + 1]).len() == (fs[l].len() + 7) / 8
            &&& fs.last().len() <= 8
            &&& forall|l: int| 0 <= l < k ==> #[trigger] written[l] == chunks_bytes(fs[l])
        }),
{
    lemma_built_tower(xs);
    lemma_tower_height(xs);
    lemma_final_layers(xs, None);
    let fs = final_seqs(xs, None);
    assert forall|l: int| 0 <= l < fs.len() - 1 implies (#[trigger] fs[l + 1]).len() == (fs[l].len() + 7) / 8 by {
        assert(fs[l + 1] == block_pointers(fs[l]));
        lemma_block_pointers_len(fs[l]);
    }
}

/// The byte sequences of `a + b`: those of `a`, then those of `b`.
proof fn lemma_concat_split(a: Seq<Seq<u8>>, b: Seq<Seq<u8>>)
    ensures
        concat(a + b) == concat(a) + concat(b),
    decreases b.len(),
{
    if b.len() == 0 {
        assert(a + b =~= a);
        assert(concat(a) + concat(b) =~= concat(a));
    } else {
        assert((a + b).drop_last() =~= a + b.drop_last());
        lemma_concat_split(a, b.drop_last());
        assert(concat(a + b) =~= concat(a) + concat(b));
    }
}

/// Layer `i` of a written index stands after the header and the layers before it.
proof fn lemma_body_slice(tops: Seq<Seq<u8>>, i: int)
    requires
        0 <= i < tops.len(),
    ensures
        concat(tops.take(i + 1)).len() == concat(tops.take(i)).len() + tops[i].len(),
        header_len(tops) + concat(tops).len() == index_bytes(tops).len(),
        header_len(tops) + concat(tops.take(i + 1)).len() <= index_bytes(tops).len(),
        index_bytes(tops).subrange(
            header_len(tops) + concat(tops.take(i)).len(),
            header_len(tops) + concat(tops.take(i + 1)).len(),
        ) == tops[i],
{
    let s = index_bytes(tops);
    let p = header_len(tops);
    let before = tops.take(i);
    let after = tops.skip(i + 1);
    assert(tops =~= before + seq![tops[i]] + after);
    lemma_concat_split(before + seq![tops[i]], after);
    lemma_concat_split(before, seq![tops[i]]);
    let one = seq![tops[i]];
    assert(one.drop_last() =~= Seq::<Seq<u8>>::empty());
    assert(concat(one) == concat(one.drop_last()) + one.last());
    assert(concat(one.drop_last()) =~= Seq::<u8>::empty());
    assert(Seq::<u8>::empty() + tops[i] =~= tops[i]);
    assert(concat(one) =~= tops[i]);
    assert(tops.take(i + 1) =~= before + seq![tops[i]]);
    let body = concat(tops);
    assert(s =~= vint_encoding(tops.len()) + vint_items_bytes(layer_ends(tops)) + body);
    assert(body == concat(before) + tops[i] + concat(after));
    assert(s.subrange(p + concat(before).len(), p + concat(before).len() + tops[i].len()) =~= tops[i]);
}

/// The ranges the header of a written index gives.
#[verifier::rlimit(60)]
proof fn lemma_ranges_of_index(tops: Seq<Seq<u8>>)
    requires
        tops.len() <= u64::MAX,
        concat(tops).len() <= u64::MAX,
    ensures
        layer_ranges(index_bytes(tops)) == Seq::new(
            tops.len(),
            |j: int|
                (
                    header_len(tops) + if j == 0 { 0 } else { layer_ends(tops)[j - 1] as int },
                    header_len(tops) + layer_ends(tops)[j] as int,
                ),
        ),
{
    let s = index_bytes(tops);
    let ends = layer_ends(tops);
    let p = header_len(tops);
    let e64 = Seq::new(ends.len(), |j: int| ends[j] as u64);
    lemma_index_header(tops);
    lemma_layer_ends(tops);
    let ranges = Seq::new(e64.len(), |j: int| (p + if j == 0 { 0 } else { e64[j - 1] as int }, p + e64[j] as int));
    assert(layer_ranges(s) == ranges);
    assert(ranges =~= Seq::new(
        tops.len(),
        |j: int| (p + if j == 0 { 0 } else { ends[j - 1] as int }, p + ends[j] as int),
    ));
}

/// Each range of the header of a written index holds its layer.
proof fn lemma_index_range(tops: Seq<Seq<u8>>, i: int)
    requires
        tops.len() <= u64::MAX,
        concat(tops).len() <= u64::MAX,
        0 <= i < tops.len(),
    ensures
        layer_ranges(index_bytes(tops)).len() == tops.len(),
        ({
            let r = layer_ranges(index_bytes(tops))[i];
            &&& 0 <= r.0 <= r.1 <= index_bytes(tops).len()
            &&& index_bytes(tops).subrange(r.0, r.1) == tops[i]
        }),
{
    let ends = layer_ends(tops);
    lemma_ranges_of_index(tops);
    lemma_body_slice(tops, i);
    if i == 0 {
        assert(tops.take(0) =~= Seq::<Seq<u8>>::empty());
    } else {
        assert(ends[i - 1] == concat(tops.take(i)).len());
    }
    assert(ends[i] == concat(tops.take(i + 1)).len());
}

/// The position of the first checkpoint whose last document is at least `t`.
pub open spec fn reach_index(cps: Seq<Checkpoint>, t: DocId) -> int
    decreases cps.len(),
{
    if cps.len() == 0 {
        0
    } else if cps[0].last_doc >= t {
        0
    } else {
        1 + reach_index(cps.drop_first(), t)
    }
}

proof fn lemma_reach_index(cps: Seq<Checkpoint>, t: DocId)
    ensures
        0 <= reach_index(cps, t) <= cps.len(),
        forall|j: int| 0 <= j < reach_index(cps, t) ==> (#[trigger] cps[j]).last_doc < t,
        reach_index(cps, t) < cps.len() ==> cps[reach_index(cps, t)].last_doc >= t && first_reaching(cps, t)
            == Some(cps[reach_index(cps, t)]),
        reach_index(cps, t) == cps.len() ==> first_reaching(cps, t) is None,
    decreases cps.len(),
{
    if cps.len() > 0 && cps[0].last_doc < t {
        let rest = cps.drop_first();
        lemma_reach_index(rest, t);
        assert forall|j: int| 0 <= j < reach_index(cps, t) implies (#[trigger] cps[j]).last_doc < t by {
            if j > 0 {
                assert(cps[j] == rest[j - 1]);
            }
        }
        if reach_index(cps, t) < cps.len() {
            assert(cps[reach_index(cps, t)] == rest[reach_index(rest, t)]);
        }
    }
}

/// Checkpoints that all end before `t` do not change the first one reaching it.
proof fn lemma_first_reaching_skip(cps: Seq<Checkpoint>, m: int, t: DocId)
    requires
        0 <= m <= cps.len(),
        forall|j: int| 0 <= j < m ==> (#[trigger] cps[j]).last_doc < t,
    ensures
        first_reaching(cps.skip(m), t) == first_reaching(cps, t),
    decreases m,
{
    if m == 0 {
        assert(cps.skip(0) =~= cps);
    } else {
        let rest = cps.drop_first();
        assert forall|j: int| 0 <= j < m - 1 implies (#[trigger] rest[j]).last_doc < t by {
            assert(rest[j] == cps[j + 1]);
        }
        lemma_first_reaching_skip(rest, m - 1, t);
        assert(rest.skip(m - 1) =~= cps.skip(m));
        assert(cps[0].last_doc < t);
    }
}

/// In a valid, adjacent run last documents increase.
proof fn lemma_last_doc_mono(cps: Seq<Checkpoint>, i: int, j: int)
    requires
        checkpoints_valid(cps),
        checkpoints_adjacent(cps),
        0 <= i <= j < cps.len(),
    ensures
        cps[i].last_doc <= cps[j].last_doc,
    decreases j - i,
{
    if i < j {
        lemma_last_doc_mono(cps, i, j - 1);
        let k = j - 1;
        assert(cps[k + 1].first_doc == cps[k].last_doc + 1);
        assert(checkpoint_valid(cps[j]));
    }
}

/// Serialized blocks of a prefix of whole blocks are a prefix of the bytes.
proof fn lemma_chunks_prefix_len(cps: Seq<Checkpoint>, k: int)
    requires
        0 <= k <= cps.len(),
        k % 8 == 0 || k == cps.len(),
    ensures
        chunks_bytes(cps.take(k)).len() <= chunks_bytes(cps).len(),
{
    if k == cps.len() {
        assert(cps.take(k) =~= cps);
    } else {
        lemma_chunks_bytes_append(cps.take(k), cps.skip(k));
        assert(cps.take(k) + cps.skip(k) =~= cps);
    }
}

/// The layer above a valid, adjacent run whose blocks fit in `u64` offsets is
/// valid and adjacent, starts at the same document, and ends at the same one.
proof fn lemma_pointers_keep(cps: Seq<Checkpoint>)
    requires
        checkpoints_valid(cps),
        checkpoints_adjacent(cps),
        cps.len() > 0,
        chunks_bytes(cps).len() <= u64::MAX,
    ensures
        checkpoints_valid(block_pointers(cps)),
        checkpoints_adjacent(block_pointers(cps)),
        block_pointers(cps)[0].first_doc == cps[0].first_doc,
        block_pointers(cps).last().last_doc == cps.last().last_doc,
{
    let u = block_pointers(cps);
    let n = cps.len() as int;
    lemma_block_pointers_len(cps);
    assert forall|k: int| 0 <= k < u.len() implies checkpoint_valid(#[trigger] u[k]) by {
        let hi = if 8 * k + 8 <= n { 8 * k + 8 } else { n };
        lemma_last_doc_mono(cps, 8 * k, hi - 1);
        assert(checkpoint_valid(cps[8 * k]));
        assert(cps.subrange(8 * k, hi)[0] == cps[8 * k]);
        assert(cps.subrange(8 * k, hi).last() == cps[hi - 1]);
        lemma_chunks_prefix_len(cps, 8 * k);
        lemma_chunks_prefix_len(cps, hi);
        let lo_part = cps.take(8 * k);
        let hi_part = cps.take(hi);
        assert(hi_part.take(8 * k) =~= lo_part);
        lemma_chunks_prefix_len(hi_part, 8 * k);
    }
    assert forall|k: int| 0 <= k < u.len() - 1 implies (#[trigger] u[k + 1]).first_doc == u[k].last_doc + 1
        && u[k + 1].start_offset == u[k].end_offset by {
        assert(8 * k + 8 < n);
        let j = 8 * k + 7;
        assert(cps[j + 1].first_doc == cps[j].last_doc + 1);
        assert(cps.subrange(8 * k, 8 * k + 8).last() == cps[j]);
        assert(cps.subrange(8 * k + 8, if 8 * k + 16 <= n { 8 * k + 16 } else { n })[0] == cps[j + 1]);
    }
    assert(cps.subrange(0, if 8 <= n { 8 } else { n })[0] == cps[0]);
    let last = u.len() - 1;
    let lo = 8 * last;
    assert(if lo + 8 <= n { lo + 8 == n } else { true });
    assert(cps.subrange(lo, if lo + 8 <= n { lo + 8 } else { n }).last() == cps[n - 1]);
}

/// Reading a layer from the start of its block `k` gives the layer from that
/// block on.
proof fn lemma_layer_from_block(cps: Seq<Checkpoint>, k: int)
    requires
        checkpoints_valid(cps),
        checkpoints_adjacent(cps),
        0 <= 8 * k < cps.len(),
    ensures
        layer_seq(chunks_bytes(cps), chunks_bytes(cps.take(8 * k)).len() as int, cps[8 * k].first_doc as nat)
            == cps.skip(8 * k),
{
    let bytes = chunks_bytes(cps);
    let head = cps.take(8 * k);
    let tail = cps.skip(8 * k);
    lemma_chunks_bytes_append(head, tail);
    assert(head + tail =~= cps);
    assert(bytes.subrange(0, bytes.len() as int) =~= bytes);
    lemma_bytes_at_split(bytes, 0, chunks_bytes(head), chunks_bytes(tail));
    lemma_skip_keeps(cps, 8 * k);
    assert(tail[0] == cps[8 * k]);
    lemma_chunks_read_back(tail, bytes, chunks_bytes(head).len() as int, cps[8 * k].first_doc as nat);
}

/// Conditions under which the index written for `xs` is read back.
pub open spec fn index_fits(xs: Seq<Checkpoint>) -> bool {
    &&& checkpoints_valid(xs)
    &&& checkpoints_adjacent(xs)
    &&& xs.len() > 0 ==> xs[0].first_doc == 0
    &&& xs.len() <= u64::MAX
    &&& concat(flushed_layers(built(xs), 0, None).reverse()).len() <= u64::MAX
}

/// Every written layer of the index of `xs` is a valid, adjacent run from the
/// first document of `xs` to its last, and fits in `u64` offsets.
proof fn lemma_level_props(xs: Seq<Checkpoint>, l: int)
    requires
        index_fits(xs),
        xs.len() > 0,
        0 <= l < final_seqs(xs, None).len(),
    ensures
        ({
            let f = final_seqs(xs, None)[l];
            &&& checkpoints_valid(f)
            &&& checkpoints_adjacent(f)
            &&& f.len() > 0
            &&& f[0].first_doc == xs[0].first_doc
            &&& f.last().last_doc == xs.last().last_doc
            &&& chunks_bytes(f).len() <= u64::MAX
        }),
    decreases l,
{
    lemma_layer_fanout(xs);
    let fs = final_seqs(xs, None);
    let written = flushed_layers(built(xs), 0, None);
    let tops = written.reverse();
    let n = fs.len() as int;
    let i = n - 1 - l;
    assert(tops[i] == written[l]);
    lemma_body_slice(tops, i);
    lemma_concat_take_len(tops, i + 1);
    if l > 0 {
        lemma_level_props(xs, l - 1);
        let m = l - 1;
        assert(fs[m + 1] == block_pointers(fs[m]));
        lemma_pointers_keep(fs[m]);
        lemma_block_pointers_len(fs[m]);
    }
}

/// Reading the blocks of `f` from block `k` on, where every checkpoint
/// before it ends before `t`, finds the first checkpoint of `f` that reaches
/// `t`.
proof fn lemma_found_in_blocks(f: Seq<Checkpoint>, k: int, t: DocId)
    requires
        checkpoints_valid(f),
        checkpoints_adjacent(f),
        0 <= 8 * k < f.len(),
        forall|j: int| 0 <= j < 8 * k ==> (#[trigger] f[j]).last_doc < t,
    ensures
        chunks_bytes(f.take(8 * k)).len() <= chunks_bytes(f).len(),
        first_reaching(
            layer_seq(chunks_bytes(f), chunks_bytes(f.take(8 * k)).len() as int, f[8 * k].first_doc as nat),
            t,
        ) == first_reaching(f, t),
{
    lemma_chunks_prefix_len(f, 8 * k);
    lemma_layer_from_block(f, k);
    lemma_first_reaching_skip(f, 8 * k, t);
}

/// In the layer `i` (top first) of a written index, holding the blocks of
/// `f`, reading from block `k` on, where every checkpoint before it ends
/// before `t`, finds the first checkpoint of `f` that reaches `t`.
#[verifier::rlimit(100)]
proof fn lemma_found_in_layer(tops: Seq<Seq<u8>>, f: Seq<Checkpoint>, i: int, k: int, t: DocId)
    requires
        tops.len() <= u64::MAX,
        concat(tops).len() <= u64::MAX,
        0 <= i < tops.len(),
        tops[i] == chunks_bytes(f),
        checkpoints_valid(f),
        checkpoints_adjacent(f),
        0 <= 8 * k < f.len(),
        forall|j: int| 0 <= j < 8 * k ==> (#[trigger] f[j]).last_doc < t,
    ensures
        ({
            let r = layer_ranges(index_bytes(tops));
            let bytes = index_bytes(tops).subrange(r[i].0, r[i].1);
            let lo = chunks_bytes(f.take(8 * k)).len() as int;
            &&& r.len() == tops.len()
            &&& 0 <= lo <= bytes.len()
            &&& first_reaching(layer_seq(bytes, lo, f[8 * k].first_doc as nat), t) == first_reaching(f, t)
        }),
{
    lemma_index_range(tops, i);
    lemma_found_in_blocks(f, k, t);
}

/// In layer `l` (counted from the base), the descent from block `k` finds the
/// first checkpoint of that layer reaching `t`.
proof fn lemma_seek_found(xs: Seq<Checkpoint>, t: DocId, l: int, k: int)
    requires
        index_fits(xs),
        xs.len() > 0,
        0 <= l < final_seqs(xs, None).len(),
        0 <= 8 * k < final_seqs(xs, None)[l].len(),
        forall|j: int| 0 <= j < 8 * k ==> (#[trigger] final_seqs(xs, None)[l][j]).last_doc < t,
    ensures
        ({
            let fs = final_seqs(xs, None);
            let i = fs.len() - 1 - l;
            let r = layer_ranges(index_of(xs));
            let bytes = index_of(xs).subrange(r[i].0, r[i].1);
            let lo = chunks_bytes(fs[l].take(8 * k)).len() as int;
            &&& r.len() == fs.len()
            &&& 0 <= lo <= bytes.len()
            &&& first_reaching(layer_seq(bytes, lo, fs[l][8 * k].first_doc as nat), t) == first_reaching(fs[l], t)
        }),
{
    let fs = final_seqs(xs, None);
    let written = flushed_layers(built(xs), 0, None);
    let tops = written.reverse();
    lemma_layer_fanout(xs);
    lemma_level_props(xs, l);
    lemma_built_base(xs);
    assert(tops.len() <= u64::MAX);
    let i = fs.len() - 1 - l;
    assert(tops[i] == written[l]);
    assert(tops[i] == chunks_bytes(fs[l]));
    lemma_found_in_layer(tops, fs[l], i, k, t);
}

/// Where the first checkpoint of layer `l > 0` reaching `t` is its `m`-th, the
/// descent continues at block `m` of the layer below, before which every
/// checkpoint ends before `t`.
proof fn lemma_descend(xs: Seq<Checkpoint>, t: DocId, l: int)
    requires
        index_fits(xs),
        xs.len() > 0,
        0 < l < final_seqs(xs, None).len(),
        reach_index(final_seqs(xs, None)[l], t) < final_seqs(xs, None)[l].len(),
    ensures
        ({
            let fs = final_seqs(xs, None);
            let m = reach_index(fs[l], t);
            let c = fs[l][m];
            let g = fs[l - 1];
            &&& 0 <= 8 * m < g.len()
            &&& c.start_offset as int == chunks_bytes(g.take(8 * m)).len()
            &&& c.first_doc == g[8 * m].first_doc
            &&& forall|j: int| 0 <= j < 8 * m ==> (#[trigger] g[j]).last_doc < t
        }),
{
    lemma_layer_fanout(xs);
    let fs = final_seqs(xs, None);
    let f = fs[l];
    let g = fs[l - 1];
    lemma_reach_index(f, t);
    let m = reach_index(f, t);
    let c = f[m];
    lemma_level_props(xs, l - 1);
    let q = l - 1;
    assert(fs[q + 1] == block_pointers(fs[q]));
    lemma_block_pointers_len(g);
    let hi = if 8 * m + 8 <= g.len() { 8 * m + 8 } else { g.len() as int };
    lemma_chunks_prefix_len(g, 8 * m);
    assert(c == chunk_pointer(g, 8 * m, hi));
    assert(g.subrange(8 * m, hi)[0] == g[8 * m]);
    assert forall|j: int| 0 <= j < 8 * m implies (#[trigger] g[j]).last_doc < t by {
        let b = j / 8;
        let hb = if 8 * b + 8 <= g.len() { 8 * b + 8 } else { g.len() as int };
        assert(f[b] == chunk_pointer(g, 8 * b, hb));
        assert(g.subrange(8 * b, hb).last() == g[hb - 1]);
        assert(f[b].last_doc < t);
        lemma_last_doc_mono(g, j, hb - 1);
    }
}

/// Descending from block `k` of layer `l` (counted from the base), where all
/// checkpoints before that block end before `t`, finds the first checkpoint
/// of `xs` that reaches `t`.
proof fn lemma_seek_level(xs: Seq<Checkpoint>, t: DocId, l: int, k: int)
    requires
        index_fits(xs),
        xs.len() > 0,
        0 <= l < final_seqs(xs, None).len(),
        0 <= 8 * k < final_seqs(xs, None)[l].len(),
        forall|j: int| 0 <= j < 8 * k ==> (#[trigger] final_seqs(xs, None)[l][j]).last_doc < t,
    ensures
        seek_from(
            index_of(xs),
            layer_ranges(index_of(xs)),
            final_seqs(xs, None).len() - 1 - l,
            chunks_bytes(final_seqs(xs, None)[l].take(8 * k)).len() as int,
            final_seqs(xs, None)[l][8 * k].first_doc as nat,
            t,
        ) == first_reaching(xs, t),
    decreases l,
{
    let fs = final_seqs(xs, None);
    let f = fs[l];
    lemma_layer_fanout(xs);
    lemma_seek_found(xs, t, l, k);
    lemma_reach_index(f, t);
    lemma_reach_index(xs, t);
    lemma_level_props(xs, l);
    let m = reach_index(f, t);
    if m == f.len() {
        if reach_index(xs, t) < xs.len() {
            lemma_last_doc_mono(xs, reach_index(xs, t), xs.len() - 1);
            assert(f[f.len() - 1].last_doc < t);
        }
    } else if l > 0 {
        lemma_descend(xs, t, l);
        lemma_seek_level(xs, t, l - 1, m);
    } else {
        assert(f == xs);
    }
}

/// For a gapless run of checkpoints starting at document zero, looking a
/// document up in the index written for it gives the first checkpoint whose
/// last document reaches it: the one that holds it when it is at most the
/// last document of the run, and nothing past that.
pub proof fn lemma_skip_index_seek(xs: Seq<Checkpoint>, target: DocId)
    requires
        index_fits(xs),
    ensures
        seek_from(index_of(xs), layer_ranges(index_of(xs)), 0, 0, 0, target) == first_reaching(xs, target),
        xs.len() > 0 && target <= xs.last().last_doc ==> (first_reaching(xs, target) matches Some(c) && (
        c.first_doc <= target <= c.last_doc)),
        xs.len() == 0 || target > xs.last().last_doc ==> first_reaching(xs, target) is None,
{
    lemma_skip_index_round_trip(xs);
    lemma_reach_index(xs, target);
    if xs.len() > 0 {
        lemma_layer_fanout(xs);
        let fs = final_seqs(xs, None);
        let top = fs.len() - 1;
        lemma_level_props(xs, top);
        assert(fs[top].take(0) =~= Seq::<Checkpoint>::empty());
        assert(chunks_bytes(fs[top].take(0)).len() == 0);
        lemma_seek_level(xs, target, top, 0);
        let m = reach_index(xs, target);
        if target <= xs.last().last_doc {
            if m == xs.len() {
                assert(xs[xs.len() - 1].last_doc < target);
            }
            if m > 0 {
                let j = m - 1;
                assert(xs[j + 1].first_doc == xs[j].last_doc + 1);
            }
        } else {
            if m < xs.len() {
                lemma_last_doc_mono(xs, m, xs.len() - 1);
            }
        }
    }
}

} // verus!
