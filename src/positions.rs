//! Position streams: `u32` values bit-packed 128 to a block, with a skip
//! stream that gives each block's bit width and, every 1024 blocks, the byte
//! where the next block starts.
use vstd::prelude::*;
use vstd::arithmetic::power2::pow2;
use vstd::bytes::{spec_u32_from_le_bytes, spec_u64_from_le_bytes, spec_u32_to_le_bytes, spec_u64_to_le_bytes, u32_from_le_bytes, u64_from_le_bytes, u32_to_le_bytes, u64_to_le_bytes, lemma_auto_spec_u32_to_from_le_bytes, lemma_auto_spec_u64_to_from_le_bytes};
use bitpacking::{BitPacker, BitPacker4x};

verus! {

/// Values per compressed block.
pub const BLOCK_LEN: usize = 128;

/// Blocks between two long-skip entries.
pub const LONG_SKIP_IN_BLOCKS: usize = 1024;

/// Positions between two long-skip entries.
pub const LONG_SKIP_INTERVAL: u64 = 131072;

/// Every value of `vals` fits in `bits` bits.
pub open spec fn fits_in(vals: Seq<u32>, bits: nat) -> bool {
    forall|i: int| 0 <= i < vals.len() ==> (#[trigger] vals[i]) < pow2(bits)
}

/// `bits` is the least width, at most 32, in which every value of `vals` fits.
pub open spec fn least_width(vals: Seq<u32>, bits: u8) -> bool {
    &&& bits <= 32
    &&& fits_in(vals, bits as nat)
    &&& bits > 0 ==> !fits_in(vals, (bits - 1) as nat)
}

/// Block `b` of `vals`, padded with zeros past the end of `vals`.
pub open spec fn padded_block(vals: Seq<u32>, b: int) -> Seq<u32> {
    Seq::new(128, |i: int| if 128 * b + i < vals.len() { vals[128 * b + i] } else { 0 })
}

/// The values that the 128-value block packed in `bytes` at `bits` bits per value reads back as.
pub uninterp spec fn unpacked(bytes: Seq<u8>, bits: u8) -> Seq<u32>;

/// Relies on `BitPacker4x::num_bits`: the least bit width in which every value
/// of the block fits (32 minus the leading zeros of their bitwise or).
#[verifier::external_body]
fn num_bits(block: &[u32]) -> (r: u8)
    requires
        block@.len() == BLOCK_LEN,
    ensures
        r <= 32,
        fits_in(block@, r as nat),
        r > 0 ==> !fits_in(block@, (r - 1) as nat),
{
    BitPacker4x::new().num_bits(block)
}

/// Relies on `BitPacker4x::compress`: packs 128 values that fit in `bits` bits
/// into `BLOCK_LEN * bits / 8` bytes, which `BitPacker4x::decompress` reads back.
#[verifier::external_body]
fn compress(block: &[u32], bits: u8) -> (r: Vec<u8>)
    requires
        block@.len() == BLOCK_LEN,
        bits <= 32,
        fits_in(block@, bits as nat),
    ensures
        r@.len() == 16 * bits,
        unpacked(r@, bits) == block@,
{
    let mut out = vec![0u8; BitPacker4x::compressed_block_size(bits)];
    BitPacker4x::new().compress(block, &mut out, bits);
    out
}

/// Relies on `BitPacker4x::decompress`: reads the 128 values packed in
/// `BLOCK_LEN * bits / 8` bytes.
#[verifier::external_body]
fn decompress(bytes: &[u8], bits: u8) -> (r: Vec<u32>)
    requires
        bits <= 32,
        bytes@.len() == 16 * bits,
    ensures
        r@ == unpacked(bytes@, bits),
        r@.len() == BLOCK_LEN,
{
    let mut out = vec![0u32; BitPacker4x::BLOCK_LEN];
    BitPacker4x::new().decompress(bytes, &mut out, bits);
    out
}

/// Byte where block `b` starts in the stream, the blocks before it having the
/// bit widths `bits[0 .. b]`.
pub open spec fn bits_start(bits: Seq<u8>, b: int) -> nat
    decreases b,
{
    if b <= 0 {
        0
    } else {
        (bits_start(bits, b - 1) + 16 * bits[b - 1]) as nat
    }
}

/// The number of long-skip entries recorded at the end of `skip`.
pub open spec fn skip_count(skip: Seq<u8>) -> int {
    spec_u32_from_le_bytes(skip.subrange(skip.len() - 4, skip.len() as int)) as int
}

/// The number of blocks that `skip` describes.
pub open spec fn skip_blocks(skip: Seq<u8>) -> int {
    skip.len() - 4 - 8 * skip_count(skip)
}

/// Long-skip entry `j`: the byte where block `1024 * (j + 1)` starts.
pub open spec fn long_skip_at(skip: Seq<u8>, j: int) -> u64 {
    let at = skip_blocks(skip) + 8 * j;
    spec_u64_from_le_bytes(skip.subrange(at, at + 8))
}

/// `stream` and `skip` agree: the skip stream's tail is consistent, each bit
/// width is at most 32, the blocks fit in the stream, and each long-skip entry
/// gives the start of its block.
pub open spec fn positions_wf(stream: Seq<u8>, skip: Seq<u8>) -> bool {
    &&& skip.len() >= 4
    &&& skip_blocks(skip) >= 1024 * skip_count(skip)
    &&& forall|b: int| 0 <= b < skip_blocks(skip) ==> #[trigger] skip[b] <= 32
    &&& bits_start(skip, skip_blocks(skip)) <= stream.len()
    &&& forall|j: int| 0 <= j < skip_count(skip) ==> #[trigger] long_skip_at(skip, j) == bits_start(skip, 1024 * (j + 1))
}

/// The number of positions the streams hold, padding included.
pub open spec fn num_positions(skip: Seq<u8>) -> int {
    128 * skip_blocks(skip)
}

/// Position `p` as the streams give it.
pub open spec fn position_at(stream: Seq<u8>, skip: Seq<u8>, p: int) -> u32 {
    let b = p / 128;
    let start = bits_start(skip, b) as int;
    unpacked(stream.subrange(start, start + 16 * skip[b]), skip[b])[p % 128]
}

/// The streams hold the positions `vals`, in order, from position zero.
pub open spec fn stores(stream: Seq<u8>, skip: Seq<u8>, vals: Seq<u32>) -> bool {
    &&& positions_wf(stream, skip)
    &&& vals.len() <= num_positions(skip)
    &&& forall|p: int| 0 <= p < vals.len() ==> #[trigger] position_at(stream, skip, p) == vals[p]
}

/// Block starts depend only on the widths of the blocks before.
proof fn lemma_bits_start_prefix(a: Seq<u8>, c: Seq<u8>, b: int)
    requires
        0 <= b <= a.len(),
        b <= c.len(),
        forall|k: int| 0 <= k < b ==> a[k] == c[k],
    ensures
        bits_start(a, b) == bits_start(c, b),
    decreases b,
{
    if b > 0 {
        lemma_bits_start_prefix(a, c, b - 1);
    }
}

/// Block starts never decrease.
proof fn lemma_bits_start_mono(bits: Seq<u8>, k: int, m: int)
    requires
        0 <= k <= m,
    ensures
        bits_start(bits, k) <= bits_start(bits, m),
    decreases m - k,
{
    if k < m {
        lemma_bits_start_mono(bits, k, m - 1);
    }
}

/// `stream` holds one block for each width in `bits`, the blocks reading
/// back as `vals`.
pub open spec fn blocks_stored(stream: Seq<u8>, bits: Seq<u8>, vals: Seq<u32>) -> bool {
    &&& vals.len() == 128 * bits.len()
    &&& stream.len() == bits_start(bits, bits.len() as int)
    &&& blocks_match(stream, bits, vals)
}

/// Each width is the least for its 128 values of `vals`, and each block of
/// `stream` reads back as those values.
#[verifier::opaque]
pub open spec fn blocks_match(stream: Seq<u8>, bits: Seq<u8>, vals: Seq<u32>) -> bool {
    &&& forall|b: int| 0 <= b < bits.len() ==> #[trigger] bits[b] <= 32
    &&& forall|b: int| 0 <= b < bits.len() ==> least_width(vals.subrange(128 * b, 128 * b + 128), #[trigger] bits[b])
    &&& forall|b: int|
        0 <= b < bits.len() ==> unpacked(
            stream.subrange(bits_start(bits, b) as int, bits_start(bits, b) + 16 * bits[b]),
            #[trigger] bits[b],
        ) == vals.subrange(128 * b, 128 * b + 128)
}

/// At most one entry per 1024 blocks, each where its block starts.
pub open spec fn long_skips_ok(long_skips: Seq<u64>, bits: Seq<u8>) -> bool {
    &&& 1024 * long_skips.len() <= bits.len()
    &&& long_skips_match(long_skips, bits)
}

/// Entry `j` of `long_skips` is where block `1024 * (j + 1)` starts.
#[verifier::opaque]
pub open spec fn long_skips_match(long_skips: Seq<u64>, bits: Seq<u8>) -> bool {
    &&& forall|j: int| 0 <= j < long_skips.len() ==> #[trigger] long_skips[j] == bits_start(bits, 1024 * (j + 1))
}

/// A long-skip entry is due after a block exactly when the block is full and
/// brings the block count to a multiple of 1024.
proof fn lemma_long_skip_due(n: int, f: int, nb: int)
    requires
        f == 128 * nb,
        f < n <= f + 128,
        nb >= 0,
    ensures
        n % 131072 == 0 <==> (n == f + 128 && (nb + 1) % 1024 == 0),
{
    if n < f + 128 {
        assert(n % 128 != 0) by (nonlinear_arith)
            requires f == 128 * nb, f < n, n < f + 128;
        assert(n % 131072 != 0) by (nonlinear_arith)
            requires n % 128 != 0;
    } else {
        assert(n % 131072 == 0 <==> (nb + 1) % 1024 == 0) by (nonlinear_arith)
            requires n == 128 * (nb + 1), nb >= 0;
    }
}

/// Entries stay right when a block is added.
proof fn lemma_long_skips_grow(ls: Seq<u64>, bits: Seq<u8>, nb: u8)
    requires
        long_skips_ok(ls, bits),
    ensures
        long_skips_ok(ls, bits.push(nb)),
{
    reveal(long_skips_match);
    assert forall|j: int| 0 <= j < ls.len() implies #[trigger] ls[j] == bits_start(bits.push(nb), 1024 * (j + 1)) by {
        lemma_bits_start_prefix(bits.push(nb), bits, 1024 * (j + 1));
    }
}

/// Where the added block brings the count to the next multiple of 1024, the
/// stream length is the next entry.
proof fn lemma_long_skips_record(ls: Seq<u64>, bits: Seq<u8>, nb: u8, len: nat)
    requires
        long_skips_ok(ls, bits),
        ls.len() == bits.len() / 1024,
        (bits.len() + 1) % 1024 == 0,
        len == bits_start(bits.push(nb), bits.len() + 1int),
    ensures
        len <= u64::MAX ==> long_skips_ok(ls.push(len as u64), bits.push(nb)),
        ls.push(len as u64).len() == (bits.len() + 1) / 1024,
{
    reveal(long_skips_match);
    lemma_long_skips_grow(ls, bits, nb);
    reveal(long_skips_match);
    let ls2 = ls.push(len as u64);
    assert(1024 * ls.len() + 1024 == bits.len() + 1);
}

/// Appending a packed block keeps the stream and its widths in step.
proof fn lemma_push_block(stream: Seq<u8>, bits: Seq<u8>, vals: Seq<u32>, packed: Seq<u8>, nb: u8, block: Seq<u32>)
    requires
        blocks_stored(stream, bits, vals),
        packed.len() == 16 * nb,
        nb <= 32,
        unpacked(packed, nb) == block,
        block.len() == 128,
        least_width(block, nb),
    ensures
        blocks_stored(stream + packed, bits.push(nb), vals + block),
        forall|k: int| 0 <= k <= bits.len() ==> bits_start(#[trigger] bits.push(nb), k) == bits_start(bits, k),
{
    reveal(blocks_match);
    let bits2 = bits.push(nb);
    let stream2 = stream + packed;
    let vals2 = vals + block;
    let n = bits.len() as int;
    assert forall|k: int| 0 <= k <= n implies bits_start(#[trigger] bits.push(nb), k) == bits_start(bits, k) by {
        lemma_bits_start_prefix(bits2, bits, k);
    }
    assert(bits_start(bits2, n) == bits_start(bits, n));
    assert(bits_start(bits2, n + 1) == stream.len() + 16 * nb);
    assert forall|b: int| 0 <= b < bits2.len() implies least_width(vals2.subrange(128 * b, 128 * b + 128), #[trigger] bits2[b]) by {
        if b < n {
            assert(bits[b] == bits2[b]);
            assert(128 * b + 128 <= 128 * n);
            assert(vals2.subrange(128 * b, 128 * b + 128) =~= vals.subrange(128 * b, 128 * b + 128));
        } else {
            assert(vals2.subrange(128 * b, 128 * b + 128) =~= block);
        }
    }
    assert forall|b: int| 0 <= b < bits2.len() implies unpacked(
        stream2.subrange(bits_start(bits2, b) as int, bits_start(bits2, b) + 16 * bits2[b]),
        #[trigger] bits2[b],
    ) == vals2.subrange(128 * b, 128 * b + 128) by {
        if b < n {
            assert(bits[b] == bits2[b]);
            lemma_bits_start_prefix(bits2, bits, b);
            lemma_bits_start_mono(bits, b + 1, n);
            assert(stream2.subrange(bits_start(bits2, b) as int, bits_start(bits2, b) + 16 * bits2[b])
                =~= stream.subrange(bits_start(bits, b) as int, bits_start(bits, b) + 16 * bits[b]));
            assert(128 * b + 128 <= 128 * n);
            assert(vals2.subrange(128 * b, 128 * b + 128) =~= vals.subrange(128 * b, 128 * b + 128));
        } else {
            assert(stream2.subrange(stream.len() as int, stream.len() + 16 * nb) =~= packed);
            assert(vals2.subrange(128 * b, 128 * b + 128) =~= block);
        }
    }
}

/// Writes positions into a stream of bit-packed blocks and its skip stream.
pub struct PositionSerializer {
    stream: Vec<u8>,
    bits: Vec<u8>,
    long_skips: Vec<u64>,
    block: Vec<u32>,
    num_ints: u64,
    flushed: Ghost<Seq<u32>>,
}

impl PositionSerializer {
    /// The positions written so far.
    pub closed spec fn values(&self) -> Seq<u32> {
        self.flushed@ + self.block@
    }

    pub closed spec fn wf(&self) -> bool {
        &&& blocks_stored(self.stream@, self.bits@, self.flushed@)
        &&& long_skips_ok(self.long_skips@, self.bits@)
        &&& self.long_skips@.len() == self.bits@.len() / 1024
        &&& self.block@.len() < BLOCK_LEN
        &&& self.num_ints == self.flushed@.len() + self.block@.len()
    }

    pub fn new() -> (r: PositionSerializer)
        ensures
            r.wf(),
            r.values() == Seq::<u32>::empty(),
    {
        let r = PositionSerializer {
            stream: Vec::new(),
            bits: Vec::new(),
            long_skips: Vec::new(),
            block: Vec::with_capacity(BLOCK_LEN),
            num_ints: 0,
            flushed: Ghost(Seq::empty()),
        };
        assert(r.values() =~= Seq::<u32>::empty());
        proof {
            reveal(blocks_match);
            reveal(long_skips_match);
        }
        r
    }

    /// The number of positions written so far.
    pub fn positions_idx(&self) -> (r: u64)
        requires
            self.wf(),
        ensures
            r == self.values().len(),
    {
        self.num_ints
    }

    /// Writes one position; a full block is packed into the stream.
    pub fn write(&mut self, val: u32)
        requires
            old(self).wf(),
            old(self).values().len() < u64::MAX,
        ensures
            final(self).wf(),
            final(self).values() == old(self).values().push(val),
    {
        self.block.push(val);
        self.num_ints = self.num_ints + 1;
        assert(self.values() =~= old(self).values().push(val));
        if self.block.len() == BLOCK_LEN {
            self.flush_block();
        }
    }

    /// Packs the full block into the stream, records its width, and every
    /// `LONG_SKIP_INTERVAL` positions records where the stream has come to.
    #[verifier::rlimit(50)]
    fn flush_block(&mut self)
        requires
            blocks_stored(old(self).stream@, old(self).bits@, old(self).flushed@),
            long_skips_ok(old(self).long_skips@, old(self).bits@),
            old(self).long_skips@.len() == old(self).bits@.len() / 1024,
            old(self).block@.len() == BLOCK_LEN,
            old(self).flushed@.len() < old(self).num_ints <= old(self).flushed@.len() + BLOCK_LEN,
        ensures
            blocks_stored(final(self).stream@, final(self).bits@, final(self).flushed@),
            long_skips_ok(final(self).long_skips@, final(self).bits@),
            old(self).num_ints == old(self).flushed@.len() + BLOCK_LEN ==> final(self).long_skips@.len()
                == final(self).bits@.len() / 1024,
            final(self).flushed@ == old(self).flushed@ + old(self).block@,
            final(self).bits@.len() == old(self).bits@.len() + 1,
            final(self).block@ == Seq::<u32>::empty(),
            final(self).num_ints == old(self).num_ints,
            old(self).num_ints < old(self).flushed@.len() + BLOCK_LEN ==> final(self).long_skips@
                == old(self).long_skips@,
    {
        let ghost old_bits = self.bits@;
        let ghost nb_blocks = self.bits@.len() as int;
        let nb = num_bits(self.block.as_slice());
        let mut payload = compress(self.block.as_slice(), nb);
        let ghost packed = payload@;
        let ghost start = self.stream@.len();
        self.stream.append(&mut payload);
        self.bits.push(nb);
        self.flushed = Ghost(self.flushed@ + self.block@);
        proof {
            lemma_push_block(old(self).stream@, old_bits, old(self).flushed@, packed, nb, old(self).block@);
            lemma_long_skips_grow(old(self).long_skips@, old_bits, nb);
            lemma_long_skip_due(self.num_ints as int, old(self).flushed@.len() as int, nb_blocks);
        }
        self.block.clear();
        if self.num_ints % LONG_SKIP_INTERVAL == 0 {
            proof {
                lemma_long_skips_record(old(self).long_skips@, old_bits, nb, self.stream@.len());
            }
            self.long_skips.push(self.stream.len() as u64);
        }
    }

    /// Pads the last block with zeros and packs it, and returns the stream and
    /// the skip stream: the block widths, the long-skip entries as
    /// little-endian `u64`, and their count as a little-endian `u32`.
    pub fn close(self) -> (r: (Vec<u8>, Vec<u8>))
        requires
            self.wf(),
            self.values().len() / 131072 <= u32::MAX,
        ensures
            stores(r.0@, r.1@, self.values()),
            forall|b: int| 0 <= b < skip_blocks(r.1@) ==> least_width(padded_block(self.values(), b), #[trigger] r.1@[b]),
    {
        let ghost vals = self.values();
        let mut this = self;
        proof {
            lemma_count_fits(this.bits@.len() as int, vals.len() as int);
        }
        let ghost full_count = this.long_skips@.len();
        if this.block.len() > 0 {
            let ghost partial = this.block@;
            while this.block.len() < BLOCK_LEN
                invariant
                    blocks_stored(this.stream@, this.bits@, this.flushed@),
                    long_skips_ok(this.long_skips@, this.bits@),
                    this.long_skips@.len() == this.bits@.len() / 1024,
                    this.long_skips@.len() == full_count,
                    this.num_ints == this.flushed@.len() + partial.len(),
                    0 < partial.len() < BLOCK_LEN,
                    vals == this.flushed@ + partial,
                    this.block@.len() <= BLOCK_LEN,
                    this.block@.take(partial.len() as int) == partial,
                    partial.len() <= this.block@.len(),
                    forall|i: int| partial.len() <= i < this.block@.len() ==> #[trigger] this.block@[i] == 0,
                decreases BLOCK_LEN - this.block@.len(),
            {
                this.block.push(0);
                assert(this.block@.take(partial.len() as int) =~= partial);
            }
            this.flush_block();
            proof {
                assert forall|p: int| 0 <= p < vals.len() implies #[trigger] vals[p] == this.flushed@[p] by {
                }
            }
        }
        assert(forall|p: int| vals.len() <= p < this.flushed@.len() ==> #[trigger] this.flushed@[p] == 0);
        let n = this.bits.len();
        let mut skip: Vec<u8> = Vec::new();
        let mut k: usize = 0;
        while k < n
            invariant
                n == this.bits@.len(),
                k <= n,
                skip@ == this.bits@.take(k as int),
            decreases n - k,
        {
            skip.push(this.bits[k]);
            assert(this.bits@.take(k + 1) =~= this.bits@.take(k as int).push(this.bits@[k as int]));
            k = k + 1;
        }
        assert(this.bits@.take(n as int) =~= this.bits@);
        let count = this.long_skips.len();
        assert(count == full_count);
        let mut j: usize = 0;
        while j < count
            invariant
                count == this.long_skips@.len(),
                j <= count,
                skip@ == this.bits@ + le64_concat(this.long_skips@.take(j as int)),
            decreases count - j,
        {
            let mut entry = u64_to_le_bytes(this.long_skips[j]);
            skip.append(&mut entry);
            proof {
                let t = this.long_skips@.take(j + 1);
                assert(t.drop_last() =~= this.long_skips@.take(j as int));
            }
            j = j + 1;
        }
        assert(this.long_skips@.take(count as int) =~= this.long_skips@);
        let mut tail = u32_to_le_bytes(count as u32);
        skip.append(&mut tail);
        proof {
            lemma_close_stores(this.stream@, this.bits@, this.long_skips@, this.flushed@, vals, skip@);
            lemma_close_widths(this.stream@, this.bits@, this.flushed@, vals, skip@);
        }
        (this.stream, skip)
    }
}

/// Whole blocks of `v` positions give at most `v / LONG_SKIP_INTERVAL` long skips.
proof fn lemma_count_fits(blocks: int, v: int)
    requires
        0 <= blocks,
        128 * blocks <= v,
    ensures
        blocks / 1024 <= v / 131072,
{
    assert(blocks / 1024 <= v / 131072) by (nonlinear_arith)
        requires 0 <= blocks, 128 * blocks <= v;
}

/// The long-skip entries as little-endian `u64`, one after the other.
pub open spec fn le64_concat(ls: Seq<u64>) -> Seq<u8>
    decreases ls.len(),
{
    if ls.len() == 0 {
        Seq::empty()
    } else {
        le64_concat(ls.drop_last()) + spec_u64_to_le_bytes(ls.last())
    }
}

/// Entry `j` stands at bytes `8 * j .. 8 * j + 8`.
proof fn lemma_le64_concat(ls: Seq<u64>, j: int)
    requires
        0 <= j < ls.len(),
    ensures
        le64_concat(ls).len() == 8 * ls.len(),
        le64_concat(ls).subrange(8 * j, 8 * j + 8) == spec_u64_to_le_bytes(ls[j]),
    decreases ls.len(),
{
    lemma_auto_spec_u64_to_from_le_bytes();
    lemma_le64_len(ls);
    let init = ls.drop_last();
    lemma_le64_len(init);
    if j < ls.len() - 1 {
        lemma_le64_concat(init, j);
        assert(le64_concat(ls).subrange(8 * j, 8 * j + 8) =~= le64_concat(init).subrange(8 * j, 8 * j + 8));
    } else {
        assert(le64_concat(ls).subrange(8 * j, 8 * j + 8) =~= spec_u64_to_le_bytes(ls.last()));
    }
}

proof fn lemma_le64_len(ls: Seq<u64>)
    ensures
        le64_concat(ls).len() == 8 * ls.len(),
    decreases ls.len(),
{
    lemma_auto_spec_u64_to_from_le_bytes();
    if ls.len() > 0 {
        lemma_le64_len(ls.drop_last());
    }
}

/// What the blocks of `stream` say of block `b`.
proof fn lemma_block_at(stream: Seq<u8>, bits: Seq<u8>, vals: Seq<u32>, b: int)
    requires
        blocks_match(stream, bits, vals),
        0 <= b < bits.len(),
    ensures
        bits[b] <= 32,
        least_width(vals.subrange(128 * b, 128 * b + 128), bits[b]),
        unpacked(stream.subrange(bits_start(bits, b) as int, bits_start(bits, b) + 16 * bits[b]), bits[b])
            == vals.subrange(128 * b, 128 * b + 128),
{
    reveal(blocks_match);
}

/// Each width in the skip stream `close` returns is the least for its block
/// of the positions written, padded with zeros.
proof fn lemma_close_widths(stream: Seq<u8>, bits: Seq<u8>, flushed: Seq<u32>, vals: Seq<u32>, skip: Seq<u8>)
    requires
        blocks_stored(stream, bits, flushed),
        vals.len() <= flushed.len(),
        forall|p: int| 0 <= p < vals.len() ==> #[trigger] vals[p] == flushed[p],
        forall|p: int| vals.len() <= p < flushed.len() ==> #[trigger] flushed[p] == 0,
        skip_blocks(skip) == bits.len(),
        forall|b: int| 0 <= b < bits.len() ==> skip[b] == #[trigger] bits[b],
    ensures
        forall|b: int| 0 <= b < skip_blocks(skip) ==> least_width(padded_block(vals, b), #[trigger] skip[b]),
{
    assert forall|b: int| 0 <= b < skip_blocks(skip) implies least_width(padded_block(vals, b), #[trigger] skip[b]) by {
        assert(skip[b] == bits[b]);
        lemma_block_at(stream, bits, flushed, b);
        assert(128 * b + 128 <= flushed.len());
        assert forall|i: int| 0 <= i < 128 implies flushed.subrange(128 * b, 128 * b + 128)[i] == #[trigger] padded_block(vals, b)[i] by {
            let idx = 128 * b + i;
            if idx < vals.len() {
                assert(vals[idx] == flushed[idx]);
            } else {
                assert(flushed[idx] == 0);
            }
        }
        assert(flushed.subrange(128 * b, 128 * b + 128) =~= padded_block(vals, b));
    }
}

/// The streams `close` returns hold the positions written.
#[verifier::rlimit(50)]
proof fn lemma_close_stores(
    stream: Seq<u8>,
    bits: Seq<u8>,
    long_skips: Seq<u64>,
    flushed: Seq<u32>,
    vals: Seq<u32>,
    skip: Seq<u8>,
)
    requires
        blocks_stored(stream, bits, flushed),
        long_skips_ok(long_skips, bits),
        long_skips.len() <= u32::MAX,
        vals.len() <= flushed.len(),
        forall|p: int| 0 <= p < vals.len() ==> #[trigger] vals[p] == flushed[p],
        skip == bits + le64_concat(long_skips) + spec_u32_to_le_bytes(long_skips.len() as u32),
    ensures
        stores(stream, skip, vals),
        skip_blocks(skip) == bits.len(),
        forall|b: int| 0 <= b < bits.len() ==> skip[b] == #[trigger] bits[b],
{
    reveal(long_skips_match);
    lemma_auto_spec_u32_to_from_le_bytes();
    lemma_auto_spec_u64_to_from_le_bytes();
    lemma_le64_len(long_skips);
    let n = bits.len() as int;
    let l = long_skips.len() as int;
    assert(skip.subrange(skip.len() - 4, skip.len() as int) =~= spec_u32_to_le_bytes(long_skips.len() as u32));
    assert(skip_count(skip) == l);
    assert(skip_blocks(skip) == n);
    assert forall|k: int| 0 <= k <= n implies bits_start(skip, k) == #[trigger] bits_start(bits, k) by {
        lemma_bits_start_prefix(skip, bits, k);
    }
    assert forall|b: int| 0 <= b < skip_blocks(skip) implies #[trigger] skip[b] <= 32 by {
        assert(skip[b] == bits[b]);
        lemma_block_at(stream, bits, flushed, b);
    }
    assert forall|j: int| 0 <= j < skip_count(skip) implies #[trigger] long_skip_at(skip, j) == bits_start(skip, 1024 * (j + 1)) by {
        lemma_le64_concat(long_skips, j);
        assert(skip.subrange(n + 8 * j, n + 8 * j + 8) =~= le64_concat(long_skips).subrange(8 * j, 8 * j + 8));
        assert(1024 * (j + 1) <= n);
    }
    assert forall|p: int| 0 <= p < vals.len() implies #[trigger] position_at(stream, skip, p) == vals[p] by {
        let b = p / 128;
        assert(0 <= b < n);
        assert(skip[b] == bits[b]);
        assert(bits_start(skip, b) == bits_start(bits, b));
        lemma_block_at(stream, bits, flushed, b);
        assert(unpacked(stream.subrange(bits_start(bits, b) as int, bits_start(bits, b) + 16 * bits[b]), bits[b])
            == flushed.subrange(128 * b, 128 * b + 128));
        assert(flushed.subrange(128 * b, 128 * b + 128)[p % 128] == flushed[p]);
    }
}

/// Streams that store `vals` give back every one of them from position zero:
/// a reader opened at offset zero and reading `vals.len()` positions returns
/// `vals` exactly.
pub proof fn lemma_positions_round_trip(stream: Seq<u8>, skip: Seq<u8>, vals: Seq<u32>)
    requires
        stores(stream, skip, vals),
    ensures
        positions_wf(stream, skip),
        vals.len() <= num_positions(skip),
        Seq::new(vals.len(), |i: int| position_at(stream, skip, i)) == vals,
{
    assert(Seq::new(vals.len(), |i: int| position_at(stream, skip, i)) =~= vals);
}

/// From any offset `o` inside the stored positions, the `k` positions that
/// follow (as long as they are stored) are `vals[o .. o + k]`.
pub proof fn lemma_positions_random_access(stream: Seq<u8>, skip: Seq<u8>, vals: Seq<u32>, o: int, k: int)
    requires
        stores(stream, skip, vals),
        0 <= o,
        0 <= k,
        o + k <= vals.len(),
    ensures
        o + k <= num_positions(skip),
        Seq::new(k as nat, |i: int| position_at(stream, skip, o + i)) == vals.subrange(o, o + k),
{
    assert(Seq::new(k as nat, |i: int| position_at(stream, skip, o + i)) =~= vals.subrange(o, o + k));
}

/// The slices that a sequence of steps reads, from position `start` on: each
/// step `(true, n)` reads `n` positions, each `(false, n)` skips `n`.
pub open spec fn interleaved_reads(stream: Seq<u8>, skip: Seq<u8>, steps: Seq<(bool, nat)>, start: int) -> Seq<
    Seq<u32>,
>
    decreases steps.len(),
{
    if steps.len() == 0 {
        Seq::empty()
    } else {
        let (is_read, n) = steps[0];
        let rest = interleaved_reads(stream, skip, steps.drop_first(), start + n);
        if is_read {
            seq![Seq::new(n, |i: int| position_at(stream, skip, start + i))] + rest
        } else {
            rest
        }
    }
}

/// The same steps taken on `vals` itself.
pub open spec fn interleaved_slices(vals: Seq<u32>, steps: Seq<(bool, nat)>, start: int) -> Seq<Seq<u32>>
    decreases steps.len(),
{
    if steps.len() == 0 {
        Seq::empty()
    } else {
        let (is_read, n) = steps[0];
        let rest = interleaved_slices(vals, steps.drop_first(), start + n);
        if is_read {
            seq![vals.subrange(start, start + n)] + rest
        } else {
            rest
        }
    }
}

/// The total length of the steps.
pub open spec fn steps_len(steps: Seq<(bool, nat)>) -> int
    decreases steps.len(),
{
    if steps.len() == 0 {
        0
    } else {
        steps[0].1 + steps_len(steps.drop_first())
    }
}

proof fn lemma_steps_len_nonneg(steps: Seq<(bool, nat)>)
    ensures
        steps_len(steps) >= 0,
    decreases steps.len(),
{
    if steps.len() > 0 {
        lemma_steps_len_nonneg(steps.drop_first());
    }
}

/// Any interleaving of reads and skips that stays inside the stored positions
/// reads exactly the matching slices of `vals`.
pub proof fn lemma_positions_interleaving(
    stream: Seq<u8>,
    skip: Seq<u8>,
    vals: Seq<u32>,
    steps: Seq<(bool, nat)>,
    start: int,
)
    requires
        stores(stream, skip, vals),
        0 <= start,
        start + steps_len(steps) <= vals.len(),
    ensures
        interleaved_reads(stream, skip, steps, start) == interleaved_slices(vals, steps, start),
    decreases steps.len(),
{
    if steps.len() > 0 {
        let (is_read, n) = steps[0];
        lemma_steps_len_nonneg(steps.drop_first());
        lemma_positions_interleaving(stream, skip, vals, steps.drop_first(), start + n);
        if is_read {
            lemma_positions_random_access(stream, skip, vals, start, n as int);
        }
    }
}

/// Reads positions at random offsets from a stream and its skip stream.
pub struct PositionReader {
    stream: Vec<u8>,
    skip: Vec<u8>,
    num_blocks: usize,
    num_long_skips: usize,
    position: u64,
    buffer: Vec<u32>,
    buffered: Option<usize>,
    cur_block: usize,
    cur_start: usize,
}

impl PositionReader {
    pub closed spec fn stream(&self) -> Seq<u8> {
        self.stream@
    }

    pub closed spec fn skip_stream(&self) -> Seq<u8> {
        self.skip@
    }

    /// The index of the next position to read.
    pub closed spec fn position(&self) -> int {
        self.position as int
    }

    pub closed spec fn wf(&self) -> bool {
        &&& positions_wf(self.stream@, self.skip@)
        &&& self.num_blocks == skip_blocks(self.skip@)
        &&& self.num_long_skips == skip_count(self.skip@)
        &&& self.stream@.len() <= usize::MAX
        &&& self.skip@.len() <= usize::MAX
        &&& self.cur_block <= self.num_blocks
        &&& self.cur_start == bits_start(self.skip@, self.cur_block as int)
        &&& self.buffered matches Some(b) ==> {
            &&& b < self.num_blocks
            &&& self.buffer@ == unpacked(
                self.stream@.subrange(bits_start(self.skip@, b as int) as int, bits_start(self.skip@, b as int) + 16 * self.skip@[b as int]),
                self.skip@[b as int],
            )
            &&& self.buffer@.len() == BLOCK_LEN
        }
    }

    /// A reader whose first read starts at position index `offset`.
    pub fn new(stream: Vec<u8>, skip: Vec<u8>, offset: u64) -> (r: PositionReader)
        requires
            positions_wf(stream@, skip@),
        ensures
            r.wf(),
            r.stream() == stream@,
            r.skip_stream() == skip@,
            r.position() == offset,
    {
        let len = skip.len();
        let _ = stream.len();
        let count = u32_from_le_bytes(&skip.as_slice()[len - 4..len]) as usize;
        let num_blocks = len - 4 - 8 * count;
        PositionReader {
            stream,
            skip,
            num_blocks,
            num_long_skips: count,
            position: offset,
            buffer: Vec::new(),
            buffered: None,
            cur_block: 0,
            cur_start: 0,
        }
    }

    /// Long-skip entry `j`.
    fn long_skip(&self, j: usize) -> (r: u64)
        requires
            self.wf(),
            j < self.num_long_skips,
        ensures
            r == long_skip_at(self.skip@, j as int),
    {
        let ghost skip = self.skip@;
        assert(skip.len() == skip_blocks(skip) + 8 * skip_count(skip) + 4);
        let at = self.num_blocks + 8 * j;
        u64_from_le_bytes(&self.skip.as_slice()[at..at + 8])
    }

    /// Moves the block cursor to block `b` and returns where it starts,
    /// jumping by the long-skip table when that shortens the walk.
    fn locate(&mut self, b: usize) -> (r: usize)
        requires
            old(self).wf(),
            b < old(self).num_blocks,
        ensures
            final(self).wf(),
            r == bits_start(old(self).skip@, b as int),
            final(self).stream@ == old(self).stream@,
            final(self).skip@ == old(self).skip@,
            final(self).position == old(self).position,
            final(self).buffered == old(self).buffered,
            final(self).buffer@ == old(self).buffer@,
    {
        let j = b / LONG_SKIP_IN_BLOCKS;
        let anchor = if j < self.num_long_skips { j } else { self.num_long_skips };
        if b < self.cur_block || anchor * LONG_SKIP_IN_BLOCKS > self.cur_block {
            if anchor > 0 {
                let start = self.long_skip(anchor - 1);
                proof {
                    assert(long_skip_at(self.skip@, anchor - 1) == bits_start(self.skip@, 1024 * (anchor - 1 + 1)));
                    lemma_bits_start_mono(self.skip@, 1024 * anchor as int, self.num_blocks as int);
                }
                self.cur_block = anchor * LONG_SKIP_IN_BLOCKS;
                self.cur_start = start as usize;
            } else {
                self.cur_block = 0;
                self.cur_start = 0;
            }
        }
        while self.cur_block < b
            invariant
                self.wf(),
                b < self.num_blocks,
                self.cur_block <= b,
                self.stream@ == old(self).stream@,
                self.skip@ == old(self).skip@,
                self.position == old(self).position,
                self.buffered == old(self).buffered,
                self.buffer@ == old(self).buffer@,
            decreases b - self.cur_block,
        {
            proof {
                lemma_bits_start_mono(self.skip@, self.cur_block + 1, self.num_blocks as int);
            }
            self.cur_start = self.cur_start + 16 * self.skip[self.cur_block] as usize;
            self.cur_block = self.cur_block + 1;
        }
        self.cur_start
    }

    /// Decodes block `b` into the buffer.
    fn load(&mut self, b: usize)
        requires
            old(self).wf(),
            b < old(self).num_blocks,
        ensures
            final(self).wf(),
            final(self).buffered == Some(b),
            final(self).stream@ == old(self).stream@,
            final(self).skip@ == old(self).skip@,
            final(self).position == old(self).position,
    {
        let start = self.locate(b);
        let nb = self.skip[b];
        proof {
            lemma_bits_start_mono(self.skip@, b + 1, self.num_blocks as int);
        }
        let block = decompress(&self.stream.as_slice()[start..start + 16 * nb as usize], nb);
        self.buffer = block;
        self.buffered = Some(b);
    }

    /// Fills `output` with the positions from the current one on, and moves
    /// past them.
    pub fn read(&mut self, output: &mut [u32])
        requires
            old(self).wf(),
            old(self).position() + old(output)@.len() <= num_positions(old(self).skip_stream()),
            old(self).position() + old(output)@.len() <= u64::MAX,
        ensures
            final(self).wf(),
            final(self).stream() == old(self).stream(),
            final(self).skip_stream() == old(self).skip_stream(),
            final(self).position() == old(self).position() + old(output)@.len(),
            final(output)@.len() == old(output)@.len(),
            forall|i: int|
                0 <= i < final(output)@.len() ==> final(output)@[i] == position_at(
                    old(self).stream(),
                    old(self).skip_stream(),
                    old(self).position() + i,
                ),
    {
        let n = output.len();
        let mut i: usize = 0;
        while i < n
            invariant
                self.wf(),
                n == output@.len(),
                i <= n,
                self.stream@ == old(self).stream@,
                self.skip@ == old(self).skip@,
                self.position == old(self).position + i,
                old(self).position() + n <= num_positions(old(self).skip_stream()),
                old(self).position() + n <= u64::MAX,
                forall|k: int| 0 <= k < i ==> output@[k] == position_at(
                    old(self).stream(),
                    old(self).skip_stream(),
                    old(self).position() + k,
                ),
            decreases n - i,
        {
            let p = self.position;
            let b = (p / 128) as usize;
            if self.buffered != Some(b) {
                self.load(b);
            }
            output[i] = self.buffer[(p % 128) as usize];
            self.position = p + 1;
            i = i + 1;
        }
    }

    /// Moves `n` positions forward without decoding them.
    pub fn skip(&mut self, n: u64)
        requires
            old(self).wf(),
            old(self).position() + n <= u64::MAX,
        ensures
            final(self).wf(),
            final(self).stream() == old(self).stream(),
            final(self).skip_stream() == old(self).skip_stream(),
            final(self).position() == old(self).position() + n,
    {
        self.position = self.position + n;
    }
}

} // verus!
