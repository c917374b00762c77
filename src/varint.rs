//! Variable-width integers: seven data bits per byte, least significant group
//! first, with the high bit set on the final byte.
use vstd::prelude::*;
use crate::error::StoreError;

verus! {

/// The bytes that encode `v`.
pub open spec fn vint_encoding(v: nat) -> Seq<u8>
    decreases v,
{
    if v < 128 {
        seq![(v + 128) as u8]
    } else {
        seq![(v % 128) as u8] + vint_encoding(v / 128)
    }
}

/// Value and byte length of the varint that starts at `pos` in `s`, or `None`
/// when `s` ends before its final byte.
pub open spec fn vint_parse(s: Seq<u8>, pos: int) -> Option<(nat, nat)>
    decreases s.len() - pos,
{
    if pos < 0 || pos >= s.len() {
        None
    } else if s[pos] >= 128 {
        Some(((s[pos] - 128) as nat, 1nat))
    } else {
        match vint_parse(s, pos + 1) {
            Some((v, n)) => Some(((s[pos] + 128 * v) as nat, n + 1)),
            None => None,
        }
    }
}

/// Reading a `u64` varint at `pos`: the value and the number of bytes it took.
pub open spec fn vint_read(s: Seq<u8>, pos: int) -> Result<(u64, nat), StoreError> {
    match vint_parse(s, pos) {
        None => Err(StoreError::Truncated),
        Some((v, n)) => if v <= u64::MAX {
            Ok((v as u64, n))
        } else {
            Err(StoreError::InvalidData)
        },
    }
}

/// A varint written at `pos` reads back as the value it encodes.
pub proof fn lemma_vint_round_trip(v: nat, s: Seq<u8>, pos: int)
    requires
        0 <= pos,
        pos + vint_encoding(v).len() <= s.len(),
        s.subrange(pos, pos + vint_encoding(v).len()) == vint_encoding(v),
    ensures
        vint_parse(s, pos) == Some((v, vint_encoding(v).len())),
    decreases v,
{
    let e = vint_encoding(v);
    assert(s[pos] == s.subrange(pos, pos + e.len())[0]);
    if v >= 128 {
        let t = vint_encoding(v / 128);
        assert(s.subrange(pos + 1, pos + 1 + t.len()) =~= s.subrange(pos, pos + e.len()).subrange(1, e.len() as int));
        assert(e.subrange(1, e.len() as int) =~= t);
        lemma_vint_round_trip(v / 128, s, pos + 1);
    }
}

/// Every encoding is at least one byte long.
pub proof fn lemma_vint_encoding_nonempty(v: nat)
    ensures
        vint_encoding(v).len() >= 1,
    decreases v,
{
    if v >= 128 {
        lemma_vint_encoding_nonempty(v / 128);
    }
}

/// Bytes below 128 from `j` up to `t` continue one varint.
proof fn lemma_vint_parse_continues(s: Seq<u8>, j: int, t: int)
    requires
        0 <= j <= t <= s.len(),
        forall|k: int| j <= k < t ==> s[k] < 128,
    ensures
        vint_parse(s, j) is None <==> vint_parse(s, t) is None,
    decreases t - j,
{
    if j < t {
        lemma_vint_parse_continues(s, j + 1, t);
    }
}

/// Appends the encoding of `v` to `buf`.
pub fn serialize_vint(v: u64, buf: &mut Vec<u8>)
    ensures
        final(buf)@ == old(buf)@ + vint_encoding(v as nat),
{
    let mut rest: u64 = v;
    loop
        invariant
            old(buf)@ + vint_encoding(v as nat) == buf@ + vint_encoding(rest as nat),
        decreases rest,
    {
        if rest < 128 {
            buf.push((rest + 128) as u8);
            assert(old(buf)@ + vint_encoding(v as nat) =~= buf@);
            return;
        }
        let ghost before = buf@;
        buf.push((rest % 128) as u8);
        assert(before + vint_encoding(rest as nat) =~= buf@ + vint_encoding((rest / 128) as nat));
        rest = rest / 128;
    }
}

/// Reads the varint that starts at `*pos` and moves `*pos` past it.
pub fn deserialize_vint(data: &[u8], pos: &mut usize) -> (r: Result<u64, StoreError>)
    requires
        *old(pos) <= data@.len(),
    ensures
        match vint_read(data@, *old(pos) as int) {
            Ok((v, n)) => r == Ok::<u64, StoreError>(v) && *final(pos) == *old(pos) + n,
            Err(e) => r == Err::<u64, StoreError>(e) && *final(pos) == *old(pos),
        },
        *final(pos) <= data@.len(),
{
    let start = *pos;
    let mut t: usize = start;
    while t < data.len() && data[t] < 128
        invariant
            start <= t <= data@.len(),
            forall|k: int| start <= k < t ==> data@[k] < 128,
        decreases data@.len() - t,
    {
        t = t + 1;
    }
    proof {
        lemma_vint_parse_continues(data@, start as int, t as int);
    }
    if t == data.len() {
        return Err(StoreError::Truncated);
    }
    let mut acc: u64 = (data[t] - 128) as u64;
    let mut j: usize = t;
    let mut overflow = false;
    while j > start
        invariant
            start <= j <= t < data@.len(),
            forall|k: int| start <= k < t ==> data@[k] < 128,
            data@[t as int] >= 128,
            !overflow ==> vint_parse(data@, j as int) == Some((acc as nat, (t - j + 1) as nat)),
            overflow ==> (vint_parse(data@, j as int) is Some && vint_parse(data@, j as int).unwrap().0 > u64::MAX),
        decreases j,
    {
        let low = data[j - 1] as u64;
        proof {
            assert(vint_parse(data@, j - 1) == match vint_parse(data@, j as int) {
                Some((v, n)) => Some(((data@[j - 1] + 128 * v) as nat, n + 1)),
                None => None,
            });
        }
        if !overflow {
            if acc > (u64::MAX - low) / 128 {
                overflow = true;
            } else {
                acc = low + 128 * acc;
            }
        }
        j = j - 1;
    }
    if overflow {
        return Err(StoreError::InvalidData);
    }
    *pos = t + 1;
    Ok(acc)
}

} // verus!
