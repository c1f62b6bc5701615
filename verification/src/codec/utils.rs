//! Byte-level helpers of the codec: big-endian integers, the delta
//! encoding of indexes and the packed hop byte.

use vstd::prelude::*;

use crate::codec::section::prefix_result;
use crate::codec::CodecError;

verus! {

/// Big-endian bytes of a `u16`.
pub open spec fn be16(v: u16) -> Seq<u8> {
    seq![(v >> 8u16) as u8, (v & 0xffu16) as u8]
}

/// The `u16` whose big-endian bytes are `b0 b1`.
pub open spec fn be16_value(b0: u8, b1: u8) -> u16 {
    (((b0 as u16) << 8u16) | (b1 as u16)) as u16
}

pub proof fn lemma_be16_round_trip(v: u16)
    ensures
        be16_value(be16(v)[0], be16(v)[1]) == v,
{
    let b0 = (v >> 8u16) as u8;
    let b1 = (v & 0xffu16) as u8;
    assert((((((v >> 8u16) as u8) as u16) << 8u16) | (((v & 0xffu16) as u8) as u16)) == v)
        by (bit_vector);
}

/// Builds a `u16` from its big-endian bytes.
pub fn u16_from_be(b0: u8, b1: u8) -> (v: u16)
    ensures
        v == be16_value(b0, b1),
{
    ((b0 as u16) << 8u16) | (b1 as u16)
}

/// Appends the big-endian bytes of `v`.
pub fn push_u16_be(buf: &mut Vec<u8>, v: u16)
    ensures
        final(buf)@ == old(buf)@ + be16(v),
{
    buf.push((v >> 8u16) as u8);
    buf.push((v & 0xffu16) as u8);
    assert(final(buf)@ =~= old(buf)@ + be16(v));
}


/// Big-endian bytes of a `u32`.
pub open spec fn be32(v: u32) -> Seq<u8> {
    seq![(v >> 24u32) as u8, ((v >> 16u32) & 0xffu32) as u8, ((v >> 8u32) & 0xffu32) as u8, (v & 0xffu32) as u8]
}

/// The `u32` whose big-endian bytes are `b0 b1 b2 b3`.
pub open spec fn be32_value(b0: u8, b1: u8, b2: u8, b3: u8) -> u32 {
    (((b0 as u32) << 24u32) | ((b1 as u32) << 16u32) | ((b2 as u32) << 8u32) | (b3 as u32)) as u32
}

pub proof fn lemma_be32_round_trip(v: u32)
    ensures
        be32_value(be32(v)[0], be32(v)[1], be32(v)[2], be32(v)[3]) == v,
{
    assert(((((v >> 24u32) as u8) as u32) << 24u32 | ((((v >> 16u32) & 0xffu32) as u8) as u32) << 16u32
        | ((((v >> 8u32) & 0xffu32) as u8) as u32) << 8u32 | (((v & 0xffu32) as u8) as u32)) == v)
        by (bit_vector);
}

/// Big-endian bytes of a `u64`.
pub open spec fn be64(v: u64) -> Seq<u8> {
    seq![
        (v >> 56u64) as u8,
        ((v >> 48u64) & 0xffu64) as u8,
        ((v >> 40u64) & 0xffu64) as u8,
        ((v >> 32u64) & 0xffu64) as u8,
        ((v >> 24u64) & 0xffu64) as u8,
        ((v >> 16u64) & 0xffu64) as u8,
        ((v >> 8u64) & 0xffu64) as u8,
        (v & 0xffu64) as u8,
    ]
}

/// The `u64` whose big-endian bytes are the first eight of `b`.
pub open spec fn be64_value(b: Seq<u8>) -> u64 {
    (((b[0] as u64) << 56u64) | ((b[1] as u64) << 48u64) | ((b[2] as u64) << 40u64) | ((b[3] as u64)
        << 32u64) | ((b[4] as u64) << 24u64) | ((b[5] as u64) << 16u64) | ((b[6] as u64) << 8u64)
        | (b[7] as u64)) as u64
}

pub proof fn lemma_be64_round_trip(v: u64)
    ensures
        be64_value(be64(v)) == v,
{
    let b = be64(v);
    assert(((((v >> 56u64) as u8) as u64) << 56u64 | ((((v >> 48u64) & 0xffu64) as u8) as u64) << 48u64
        | ((((v >> 40u64) & 0xffu64) as u8) as u64) << 40u64 | ((((v >> 32u64) & 0xffu64) as u8) as u64)
        << 32u64 | ((((v >> 24u64) & 0xffu64) as u8) as u64) << 24u64 | ((((v >> 16u64) & 0xffu64) as u8)
        as u64) << 16u64 | ((((v >> 8u64) & 0xffu64) as u8) as u64) << 8u64 | (((v & 0xffu64) as u8)
        as u64)) == v) by (bit_vector);
}

/// Builds a `u32` from its big-endian bytes.
pub fn u32_from_be(b0: u8, b1: u8, b2: u8, b3: u8) -> (v: u32)
    ensures
        v == be32_value(b0, b1, b2, b3),
{
    ((b0 as u32) << 24u32) | ((b1 as u32) << 16u32) | ((b2 as u32) << 8u32) | (b3 as u32)
}

/// Appends the big-endian bytes of `v`.
pub fn push_u32_be(buf: &mut Vec<u8>, v: u32)
    ensures
        final(buf)@ == old(buf)@ + be32(v),
{
    buf.push((v >> 24u32) as u8);
    buf.push(((v >> 16u32) & 0xffu32) as u8);
    buf.push(((v >> 8u32) & 0xffu32) as u8);
    buf.push((v & 0xffu32) as u8);
    assert(final(buf)@ =~= old(buf)@ + be32(v));
}

/// Appends the big-endian bytes of `v`.
pub fn push_u64_be(buf: &mut Vec<u8>, v: u64)
    ensures
        final(buf)@ == old(buf)@ + be64(v),
{
    buf.push((v >> 56u64) as u8);
    buf.push(((v >> 48u64) & 0xffu64) as u8);
    buf.push(((v >> 40u64) & 0xffu64) as u8);
    buf.push(((v >> 32u64) & 0xffu64) as u8);
    buf.push(((v >> 24u64) & 0xffu64) as u8);
    buf.push(((v >> 16u64) & 0xffu64) as u8);
    buf.push(((v >> 8u64) & 0xffu64) as u8);
    buf.push((v & 0xffu64) as u8);
    assert(final(buf)@ =~= old(buf)@ + be64(v));
}

/// Appends every byte of `bytes`, in order.
pub fn push_bytes(buf: &mut Vec<u8>, bytes: &[u8])
    ensures
        final(buf)@ == old(buf)@ + bytes@,
{
    let n = bytes.len();
    for i in 0..n
        invariant
            n == bytes@.len(),
            buf@ == old(buf)@ + bytes@.take(i as int),
    {
        buf.push(bytes[i]);
        assert(bytes@.take(i + 1) =~= bytes@.take(i as int).push(bytes@[i as int]));
    }
    assert(bytes@.take(n as int) =~= bytes@);
}

/// What reading one byte from the front of `s` gives.
pub open spec fn spec_read_u8(s: Seq<u8>) -> Result<(u8, Seq<u8>), CodecError> {
    if s.len() < 1 {
        Err(CodecError::Short)
    } else {
        Ok((s[0], s.skip(1)))
    }
}

/// What reading a big-endian `u16` from the front of `s` gives.
pub open spec fn spec_read_u16(s: Seq<u8>) -> Result<(u16, Seq<u8>), CodecError> {
    if s.len() < 2 {
        Err(CodecError::Short)
    } else {
        Ok((be16_value(s[0], s[1]), s.skip(2)))
    }
}

/// What reading a big-endian `u32` from the front of `s` gives.
pub open spec fn spec_read_u32(s: Seq<u8>) -> Result<(u32, Seq<u8>), CodecError> {
    if s.len() < 4 {
        Err(CodecError::Short)
    } else {
        Ok((be32_value(s[0], s[1], s[2], s[3]), s.skip(4)))
    }
}

/// What reading a big-endian `u64` from the front of `s` gives.
pub open spec fn spec_read_u64(s: Seq<u8>) -> Result<(u64, Seq<u8>), CodecError> {
    if s.len() < 8 {
        Err(CodecError::Short)
    } else {
        Ok((be64_value(s), s.skip(8)))
    }
}

/// What reading `n` raw bytes from the front of `s` gives.
pub open spec fn spec_read_bytes(s: Seq<u8>, n: nat) -> Result<(Seq<u8>, Seq<u8>), CodecError> {
    if s.len() < n {
        Err(CodecError::Short)
    } else {
        Ok((s.take(n as int), s.skip(n as int)))
    }
}

/// Reads one byte from the front of `buf` and advances `buf` past it.
pub fn read_u8(buf: &mut &[u8]) -> (r: Result<u8, CodecError>)
    ensures
        match (r, spec_read_u8(old(buf)@)) {
            (Ok(v), Ok((sv, rest))) => v == sv && final(buf)@ == rest,
            (Err(e), Err(se)) => e == se && final(buf)@ == old(buf)@,
            _ => false,
        },
{
    let s: &[u8] = *buf;
    if s.len() < 1 {
        return Err(CodecError::Short);
    }
    let v = s[0];
    let (_, rest) = s.split_at(1);
    *buf = rest;
    Ok(v)
}


/// Reads a big-endian `u16` from the front of `buf` and advances `buf`
/// past it.
pub fn read_u16_be(buf: &mut &[u8]) -> (r: Result<u16, CodecError>)
    ensures
        match (r, spec_read_u16(old(buf)@)) {
            (Ok(v), Ok((sv, rest))) => v == sv && final(buf)@ == rest,
            (Err(e), Err(se)) => e == se && final(buf)@ == old(buf)@,
            _ => false,
        },
{
    let s: &[u8] = *buf;
    if s.len() < 2 {
        return Err(CodecError::Short);
    }
    let v = u16_from_be(s[0], s[1]);
    let (_, rest) = s.split_at(2);
    *buf = rest;
    Ok(v)
}

/// Reads a big-endian `u32` from the front of `buf` and advances `buf`
/// past it.
pub fn read_u32_be(buf: &mut &[u8]) -> (r: Result<u32, CodecError>)
    ensures
        match (r, spec_read_u32(old(buf)@)) {
            (Ok(v), Ok((sv, rest))) => v == sv && final(buf)@ == rest,
            (Err(e), Err(se)) => e == se && final(buf)@ == old(buf)@,
            _ => false,
        },
{
    let s: &[u8] = *buf;
    if s.len() < 4 {
        return Err(CodecError::Short);
    }
    let v = u32_from_be(s[0], s[1], s[2], s[3]);
    let (_, rest) = s.split_at(4);
    *buf = rest;
    Ok(v)
}

/// Reads a big-endian `u64` from the front of `buf` and advances `buf`
/// past it.
pub fn read_u64_be(buf: &mut &[u8]) -> (r: Result<u64, CodecError>)
    ensures
        match (r, spec_read_u64(old(buf)@)) {
            (Ok(v), Ok((sv, rest))) => v == sv && final(buf)@ == rest,
            (Err(e), Err(se)) => e == se && final(buf)@ == old(buf)@,
            _ => false,
        },
{
    let s: &[u8] = *buf;
    if s.len() < 8 {
        return Err(CodecError::Short);
    }
    let v = ((s[0] as u64) << 56u64) | ((s[1] as u64) << 48u64) | ((s[2] as u64) << 40u64) | ((
    s[3] as u64) << 32u64) | ((s[4] as u64) << 24u64) | ((s[5] as u64) << 16u64) | ((s[6] as u64)
        << 8u64) | (s[7] as u64);
    let (_, rest) = s.split_at(8);
    *buf = rest;
    Ok(v)
}

/// Reads `N` raw bytes from the front of `buf` and advances `buf` past
/// them.
pub fn read_array<const N: usize>(buf: &mut &[u8]) -> (r: Result<[u8; N], CodecError>)
    ensures
        match (r, spec_read_bytes(old(buf)@, N as nat)) {
            (Ok(a), Ok((sv, rest))) => a@ == sv && final(buf)@ == rest,
            (Err(e), Err(se)) => e == se && final(buf)@ == old(buf)@,
            _ => false,
        },
{
    let s: &[u8] = *buf;
    if s.len() < N {
        return Err(CodecError::Short);
    }
    let mut out = [0u8; N];
    for i in 0..N
        invariant
            N <= s@.len(),
            out@.len() == N,
            forall|j: int| 0 <= j < i ==> out@[j] == s@[j],
    {
        out[i] = s[i];
    }
    assert(out@ =~= s@.take(N as int));
    let (_, rest) = s.split_at(N);
    *buf = rest;
    Ok(out)
}

/// The distance from `cursor` forward to `i`, modulo 2^16.
pub open spec fn idx_gap(i: u16, cursor: u16) -> int {
    if i >= cursor {
        i - cursor
    } else {
        i - cursor + 0x10000
    }
}

/// The bytes one index is written as, relative to the running cursor:
/// a single byte `0x01..=0xFF` for a small forward gap, else the escape
/// byte `0x00` followed by the absolute index.
pub open spec fn idx_bytes(i: u16, cursor: u16) -> Seq<u8> {
    if 1 <= idx_gap(i, cursor) <= 255 {
        seq![idx_gap(i, cursor) as u8]
    } else {
        seq![0u8] + be16(i)
    }
}

/// What reading one delta-encoded index from the front of `s` gives,
/// relative to `cursor`.
pub open spec fn spec_decode_idx(s: Seq<u8>, cursor: u16) -> Result<(u16, Seq<u8>), CodecError> {
    if s.len() < 1 {
        Err(CodecError::Short)
    } else if s[0] == 0 {
        if s.len() < 3 {
            Err(CodecError::Short)
        } else {
            Ok((be16_value(s[1], s[2]), s.skip(3)))
        }
    } else {
        Ok((((cursor + s[0]) % 0x10000) as u16, s.skip(1)))
    }
}

/// The cursor in force before the `k`-th index of a section: the index
/// before it, or zero for the first.
pub open spec fn prev_index(idxs: Seq<u16>, k: int) -> u16 {
    if k <= 0 {
        0
    } else {
        idxs[k - 1]
    }
}

/// The bytes a whole section of indexes is written as.
pub open spec fn indexes_bytes(idxs: Seq<u16>) -> Seq<u8>
    decreases idxs.len(),
{
    if idxs.len() == 0 {
        seq![]
    } else {
        indexes_bytes(idxs.drop_last()) + idx_bytes(idxs.last(), prev_index(idxs, idxs.len() - 1))
    }
}

/// What reading `n` delta-encoded indexes from the front of `s` gives,
/// starting from a zero cursor.
pub open spec fn spec_decode_n_indexes(s: Seq<u8>, n: nat) -> Result<(Seq<u16>, Seq<u8>), CodecError>
    decreases n,
{
    if n == 0 {
        Ok((seq![], s))
    } else {
        match spec_decode_n_indexes(s, (n - 1) as nat) {
            Err(e) => Err(e),
            Ok((idxs, rest)) => match spec_decode_idx(rest, prev_index(idxs, idxs.len() as int)) {
                Err(e) => Err(e),
                Ok((i, rest2)) => Ok((idxs.push(i), rest2)),
            },
        }
    }
}

/// Writes `i` relative to the running cursor and moves the cursor to `i`.
pub fn encode_idx(i: u16, cursor: &mut u16, res: &mut Vec<u8>)
    ensures
        final(res)@ == old(res)@ + idx_bytes(i, *old(cursor)),
        *final(cursor) == i,
{
    let gap = i.wrapping_sub(*cursor);
    if gap >= 1 && gap <= 255 {
        res.push(gap as u8);
    } else {
        res.push(0x00);
        push_u16_be(res, i);
    }
    *cursor = i;
    assert(final(res)@ =~= old(res)@ + idx_bytes(i, *old(cursor)));
}

/// Writes a section of indexes, each relative to the one before it
/// (the first relative to zero).
pub fn encode_indexes(sorted_idx: &[u16], res: &mut Vec<u8>)
    ensures
        final(res)@ == old(res)@ + indexes_bytes(sorted_idx@),
{
    let mut cursor: u16 = 0;
    let n = sorted_idx.len();
    for k in 0..n
        invariant
            n == sorted_idx@.len(),
            cursor == prev_index(sorted_idx@, k as int),
            res@ == old(res)@ + indexes_bytes(sorted_idx@.take(k as int)),
    {
        let ghost before = res@;
        encode_idx(sorted_idx[k], &mut cursor, res);
        let ghost t = sorted_idx@.take(k + 1);
        assert(t.drop_last() =~= sorted_idx@.take(k as int));
        assert(prev_index(t, t.len() - 1) == prev_index(sorted_idx@, k as int));
        assert(res@ =~= old(res)@ + indexes_bytes(t));
    }
    assert(sorted_idx@.take(n as int) =~= sorted_idx@);
}

/// Reads one delta-encoded index from the front of `buf`, advances `buf`
/// past it (one byte for a small delta, three for an escape) and moves
/// `cursor` to the resolved absolute index, which is also returned. On
/// error neither `buf` nor `cursor` moves.
pub fn decode_indexes(buf: &mut &[u8], cursor: &mut u16) -> (r: Result<u16, CodecError>)
    ensures
        match (r, spec_decode_idx(old(buf)@, *old(cursor))) {
            (Ok(v), Ok((sv, rest))) => v == sv && final(buf)@ == rest && *final(cursor) == v,
            (Err(e), Err(se)) => e == se && final(buf)@ == old(buf)@ && *final(cursor) == *old(
                cursor,
            ),
            _ => false,
        },
{
    let s: &[u8] = *buf;
    if s.len() < 1 {
        return Err(CodecError::Short);
    }
    let initial_byte = s[0];
    if initial_byte == 0x00 {
        if s.len() < 3 {
            return Err(CodecError::Short);
        }
        *cursor = u16_from_be(s[1], s[2]);
        let (_, rest) = s.split_at(3);
        *buf = rest;
    } else {
        *cursor = cursor.wrapping_add(initial_byte as u16);
        let (_, rest) = s.split_at(1);
        *buf = rest;
    }
    Ok(*cursor)
}

/// The hop byte: bits 0..=5 carry the hop count, bit 7 the local-only
/// flag, bit 6 is reserved and written as zero.
pub open spec fn hop_byte(hop_count: u8, local_only: bool) -> u8 {
    ((if local_only { 0x80u8 } else { 0u8 }) | (hop_count & 0x3fu8)) as u8
}

/// Packs the hop count (kept to its low six bits) and the local-only flag
/// into one byte.
pub fn fill_hop_bytes(hop_count: u8, local_only: bool) -> (b: u8)
    ensures
        b == hop_byte(hop_count, local_only),
{
    let initial_bits = hop_count & 0b0011_1111u8;
    let final_bit: u8 = if local_only { 0x80 } else { 0 };
    final_bit | initial_bits
}

/// Splits a hop byte into the hop count (bits 0..=5) and the local-only
/// flag (bit 7); the reserved bit 6 is ignored.
pub fn unpack_hop_byte(byte: u8) -> (r: (u8, bool))
    ensures
        r == ((byte & 0x3fu8) as u8, byte & 0x80u8 != 0),
{
    let hop_count = byte & 0b0011_1111u8;
    let local_only = (byte & 0b1000_0000u8) != 0;
    (hop_count, local_only)
}

/// A hop count that fits in six bits comes back unchanged from the hop
/// byte, and so does the flag.
pub proof fn lemma_hop_byte_round_trip(hop_count: u8, local_only: bool)
    requires
        hop_count < 64,
    ensures
        hop_byte(hop_count, local_only) & 0x3fu8 == hop_count,
        (hop_byte(hop_count, local_only) & 0x80u8 != 0) == local_only,
{
    if local_only {
        assert(hop_count < 64 ==> (0x80u8 | (hop_count & 0x3fu8)) & 0x3fu8 == hop_count
            && (0x80u8 | (hop_count & 0x3fu8)) & 0x80u8 != 0) by (bit_vector);
    } else {
        assert(hop_count < 64 ==> (0u8 | (hop_count & 0x3fu8)) & 0x3fu8 == hop_count
            && (0u8 | (hop_count & 0x3fu8)) & 0x80u8 == 0) by (bit_vector);
    }
}

/// Reading one index back from its bytes, from the same cursor, gives the
/// index and the bytes after it.
pub proof fn lemma_idx_round_trip(i: u16, cursor: u16, rest: Seq<u8>)
    ensures
        spec_decode_idx(idx_bytes(i, cursor) + rest, cursor) == Ok::<(u16, Seq<u8>), CodecError>(
            (i, rest),
        ),
{
    let s = idx_bytes(i, cursor) + rest;
    if 1 <= idx_gap(i, cursor) <= 255 {
        assert(s[0] == idx_gap(i, cursor) as u8);
        assert(s.skip(1) =~= rest);
    } else {
        lemma_be16_round_trip(i);
        assert(s[1] == be16(i)[0]);
        assert(s[2] == be16(i)[1]);
        assert(s.skip(3) =~= rest);
    }
}

/// What is left of a written section once its first `k` indexes are
/// read.
pub open spec fn indexes_after(idxs: Seq<u16>, k: int) -> Seq<u8> {
    indexes_bytes(idxs).skip(indexes_bytes(idxs.take(k)).len() as int)
}

/// The bytes of the first `k` indexes of a section begin the bytes of
/// the whole section.
proof fn lemma_indexes_prefix(idxs: Seq<u16>, k: int)
    requires
        0 <= k <= idxs.len(),
    ensures
        indexes_bytes(idxs.take(k)).len() <= indexes_bytes(idxs).len(),
        indexes_bytes(idxs).take(indexes_bytes(idxs.take(k)).len() as int) == indexes_bytes(idxs.take(k)),
    decreases idxs.len(),
{
    if k == idxs.len() {
        assert(idxs.take(k) =~= idxs);
        assert(indexes_bytes(idxs).take(indexes_bytes(idxs).len() as int) =~= indexes_bytes(idxs));
    } else {
        let init = idxs.drop_last();
        lemma_indexes_prefix(init, k);
        assert(init.take(k) =~= idxs.take(k));
        let b = indexes_bytes(idxs);
        let bi = indexes_bytes(init);
        assert(b == bi + idx_bytes(idxs.last(), prev_index(idxs, idxs.len() - 1)));
        assert(b.take(indexes_bytes(idxs.take(k)).len() as int) =~= bi.take(indexes_bytes(idxs.take(k)).len() as int));
    }
}

/// Reading a written section one index at a time: started on the bytes
/// `encode_indexes` wrote for `idxs` with a zero cursor, the `k`-th call
/// of `decode_indexes` reads `idxs[k]`, leaves the bytes after it and the
/// cursor at it; after the last index nothing is left.
pub proof fn lemma_decode_indexes_one_by_one(idxs: Seq<u16>, k: int)
    requires
        0 <= k < idxs.len(),
    ensures
        indexes_after(idxs, 0) == indexes_bytes(idxs),
        prev_index(idxs, 0) == 0,
        spec_decode_idx(indexes_after(idxs, k), prev_index(idxs, k)) == Ok::<(u16, Seq<u8>), CodecError>(
            (idxs[k], indexes_after(idxs, k + 1)),
        ),
        prev_index(idxs, k + 1) == idxs[k],
        indexes_after(idxs, idxs.len() as int).len() == 0,
{
    assert(idxs.take(0) =~= Seq::<u16>::empty());
    assert(indexes_bytes(idxs).skip(0) =~= indexes_bytes(idxs));
    assert(idxs.take(idxs.len() as int) =~= idxs);
    let t1 = idxs.take(k + 1);
    assert(t1.drop_last() =~= idxs.take(k));
    assert(prev_index(t1, t1.len() - 1) == prev_index(idxs, k));
    let bk = indexes_bytes(idxs.take(k));
    let step = idx_bytes(idxs[k], prev_index(idxs, k));
    assert(indexes_bytes(t1) == bk + step);
    lemma_indexes_prefix(idxs, k + 1);
    let b = indexes_bytes(idxs);
    let lk = bk.len() as int;
    let l1 = lk + step.len();
    assert(b.take(l1) =~= bk + step);
    assert(b.skip(lk) =~= step + b.skip(l1)) by {
        assert forall|j: int| 0 <= j < b.skip(lk).len() implies b.skip(lk)[j] == (step + b.skip(l1))[j] by {
            if j < step.len() {
                assert(b.take(l1)[lk + j] == (bk + step)[lk + j]);
            }
        }
    }
    lemma_idx_round_trip(idxs[k], prev_index(idxs, k), b.skip(l1));
}

/// Reading a whole section of indexes back from its bytes gives the
/// section and the bytes after it.
pub proof fn lemma_indexes_round_trip(idxs: Seq<u16>, rest: Seq<u8>)
    ensures
        spec_decode_n_indexes(indexes_bytes(idxs) + rest, idxs.len()) == Ok::<
            (Seq<u16>, Seq<u8>),
            CodecError,
        >((idxs, rest)),
    decreases idxs.len(),
{
    if idxs.len() > 0 {
        let init = idxs.drop_last();
        let last_bytes = idx_bytes(idxs.last(), prev_index(idxs, idxs.len() - 1));
        assert(indexes_bytes(idxs) + rest =~= indexes_bytes(init) + (last_bytes + rest));
        lemma_indexes_round_trip(init, last_bytes + rest);
        assert(prev_index(init, init.len() as int) == prev_index(idxs, idxs.len() - 1));
        lemma_idx_round_trip(idxs.last(), prev_index(idxs, idxs.len() - 1), rest);
        assert(init.push(idxs.last()) =~= idxs);
        assert((idxs.len() - 1) as nat == init.len());
    } else {
        assert(idxs =~= seq![]);
    }
}


/// Reading a byte from the first `k` bytes: the same byte, or `Short`.
pub proof fn lemma_read_u8_prefix(s: Seq<u8>, k: nat)
    requires
        k <= s.len(),
    ensures
        prefix_result(spec_read_u8(s), s.len(), k, spec_read_u8(s.take(k as int))),
{
    if s.len() >= 1 && k >= 1 {
        assert(s.take(k as int).skip(1) =~= s.skip(1).take(k - 1));
    }
}

/// Reading a `u16` from the first `k` bytes: the same value, or `Short`.
pub proof fn lemma_read_u16_prefix(s: Seq<u8>, k: nat)
    requires
        k <= s.len(),
    ensures
        prefix_result(spec_read_u16(s), s.len(), k, spec_read_u16(s.take(k as int))),
{
    if s.len() >= 2 && k >= 2 {
        assert(s.take(k as int).skip(2) =~= s.skip(2).take(k - 2));
    }
}

/// Reading a `u32` from the first `k` bytes: the same value, or `Short`.
pub proof fn lemma_read_u32_prefix(s: Seq<u8>, k: nat)
    requires
        k <= s.len(),
    ensures
        prefix_result(spec_read_u32(s), s.len(), k, spec_read_u32(s.take(k as int))),
{
    if s.len() >= 4 && k >= 4 {
        assert(s.take(k as int).skip(4) =~= s.skip(4).take(k - 4));
    }
}

/// Reading `n` raw bytes from the first `k` bytes: the same bytes, or
/// `Short`.
pub proof fn lemma_read_bytes_prefix(s: Seq<u8>, n: nat, k: nat)
    requires
        k <= s.len(),
    ensures
        prefix_result(spec_read_bytes(s, n), s.len(), k, spec_read_bytes(s.take(k as int), n)),
{
    if s.len() >= n && k >= n {
        assert(s.take(k as int).skip(n as int) =~= s.skip(n as int).take(k - n));
        assert(s.take(k as int).take(n as int) =~= s.take(n as int));
    }
}

/// Reading an index from the first `k` bytes: the same index, or `Short`.
pub proof fn lemma_decode_idx_prefix(s: Seq<u8>, cursor: u16, k: nat)
    requires
        k <= s.len(),
    ensures
        prefix_result(spec_decode_idx(s, cursor), s.len(), k, spec_decode_idx(s.take(k as int), cursor)),
{
    let t = s.take(k as int);
    if s.len() >= 1 && k >= 1 {
        assert(t[0] == s[0]);
        if s[0] == 0 {
            if s.len() >= 3 && k >= 3 {
                assert(t[1] == s[1] && t[2] == s[2]);
                assert(t.skip(3) =~= s.skip(3).take(k - 3));
            }
        } else {
            assert(t.skip(1) =~= s.skip(1).take(k - 1));
        }
    }
}


/// Reading a `u64` from the first `k` bytes: the same value, or `Short`.
pub proof fn lemma_read_u64_prefix(s: Seq<u8>, k: nat)
    requires
        k <= s.len(),
    ensures
        prefix_result(spec_read_u64(s), s.len(), k, spec_read_u64(s.take(k as int))),
{
    if s.len() >= 8 && k >= 8 {
        assert(s.take(k as int).skip(8) =~= s.skip(8).take(k - 8));
        assert(s.take(k as int).take(8) =~= s.take(8));
        assert(be64_value(s.take(k as int)) == be64_value(s)) by {
            assert(s.take(k as int)[0] == s[0] && s.take(k as int)[1] == s[1] && s.take(k as int)[2] == s[2]
                && s.take(k as int)[3] == s[3] && s.take(k as int)[4] == s[4] && s.take(k as int)[5] == s[5]
                && s.take(k as int)[6] == s[6] && s.take(k as int)[7] == s[7]);
        }
    }
}

} // verus!
