//! Big-endian encodings of integers and of integer arrays.
use vstd::prelude::*;

verus! {

/// The four big-endian bytes of `v`.
pub open spec fn spec_u32_to_bytes(v: u32) -> Seq<u8> {
    seq![(v >> 24u32) as u8, (v >> 16u32) as u8, (v >> 8u32) as u8, v as u8]
}

/// The `u32` whose big-endian bytes start `b`.
pub open spec fn spec_bytes_to_u32(b: Seq<u8>) -> u32 {
    ((b[0] as u32) << 24u32) | ((b[1] as u32) << 16u32) | ((b[2] as u32) << 8u32) | (b[3] as u32)
}

/// The four big-endian bytes of the two's-complement form of `v`.
pub open spec fn spec_i32_to_bytes(v: i32) -> Seq<u8> {
    spec_u32_to_bytes(v as u32)
}

/// The `i32` whose big-endian two's-complement bytes start `b`.
pub open spec fn spec_bytes_to_i32(b: Seq<u8>) -> i32 {
    spec_bytes_to_u32(b) as i32
}

/// The eight big-endian bytes of `v`.
pub open spec fn spec_u64_to_bytes(v: u64) -> Seq<u8> {
    seq![
        (v >> 56u64) as u8,
        (v >> 48u64) as u8,
        (v >> 40u64) as u8,
        (v >> 32u64) as u8,
        (v >> 24u64) as u8,
        (v >> 16u64) as u8,
        (v >> 8u64) as u8,
        v as u8,
    ]
}

/// The `u64` whose big-endian bytes start `b`.
pub open spec fn spec_bytes_to_u64(b: Seq<u8>) -> u64 {
    ((b[0] as u64) << 56u64) | ((b[1] as u64) << 48u64) | ((b[2] as u64) << 40u64) | ((
    b[3] as u64) << 32u64) | ((b[4] as u64) << 24u64) | ((b[5] as u64) << 16u64) | ((
    b[6] as u64) << 8u64) | (b[7] as u64)
}

/// The bytes of a sequence of `i32`s, each in big-endian order, one after the other.
pub open spec fn spec_i32s_to_bytes(s: Seq<i32>) -> Seq<u8> {
    Seq::new(4 * s.len(), |j: int| spec_i32_to_bytes(s[j / 4])[j % 4])
}

/// The bytes of a sequence of `u32`s, each in big-endian order, one after the other.
pub open spec fn spec_u32s_to_bytes(s: Seq<u32>) -> Seq<u8> {
    Seq::new(4 * s.len(), |j: int| spec_u32_to_bytes(s[j / 4])[j % 4])
}

/// The bytes of a sequence of `u64`s, each in big-endian order, one after the other.
pub open spec fn spec_u64s_to_bytes(s: Seq<u64>) -> Seq<u8> {
    Seq::new(8 * s.len(), |j: int| spec_u64_to_bytes(s[j / 8])[j % 8])
}

/// The `i32`s of every whole group of four bytes of `b`; a shorter tail is dropped.
pub open spec fn spec_bytes_to_i32s(b: Seq<u8>) -> Seq<i32> {
    Seq::new(b.len() / 4, |i: int| spec_bytes_to_i32(b.subrange(4 * i, 4 * i + 4)))
}

/// The `u32`s of every whole group of four bytes of `b`; a shorter tail is dropped.
pub open spec fn spec_bytes_to_u32s(b: Seq<u8>) -> Seq<u32> {
    Seq::new(b.len() / 4, |i: int| spec_bytes_to_u32(b.subrange(4 * i, 4 * i + 4)))
}

/// The `u64`s of every whole group of eight bytes of `b`; a shorter tail is dropped.
pub open spec fn spec_bytes_to_u64s(b: Seq<u8>) -> Seq<u64> {
    Seq::new(b.len() / 8, |i: int| spec_bytes_to_u64(b.subrange(8 * i, 8 * i + 8)))
}

/// Decoding the bytes of a `u32` gives the `u32` back.
pub proof fn lemma_u32_bytes_roundtrip(v: u32)
    ensures
        spec_u32_to_bytes(v).len() == 4,
        spec_bytes_to_u32(spec_u32_to_bytes(v)) == v,
{
    let b = spec_u32_to_bytes(v);
    let (b0, b1, b2, b3) = (b[0], b[1], b[2], b[3]);
    assert(b0 == (v >> 24u32) as u8 && b1 == (v >> 16u32) as u8 && b2 == (v >> 8u32) as u8 && b3
        == v as u8);
    assert((((v >> 24u32) as u8) as u32) << 24u32 | (((v >> 16u32) as u8) as u32) << 16u32 | (((v
        >> 8u32) as u8) as u32) << 8u32 | ((v as u8) as u32) == v) by (bit_vector);
}

/// Encoding the `u32` that four bytes decode to gives those bytes back.
pub proof fn lemma_bytes_u32_roundtrip(b: Seq<u8>)
    requires
        b.len() == 4,
    ensures
        spec_u32_to_bytes(spec_bytes_to_u32(b)) == b,
{
    let (b0, b1, b2, b3) = (b[0], b[1], b[2], b[3]);
    let v = spec_bytes_to_u32(b);
    assert(v == (b0 as u32) << 24u32 | (b1 as u32) << 16u32 | (b2 as u32) << 8u32 | (b3 as u32));
    assert(((((b0 as u32) << 24u32 | (b1 as u32) << 16u32 | (b2 as u32) << 8u32 | (b3 as u32))
        >> 24u32) as u8) == b0) by (bit_vector);
    assert(((((b0 as u32) << 24u32 | (b1 as u32) << 16u32 | (b2 as u32) << 8u32 | (b3 as u32))
        >> 16u32) as u8) == b1) by (bit_vector);
    assert(((((b0 as u32) << 24u32 | (b1 as u32) << 16u32 | (b2 as u32) << 8u32 | (b3 as u32))
        >> 8u32) as u8) == b2) by (bit_vector);
    assert((((b0 as u32) << 24u32 | (b1 as u32) << 16u32 | (b2 as u32) << 8u32 | (b3 as u32))
        as u8) == b3) by (bit_vector);
    assert(spec_u32_to_bytes(v) =~= b);
}

/// Decoding the bytes of an `i32` gives the `i32` back.
pub proof fn lemma_i32_bytes_roundtrip(v: i32)
    ensures
        spec_i32_to_bytes(v).len() == 4,
        spec_bytes_to_i32(spec_i32_to_bytes(v)) == v,
{
    lemma_u32_bytes_roundtrip(v as u32);
    assert(((v as u32) as i32) == v) by (bit_vector);
}

/// Encoding the `i32` that four bytes decode to gives those bytes back.
pub proof fn lemma_bytes_i32_roundtrip(b: Seq<u8>)
    requires
        b.len() == 4,
    ensures
        spec_i32_to_bytes(spec_bytes_to_i32(b)) == b,
{
    let u = spec_bytes_to_u32(b);
    assert(((u as i32) as u32) == u) by (bit_vector);
    lemma_bytes_u32_roundtrip(b);
}

/// Decoding the bytes of a `u64` gives the `u64` back.
pub proof fn lemma_u64_bytes_roundtrip(v: u64)
    ensures
        spec_u64_to_bytes(v).len() == 8,
        spec_bytes_to_u64(spec_u64_to_bytes(v)) == v,
{
    assert((((v >> 56u64) as u8) as u64) << 56u64 | (((v >> 48u64) as u8) as u64) << 48u64 | (((v
        >> 40u64) as u8) as u64) << 40u64 | (((v >> 32u64) as u8) as u64) << 32u64 | (((v
        >> 24u64) as u8) as u64) << 24u64 | (((v >> 16u64) as u8) as u64) << 16u64 | (((v
        >> 8u64) as u8) as u64) << 8u64 | ((v as u8) as u64) == v) by (bit_vector);
}

/// Encoding the `u64` that eight bytes decode to gives those bytes back.
pub proof fn lemma_bytes_u64_roundtrip(b: Seq<u8>)
    requires
        b.len() == 8,
    ensures
        spec_u64_to_bytes(spec_bytes_to_u64(b)) == b,
{
    let (b0, b1, b2, b3, b4, b5, b6, b7) = (b[0], b[1], b[2], b[3], b[4], b[5], b[6], b[7]);
    let v = spec_bytes_to_u64(b);
    assert(v == (b0 as u64) << 56u64 | (b1 as u64) << 48u64 | (b2 as u64) << 40u64 | (b3 as u64)
        << 32u64 | (b4 as u64) << 24u64 | (b5 as u64) << 16u64 | (b6 as u64) << 8u64 | (
    b7 as u64));
    assert(((((b0 as u64) << 56u64 | (b1 as u64) << 48u64 | (b2 as u64) << 40u64 | (b3 as u64)
        << 32u64 | (b4 as u64) << 24u64 | (b5 as u64) << 16u64 | (b6 as u64) << 8u64 | (
    b7 as u64)) >> 56u64) as u8) == b0 && ((((b0 as u64) << 56u64 | (b1 as u64) << 48u64 | (
    b2 as u64) << 40u64 | (b3 as u64) << 32u64 | (b4 as u64) << 24u64 | (b5 as u64) << 16u64 | (
    b6 as u64) << 8u64 | (b7 as u64)) >> 48u64) as u8) == b1 && ((((b0 as u64) << 56u64 | (
    b1 as u64) << 48u64 | (b2 as u64) << 40u64 | (b3 as u64) << 32u64 | (b4 as u64) << 24u64 | (
    b5 as u64) << 16u64 | (b6 as u64) << 8u64 | (b7 as u64)) >> 40u64) as u8) == b2 && ((((
    b0 as u64) << 56u64 | (b1 as u64) << 48u64 | (b2 as u64) << 40u64 | (b3 as u64) << 32u64 | (
    b4 as u64) << 24u64 | (b5 as u64) << 16u64 | (b6 as u64) << 8u64 | (b7 as u64)) >> 32u64)
        as u8) == b3) by (bit_vector);
    assert(((((b0 as u64) << 56u64 | (b1 as u64) << 48u64 | (b2 as u64) << 40u64 | (b3 as u64)
        << 32u64 | (b4 as u64) << 24u64 | (b5 as u64) << 16u64 | (b6 as u64) << 8u64 | (
    b7 as u64)) >> 24u64) as u8) == b4 && ((((b0 as u64) << 56u64 | (b1 as u64) << 48u64 | (
    b2 as u64) << 40u64 | (b3 as u64) << 32u64 | (b4 as u64) << 24u64 | (b5 as u64) << 16u64 | (
    b6 as u64) << 8u64 | (b7 as u64)) >> 16u64) as u8) == b5 && ((((b0 as u64) << 56u64 | (
    b1 as u64) << 48u64 | (b2 as u64) << 40u64 | (b3 as u64) << 32u64 | (b4 as u64) << 24u64 | (
    b5 as u64) << 16u64 | (b6 as u64) << 8u64 | (b7 as u64)) >> 8u64) as u8) == b6 && ((((
    b0 as u64) << 56u64 | (b1 as u64) << 48u64 | (b2 as u64) << 40u64 | (b3 as u64) << 32u64 | (
    b4 as u64) << 24u64 | (b5 as u64) << 16u64 | (b6 as u64) << 8u64 | (b7 as u64))) as u8)
        == b7) by (bit_vector);
    assert(spec_u64_to_bytes(v) =~= b);
}

/// The big-endian bytes of `value`.
pub fn i32_to_bytes(value: i32) -> (r: [u8; 4])
    ensures
        r@ == spec_i32_to_bytes(value),
{
    let v = value as u32;
    [(v >> 24u32) as u8, (v >> 16u32) as u8, (v >> 8u32) as u8, v as u8]
}

/// The big-endian bytes of `value`.
pub fn u32_to_bytes(value: u32) -> (r: [u8; 4])
    ensures
        r@ == spec_u32_to_bytes(value),
{
    [(value >> 24u32) as u8, (value >> 16u32) as u8, (value >> 8u32) as u8, value as u8]
}

/// The big-endian bytes of `value`.
pub fn u64_to_bytes(value: u64) -> (r: [u8; 8])
    ensures
        r@ == spec_u64_to_bytes(value),
{
    [
        (value >> 56u64) as u8,
        (value >> 48u64) as u8,
        (value >> 40u64) as u8,
        (value >> 32u64) as u8,
        (value >> 24u64) as u8,
        (value >> 16u64) as u8,
        (value >> 8u64) as u8,
        value as u8,
    ]
}

/// The `i32` whose big-endian bytes are the first four of `bytes`.
pub fn bytes_to_i32(bytes: &[u8]) -> (r: i32)
    requires
        bytes@.len() >= 4,
    ensures
        r == spec_bytes_to_i32(bytes@),
{
    bytes_to_u32(bytes) as i32
}

/// The `u32` whose big-endian bytes are the first four of `bytes`.
pub fn bytes_to_u32(bytes: &[u8]) -> (r: u32)
    requires
        bytes@.len() >= 4,
    ensures
        r == spec_bytes_to_u32(bytes@),
{
    ((bytes[0] as u32) << 24u32) | ((bytes[1] as u32) << 16u32) | ((bytes[2] as u32) << 8u32) | (
    bytes[3] as u32)
}

/// The `u64` whose big-endian bytes are the first eight of `bytes`.
pub fn bytes_to_u64(bytes: &[u8]) -> (r: u64)
    requires
        bytes@.len() >= 8,
    ensures
        r == spec_bytes_to_u64(bytes@),
{
    ((bytes[0] as u64) << 56u64) | ((bytes[1] as u64) << 48u64) | ((bytes[2] as u64) << 40u64) | ((
    bytes[3] as u64) << 32u64) | ((bytes[4] as u64) << 24u64) | ((bytes[5] as u64) << 16u64) | ((
    bytes[6] as u64) << 8u64) | (bytes[7] as u64)
}

/// The big-endian bytes of every value of `values`, in order.
pub fn i32_slice_to_bytes(values: &[i32]) -> (r: Vec<u8>)
    ensures
        r@ == spec_i32s_to_bytes(values@),
{
    let mut out: Vec<u8> = Vec::new();
    let mut i: usize = 0;
    while i < values.len()
        invariant
            i <= values@.len(),
            out@ =~= spec_i32s_to_bytes(values@.subrange(0, i as int)),
        decreases values@.len() - i,
    {
        let b = i32_to_bytes(values[i]);
        out.push(b[0]);
        out.push(b[1]);
        out.push(b[2]);
        out.push(b[3]);
        i = i + 1;
        assert(out@ =~= spec_i32s_to_bytes(values@.subrange(0, i as int)));
    }
    assert(values@.subrange(0, i as int) =~= values@);
    out
}

/// The big-endian bytes of every value of `values`, in order.
pub fn u32_slice_to_bytes(values: &[u32]) -> (r: Vec<u8>)
    ensures
        r@ == spec_u32s_to_bytes(values@),
{
    let mut out: Vec<u8> = Vec::new();
    let mut i: usize = 0;
    while i < values.len()
        invariant
            i <= values@.len(),
            out@ =~= spec_u32s_to_bytes(values@.subrange(0, i as int)),
        decreases values@.len() - i,
    {
        let b = u32_to_bytes(values[i]);
        out.push(b[0]);
        out.push(b[1]);
        out.push(b[2]);
        out.push(b[3]);
        i = i + 1;
        assert(out@ =~= spec_u32s_to_bytes(values@.subrange(0, i as int)));
    }
    assert(values@.subrange(0, i as int) =~= values@);
    out
}

/// The big-endian bytes of every value of `values`, in order.
pub fn u64_slice_to_bytes(values: &[u64]) -> (r: Vec<u8>)
    ensures
        r@ == spec_u64s_to_bytes(values@),
{
    let mut out: Vec<u8> = Vec::new();
    let mut i: usize = 0;
    while i < values.len()
        invariant
            i <= values@.len(),
            out@ =~= spec_u64s_to_bytes(values@.subrange(0, i as int)),
        decreases values@.len() - i,
    {
        let b = u64_to_bytes(values[i]);
        out.push(b[0]);
        out.push(b[1]);
        out.push(b[2]);
        out.push(b[3]);
        out.push(b[4]);
        out.push(b[5]);
        out.push(b[6]);
        out.push(b[7]);
        i = i + 1;
        assert(out@ =~= spec_u64s_to_bytes(values@.subrange(0, i as int)));
    }
    assert(values@.subrange(0, i as int) =~= values@);
    out
}

/// Copies `len` bytes of `bytes` from `start` on.
fn copy_range(bytes: &[u8], start: usize, len: usize) -> (r: Vec<u8>)
    requires
        start + len <= bytes@.len(),
    ensures
        r@ == bytes@.subrange(start as int, start + len),
{
    let total = bytes.len();
    let mut out: Vec<u8> = Vec::new();
    let mut k: usize = 0;
    while k < len
        invariant
            total == bytes@.len(),
            k <= len,
            start + len <= bytes@.len(),
            out@ =~= bytes@.subrange(start as int, start + k),
        decreases len - k,
    {
        out.push(bytes[start + k]);
        k = k + 1;
        assert(out@ =~= bytes@.subrange(start as int, start + k));
    }
    out
}

/// The `i32` of every whole group of four bytes of `bytes`.
pub fn bytes_to_i32_vec(bytes: &[u8]) -> (r: Vec<i32>)
    ensures
        r@ == spec_bytes_to_i32s(bytes@),
{
    let total = bytes.len();
    let n = total / 4;
    let mut out: Vec<i32> = Vec::new();
    let mut i: usize = 0;
    while i < n
        invariant
            total == bytes@.len(),
            n == bytes@.len() / 4,
            i <= n,
            out@ =~= spec_bytes_to_i32s(bytes@).subrange(0, i as int),
        decreases n - i,
    {
        assert(4 * i + 4 <= 4 * n <= bytes@.len()) by (nonlinear_arith)
            requires
                i < n,
                n == bytes@.len() / 4,
        ;
        let chunk = copy_range(bytes, 4 * i, 4);
        out.push(bytes_to_i32(chunk.as_slice()));
        i = i + 1;
        assert(out@ =~= spec_bytes_to_i32s(bytes@).subrange(0, i as int));
    }
    out
}

/// The `u32` of every whole group of four bytes of `bytes`.
pub fn bytes_to_u32_vec(bytes: &[u8]) -> (r: Vec<u32>)
    ensures
        r@ == spec_bytes_to_u32s(bytes@),
{
    let total = bytes.len();
    let n = total / 4;
    let mut out: Vec<u32> = Vec::new();
    let mut i: usize = 0;
    while i < n
        invariant
            total == bytes@.len(),
            n == bytes@.len() / 4,
            i <= n,
            out@ =~= spec_bytes_to_u32s(bytes@).subrange(0, i as int),
        decreases n - i,
    {
        assert(4 * i + 4 <= 4 * n <= bytes@.len()) by (nonlinear_arith)
            requires
                i < n,
                n == bytes@.len() / 4,
        ;
        let chunk = copy_range(bytes, 4 * i, 4);
        out.push(bytes_to_u32(chunk.as_slice()));
        i = i + 1;
        assert(out@ =~= spec_bytes_to_u32s(bytes@).subrange(0, i as int));
    }
    out
}

/// The `u64` of every whole group of eight bytes of `bytes`.
pub fn bytes_to_u64_vec(bytes: &[u8]) -> (r: Vec<u64>)
    ensures
        r@ == spec_bytes_to_u64s(bytes@),
{
    let total = bytes.len();
    let n = total / 8;
    let mut out: Vec<u64> = Vec::new();
    let mut i: usize = 0;
    while i < n
        invariant
            total == bytes@.len(),
            n == bytes@.len() / 8,
            i <= n,
            out@ =~= spec_bytes_to_u64s(bytes@).subrange(0, i as int),
        decreases n - i,
    {
        assert(8 * i + 8 <= 8 * n <= bytes@.len()) by (nonlinear_arith)
            requires
                i < n,
                n == bytes@.len() / 8,
        ;
        let chunk = copy_range(bytes, 8 * i, 8);
        out.push(bytes_to_u64(chunk.as_slice()));
        i = i + 1;
        assert(out@ =~= spec_bytes_to_u64s(bytes@).subrange(0, i as int));
    }
    out
}

/// Decoding the bytes of a sequence of `i32`s gives the sequence back.
pub proof fn lemma_i32s_roundtrip(s: Seq<i32>)
    ensures
        spec_bytes_to_i32s(spec_i32s_to_bytes(s)) == s,
{
    let b = spec_i32s_to_bytes(s);
    assert forall|i: int| 0 <= i < s.len() implies #[trigger] spec_bytes_to_i32(
        b.subrange(4 * i, 4 * i + 4),
    ) == s[i] by {
        lemma_i32_bytes_roundtrip(s[i]);
        assert forall|k: int| 0 <= k < 4 implies b.subrange(4 * i, 4 * i + 4)[k]
            == spec_i32_to_bytes(s[i])[k] by {
            assert((4 * i + k) / 4 == i);
            assert((4 * i + k) % 4 == k);
        }
        assert(b.subrange(4 * i, 4 * i + 4) =~= spec_i32_to_bytes(s[i]));
    }
    assert(spec_bytes_to_i32s(b) =~= s);
}

/// Decoding the bytes of a sequence of `u32`s gives the sequence back.
pub proof fn lemma_u32s_roundtrip(s: Seq<u32>)
    ensures
        spec_bytes_to_u32s(spec_u32s_to_bytes(s)) == s,
{
    let b = spec_u32s_to_bytes(s);
    assert forall|i: int| 0 <= i < s.len() implies #[trigger] spec_bytes_to_u32(
        b.subrange(4 * i, 4 * i + 4),
    ) == s[i] by {
        lemma_u32_bytes_roundtrip(s[i]);
        assert forall|k: int| 0 <= k < 4 implies b.subrange(4 * i, 4 * i + 4)[k]
            == spec_u32_to_bytes(s[i])[k] by {
            assert((4 * i + k) / 4 == i);
            assert((4 * i + k) % 4 == k);
        }
        assert(b.subrange(4 * i, 4 * i + 4) =~= spec_u32_to_bytes(s[i]));
    }
    assert(spec_bytes_to_u32s(b) =~= s);
}

/// Decoding the bytes of a sequence of `u64`s gives the sequence back.
pub proof fn lemma_u64s_roundtrip(s: Seq<u64>)
    ensures
        spec_bytes_to_u64s(spec_u64s_to_bytes(s)) == s,
{
    let b = spec_u64s_to_bytes(s);
    assert forall|i: int| 0 <= i < s.len() implies #[trigger] spec_bytes_to_u64(
        b.subrange(8 * i, 8 * i + 8),
    ) == s[i] by {
        lemma_u64_bytes_roundtrip(s[i]);
        assert forall|k: int| 0 <= k < 8 implies b.subrange(8 * i, 8 * i + 8)[k]
            == spec_u64_to_bytes(s[i])[k] by {
            assert((8 * i + k) / 8 == i);
            assert((8 * i + k) % 8 == k);
        }
        assert(b.subrange(8 * i, 8 * i + 8) =~= spec_u64_to_bytes(s[i]));
    }
    assert(spec_bytes_to_u64s(b) =~= s);
}

} // verus!
