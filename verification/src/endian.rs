//! Big-endian encoding of fixed-width integers.
//!
//! Every numeric payload of the storage format is written most significant
//! byte first, so that the byte order of keys follows the numeric order of
//! unsigned payloads.

use vstd::prelude::*;
use vstd::arithmetic::div_mod::lemma_div_denominator;
use vstd::arithmetic::div_mod::lemma_fundamental_div_mod;

verus! {

/// `256` to the power `n`.
pub open spec fn pow256(n: nat) -> nat
    decreases n,
{
    if n == 0 {
        1
    } else {
        256 * pow256((n - 1) as nat)
    }
}

/// The `width` low bytes of `v`, most significant first.
pub open spec fn be_bytes(v: nat, width: nat) -> Seq<u8>
    decreases width,
{
    if width == 0 {
        Seq::empty()
    } else {
        be_bytes(v / 256, (width - 1) as nat).push((v % 256) as u8)
    }
}

/// The number that a big-endian byte string stands for.
pub open spec fn be_value(s: Seq<u8>) -> nat
    decreases s.len(),
{
    if s.len() == 0 {
        0
    } else {
        256 * be_value(s.drop_last()) + s.last() as nat
    }
}

/// A power of 256 is positive.
pub proof fn lemma_pow256_positive(n: nat)
    ensures
        pow256(n) > 0,
    decreases n,
{
    if n > 0 {
        lemma_pow256_positive((n - 1) as nat);
    }
}

/// The powers of 256 for the widths of two, four, eight and sixteen bytes.
pub proof fn lemma_pow256_values()
    ensures
        pow256(2) == 0x1_0000,
        pow256(4) == 0x1_0000_0000,
        pow256(8) == 0x1_0000_0000_0000_0000,
        pow256(16) == 0x1_0000_0000_0000_0000_0000_0000_0000_0000,
{
    reveal_with_fuel(pow256, 17);
}

/// An encoding of a width has that many bytes.
pub proof fn lemma_be_bytes_len(v: nat, width: nat)
    ensures
        be_bytes(v, width).len() == width,
    decreases width,
{
    if width > 0 {
        lemma_be_bytes_len(v / 256, (width - 1) as nat);
    }
}

/// Byte `j` of the encoding is the `j`-th base-256 digit from the top.
pub proof fn lemma_be_bytes_index(v: nat, width: nat, j: int)
    requires
        0 <= j < width,
    ensures
        be_bytes(v, width).len() == width,
        be_bytes(v, width)[j] as nat == (v / pow256((width - 1 - j) as nat)) % 256,
    decreases width,
{
    lemma_be_bytes_len(v, width);
    lemma_be_bytes_len(v / 256, (width - 1) as nat);
    if j == width - 1 {
        assert(pow256(0) == 1);
        assert((width - 1 - j) as nat == 0);
        assert(v / 1 == v);
        assert(be_bytes(v, width)[j] == (v % 256) as u8);
    } else {
        lemma_be_bytes_index(v / 256, (width - 1) as nat, j);
        let k = (width - 2 - j) as nat;
        lemma_pow256_positive(k);
        lemma_div_denominator(v as int, 256, pow256(k) as int);
        assert(pow256(k + 1) == 256 * pow256(k));
        assert((width - 1 - j) as nat == k + 1);
        assert((v / 256) / pow256(k) == v / pow256(k + 1));
        assert(be_bytes(v, width)[j] == be_bytes(v / 256, (width - 1) as nat)[j]);
    }
}

/// The number of a byte string is below 256 to the power of its length.
pub proof fn lemma_be_value_bound(s: Seq<u8>)
    ensures
        be_value(s) < pow256(s.len()),
    decreases s.len(),
{
    if s.len() > 0 {
        lemma_be_value_bound(s.drop_last());
    }
}

/// Decoding an encoding gives the number back when it fits the width.
pub proof fn lemma_be_value_of_bytes(v: nat, width: nat)
    requires
        v < pow256(width),
    ensures
        be_value(be_bytes(v, width)) == v,
    decreases width,
{
    if width > 0 {
        let rest = be_bytes(v / 256, (width - 1) as nat);
        lemma_be_value_of_bytes(v / 256, (width - 1) as nat);
        assert(be_bytes(v, width).drop_last() =~= rest);
        lemma_fundamental_div_mod(v as int, 256);
    }
}

/// Encoding a decoded byte string gives the byte string back.
pub proof fn lemma_be_bytes_of_value(s: Seq<u8>)
    ensures
        be_bytes(be_value(s), s.len()) == s,
    decreases s.len(),
{
    if s.len() > 0 {
        lemma_be_bytes_of_value(s.drop_last());
        let v = be_value(s);
        assert(v / 256 == be_value(s.drop_last()));
        assert(v % 256 == s.last() as nat);
        assert(be_bytes(v, s.len()) =~= s);
    } else {
        assert(be_bytes(be_value(s), s.len()) =~= s);
    }
}

/// Appends the `width` low bytes of `v` to `sink`, most significant first.
pub fn write_be(sink: &mut Vec<u8>, v: u128, width: usize)
    requires
        width <= 16,
    ensures
        final(sink)@ == old(sink)@ + be_bytes(v as nat, width as nat),
{
    let start: usize = sink.len();
    let mut k: usize = width;
    proof {
        lemma_be_bytes_len(v as nat, width as nat);
    }
    while k > 0
        invariant
            k <= width <= 16,
            start == old(sink)@.len(),
            be_bytes(v as nat, width as nat).len() == width,
            sink@ == old(sink)@ + be_bytes(v as nat, width as nat).subrange(0, width - k),
        decreases k,
    {
        k = k - 1;
        let shift: u32 = (8 * k) as u32;
        let b: u8 = ((v >> shift) & 0xff) as u8;
        proof {
            let j = (width - 1 - k) as int;
            lemma_be_bytes_index(v as nat, width as nat, j);
            lemma_shift_is_digit(v, k as nat);
            assert(be_bytes(v as nat, width as nat).subrange(0, j + 1) =~= be_bytes(
                v as nat,
                width as nat,
            ).subrange(0, j).push(b));
        }
        sink.push(b);
    }
    proof {
        assert(be_bytes(v as nat, width as nat).subrange(0, width as int) =~= be_bytes(
            v as nat,
            width as nat,
        ));
    }
}

/// A shift by whole bytes followed by a mask picks a base-256 digit.
proof fn lemma_shift_is_digit(v: u128, k: nat)
    requires
        k < 16,
    ensures
        ((v >> ((8 * k) as u32)) & 0xff) as nat == (v as nat / pow256(k)) % 256,
    decreases k,
{
    let s: u32 = (8 * k) as u32;
    if k == 0 {
        assert(s == 0u32);
        assert(((v >> 0u32) & 0xff) == v % 256) by (bit_vector);
        assert(pow256(0) == 1);
        assert(v as nat / 1 == v as nat);
    } else {
        let w: u128 = v >> 8u32;
        let t: u32 = (8 * (k - 1)) as u32;
        lemma_shift_is_digit(w, (k - 1) as nat);
        assert(t < 120 && s == t + 8);
        assert(v >> s == (v >> 8u32) >> t) by (bit_vector)
            requires
                s == t + 8,
                t < 120,
        ;
        assert(v >> 8u32 == v / 256) by (bit_vector);
        let p = pow256((k - 1) as nat);
        lemma_pow256_positive((k - 1) as nat);
        lemma_div_denominator(v as int, 256, p as int);
        assert(pow256(k) == 256 * p);
        assert(w as nat == v as nat / 256);
        assert((v as nat / 256) / p == v as nat / pow256(k));
        assert(((v >> s) & 0xff) as nat == (w as nat / p) % 256);
    }
}

/// Reads `width` bytes at `pos` as a big-endian number.
pub fn read_be(buf: &[u8], pos: usize, width: usize) -> (v: u128)
    requires
        width <= 16,
        pos + width <= buf@.len(),
    ensures
        v as nat == be_value(buf@.subrange(pos as int, pos + width)),
{
    let len: usize = buf.len();
    let mut acc: u128 = 0;
    let mut i: usize = 0;
    proof {
        assert(buf@.subrange(pos as int, pos as int).len() == 0);
        assert(pow256(0) == 1);
    }
    while i < width
        invariant
            i <= width <= 16,
            pos + width <= buf@.len(),
            len == buf@.len(),
            acc as nat == be_value(buf@.subrange(pos as int, pos + i)),
            acc < pow256(i as nat),
        decreases width - i,
    {
        let b: u8 = buf[pos + i];
        proof {
            let next = buf@.subrange(pos as int, pos + i + 1);
            assert(next.drop_last() =~= buf@.subrange(pos as int, pos + i));
            assert(next.last() == b);
            lemma_pow256_monotone((i + 1) as nat, 16);
            lemma_pow256_values();
            assert(pow256((i + 1) as nat) == 256 * pow256(i as nat));
        }
        acc = acc * 256 + b as u128;
        i = i + 1;
    }
    acc
}

/// The powers of 256 grow with the exponent.
pub proof fn lemma_pow256_monotone(a: nat, b: nat)
    requires
        a <= b,
    ensures
        pow256(a) <= pow256(b),
    decreases b,
{
    if a < b {
        lemma_pow256_monotone(a, (b - 1) as nat);
    }
}

/// The sixteen bytes of an unsigned 128-bit number.
pub open spec fn u128_bytes(v: u128) -> Seq<u8> {
    be_bytes(v as nat, 16)
}

/// The unsigned 128-bit number that sixteen bytes hold.
pub open spec fn u128_of(s: Seq<u8>) -> u128 {
    be_value(s) as u128
}

/// The sixteen bytes of a signed 128-bit number in two's complement.
pub open spec fn i128_bytes(v: i128) -> Seq<u8> {
    be_bytes((v as u128) as nat, 16)
}

/// The signed 128-bit number that sixteen bytes hold.
pub open spec fn i128_of(s: Seq<u8>) -> i128 {
    (be_value(s) as u128) as i128
}

/// The eight bytes of an unsigned 64-bit number.
pub open spec fn u64_bytes(v: u64) -> Seq<u8> {
    be_bytes(v as nat, 8)
}

/// The unsigned 64-bit number that eight bytes hold.
pub open spec fn u64_of(s: Seq<u8>) -> u64 {
    be_value(s) as u64
}

/// The eight bytes of a signed 64-bit number in two's complement.
pub open spec fn i64_bytes(v: i64) -> Seq<u8> {
    be_bytes((v as u64) as nat, 8)
}

/// The signed 64-bit number that eight bytes hold.
pub open spec fn i64_of(s: Seq<u8>) -> i64 {
    (be_value(s) as u64) as i64
}

/// The four bytes of an unsigned 32-bit number.
pub open spec fn u32_bytes(v: u32) -> Seq<u8> {
    be_bytes(v as nat, 4)
}

/// The unsigned 32-bit number that four bytes hold.
pub open spec fn u32_of(s: Seq<u8>) -> u32 {
    be_value(s) as u32
}

/// The two bytes of an unsigned 16-bit number.
pub open spec fn u16_bytes(v: u16) -> Seq<u8> {
    be_bytes(v as nat, 2)
}

/// The unsigned 16-bit number that two bytes hold.
pub open spec fn u16_of(s: Seq<u8>) -> u16 {
    be_value(s) as u16
}

/// The two bytes of a signed 16-bit number in two's complement.
pub open spec fn i16_bytes(v: i16) -> Seq<u8> {
    be_bytes((v as u16) as nat, 2)
}

/// The signed 16-bit number that two bytes hold.
pub open spec fn i16_of(s: Seq<u8>) -> i16 {
    (be_value(s) as u16) as i16
}

/// An unsigned 128-bit number takes sixteen bytes and reads back.
pub proof fn lemma_u128_round_trip(v: u128)
    ensures
        u128_bytes(v).len() == 16,
        u128_of(u128_bytes(v)) == v,
{
    lemma_pow256_values();
    lemma_be_bytes_len(v as nat, 16);
    lemma_be_value_of_bytes(v as nat, 16);
}

/// A signed 128-bit number takes sixteen bytes and reads back.
pub proof fn lemma_i128_round_trip(v: i128)
    ensures
        i128_bytes(v).len() == 16,
        i128_of(i128_bytes(v)) == v,
{
    lemma_pow256_values();
    let u = v as u128;
    lemma_be_bytes_len(u as nat, 16);
    lemma_be_value_of_bytes(u as nat, 16);
    assert((v as u128) as i128 == v) by (bit_vector);
}

/// An unsigned 64-bit number takes eight bytes and reads back.
pub proof fn lemma_u64_round_trip(v: u64)
    ensures
        u64_bytes(v).len() == 8,
        u64_of(u64_bytes(v)) == v,
{
    lemma_pow256_values();
    lemma_be_bytes_len(v as nat, 8);
    lemma_be_value_of_bytes(v as nat, 8);
}

/// A signed 64-bit number takes eight bytes and reads back.
pub proof fn lemma_i64_round_trip(v: i64)
    ensures
        i64_bytes(v).len() == 8,
        i64_of(i64_bytes(v)) == v,
{
    lemma_pow256_values();
    let u = v as u64;
    lemma_be_bytes_len(u as nat, 8);
    lemma_be_value_of_bytes(u as nat, 8);
    assert((v as u64) as i64 == v) by (bit_vector);
}

/// An unsigned 32-bit number takes four bytes and reads back.
pub proof fn lemma_u32_round_trip(v: u32)
    ensures
        u32_bytes(v).len() == 4,
        u32_of(u32_bytes(v)) == v,
{
    lemma_pow256_values();
    lemma_be_bytes_len(v as nat, 4);
    lemma_be_value_of_bytes(v as nat, 4);
}

/// A signed 16-bit number takes two bytes and reads back.
pub proof fn lemma_i16_round_trip(v: i16)
    ensures
        i16_bytes(v).len() == 2,
        i16_of(i16_bytes(v)) == v,
{
    lemma_pow256_values();
    let u = v as u16;
    lemma_be_bytes_len(u as nat, 2);
    lemma_be_value_of_bytes(u as nat, 2);
    assert((v as u16) as i16 == v) by (bit_vector);
}

/// Appends the sixteen bytes of an unsigned 128-bit number.
pub fn write_u128(sink: &mut Vec<u8>, v: u128)
    ensures
        final(sink)@ == old(sink)@ + u128_bytes(v),
{
    write_be(sink, v, 16)
}

/// Appends the sixteen bytes of a signed 128-bit number.
pub fn write_i128(sink: &mut Vec<u8>, v: i128)
    ensures
        final(sink)@ == old(sink)@ + i128_bytes(v),
{
    write_be(sink, #[verifier::truncate] (v as u128), 16)
}

/// Appends the eight bytes of an unsigned 64-bit number.
pub fn write_u64(sink: &mut Vec<u8>, v: u64)
    ensures
        final(sink)@ == old(sink)@ + u64_bytes(v),
{
    write_be(sink, v as u128, 8)
}

/// Appends the eight bytes of a signed 64-bit number.
pub fn write_i64(sink: &mut Vec<u8>, v: i64)
    ensures
        final(sink)@ == old(sink)@ + i64_bytes(v),
{
    write_be(sink, (#[verifier::truncate] (v as u64)) as u128, 8)
}

/// Appends the four bytes of an unsigned 32-bit number.
pub fn write_u32(sink: &mut Vec<u8>, v: u32)
    ensures
        final(sink)@ == old(sink)@ + u32_bytes(v),
{
    write_be(sink, v as u128, 4)
}

/// Appends the two bytes of an unsigned 16-bit number.
pub fn write_u16(sink: &mut Vec<u8>, v: u16)
    ensures
        final(sink)@ == old(sink)@ + u16_bytes(v),
{
    write_be(sink, v as u128, 2)
}

/// Appends the two bytes of a signed 16-bit number.
pub fn write_i16(sink: &mut Vec<u8>, v: i16)
    ensures
        final(sink)@ == old(sink)@ + i16_bytes(v),
{
    write_be(sink, (#[verifier::truncate] (v as u16)) as u128, 2)
}

/// The unsigned 128-bit number in the sixteen bytes at `pos`.
pub fn read_u128(buf: &[u8], pos: usize) -> (v: u128)
    requires
        pos + 16 <= buf@.len(),
    ensures
        v == u128_of(buf@.subrange(pos as int, pos + 16)),
{
    read_be(buf, pos, 16)
}

/// The signed 128-bit number in the sixteen bytes at `pos`.
pub fn read_i128(buf: &[u8], pos: usize) -> (v: i128)
    requires
        pos + 16 <= buf@.len(),
    ensures
        v == i128_of(buf@.subrange(pos as int, pos + 16)),
{
    #[verifier::truncate]
    (read_be(buf, pos, 16) as i128)
}

/// The unsigned 64-bit number in the eight bytes at `pos`.
pub fn read_u64(buf: &[u8], pos: usize) -> (v: u64)
    requires
        pos + 8 <= buf@.len(),
    ensures
        v == u64_of(buf@.subrange(pos as int, pos + 8)),
{
    proof {
        lemma_be_value_bound(buf@.subrange(pos as int, pos + 8));
        lemma_pow256_values();
    }
    read_be(buf, pos, 8) as u64
}

/// The signed 64-bit number in the eight bytes at `pos`.
pub fn read_i64(buf: &[u8], pos: usize) -> (v: i64)
    requires
        pos + 8 <= buf@.len(),
    ensures
        v == i64_of(buf@.subrange(pos as int, pos + 8)),
{
    #[verifier::truncate]
    (read_u64(buf, pos) as i64)
}

/// The unsigned 32-bit number in the four bytes at `pos`.
pub fn read_u32(buf: &[u8], pos: usize) -> (v: u32)
    requires
        pos + 4 <= buf@.len(),
    ensures
        v == u32_of(buf@.subrange(pos as int, pos + 4)),
{
    proof {
        lemma_be_value_bound(buf@.subrange(pos as int, pos + 4));
        lemma_pow256_values();
    }
    read_be(buf, pos, 4) as u32
}

/// The unsigned 16-bit number in the two bytes at `pos`.
pub fn read_u16(buf: &[u8], pos: usize) -> (v: u16)
    requires
        pos + 2 <= buf@.len(),
    ensures
        v == u16_of(buf@.subrange(pos as int, pos + 2)),
{
    proof {
        lemma_be_value_bound(buf@.subrange(pos as int, pos + 2));
        lemma_pow256_values();
    }
    read_be(buf, pos, 2) as u16
}

/// The signed 16-bit number in the two bytes at `pos`.
pub fn read_i16(buf: &[u8], pos: usize) -> (v: i16)
    requires
        pos + 2 <= buf@.len(),
    ensures
        v == i16_of(buf@.subrange(pos as int, pos + 2)),
{
    #[verifier::truncate]
    (read_u16(buf, pos) as i16)
}

/// Appends `bytes` to `sink`.
pub fn write_slice(sink: &mut Vec<u8>, bytes: &[u8])
    ensures
        final(sink)@ == old(sink)@ + bytes@,
{
    let n: usize = bytes.len();
    let mut i: usize = 0;
    while i < n
        invariant
            i <= n,
            n == bytes@.len(),
            sink@ == old(sink)@ + bytes@.subrange(0, i as int),
        decreases n - i,
    {
        sink.push(bytes[i]);
        proof {
            assert(bytes@.subrange(0, i + 1) =~= bytes@.subrange(0, i as int).push(bytes@[i as int]));
        }
        i = i + 1;
    }
    proof {
        assert(bytes@.subrange(0, n as int) =~= bytes@);
    }
}

/// The sixteen bytes of `buf` that start at `pos`.
pub fn read_array_16(buf: &[u8], pos: usize) -> (a: [u8; 16])
    requires
        pos + 16 <= buf@.len(),
    ensures
        a@ == buf@.subrange(pos as int, pos + 16),
{
    let len: usize = buf.len();
    let mut a: [u8; 16] = [0u8; 16];
    let mut i: usize = 0;
    while i < 16
        invariant
            i <= 16,
            len == buf@.len(),
            pos + 16 <= len,
            forall|j: int| 0 <= j < i ==> a@[j] == buf@[pos + j],
        decreases 16 - i,
    {
        a[i] = buf[pos + i];
        i = i + 1;
    }
    proof {
        assert(a@ =~= buf@.subrange(pos as int, pos + 16));
    }
    a
}

/// The two halves of a concatenation are its two parts.
pub proof fn lemma_concat_split<T>(a: Seq<T>, b: Seq<T>)
    ensures
        (a + b).subrange(0, a.len() as int) == a,
        (a + b).subrange(a.len() as int, (a.len() + b.len()) as int) == b,
        (a + b).skip(a.len() as int) == b,
{
    assert((a + b).subrange(0, a.len() as int) =~= a);
    assert((a + b).subrange(a.len() as int, (a.len() + b.len()) as int) =~= b);
    assert((a + b).skip(a.len() as int) =~= b);
}

} // verus!
