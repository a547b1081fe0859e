//! Binary integer codec: fixed-width (endian-explicit) and variable-width
//! (7-bits-per-byte varint) encodings for 32- and 64-bit unsigned integers,
//! plus a decimal-number reader for file names.

use vstd::prelude::*;
use crate::errors::{RubbleError, RubbleResult};
use crate::status::Status;

verus! {

/// Byte order used by the fixed-width forms.
#[derive(Clone, Copy, PartialEq, Eq, Structural)]
pub enum Endian {
    Little,
    Big,
}

/// The byte order this build encodes and decodes fixed-width integers with.
pub const ENDIANNESS: Endian = Endian::Little;

/// The four bytes of `v`, least significant first.
pub open spec fn fixed32_le(v: u32) -> Seq<u8> {
    seq![
        (v % 256) as u8,
        ((v / 256) % 256) as u8,
        ((v / 65536) % 256) as u8,
        ((v / 16777216) % 256) as u8,
    ]
}

/// The four bytes of `v` in byte order `e`.
pub open spec fn fixed32_bytes(e: Endian, v: u32) -> Seq<u8> {
    match e {
        Endian::Little => fixed32_le(v),
        Endian::Big => fixed32_le(v).reverse(),
    }
}

/// The value stored in the first four bytes of `s`, read in byte order `e`.
pub open spec fn fixed32_value(e: Endian, s: Seq<u8>) -> u32
    recommends
        s.len() >= 4,
{
    match e {
        Endian::Little => (s[0] + s[1] * 256 + s[2] * 65536 + s[3] * 16777216) as u32,
        Endian::Big => (s[3] + s[2] * 256 + s[1] * 65536 + s[0] * 16777216) as u32,
    }
}

/// The eight bytes of `v`, least significant first.
pub open spec fn fixed64_le(v: u64) -> Seq<u8> {
    seq![
        (v % 256) as u8,
        ((v / 0x100) % 256) as u8,
        ((v / 0x10000) % 256) as u8,
        ((v / 0x1000000) % 256) as u8,
        ((v / 0x100000000) % 256) as u8,
        ((v / 0x10000000000) % 256) as u8,
        ((v / 0x1000000000000) % 256) as u8,
        ((v / 0x100000000000000) % 256) as u8,
    ]
}

/// The eight bytes of `v` in byte order `e`.
pub open spec fn fixed64_bytes(e: Endian, v: u64) -> Seq<u8> {
    match e {
        Endian::Little => fixed64_le(v),
        Endian::Big => fixed64_le(v).reverse(),
    }
}

/// The value stored in the first eight bytes of `s`, read in byte order `e`.
pub open spec fn fixed64_value(e: Endian, s: Seq<u8>) -> u64
    recommends
        s.len() >= 8,
{
    match e {
        Endian::Little => (s[0] + s[1] * 0x100 + s[2] * 0x10000 + s[3] * 0x1000000
            + s[4] * 0x100000000 + s[5] * 0x10000000000 + s[6] * 0x1000000000000
            + s[7] * 0x100000000000000) as u64,
        Endian::Big => (s[7] + s[6] * 0x100 + s[5] * 0x10000 + s[4] * 0x1000000
            + s[3] * 0x100000000 + s[2] * 0x10000000000 + s[1] * 0x1000000000000
            + s[0] * 0x100000000000000) as u64,
    }
}

/// Reading back the four encoded bytes of `v` gives `v` again, in either
/// byte order.
#[verifier::rlimit(50)]
pub proof fn lemma_fixed32_round_trip(e: Endian, v: u32)
    ensures
        fixed32_value(e, fixed32_bytes(e, v)) == v,
{
    match e {
        Endian::Little => {
            assert(fixed32_value(e, fixed32_bytes(e, v)) == v);
        },
        Endian::Big => {
            assert(fixed32_bytes(e, v)[0] == ((v / 16777216) % 256) as u8);
            assert(fixed32_bytes(e, v)[1] == ((v / 65536) % 256) as u8);
            assert(fixed32_bytes(e, v)[2] == ((v / 256) % 256) as u8);
            assert(fixed32_bytes(e, v)[3] == (v % 256) as u8);
            assert(fixed32_value(e, fixed32_bytes(e, v)) == v);
        },
    }
}

/// Reading back the eight encoded bytes of `v` gives `v` again, in either
/// byte order.
pub proof fn lemma_fixed64_round_trip(e: Endian, v: u64)
    ensures
        fixed64_value(e, fixed64_bytes(e, v)) == v,
{
    lemma_fixed64_recompose(v);
    match e {
        Endian::Little => {
            assert(fixed64_value(e, fixed64_bytes(e, v)) == v);
        },
        Endian::Big => {
            let b = fixed64_bytes(e, v);
            assert(b[0] == ((v / 0x100000000000000) % 256) as u8);
            assert(b[1] == ((v / 0x1000000000000) % 256) as u8);
            assert(b[2] == ((v / 0x10000000000) % 256) as u8);
            assert(b[3] == ((v / 0x100000000) % 256) as u8);
            assert(b[4] == ((v / 0x1000000) % 256) as u8);
            assert(b[5] == ((v / 0x10000) % 256) as u8);
            assert(b[6] == ((v / 0x100) % 256) as u8);
            assert(b[7] == (v % 256) as u8);
            assert(fixed64_value(e, b) == v);
        },
    }
}

/// The eight base-256 digits of `v` recombine to `v`.
proof fn lemma_fixed64_recompose(v: u64)
    ensures
        v % 256 + ((v / 0x100) % 256) * 0x100 + ((v / 0x10000) % 256) * 0x10000 + ((v
            / 0x1000000) % 256) * 0x1000000 + ((v / 0x100000000) % 256) * 0x100000000 + ((v
            / 0x10000000000) % 256) * 0x10000000000 + ((v / 0x1000000000000) % 256)
            * 0x1000000000000 + ((v / 0x100000000000000) % 256) * 0x100000000000000 == v,
{
    assert(v % 256 + ((v / 0x100) % 256) * 0x100 + ((v / 0x10000) % 256) * 0x10000 + ((v
        / 0x1000000) % 256) * 0x1000000 + ((v / 0x100000000) % 256) * 0x100000000 + ((v
        / 0x10000000000) % 256) * 0x10000000000 + ((v / 0x1000000000000) % 256) * 0x1000000000000
        + ((v / 0x100000000000000) % 256) * 0x100000000000000 == v) by (bit_vector);
}

/// Appends the four bytes of `value` to `buff` in the configured byte order.
pub fn put_fixed32(buff: &mut Vec<u8>, value: u32)
    ensures
        final(buff)@ == old(buff)@ + fixed32_bytes(ENDIANNESS, value),
{
    let b0 = (value % 256) as u8;
    let b1 = ((value / 256) % 256) as u8;
    let b2 = ((value / 65536) % 256) as u8;
    let b3 = ((value / 16777216) % 256) as u8;
    match ENDIANNESS {
        Endian::Little => {
            buff.push(b0);
            buff.push(b1);
            buff.push(b2);
            buff.push(b3);
            assert(final(buff)@ =~= old(buff)@ + fixed32_bytes(ENDIANNESS, value));
        },
        Endian::Big => {
            buff.push(b3);
            buff.push(b2);
            buff.push(b1);
            buff.push(b0);
            assert(fixed32_bytes(ENDIANNESS, value) =~= seq![b3, b2, b1, b0]);
            assert(final(buff)@ =~= old(buff)@ + fixed32_bytes(ENDIANNESS, value));
        },
    }
}

/// Appends the eight bytes of `value` to `buff` in the configured byte order.
pub fn put_fixed64(buff: &mut Vec<u8>, value: u64)
    ensures
        final(buff)@ == old(buff)@ + fixed64_bytes(ENDIANNESS, value),
{
    let b0 = (value % 256) as u8;
    let b1 = ((value / 0x100) % 256) as u8;
    let b2 = ((value / 0x10000) % 256) as u8;
    let b3 = ((value / 0x1000000) % 256) as u8;
    let b4 = ((value / 0x100000000) % 256) as u8;
    let b5 = ((value / 0x10000000000) % 256) as u8;
    let b6 = ((value / 0x1000000000000) % 256) as u8;
    let b7 = ((value / 0x100000000000000) % 256) as u8;
    match ENDIANNESS {
        Endian::Little => {
            buff.push(b0);
            buff.push(b1);
            buff.push(b2);
            buff.push(b3);
            buff.push(b4);
            buff.push(b5);
            buff.push(b6);
            buff.push(b7);
            assert(final(buff)@ =~= old(buff)@ + fixed64_bytes(ENDIANNESS, value));
        },
        Endian::Big => {
            buff.push(b7);
            buff.push(b6);
            buff.push(b5);
            buff.push(b4);
            buff.push(b3);
            buff.push(b2);
            buff.push(b1);
            buff.push(b0);
            assert(fixed64_bytes(ENDIANNESS, value) =~= seq![b7, b6, b5, b4, b3, b2, b1, b0]);
            assert(final(buff)@ =~= old(buff)@ + fixed64_bytes(ENDIANNESS, value));
        },
    }
}

/// Reads the fixed 32-bit value stored at the front of `slice`.
///
/// Callers must have checked that four bytes are available; anything less
/// is a caller bug, not a recoverable decode failure.
pub fn decode_fixed32(slice: &[u8]) -> (r: u32)
    requires
        slice@.len() >= 4,
    ensures
        r == fixed32_value(ENDIANNESS, slice@),
{
    let b0 = slice[0] as u32;
    let b1 = slice[1] as u32;
    let b2 = slice[2] as u32;
    let b3 = slice[3] as u32;
    match ENDIANNESS {
        Endian::Little => b0 + b1 * 256 + b2 * 65536 + b3 * 16777216,
        Endian::Big => b3 + b2 * 256 + b1 * 65536 + b0 * 16777216,
    }
}

/// Reads the fixed 64-bit value stored at the front of `slice`.
///
/// Callers must have checked that eight bytes are available; anything less
/// is a caller bug, not a recoverable decode failure.
pub fn decode_fixed64(slice: &[u8]) -> (r: u64)
    requires
        slice@.len() >= 8,
    ensures
        r == fixed64_value(ENDIANNESS, slice@),
{
    let b0 = slice[0] as u64;
    let b1 = slice[1] as u64;
    let b2 = slice[2] as u64;
    let b3 = slice[3] as u64;
    let b4 = slice[4] as u64;
    let b5 = slice[5] as u64;
    let b6 = slice[6] as u64;
    let b7 = slice[7] as u64;
    match ENDIANNESS {
        Endian::Little => b0 + b1 * 0x100 + b2 * 0x10000 + b3 * 0x1000000 + b4 * 0x100000000
            + b5 * 0x10000000000 + b6 * 0x1000000000000 + b7 * 0x100000000000000,
        Endian::Big => b7 + b6 * 0x100 + b5 * 0x10000 + b4 * 0x1000000 + b3 * 0x100000000
            + b2 * 0x10000000000 + b1 * 0x1000000000000 + b0 * 0x100000000000000,
    }
}

/// 128 raised to `n`: the weight of the `n`-th 7-bit group of a varint.
pub open spec fn pow128(n: nat) -> nat
    decreases n,
{
    if n == 0 {
        1
    } else {
        128 * pow128((n - 1) as nat)
    }
}

/// The varint bytes of `v`: 7 bits per byte, least-significant group first,
/// continuation bit set on every byte but the last.
pub open spec fn varint_encoding(v: nat) -> Seq<u8>
    decreases v,
{
    if v < 128 {
        seq![v as u8]
    } else {
        seq![(128 + v % 128) as u8] + varint_encoding(v / 128)
    }
}

/// How many bytes the varint encoding of `v` takes.
pub open spec fn varint_len(v: nat) -> nat
    decreases v,
{
    if v < 128 {
        1
    } else {
        1 + varint_len(v / 128)
    }
}

/// The value and byte count of the varint at the front of `s`, if a
/// terminating byte occurs within the first `max` bytes. The value is
/// unbounded here; width checks belong to the callers.
pub open spec fn varint_parse(s: Seq<u8>, max: nat) -> Option<(nat, nat)>
    decreases max,
{
    if s.len() == 0 || max == 0 {
        None
    } else if s[0] < 128 {
        Some((s[0] as nat, 1 as nat))
    } else {
        match varint_parse(s.skip(1), (max - 1) as nat) {
            Some(p) => Some((((s[0] - 128) + 128 * p.0) as nat, (p.1 + 1) as nat)),
            None => None,
        }
    }
}

/// The encoding of `v` is exactly `varint_len(v)` bytes long.
pub proof fn lemma_varint_encoding_len(v: nat)
    ensures
        varint_encoding(v).len() == varint_len(v),
        varint_len(v) >= 1,
    decreases v,
{
    if v >= 128 {
        lemma_varint_encoding_len(v / 128);
    }
}

/// Decoding the encoding of `v` gives `v` back and consumes exactly its
/// bytes, whatever follows them.
pub proof fn lemma_varint_round_trip(v: nat, rest: Seq<u8>, max: nat)
    requires
        varint_len(v) <= max,
    ensures
        varint_parse(varint_encoding(v) + rest, max) == Some((v, varint_len(v))),
    decreases v,
{
    let s = varint_encoding(v) + rest;
    if v < 128 {
        assert(s[0] == v as u8);
    } else {
        assert(s[0] == (128 + v % 128) as u8);
        assert(s.skip(1) =~= varint_encoding(v / 128) + rest);
        lemma_varint_round_trip(v / 128, rest, (max - 1) as nat);
        assert((s[0] - 128) + 128 * (v / 128) == v % 128 + 128 * (v / 128));
    }
}

/// `varint_len` is minimal: `v` does not fit in fewer 7-bit groups.
pub proof fn lemma_varint_len_minimal(v: nat)
    ensures
        v < pow128(varint_len(v)),
        varint_len(v) >= 1,
        varint_len(v) > 1 ==> pow128((varint_len(v) - 1) as nat) <= v,
    decreases v,
{
    if v < 128 {
    } else {
        let q = v / 128;
        lemma_varint_len_minimal(q);
        let l = varint_len(q);
        assert(v == 128 * q + v % 128);
        assert(128 * (q + 1) <= 128 * pow128(l)) by (nonlinear_arith)
            requires
                q + 1 <= pow128(l),
        ;
        assert(v < 128 * (q + 1));
        assert(128 * pow128(l) == pow128(l + 1));
        if l > 1 {
            assert(128 * pow128((l - 1) as nat) <= 128 * q) by (nonlinear_arith)
                requires
                    pow128((l - 1) as nat) <= q,
            ;
            assert(pow128(l) == 128 * pow128((l - 1) as nat));
        } else {
            assert(pow128(1) == 128 * pow128(0));
        }
    }
}

/// Anything below `pow128(n)` encodes in at most `n` bytes.
pub proof fn lemma_varint_len_le(v: nat, n: nat)
    requires
        n >= 1,
        v < pow128(n),
    ensures
        varint_len(v) <= n,
    decreases n,
{
    if v >= 128 {
        let q = v / 128;
        assert(pow128(n) == 128 * pow128((n - 1) as nat));
        assert(q < pow128((n - 1) as nat)) by (nonlinear_arith)
            requires
                q == v / 128,
                v < 128 * pow128((n - 1) as nat),
        ;
        if n == 1 {
            assert(pow128(0) == 1);
            assert(false);
        }
        lemma_varint_len_le(q, (n - 1) as nat);
    }
}

/// Every `u64` encodes in at most ten bytes, every `u32` in at most five.
pub proof fn lemma_varint_len_bounds(v: nat)
    ensures
        v < 0x10000000000000000 ==> varint_len(v) <= 10,
        v < 0x100000000 ==> varint_len(v) <= 5,
{
    lemma_pow128_values();
    if v < 0x100000000 {
        lemma_varint_len_le(v, 5);
        lemma_varint_len_le(v, 10);
    } else if v < 0x10000000000000000 {
        lemma_varint_len_le(v, 10);
    }
}

/// The powers of 128 the width bounds rest on.
proof fn lemma_pow128_values()
    ensures
        pow128(5) == 0x800000000,
        pow128(10) == 0x400000000000000000,
{
    reveal_with_fuel(pow128, 12);
    assert(pow128(0) == 1);
    assert(pow128(1) == 128);
    assert(pow128(2) == 0x4000);
    assert(pow128(3) == 0x200000);
    assert(pow128(4) == 0x10000000);
    assert(pow128(5) == 0x800000000);
    assert(pow128(6) == 0x40000000000);
    assert(pow128(7) == 0x2000000000000);
    assert(pow128(8) == 0x100000000000000);
    assert(pow128(9) == 0x8000000000000000);
    assert(pow128(10) == 0x400000000000000000);
}

/// Appends the varint encoding of `v` to `buff` and returns how many bytes
/// were appended: one byte per 7-bit group, at most five.
pub fn put_varint32(buff: &mut Vec<u8>, v: u32) -> (bytes: usize)
    ensures
        final(buff)@ == old(buff)@ + varint_encoding(v as nat),
        bytes == varint_len(v as nat),
{
    proof {
        lemma_div_chain32(v as nat);
        lemma_varint_encoding_len(v as nat);
    }
    let ghost n = v as nat;
    if v < 128 {
        buff.push(v as u8);
        proof {
            assert(buff@ =~= old(buff)@ + varint_encoding(n));
        }
        1
    } else if v < 16384 {
        buff.push((128 + v % 128) as u8);
        buff.push((v / 128) as u8);
        proof {
            assert(varint_encoding(n) == seq![(128 + n % 128) as u8] + varint_encoding(n / 128));
            assert(varint_encoding(n / 128) == seq![(n / 128) as u8]);
            assert(buff@ =~= old(buff)@ + varint_encoding(n));
        }
        2
    } else if v < 2097152 {
        buff.push((128 + v % 128) as u8);
        buff.push((128 + (v / 128) % 128) as u8);
        buff.push((v / 16384) as u8);
        proof {
            assert(varint_encoding(n) == seq![(128 + n % 128) as u8] + varint_encoding(n / 128));
            assert(varint_encoding(n / 128) == seq![(128 + (n / 128) % 128) as u8]
                + varint_encoding(n / 16384));
            assert(varint_encoding(n / 16384) == seq![(n / 16384) as u8]);
            assert(buff@ =~= old(buff)@ + varint_encoding(n));
        }
        3
    } else if v < 268435456 {
        buff.push((128 + v % 128) as u8);
        buff.push((128 + (v / 128) % 128) as u8);
        buff.push((128 + (v / 16384) % 128) as u8);
        buff.push((v / 2097152) as u8);
        proof {
            assert(varint_encoding(n) == seq![(128 + n % 128) as u8] + varint_encoding(n / 128));
            assert(varint_encoding(n / 128) == seq![(128 + (n / 128) % 128) as u8]
                + varint_encoding(n / 16384));
            assert(varint_encoding(n / 16384) == seq![(128 + (n / 16384) % 128) as u8]
                + varint_encoding(n / 2097152));
            assert(varint_encoding(n / 2097152) == seq![(n / 2097152) as u8]);
            assert(buff@ =~= old(buff)@ + varint_encoding(n));
        }
        4
    } else {
        buff.push((128 + v % 128) as u8);
        buff.push((128 + (v / 128) % 128) as u8);
        buff.push((128 + (v / 16384) % 128) as u8);
        buff.push((128 + (v / 2097152) % 128) as u8);
        buff.push((v / 268435456) as u8);
        proof {
            assert(varint_encoding(n) == seq![(128 + n % 128) as u8] + varint_encoding(n / 128));
            assert(varint_encoding(n / 128) == seq![(128 + (n / 128) % 128) as u8]
                + varint_encoding(n / 16384));
            assert(varint_encoding(n / 16384) == seq![(128 + (n / 16384) % 128) as u8]
                + varint_encoding(n / 2097152));
            assert(varint_encoding(n / 2097152) == seq![(128 + (n / 2097152) % 128) as u8]
                + varint_encoding(n / 268435456));
            assert(varint_encoding(n / 268435456) == seq![(n / 268435456) as u8]);
            assert(buff@ =~= old(buff)@ + varint_encoding(n));
        }
        5
    }
}

/// Dividing by 128 step by step equals dividing by the matching power.
proof fn lemma_div_chain32(v: nat)
    ensures
        v / 128 / 128 == v / 16384,
        v / 128 / 128 / 128 == v / 2097152,
        v / 128 / 128 / 128 / 128 == v / 268435456,
{
    assert(v / 128 / 128 == v / 16384) by (nonlinear_arith);
    assert(v / 16384 / 128 == v / 2097152) by (nonlinear_arith);
    assert(v / 2097152 / 128 == v / 268435456) by (nonlinear_arith);
}

/// Appends the varint encoding of `v` to `buff` and returns how many bytes
/// were appended: one byte per 7-bit group, at most ten.
pub fn put_varint64(buff: &mut Vec<u8>, v: u64) -> (bytes: usize)
    ensures
        final(buff)@ == old(buff)@ + varint_encoding(v as nat),
        bytes == varint_len(v as nat),
{
    proof {
        lemma_varint_len_bounds(v as nat);
        lemma_varint_encoding_len(v as nat);
    }
    let mut x = v;
    let mut bytes: usize = 0;
    let ghost mut emitted: Seq<u8> = Seq::empty();
    while x >= 128
        invariant
            buff@ == old(buff)@ + emitted,
            emitted + varint_encoding(x as nat) == varint_encoding(v as nat),
            bytes + varint_len(x as nat) == varint_len(v as nat),
            varint_len(v as nat) <= 10,
            varint_len(x as nat) >= 1,
        decreases x,
    {
        let byte = (128 + x % 128) as u8;
        buff.push(byte);
        proof {
            assert(varint_encoding(x as nat) == seq![byte] + varint_encoding(x as nat / 128));
            assert((emitted + seq![byte]) + varint_encoding(x as nat / 128) =~= emitted + (
            seq![byte] + varint_encoding(x as nat / 128)));
            emitted = emitted + seq![byte];
            lemma_varint_encoding_len(x as nat / 128);
        }
        x = x / 128;
        bytes = bytes + 1;
        proof {
            assert(buff@ =~= old(buff)@ + emitted);
        }
    }
    buff.push(x as u8);
    proof {
        assert(varint_encoding(x as nat) == seq![x as u8]);
        assert(buff@ =~= old(buff)@ + varint_encoding(v as nat));
    }
    bytes + 1
}


/// Result of reading a varint32 from the front of a slice: the remaining
/// bytes and the decoded value.
pub struct FallbackResult<'a> {
    pub slice: &'a [u8],
    pub value: u32,
}

/// Reads the varint at the front of `slice`, allowing at most `max_bytes`
/// groups. Returns the value and the byte count; `None` when no
/// terminating byte occurs in the budget or the value does not fit a
/// `u64`.
fn read_varint_raw(slice: &[u8], max_bytes: usize) -> (r: Option<(u64, usize)>)
    requires
        1 <= max_bytes <= 10,
    ensures
        match r {
            Some(p) => {
                &&& varint_parse(slice@, max_bytes as nat) == Some((p.0 as nat, p.1 as nat))
                &&& 1 <= p.1 <= max_bytes
                &&& p.1 <= slice@.len()
            },
            None => match varint_parse(slice@, max_bytes as nat) {
                Some(q) => q.0 > 0xffffffffffffffff,
                None => true,
            },
        },
{
    proof {
        lemma_pow128_values();
    }
    let mut result: u64 = 0;
    let mut pw: u64 = 1;
    let mut i: usize = 0;
    proof {
        assert(slice@.skip(0) =~= slice@);
    }
    loop
        invariant
            i < max_bytes,
            1 <= max_bytes <= 10,
            i <= slice@.len(),
            pw == pow128(i as nat),
            pw <= 0x8000000000000000,
            result < pw,
            forall|j: int| 0 <= j < i ==> slice@[j] >= 128,
            match varint_parse(slice@.skip(i as int), (max_bytes - i) as nat) {
                Some(p) => varint_parse(slice@, max_bytes as nat) == Some(
                    ((result + pw * p.0) as nat, (p.1 + i) as nat),
                ),
                None => varint_parse(slice@, max_bytes as nat) is None,
            },
        decreases max_bytes - i,
    {
        if i >= slice.len() {
            proof {
                assert(slice@.skip(i as int).len() == 0);
            }
            return None;
        }
        let byte = slice[i];
        proof {
            assert(slice@.skip(i as int)[0] == slice@[i as int]);
        }
        if byte < 128 {
            // Terminating byte: the value is complete.
            proof {
                assert(varint_parse(slice@.skip(i as int), (max_bytes - i) as nat) == Some(
                    (byte as nat, 1 as nat),
                ));
            }
            if (byte as u64) > (0xffffffffffffffffu64 - result) / pw {
                // The final group pushes the value past 64 bits.
                proof {
                    lemma_overflow_check(result, pw, byte as u64);
                }
                return None;
            }
            proof {
                lemma_no_overflow_check(result, pw, byte as u64);
            }
            let value = result + pw * (byte as u64);
            return Some((value, i + 1));
        }
        // Continuation byte: seven more bits to accumulate.
        if i + 1 >= max_bytes {
            // No room is left for a terminating byte.
            proof {
                lemma_varint_parse_exhausted(slice@, i as nat, max_bytes as nat);
            }
            return None;
        }
        proof {
            let s = slice@;
            let tail = s.skip(i as int);
            assert(tail.skip(1) =~= s.skip(i + 1));
            let c = (byte - 128) as u64;
            lemma_pow128_step(i as nat, (max_bytes - 1) as nat);
            assert(result + pw * c < pw * 128) by (nonlinear_arith)
                requires
                    result < pw,
                    c < 128,
                    pw >= 1,
            ;
            match varint_parse(s.skip(i + 1), (max_bytes - i - 1) as nat) {
                Some(p) => {
                    assert(varint_parse(tail, (max_bytes - i) as nat) == Some(
                        (((tail[0] - 128) + 128 * p.0) as nat, (p.1 + 1) as nat),
                    ));
                    assert((result + pw * c) + (pw * 128) * p.0 == result + pw * (c + 128
                        * p.0)) by (nonlinear_arith);
                },
                None => {
                    assert(varint_parse(tail, (max_bytes - i) as nat) is None);
                },
            }
        }
        result = result + pw * ((byte - 128) as u64);
        pw = pw * 128;
        i = i + 1;
    }
}

/// Multiplying a power of 128 below the budget by 128 stays in a `u64`.
proof fn lemma_pow128_step(i: nat, cap: nat)
    requires
        i < cap,
        cap <= 9,
    ensures
        128 * pow128(i) == pow128(i + 1),
        pow128(i + 1) <= 0x8000000000000000,
{
    lemma_pow128_increases(i + 1, 9);
    assert(pow128(9) == 0x8000000000000000) by {
        lemma_pow128_values();
        assert(pow128(10) == 128 * pow128(9));
    }
}

/// `pow128` is monotone.
proof fn lemma_pow128_increases(a: nat, b: nat)
    requires
        a <= b,
    ensures
        pow128(a) <= pow128(b),
    decreases b,
{
    if a < b {
        lemma_pow128_increases(a, (b - 1) as nat);
        lemma_pow128_pos((b - 1) as nat);
        assert(pow128((b - 1) as nat) <= 128 * pow128((b - 1) as nat)) by (nonlinear_arith)
            requires
                pow128((b - 1) as nat) >= 1,
        ;
        assert(pow128(b) == 128 * pow128((b - 1) as nat));
    }
}

/// `pow128` is positive.
proof fn lemma_pow128_pos(n: nat)
    ensures
        pow128(n) >= 1,
    decreases n,
{
    if n > 0 {
        lemma_pow128_pos((n - 1) as nat);
    }
}

/// When the final-group test fails, the decoded value overflows 64 bits.
proof fn lemma_overflow_check(result: u64, pw: u64, byte: u64)
    requires
        byte > (0xffffffffffffffff - result) / (pw as int),
        pw >= 1,
    ensures
        result + pw * byte > 0xffffffffffffffff,
{
    assert(result + pw * byte > 0xffffffffffffffff) by (nonlinear_arith)
        requires
            byte > (0xffffffffffffffff - result) / (pw as int),
            pw >= 1,
            result <= 0xffffffffffffffff,
    ;
}

/// When the final-group test passes, the sum fits in 64 bits.
proof fn lemma_no_overflow_check(result: u64, pw: u64, byte: u64)
    requires
        byte <= (0xffffffffffffffff - result) / (pw as int),
        pw >= 1,
    ensures
        result + pw * byte <= 0xffffffffffffffff,
{
    assert(result + pw * byte <= 0xffffffffffffffff) by (nonlinear_arith)
        requires
            byte <= (0xffffffffffffffff - result) / (pw as int),
            pw >= 1,
    ;
}

/// A run of continuation bytes filling the whole budget leaves no room for
/// a terminating byte: parsing fails.
proof fn lemma_varint_parse_exhausted(s: Seq<u8>, i: nat, max: nat)
    requires
        forall|j: int| 0 <= j <= i ==> 0 <= j < s.len() && s[j] >= 128,
        i + 1 >= max,
        i < s.len(),
    ensures
        varint_parse(s, max) is None,
    decreases max,
{
    if max > 0 {
        assert(s[0] >= 128);
        if i == 0 {
            assert(max == 1);
            assert(varint_parse(s.skip(1), 0) is None);
        } else {
            assert(forall|j: int| 0 <= j < s.skip(1).len() ==> s.skip(1)[j] == s[j + 1]);
            lemma_varint_parse_exhausted(s.skip(1), (i - 1) as nat, (max - 1) as nat);
        }
    }
}

/// Reads the leading varint64 from `slice`: the remaining bytes and the
/// value. Fails when the slice is exhausted, when no terminating byte
/// occurs within ten bytes, or when the stored groups exceed 64 bits.
pub fn get_varint64<'a>(slice: &'a [u8]) -> (r: RubbleResult<(&'a [u8], u64)>)
    ensures
        r is Ok <==> (varint_parse(slice@, 10) is Some && (varint_parse(slice@, 10)->0).0
            <= 0xffffffffffffffff),
        r is Ok ==> {
            let (val, n) = varint_parse(slice@, 10)->0;
            &&& r->Ok_0.1 == val
            &&& r->Ok_0.0@ == slice@.skip(n as int)
            &&& 1 <= n <= 10
            &&& n <= slice@.len()
        },
        r is Err ==> r->Err_0 matches RubbleError::Status(Status::IOError(_)),
{
    match read_varint_raw(slice, 10) {
        Some((value, n)) => {
            let rest = vstd::slice::slice_subrange(slice, n, slice.len());
            Ok((rest, value))
        },
        None => Err(
            RubbleError::Status(Status::IOError(String::from_str("unable to read varint64"))),
        ),
    }
}

/// Reads the leading varint32 from `slice`: the remaining bytes and the
/// value. Fails when the slice is exhausted, when no terminating byte
/// occurs within five bytes, or when the stored groups exceed 32 bits.
pub fn get_varint32_ptr_fallback<'a>(p: &'a [u8]) -> (r: RubbleResult<FallbackResult<'a>>)
    ensures
        r is Ok <==> (varint_parse(p@, 5) is Some && (varint_parse(p@, 5)->0).0 <= 0xffffffff),
        r is Ok ==> {
            let (val, n) = varint_parse(p@, 5)->0;
            &&& r->Ok_0.value == val
            &&& r->Ok_0.slice@ == p@.skip(n as int)
            &&& 1 <= n <= 5
            &&& n <= p@.len()
        },
        r is Err ==> r->Err_0 matches RubbleError::Other(_),
{
    match read_varint_raw(p, 5) {
        Some((value, n)) => {
            if value <= 0xffffffffu64 {
                let rest = vstd::slice::slice_subrange(p, n, p.len());
                Ok(FallbackResult { slice: rest, value: value as u32 })
            } else {
                Err(RubbleError::Other("varint32 value does not fit in 32 bits"))
            }
        },
        None => Err(RubbleError::Other("malformed varint32")),
    }
}

/// Four bytes are determined by their fixed 32-bit value: re-encoding the
/// decoded value gives the same bytes back.
pub proof fn lemma_fixed32_value_injective(e: Endian, s: Seq<u8>)
    requires
        s.len() == 4,
    ensures
        fixed32_bytes(e, fixed32_value(e, s)) == s,
{
    let b0 = s[0];
    let b1 = s[1];
    let b2 = s[2];
    let b3 = s[3];
    let v = fixed32_value(e, s);
    match e {
        Endian::Little => {
            assert(v == b0 + b1 * 256 + b2 * 65536 + b3 * 16777216);
            assert(v % 256 == b0 && (v / 256) % 256 == b1 && (v / 65536) % 256 == b2 && (v
                / 16777216) % 256 == b3) by (bit_vector)
                requires
                    v == (b0 as u32) + (b1 as u32) * 256 + (b2 as u32) * 65536 + (b3 as u32)
                        * 16777216,
            ;
            assert(fixed32_bytes(e, v) =~= s);
        },
        Endian::Big => {
            assert(v == b3 + b2 * 256 + b1 * 65536 + b0 * 16777216);
            assert(v % 256 == b3 && (v / 256) % 256 == b2 && (v / 65536) % 256 == b1 && (v
                / 16777216) % 256 == b0) by (bit_vector)
                requires
                    v == (b3 as u32) + (b2 as u32) * 256 + (b1 as u32) * 65536 + (b0 as u32)
                        * 16777216,
            ;
            assert(fixed32_bytes(e, v) =~= s);
        },
    }
}

/// True iff `ch` is a decimal digit.
pub open spec fn is_decimal_digit(ch: char) -> bool {
    48 <= ch as u32 <= 57
}

/// The numeric value of a digit character.
pub open spec fn char_digit(ch: char) -> nat {
    (ch as u32 - 48) as nat
}

/// How many decimal digits stand at the front of `s`.
pub open spec fn leading_digits(s: Seq<char>) -> nat
    decreases s.len(),
{
    if s.len() == 0 || !is_decimal_digit(s[0]) {
        0
    } else {
        (1 + leading_digits(s.skip(1))) as nat
    }
}

/// The value of the first `p` characters of `s` read as a decimal
/// number, most significant digit first.
pub open spec fn digits_value(s: Seq<char>, p: nat) -> nat
    decreases p,
{
    if p == 0 {
        0
    } else {
        digits_value(s, (p - 1) as nat) * 10 + char_digit(s[p - 1])
    }
}

/// The first `p` digits of a digit run are themselves a digit run.
pub proof fn lemma_leading_digits_bound(s: Seq<char>, i: nat)
    requires
        i <= s.len(),
        forall|j: int| 0 <= j < i ==> is_decimal_digit(#[trigger] s[j]),
        i == s.len() || !is_decimal_digit(s[i as int]),
    ensures
        leading_digits(s) == i,
    decreases i,
{
    if i == 0 {
    } else {
        assert(is_decimal_digit(s[0]));
        assert forall|j: int| 0 <= j < i - 1 implies is_decimal_digit(#[trigger] s.skip(1)[j]) by {
            assert(s.skip(1)[j] == s[j + 1]);
        }
        if i < s.len() {
            assert(s.skip(1)[i - 1] == s[i as int]);
        }
        lemma_leading_digits_bound(s.skip(1), (i - 1) as nat);
    }
}

/// Result of reading a decimal number from the front of a string: the
/// value and how many characters it took.
pub struct ParseU64Result {
    pub number: u64,
    pub offset: usize,
}

/// Parses the decimal number at the front of `text`. Succeeds when the
/// text starts with at least one digit and the digit run fits a `u64`;
/// the consumed characters are reported so the caller can carry on past
/// the number.
pub fn parse_u64(text: &str) -> (r: RubbleResult<ParseU64Result>)
    ensures
        ({
            let ld = leading_digits(text@);
            &&& (r is Ok <==> (ld >= 1 && digits_value(text@, ld) <= 0xffffffffffffffff))
            &&& r is Ok ==> r->Ok_0.number == digits_value(text@, ld) && r->Ok_0.offset == ld
            &&& r is Ok ==> r->Ok_0.offset <= text@.len()
        }),
{
    let n_chars = text.unicode_len();
    let mut i: usize = 0;
    let mut number: u64 = 0;
    while i < n_chars && digit_at(text, i)
        invariant
            i <= n_chars,
            n_chars == text@.len(),
            forall|j: int| 0 <= j < i ==> is_decimal_digit(#[trigger] text@[j]),
            number == digits_value(text@, i as nat),
        decreases n_chars - i,
    {
        let c = text.get_char(i);
        let d = (c as u32 - 48) as u64;
        if number > (0xffffffffffffffffu64 - d) / 10 {
            // The next digit pushes the value past 64 bits.
            proof {
                lemma_decimal_overflow(number, d);
                lemma_leading_digits_at_least(text@, (i + 1) as nat);
                lemma_digits_value_grows(text@, (i + 1) as nat, leading_digits(text@));
            }
            return Err(RubbleError::Other("decimal number does not fit in 64 bits"));
        }
        proof {
            lemma_decimal_no_overflow(number, d);
        }
        number = number * 10 + d;
        i = i + 1;
    }
    proof {
        lemma_leading_digits_bound(text@, i as nat);
    }
    if i == 0 {
        return Err(RubbleError::Other("no integer found in string"));
    }
    Ok(ParseU64Result { number, offset: i })
}

/// True iff the character at `i` is a decimal digit.
fn digit_at(text: &str, i: usize) -> (r: bool)
    requires
        i < text@.len(),
    ensures
        r == is_decimal_digit(text@[i as int]),
{
    let c = text.get_char(i);
    (c as u32) >= 48 && (c as u32) <= 57
}

/// When the digit test fails, the grown value overflows 64 bits.
proof fn lemma_decimal_overflow(number: u64, d: u64)
    requires
        number > (0xffffffffffffffff - d) / 10,
        d <= 9,
    ensures
        number * 10 + d > 0xffffffffffffffff,
{
    assert(number * 10 + d > 0xffffffffffffffff) by (nonlinear_arith)
        requires
            number > (0xffffffffffffffff - d) / 10,
            d <= 9,
    ;
}

/// When the digit test passes, the grown value fits 64 bits.
proof fn lemma_decimal_no_overflow(number: u64, d: u64)
    requires
        number <= (0xffffffffffffffff - d) / 10,
        d <= 9,
    ensures
        number * 10 + d <= 0xffffffffffffffff,
{
    assert(number * 10 + d <= 0xffffffffffffffff) by (nonlinear_arith)
        requires
            number <= (0xffffffffffffffff - d) / 10,
            d <= 9,
    ;
}

/// A string whose first characters are digits has at least that many
/// leading digits.
proof fn lemma_leading_digits_at_least(s: Seq<char>, i: nat)
    requires
        i <= s.len(),
        forall|j: int| 0 <= j < i ==> is_decimal_digit(#[trigger] s[j]),
    ensures
        leading_digits(s) >= i,
    decreases i,
{
    if i > 0 {
        assert forall|j: int| 0 <= j < i - 1 implies is_decimal_digit(#[trigger] s.skip(1)[j]) by {
            assert(s.skip(1)[j] == s[j + 1]);
        }
        lemma_leading_digits_at_least(s.skip(1), (i - 1) as nat);
    }
}

/// Reading more digits never shrinks the value.
proof fn lemma_digits_value_grows(s: Seq<char>, p1: nat, p2: nat)
    requires
        p1 <= p2,
    ensures
        digits_value(s, p1) <= digits_value(s, p2),
    decreases p2,
{
    if p1 < p2 {
        lemma_digits_value_grows(s, p1, (p2 - 1) as nat);
        assert(digits_value(s, (p2 - 1) as nat) * 10 >= digits_value(s, (p2 - 1) as nat))
            by (nonlinear_arith)
            requires
                digits_value(s, (p2 - 1) as nat) >= 0,
        ;
    }
}

} // verus!
