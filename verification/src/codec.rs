//! Byte-level encoders for the artifact format.
//!
//! Every multi-byte integer is little-endian. Signed positions are stored
//! with a fixed offset so that the byte form of a coordinate is a plain
//! unsigned number. Byte strings are length-prefixed.

use vstd::prelude::*;

verus! {

/// The offset added to a signed 32-bit coordinate before it is stored.
pub const I32_OFFSET: u64 = 2147483648;

/// Little-endian bytes of an unsigned 32-bit value.
pub open spec fn enc_u32(x: int) -> Seq<u8> {
    seq![
        (x % 256) as u8,
        ((x / 256) % 256) as u8,
        ((x / 65536) % 256) as u8,
        ((x / 16777216) % 256) as u8,
    ]
}

/// Little-endian bytes of an unsigned 64-bit value.
pub open spec fn enc_u64(x: int) -> Seq<u8> {
    seq![
        (x % 256) as u8,
        ((x / 256) % 256) as u8,
        ((x / 65536) % 256) as u8,
        ((x / 16777216) % 256) as u8,
        ((x / 4294967296) % 256) as u8,
        ((x / 1099511627776) % 256) as u8,
        ((x / 281474976710656) % 256) as u8,
        ((x / 72057594037927936) % 256) as u8,
    ]
}

/// Bytes of a signed 32-bit coordinate: the value shifted into unsigned
/// range by `I32_OFFSET`.
pub open spec fn enc_i32(x: int) -> Seq<u8> {
    enc_u32(x + I32_OFFSET)
}

/// Bytes of a length-prefixed byte string.
pub open spec fn enc_bytes(b: Seq<u8>) -> Seq<u8> {
    enc_u64(b.len() as int) + b
}

/// The value of the eight little-endian bytes at offset `i`.
pub open spec fn dec_u64(b: Seq<u8>, i: int) -> int {
    b[i] + b[i + 1] * 256 + b[i + 2] * 65536 + b[i + 3] * 16777216 + b[i + 4] * 4294967296 + b[i
        + 5] * 1099511627776 + b[i + 6] * 281474976710656 + b[i + 7] * 72057594037927936
}

/// Eight little-endian bytes hold their value back, wherever they stand
/// in a byte string.
pub proof fn lemma_dec_enc_u64(pre: Seq<u8>, x: int, rest: Seq<u8>)
    requires
        0 <= x < 0x1_0000_0000_0000_0000,
    ensures
        dec_u64(pre + enc_u64(x) + rest, pre.len() as int) == x,
{
    let b = pre + enc_u64(x) + rest;
    let n = pre.len() as int;
    assert(b[n] == enc_u64(x)[0]);
    assert(b[n + 1] == enc_u64(x)[1]);
    assert(b[n + 2] == enc_u64(x)[2]);
    assert(b[n + 3] == enc_u64(x)[3]);
    assert(b[n + 4] == enc_u64(x)[4]);
    assert(b[n + 5] == enc_u64(x)[5]);
    assert(b[n + 6] == enc_u64(x)[6]);
    assert(b[n + 7] == enc_u64(x)[7]);
    vstd::arithmetic::div_mod::lemma_breakdown(x, 256, 256);
    vstd::arithmetic::div_mod::lemma_breakdown(x, 65536, 256);
    vstd::arithmetic::div_mod::lemma_breakdown(x, 16777216, 256);
    vstd::arithmetic::div_mod::lemma_breakdown(x, 4294967296, 256);
    vstd::arithmetic::div_mod::lemma_breakdown(x, 1099511627776, 256);
    vstd::arithmetic::div_mod::lemma_breakdown(x, 281474976710656, 256);
    vstd::arithmetic::div_mod::lemma_breakdown(x, 72057594037927936, 256);
    vstd::arithmetic::div_mod::lemma_small_mod(x as nat, 0x1_0000_0000_0000_0000);
}

/// Appends the little-endian bytes of `x` to `out`.
pub fn emit_u32(out: &mut Vec<u8>, x: u32)
    ensures
        final(out)@ == old(out)@ + enc_u32(x as int),
{
    out.push((x % 256) as u8);
    out.push(((x / 256) % 256) as u8);
    out.push(((x / 65536) % 256) as u8);
    out.push(((x / 16777216) % 256) as u8);
    assert(out@ =~= old(out)@ + enc_u32(x as int));
}

/// Appends the little-endian bytes of `x` to `out`.
pub fn emit_u64(out: &mut Vec<u8>, x: u64)
    ensures
        final(out)@ == old(out)@ + enc_u64(x as int),
{
    out.push((x % 256) as u8);
    out.push(((x / 256) % 256) as u8);
    out.push(((x / 65536) % 256) as u8);
    out.push(((x / 16777216) % 256) as u8);
    out.push(((x / 4294967296) % 256) as u8);
    out.push(((x / 1099511627776) % 256) as u8);
    out.push(((x / 281474976710656) % 256) as u8);
    out.push(((x / 72057594037927936) % 256) as u8);
    assert(out@ =~= old(out)@ + enc_u64(x as int));
}

/// Appends the offset byte form of a signed coordinate to `out`.
pub fn emit_i32(out: &mut Vec<u8>, x: i32)
    ensures
        final(out)@ == old(out)@ + enc_i32(x as int),
{
    let shifted: u64 = (x as i64 + I32_OFFSET as i64) as u64;
    assert(shifted <= u32::MAX);
    let u: u32 = shifted as u32;
    assert(u as int == x as int + I32_OFFSET);
    emit_u32(out, u);
}

/// Appends the length-prefixed bytes of `b` to `out`.
pub fn emit_bytes(out: &mut Vec<u8>, b: &Vec<u8>)
    ensures
        final(out)@ == old(out)@ + enc_bytes(b@),
{
    emit_u64(out, b.len() as u64);
    let ghost mid = out@;
    let mut i: usize = 0;
    while i < b.len()
        invariant
            i <= b@.len(),
            out@ == mid + b@.take(i as int),
        decreases b@.len() - i,
    {
        let byte = b[i];
        out.push(byte);
        assert(out@ =~= mid + b@.take(i as int + 1));
        i = i + 1;
    }
    assert(b@.take(b@.len() as int) =~= b@);
    assert(out@ =~= old(out)@ + enc_bytes(b@));
}

} // verus!
