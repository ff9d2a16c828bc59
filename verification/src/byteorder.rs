use vstd::prelude::*;

verus! {

// ---------------------------------------------------------------------------
// Big-endian byte layouts of the fixed-width integers used on the wire.
// ---------------------------------------------------------------------------

pub open spec fn u16_to_be(x: u16) -> Seq<u8> {
    seq![((x >> 8) & 0xff) as u8, (x & 0xff) as u8]
}

pub open spec fn u16_from_be(s: Seq<u8>) -> u16
    recommends
        s.len() == 2,
{
    ((s[0] as u16) << 8 | (s[1] as u16)) as u16
}

pub open spec fn u32_to_be(x: u32) -> Seq<u8> {
    seq![
        ((x >> 24) & 0xff) as u8,
        ((x >> 16) & 0xff) as u8,
        ((x >> 8) & 0xff) as u8,
        (x & 0xff) as u8,
    ]
}

pub open spec fn u32_from_be(s: Seq<u8>) -> u32
    recommends
        s.len() == 4,
{
    ((s[0] as u32) << 24 | (s[1] as u32) << 16 | (s[2] as u32) << 8 | (s[3] as u32)) as u32
}

pub open spec fn u64_to_be(x: u64) -> Seq<u8> {
    seq![
        ((x >> 56) & 0xff) as u8,
        ((x >> 48) & 0xff) as u8,
        ((x >> 40) & 0xff) as u8,
        ((x >> 32) & 0xff) as u8,
        ((x >> 24) & 0xff) as u8,
        ((x >> 16) & 0xff) as u8,
        ((x >> 8) & 0xff) as u8,
        (x & 0xff) as u8,
    ]
}

pub open spec fn u64_from_be(s: Seq<u8>) -> u64
    recommends
        s.len() == 8,
{
    ((s[0] as u64) << 56 | (s[1] as u64) << 48 | (s[2] as u64) << 40 | (s[3] as u64) << 32 | (
    s[4] as u64) << 24 | (s[5] as u64) << 16 | (s[6] as u64) << 8 | (s[7] as u64)) as u64
}

// Two's-complement bit patterns of the signed wire integers.

pub open spec fn i32_bits(x: i32) -> u32 {
    if x >= 0 {
        x as u32
    } else {
        (x + 0x1_0000_0000) as u32
    }
}

pub open spec fn i32_from_bits(b: u32) -> i32 {
    if b < 0x8000_0000 {
        b as i32
    } else {
        (b - 0x1_0000_0000) as i32
    }
}

pub open spec fn i64_bits(x: i64) -> u64 {
    if x >= 0 {
        x as u64
    } else {
        (x + 0x1_0000_0000_0000_0000) as u64
    }
}

pub open spec fn i64_from_bits(b: u64) -> i64 {
    if b < 0x8000_0000_0000_0000 {
        b as i64
    } else {
        (b - 0x1_0000_0000_0000_0000) as i64
    }
}

pub open spec fn i32_to_be(x: i32) -> Seq<u8> {
    u32_to_be(i32_bits(x))
}

pub open spec fn i64_to_be(x: i64) -> Seq<u8> {
    u64_to_be(i64_bits(x))
}

// ---------------------------------------------------------------------------
// Round-trip lemmas.
// ---------------------------------------------------------------------------



pub proof fn lemma_u32_be_roundtrip(x: u32)
    ensures
        u32_to_be(x).len() == 4,
        u32_from_be(u32_to_be(x)) == x,
{
    assert(((((x >> 24) & 0xff) as u8) as u32) << 24 | ((((x >> 16) & 0xff) as u8) as u32) << 16
        | ((((x >> 8) & 0xff) as u8) as u32) << 8 | (((x & 0xff) as u8) as u32) == x)
        by (bit_vector);
}





// ---------------------------------------------------------------------------
// Executable readers and writers.
// ---------------------------------------------------------------------------

pub fn write_u16_be(out: &mut Vec<u8>, x: u16)
    ensures
        final(out)@ == old(out)@ + u16_to_be(x),
{
    proof {
        assert((x >> 8) & 0xff < 256 && x & 0xff < 256) by (bit_vector);
    }
    out.push(((x >> 8) & 0xff) as u8);
    out.push((x & 0xff) as u8);
    proof {
        assert(out@ =~= old(out)@ + u16_to_be(x));
    }
}

pub fn write_u32_be(out: &mut Vec<u8>, x: u32)
    ensures
        final(out)@ == old(out)@ + u32_to_be(x),
{
    proof {
        assert((x >> 24) & 0xff < 256 && (x >> 16) & 0xff < 256 && (x >> 8) & 0xff < 256 && x
            & 0xff < 256)
            by (bit_vector);
    }
    out.push(((x >> 24) & 0xff) as u8);
    out.push(((x >> 16) & 0xff) as u8);
    out.push(((x >> 8) & 0xff) as u8);
    out.push((x & 0xff) as u8);
    proof {
        assert(out@ =~= old(out)@ + u32_to_be(x));
    }
}

pub fn write_u64_be(out: &mut Vec<u8>, x: u64)
    ensures
        final(out)@ == old(out)@ + u64_to_be(x),
{
    proof {
        assert((x >> 56) & 0xff < 256 && (x >> 48) & 0xff < 256 && (x >> 40) & 0xff < 256 && (x
            >> 32) & 0xff < 256 && (x >> 24) & 0xff < 256 && (x >> 16) & 0xff < 256 && (x >> 8)
            & 0xff < 256 && x & 0xff < 256)
            by (bit_vector);
    }
    out.push(((x >> 56) & 0xff) as u8);
    out.push(((x >> 48) & 0xff) as u8);
    out.push(((x >> 40) & 0xff) as u8);
    out.push(((x >> 32) & 0xff) as u8);
    out.push(((x >> 24) & 0xff) as u8);
    out.push(((x >> 16) & 0xff) as u8);
    out.push(((x >> 8) & 0xff) as u8);
    out.push((x & 0xff) as u8);
    proof {
        assert(out@ =~= old(out)@ + u64_to_be(x));
    }
}

/// Two's-complement bit pattern of an `i32`.
pub fn i32_to_bits(x: i32) -> (r: u32)
    ensures
        r == i32_bits(x),
{
    if x >= 0 {
        x as u32
    } else {
        ((x as i64) + 0x1_0000_0000) as u32
    }
}

/// The `i32` whose two's-complement bit pattern is `b`.
pub fn i32_of_bits(b: u32) -> (r: i32)
    ensures
        r == i32_from_bits(b),
{
    if b < 0x8000_0000 {
        b as i32
    } else {
        ((b as i64) - 0x1_0000_0000) as i32
    }
}

/// Two's-complement bit pattern of an `i64`.
pub fn i64_to_bits(x: i64) -> (r: u64)
    ensures
        r == i64_bits(x),
{
    if x >= 0 {
        x as u64
    } else {
        u64::MAX - ((-(x + 1)) as u64)
    }
}

/// The `i64` whose two's-complement bit pattern is `b`.
pub fn i64_of_bits(b: u64) -> (r: i64)
    ensures
        r == i64_from_bits(b),
{
    if b < 0x8000_0000_0000_0000 {
        b as i64
    } else {
        -((u64::MAX - b) as i64) - 1
    }
}

pub fn write_i32_be(out: &mut Vec<u8>, x: i32)
    ensures
        final(out)@ == old(out)@ + i32_to_be(x),
{
    write_u32_be(out, i32_to_bits(x));
}

pub fn write_i64_be(out: &mut Vec<u8>, x: i64)
    ensures
        final(out)@ == old(out)@ + i64_to_be(x),
{
    write_u64_be(out, i64_to_bits(x));
}

/// Reads the big-endian `u16` at `pos`.
pub fn read_u16_be(buf: &Vec<u8>, pos: usize) -> (r: u16)
    requires
        pos + 2 <= buf.len(),
    ensures
        r == u16_from_be(buf@.subrange(pos as int, pos + 2)),
{
    let b0 = buf[pos];
    let b1 = buf[pos + 1];
    proof {
        assert((b0 as u16) << 8 | (b1 as u16) < 0x10000) by (bit_vector);
        assert(buf@.subrange(pos as int, pos + 2)[0] == b0);
        assert(buf@.subrange(pos as int, pos + 2)[1] == b1);
    }
    (b0 as u16) << 8 | (b1 as u16)
}

/// Reads the big-endian `u32` at `pos`.
pub fn read_u32_be(buf: &Vec<u8>, pos: usize) -> (r: u32)
    requires
        pos + 4 <= buf.len(),
    ensures
        r == u32_from_be(buf@.subrange(pos as int, pos + 4)),
{
    let b0 = buf[pos];
    let b1 = buf[pos + 1];
    let b2 = buf[pos + 2];
    let b3 = buf[pos + 3];
    proof {
        let s = buf@.subrange(pos as int, pos + 4);
        assert(s[0] == b0 && s[1] == b1 && s[2] == b2 && s[3] == b3);
    }
    (b0 as u32) << 24 | (b1 as u32) << 16 | (b2 as u32) << 8 | (b3 as u32)
}

/// Reads the big-endian `u64` at `pos`.
pub fn read_u64_be(buf: &Vec<u8>, pos: usize) -> (r: u64)
    requires
        pos + 8 <= buf.len(),
    ensures
        r == u64_from_be(buf@.subrange(pos as int, pos + 8)),
{
    let b0 = buf[pos];
    let b1 = buf[pos + 1];
    let b2 = buf[pos + 2];
    let b3 = buf[pos + 3];
    let b4 = buf[pos + 4];
    let b5 = buf[pos + 5];
    let b6 = buf[pos + 6];
    let b7 = buf[pos + 7];
    proof {
        let s = buf@.subrange(pos as int, pos + 8);
        assert(s[0] == b0 && s[1] == b1 && s[2] == b2 && s[3] == b3 && s[4] == b4 && s[5] == b5
            && s[6] == b6 && s[7] == b7);
    }
    (b0 as u64) << 56 | (b1 as u64) << 48 | (b2 as u64) << 40 | (b3 as u64) << 32 | (b4 as u64)
        << 24 | (b5 as u64) << 16 | (b6 as u64) << 8 | (b7 as u64)
}

} // verus!
