//! Little-endian byte encoding of the fixed-width integers the wire
//! format uses.

use vstd::prelude::*;

verus! {

/// The two little-endian bytes of a 16-bit value.
pub open spec fn le16(x: u16) -> Seq<u8> {
    seq![(x & 0xFF) as u8, (x >> 8) as u8]
}

/// The four little-endian bytes of a 32-bit value.
pub open spec fn le32(x: u32) -> Seq<u8> {
    seq![
        (x & 0xFF) as u8,
        ((x >> 8) & 0xFF) as u8,
        ((x >> 16) & 0xFF) as u8,
        ((x >> 24) & 0xFF) as u8,
    ]
}

/// The eight little-endian bytes of a 64-bit value.
pub open spec fn le64(x: u64) -> Seq<u8> {
    seq![
        (x & 0xFF) as u8,
        ((x >> 8) & 0xFF) as u8,
        ((x >> 16) & 0xFF) as u8,
        ((x >> 24) & 0xFF) as u8,
        ((x >> 32) & 0xFF) as u8,
        ((x >> 40) & 0xFF) as u8,
        ((x >> 48) & 0xFF) as u8,
        ((x >> 56) & 0xFF) as u8,
    ]
}

/// Append the two bytes of a 16-bit value.
pub fn push_u16(out: &mut Vec<u8>, x: u16)
    ensures
        final(out)@ == old(out)@ + le16(x),
{
    let ghost o = out@;
    out.push((x & 0xFF) as u8);
    out.push((x >> 8) as u8);
    proof {
        assert(out@ =~= o + le16(x));
    }
}

/// Append the four bytes of a 32-bit value.
pub fn push_u32(out: &mut Vec<u8>, x: u32)
    ensures
        final(out)@ == old(out)@ + le32(x),
{
    let ghost o = out@;
    out.push((x & 0xFF) as u8);
    out.push(((x >> 8) & 0xFF) as u8);
    out.push(((x >> 16) & 0xFF) as u8);
    out.push(((x >> 24) & 0xFF) as u8);
    proof {
        assert(out@ =~= o + le32(x));
    }
}

/// Append the eight bytes of a 64-bit value.
pub fn push_u64(out: &mut Vec<u8>, x: u64)
    ensures
        final(out)@ == old(out)@ + le64(x),
{
    let ghost o = out@;
    out.push((x & 0xFF) as u8);
    out.push(((x >> 8) & 0xFF) as u8);
    out.push(((x >> 16) & 0xFF) as u8);
    out.push(((x >> 24) & 0xFF) as u8);
    out.push(((x >> 32) & 0xFF) as u8);
    out.push(((x >> 40) & 0xFF) as u8);
    out.push(((x >> 48) & 0xFF) as u8);
    out.push(((x >> 56) & 0xFF) as u8);
    proof {
        assert(out@ =~= o + le64(x));
    }
}

/// The 16-bit value two little-endian bytes spell.
pub open spec fn u16_of(b0: u8, b1: u8) -> u16 {
    (b0 as u16) | ((b1 as u16) << 8)
}

/// Read the 16-bit value whose bytes sit at `pos`.
pub fn read_u16(bytes: &Vec<u8>, pos: usize) -> (r: u16)
    requires
        pos + 2 <= bytes@.len(),
    ensures
        le16(r) == bytes@.subrange(pos as int, pos + 2),
        r == u16_of(bytes@[pos as int], bytes@[pos + 1]),
{
    let total = bytes.len();
    let b0 = bytes[pos];
    let b1 = bytes[pos + 1];
    let r = (b0 as u16) | ((b1 as u16) << 8);
    proof {
        assert((((b0 as u16) | ((b1 as u16) << 8)) & 0xFF) as u8 == b0 && ((((b0 as u16) | ((
        b1 as u16) << 8)) >> 8) as u8) == b1) by (bit_vector);
        assert(le16(r) =~= bytes@.subrange(pos as int, pos + 2));
    }
    r
}

/// The 64-bit value eight little-endian bytes spell.
pub open spec fn u64_of(
    b0: u8,
    b1: u8,
    b2: u8,
    b3: u8,
    b4: u8,
    b5: u8,
    b6: u8,
    b7: u8,
) -> u64 {
    (b0 as u64) | ((b1 as u64) << 8) | ((b2 as u64) << 16) | ((b3 as u64) << 24) | ((b4 as u64)
        << 32) | ((b5 as u64) << 40) | ((b6 as u64) << 48) | ((b7 as u64) << 56)
}

/// Read the 64-bit value whose bytes sit at `pos`.
pub fn read_u64(bytes: &Vec<u8>, pos: usize) -> (r: u64)
    requires
        pos + 8 <= bytes@.len(),
    ensures
        le64(r) == bytes@.subrange(pos as int, pos + 8),
        r == u64_of(
            bytes@[pos as int],
            bytes@[pos + 1],
            bytes@[pos + 2],
            bytes@[pos + 3],
            bytes@[pos + 4],
            bytes@[pos + 5],
            bytes@[pos + 6],
            bytes@[pos + 7],
        ),
{
    let total = bytes.len();
    let b0 = bytes[pos];
    let b1 = bytes[pos + 1];
    let b2 = bytes[pos + 2];
    let b3 = bytes[pos + 3];
    let b4 = bytes[pos + 4];
    let b5 = bytes[pos + 5];
    let b6 = bytes[pos + 6];
    let b7 = bytes[pos + 7];
    let r = (b0 as u64) | ((b1 as u64) << 8) | ((b2 as u64) << 16) | ((b3 as u64) << 24) | ((
    b4 as u64) << 32) | ((b5 as u64) << 40) | ((b6 as u64) << 48) | ((b7 as u64) << 56);
    proof {
        let x = (b0 as u64) | ((b1 as u64) << 8) | ((b2 as u64) << 16) | ((b3 as u64) << 24) | ((
        b4 as u64) << 32) | ((b5 as u64) << 40) | ((b6 as u64) << 48) | ((b7 as u64) << 56);
        assert((x & 0xFF) as u8 == b0 && ((x >> 8) & 0xFF) as u8 == b1) by (bit_vector)
            requires
                x == (b0 as u64) | ((b1 as u64) << 8) | ((b2 as u64) << 16) | ((b3 as u64) << 24)
                    | ((b4 as u64) << 32) | ((b5 as u64) << 40) | ((b6 as u64) << 48) | ((
                b7 as u64) << 56),
        ;
        assert(((x >> 16) & 0xFF) as u8 == b2 && ((x >> 24) & 0xFF) as u8 == b3) by (bit_vector)
            requires
                x == (b0 as u64) | ((b1 as u64) << 8) | ((b2 as u64) << 16) | ((b3 as u64) << 24)
                    | ((b4 as u64) << 32) | ((b5 as u64) << 40) | ((b6 as u64) << 48) | ((
                b7 as u64) << 56),
        ;
        assert(((x >> 32) & 0xFF) as u8 == b4 && ((x >> 40) & 0xFF) as u8 == b5) by (bit_vector)
            requires
                x == (b0 as u64) | ((b1 as u64) << 8) | ((b2 as u64) << 16) | ((b3 as u64) << 24)
                    | ((b4 as u64) << 32) | ((b5 as u64) << 40) | ((b6 as u64) << 48) | ((
                b7 as u64) << 56),
        ;
        assert(((x >> 48) & 0xFF) as u8 == b6 && ((x >> 56) & 0xFF) as u8 == b7) by (bit_vector)
            requires
                x == (b0 as u64) | ((b1 as u64) << 8) | ((b2 as u64) << 16) | ((b3 as u64) << 24)
                    | ((b4 as u64) << 32) | ((b5 as u64) << 40) | ((b6 as u64) << 48) | ((
                b7 as u64) << 56),
        ;
        assert(le64(r) =~= bytes@.subrange(pos as int, pos + 8));
    }
    r
}

/// Equal 16-bit values have equal bytes, and equal bytes equal values.
pub proof fn lemma_le16_injective(a: u16, b: u16)
    requires
        le16(a) == le16(b),
    ensures
        a == b,
{
    assert(le16(a)[0] == le16(b)[0] && le16(a)[1] == le16(b)[1]);
    assert(((a & 0xFF) as u8 == (b & 0xFF) as u8 && (a >> 8) as u8 == (b >> 8) as u8) ==> a == b)
        by (bit_vector);
}

/// Equal 64-bit values have equal bytes, and equal bytes equal values.
pub proof fn lemma_le64_injective(a: u64, b: u64)
    requires
        le64(a) == le64(b),
    ensures
        a == b,
{
    assert(le64(a)[0] == le64(b)[0] && le64(a)[1] == le64(b)[1] && le64(a)[2] == le64(b)[2]
        && le64(a)[3] == le64(b)[3] && le64(a)[4] == le64(b)[4] && le64(a)[5] == le64(b)[5]
        && le64(a)[6] == le64(b)[6] && le64(a)[7] == le64(b)[7]);
    assert(((a & 0xFF) as u8 == (b & 0xFF) as u8 && ((a >> 8) & 0xFF) as u8 == ((b >> 8)
        & 0xFF) as u8 && ((a >> 16) & 0xFF) as u8 == ((b >> 16) & 0xFF) as u8 && ((a >> 24)
        & 0xFF) as u8 == ((b >> 24) & 0xFF) as u8 && ((a >> 32) & 0xFF) as u8 == ((b >> 32)
        & 0xFF) as u8 && ((a >> 40) & 0xFF) as u8 == ((b >> 40) & 0xFF) as u8 && ((a >> 48)
        & 0xFF) as u8 == ((b >> 48) & 0xFF) as u8 && ((a >> 56) & 0xFF) as u8 == ((b >> 56)
        & 0xFF) as u8) ==> a == b) by (bit_vector);
}

} // verus!
