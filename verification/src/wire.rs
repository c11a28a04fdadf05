//! Big-endian 32-bit length prefixes of the hstore wire format.
//!
//! Every multi-byte integer on the wire is a signed 32-bit value stored as
//! four big-endian bytes. The spec functions here give those four bytes a
//! numeric meaning; the executable functions read and write them and are
//! proved against the spec functions.

use vstd::prelude::*;
use vstd::slice::slice_index_get;

verus! {

/// The unsigned value held by four big-endian bytes.
pub open spec fn be_u32(b: Seq<u8>) -> u32
    recommends
        b.len() == 4,
{
    (b[0] as u32) << 24 | (b[1] as u32) << 16 | (b[2] as u32) << 8 | (b[3] as u32)
}

/// The signed (two's complement) value held by four big-endian bytes.
pub open spec fn be_i32(b: Seq<u8>) -> int
    recommends
        b.len() == 4,
{
    if be_u32(b) >= 0x8000_0000 {
        be_u32(b) - 0x1_0000_0000
    } else {
        be_u32(b) as int
    }
}

/// The four big-endian bytes of an unsigned 32-bit value.
pub open spec fn be_bytes(x: u32) -> Seq<u8> {
    seq![
        ((x >> 24) & 0xff) as u8,
        ((x >> 16) & 0xff) as u8,
        ((x >> 8) & 0xff) as u8,
        (x & 0xff) as u8,
    ]
}

/// Reading back the four bytes of a value yields that value.
pub proof fn lemma_be_bytes_round_trip(x: u32)
    ensures
        be_bytes(x).len() == 4,
        be_u32(be_bytes(x)) == x,
{
    let b = be_bytes(x);
    assert((((((x >> 24) & 0xff) as u8) as u32) << 24 | ((((x >> 16) & 0xff) as u8) as u32) << 16
        | ((((x >> 8) & 0xff) as u8) as u32) << 8 | (((x & 0xff) as u8) as u32)) == x)
        by (bit_vector);
    assert(b[0] == (((x >> 24) & 0xff) as u8));
    assert(b[1] == (((x >> 16) & 0xff) as u8));
    assert(b[2] == (((x >> 8) & 0xff) as u8));
    assert(b[3] == ((x & 0xff) as u8));
}

/// A value below `0x8000_0000` is its own signed reading.
pub proof fn lemma_be_bytes_signed(x: u32)
    requires
        x < 0x8000_0000,
    ensures
        be_i32(be_bytes(x)) == x,
{
    lemma_be_bytes_round_trip(x);
}

/// Reads the four bytes starting at `pos` as an unsigned big-endian value.
pub fn read_be_u32(buf: &[u8], pos: usize) -> (x: u32)
    requires
        pos + 4 <= buf@.len(),
    ensures
        x == be_u32(buf@.subrange(pos as int, pos as int + 4)),
{
    // Pins the slice length to a usize, so `pos + 4` is known not to
    // overflow below.
    let n = buf.len();
    let b0 = *slice_index_get(buf, pos);
    let b1 = *slice_index_get(buf, pos + 1);
    let b2 = *slice_index_get(buf, pos + 2);
    let b3 = *slice_index_get(buf, pos + 3);
    (b0 as u32) << 24 | (b1 as u32) << 16 | (b2 as u32) << 8 | (b3 as u32)
}

/// Appends the four big-endian bytes of `x` to `out`.
pub fn push_be_u32(out: &mut Vec<u8>, x: u32)
    ensures
        final(out)@ == old(out)@ + be_bytes(x),
{
    proof {
        assert((x >> 24) & 0xff < 256 && (x >> 16) & 0xff < 256 && (x >> 8) & 0xff < 256 && x
            & 0xff < 256) by (bit_vector);
    }
    out.push(((x >> 24) & 0xff) as u8);
    out.push(((x >> 16) & 0xff) as u8);
    out.push(((x >> 8) & 0xff) as u8);
    out.push((x & 0xff) as u8);
    proof {
        assert(out@ =~= old(out)@ + be_bytes(x));
    }
}

} // verus!
