//! Fixed-width little-endian byte codecs used by the tree encoding and the
//! metadata codecs.

#![verifier::loop_isolation(false)]

use vstd::prelude::*;

verus! {

/// The eight little-endian bytes of `x`, lowest byte first.
pub open spec fn u64_le_bytes(x: u64) -> Seq<u8> {
    seq![
        (x & 0xff) as u8,
        (x >> 8 & 0xff) as u8,
        (x >> 16 & 0xff) as u8,
        (x >> 24 & 0xff) as u8,
        (x >> 32 & 0xff) as u8,
        (x >> 40 & 0xff) as u8,
        (x >> 48 & 0xff) as u8,
        (x >> 56 & 0xff) as u8,
    ]
}

/// The value that eight little-endian bytes stand for.
pub open spec fn u64_from_le_bytes(s: Seq<u8>) -> u64
    recommends
        s.len() == 8,
{
    s[0] as u64 | (s[1] as u64) << 8 | (s[2] as u64) << 16 | (s[3] as u64) << 24
        | (s[4] as u64) << 32 | (s[5] as u64) << 40 | (s[6] as u64) << 48 | (s[7] as u64) << 56
}

/// Decoding the little-endian bytes of a value gives the value back.
pub proof fn lemma_u64_le_round_trip(x: u64)
    ensures
        u64_from_le_bytes(u64_le_bytes(x)) == x,
{
    assert((x & 0xff) as u8 as u64 | ((x >> 8 & 0xff) as u8 as u64) << 8
        | ((x >> 16 & 0xff) as u8 as u64) << 16 | ((x >> 24 & 0xff) as u8 as u64) << 24
        | ((x >> 32 & 0xff) as u8 as u64) << 32 | ((x >> 40 & 0xff) as u8 as u64) << 40
        | ((x >> 48 & 0xff) as u8 as u64) << 48 | ((x >> 56 & 0xff) as u8 as u64) << 56 == x)
        by (bit_vector);
}

/// Appends the eight little-endian bytes of `x` to `out`.
pub fn push_u64_le(out: &mut Vec<u8>, x: u64)
    ensures
        final(out)@ == old(out)@ + u64_le_bytes(x),
{
    out.push((x & 0xff) as u8);
    out.push((x >> 8 & 0xff) as u8);
    out.push((x >> 16 & 0xff) as u8);
    out.push((x >> 24 & 0xff) as u8);
    out.push((x >> 32 & 0xff) as u8);
    out.push((x >> 40 & 0xff) as u8);
    out.push((x >> 48 & 0xff) as u8);
    out.push((x >> 56 & 0xff) as u8);
    proof {
        assert(out@ =~= old(out)@ + u64_le_bytes(x));
    }
}

/// Reads the eight little-endian bytes of `data` starting at `at`.
pub fn read_u64_le(data: &Vec<u8>, at: usize) -> (r: u64)
    requires
        at + 8 <= data@.len(),
    ensures
        r == u64_from_le_bytes(data@.subrange(at as int, at + 8)),
{
    let n: usize = data.len();
    assert(at + 8 <= n);
    let r: u64 = data[at] as u64 | (data[at + 1] as u64) << 8 | (data[at + 2] as u64) << 16
        | (data[at + 3] as u64) << 24 | (data[at + 4] as u64) << 32
        | (data[at + 5] as u64) << 40 | (data[at + 6] as u64) << 48
        | (data[at + 7] as u64) << 56;
    proof {
        let s = data@.subrange(at as int, at + 8);
        assert(s[0] == data@[at as int]);
        assert(s[1] == data@[at + 1]);
        assert(s[2] == data@[at + 2]);
        assert(s[3] == data@[at + 3]);
        assert(s[4] == data@[at + 4]);
        assert(s[5] == data@[at + 5]);
        assert(s[6] == data@[at + 6]);
        assert(s[7] == data@[at + 7]);
    }
    r
}

} // verus!
