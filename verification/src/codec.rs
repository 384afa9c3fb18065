//! Byte-level framing primitives shared by the canonical node encoding,
//! the write-ahead log and the snapshot ledger: little-endian 64-bit
//! fields, raw byte runs, and a wrapping additive checksum.

use vstd::prelude::*;

verus! {

/// The eight little-endian bytes of a 64-bit integer.
pub open spec fn le_bytes(n: u64) -> Seq<u8> {
    seq![
        (n & 0xff) as u8,
        ((n >> 8u64) & 0xff) as u8,
        ((n >> 16u64) & 0xff) as u8,
        ((n >> 24u64) & 0xff) as u8,
        ((n >> 32u64) & 0xff) as u8,
        ((n >> 40u64) & 0xff) as u8,
        ((n >> 48u64) & 0xff) as u8,
        ((n >> 56u64) & 0xff) as u8,
    ]
}

/// The 64-bit integer read back from eight little-endian bytes.
pub open spec fn u64_from_le(s: Seq<u8>) -> u64
    recommends
        s.len() == 8,
{
    (s[0] as u64) | ((s[1] as u64) << 8u64) | ((s[2] as u64) << 16u64) | ((s[3] as u64)
        << 24u64) | ((s[4] as u64) << 32u64) | ((s[5] as u64) << 40u64) | ((s[6] as u64)
        << 48u64) | ((s[7] as u64) << 56u64)
}

/// Reading back the eight bytes of an integer yields the integer.
pub proof fn lemma_le_roundtrip(n: u64)
    ensures
        u64_from_le(le_bytes(n)) == n,
{
    assert(((n & 0xff) as u8 as u64) | (((n >> 8u64) & 0xff) as u8 as u64) << 8u64 | (((n
        >> 16u64) & 0xff) as u8 as u64) << 16u64 | (((n >> 24u64) & 0xff) as u8 as u64)
        << 24u64 | (((n >> 32u64) & 0xff) as u8 as u64) << 32u64 | (((n >> 40u64) & 0xff) as u8
        as u64) << 40u64 | (((n >> 48u64) & 0xff) as u8 as u64) << 48u64 | (((n >> 56u64)
        & 0xff) as u8 as u64) << 56u64 == n) by (bit_vector);
}

/// Append the eight little-endian bytes of `n`.
pub fn push_u64(out: &mut Vec<u8>, n: u64)
    ensures
        final(out)@ == old(out)@ + le_bytes(n),
{
    out.push((n & 0xff) as u8);
    out.push(((n >> 8u64) & 0xff) as u8);
    out.push(((n >> 16u64) & 0xff) as u8);
    out.push(((n >> 24u64) & 0xff) as u8);
    out.push(((n >> 32u64) & 0xff) as u8);
    out.push(((n >> 40u64) & 0xff) as u8);
    out.push(((n >> 48u64) & 0xff) as u8);
    out.push(((n >> 56u64) & 0xff) as u8);
    proof {
        assert(out@ =~= old(out)@ + le_bytes(n));
    }
}

/// Append a run of raw bytes.
pub fn push_bytes(out: &mut Vec<u8>, b: &[u8])
    ensures
        final(out)@ == old(out)@ + b@,
{
    let mut i: usize = 0;
    while i < b.len()
        invariant
            i <= b@.len(),
            out@ == old(out)@ + b@.subrange(0, i as int),
        decreases b@.len() - i,
    {
        proof {
            assert(b@.subrange(0, i + 1 as int) =~= b@.subrange(0, i as int).push(b@[i as int]));
        }
        out.push(b[i]);
        i += 1;
    }
    proof {
        assert(b@.subrange(0, b@.len() as int) =~= b@);
    }
}

/// Read the 64-bit little-endian field starting at `pos`.
pub fn read_u64(b: &Vec<u8>, pos: usize) -> (r: u64)
    requires
        pos + 8 <= b@.len(),
    ensures
        r == u64_from_le(b@.subrange(pos as int, pos as int + 8)),
{
    let len = b.len();
    let r = (b[pos] as u64) | ((b[pos + 1] as u64) << 8u64) | ((b[pos + 2] as u64) << 16u64) | ((
    b[pos + 3] as u64) << 24u64) | ((b[pos + 4] as u64) << 32u64) | ((b[pos + 5] as u64)
        << 40u64) | ((b[pos + 6] as u64) << 48u64) | ((b[pos + 7] as u64) << 56u64);
    proof {
        let s = b@.subrange(pos as int, pos as int + 8);
        assert(s[0] == b@[pos as int]);
        assert(s[1] == b@[pos as int + 1]);
        assert(s[2] == b@[pos as int + 2]);
        assert(s[3] == b@[pos as int + 3]);
        assert(s[4] == b@[pos as int + 4]);
        assert(s[5] == b@[pos as int + 5]);
        assert(s[6] == b@[pos as int + 6]);
        assert(s[7] == b@[pos as int + 7]);
    }
    r
}

/// The wrapping additive checksum of a byte string.
pub open spec fn sum64(s: Seq<u8>) -> u64
    decreases s.len(),
{
    if s.len() == 0 {
        0u64
    } else if sum64(s.drop_last()) + s.last() > u64::MAX {
        (sum64(s.drop_last()) + s.last() - 0x10000000000000000) as u64
    } else {
        (sum64(s.drop_last()) + s.last()) as u64
    }
}

/// Compute the wrapping additive checksum of part of a byte string.
pub fn checksum_range(b: &Vec<u8>, start: usize, end: usize) -> (r: u64)
    requires
        start <= end <= b@.len(),
    ensures
        r == sum64(b@.subrange(start as int, end as int)),
{
    let mut acc: u64 = 0;
    let mut i: usize = start;
    while i < end
        invariant
            start <= i <= end <= b@.len(),
            acc == sum64(b@.subrange(start as int, i as int)),
        decreases end - i,
    {
        proof {
            assert(b@.subrange(start as int, i + 1 as int).drop_last() =~= b@.subrange(
                start as int,
                i as int,
            ));
            assert(b@.subrange(start as int, i + 1 as int).last() == b@[i as int]);
        }
        acc = acc.wrapping_add(b[i] as u64);
        i += 1;
    }
    acc
}

/// Compute the wrapping additive checksum of a byte string.
pub fn checksum(b: &Vec<u8>) -> (r: u64)
    ensures
        r == sum64(b@),
{
    let mut acc: u64 = 0;
    let mut i: usize = 0;
    while i < b.len()
        invariant
            i <= b@.len(),
            acc == sum64(b@.subrange(0, i as int)),
        decreases b@.len() - i,
    {
        proof {
            assert(b@.subrange(0, i + 1 as int).drop_last() =~= b@.subrange(0, i as int));
            assert(b@.subrange(0, i + 1 as int).last() == b@[i as int]);
        }
        acc = acc.wrapping_add(b[i] as u64);
        i += 1;
    }
    proof {
        assert(b@.subrange(0, b@.len() as int) =~= b@);
    }
    acc
}

} // verus!
