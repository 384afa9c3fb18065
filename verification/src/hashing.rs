//! Content addresses: 32-byte digests of byte strings, and their
//! lowercase hexadecimal rendering used by the sharded on-disk layout.

use vstd::prelude::*;

verus! {

/// A content address: the 32-byte digest of a blob.
pub type Digest = [u8; 32];

/// The digest of a byte string. The digest function is cryptographic;
/// nothing is assumed about its values beyond their length and that they
/// depend on the input bytes alone.
pub uninterp spec fn hash_of(data: Seq<u8>) -> Seq<u8>;

/// Relies on blake3::hash: a 32-byte digest computed from the input
/// bytes alone.
#[verifier::external_body]
fn blake3_digest(data: &[u8]) -> (r: Digest)
    ensures
        r@ == hash_of(data@),
{
    *blake3::hash(data).as_bytes()
}

/// The hashing utility handed to the engine; hashing requests go
/// through it so that a pooled or parallel implementation can replace
/// it without changing callers.
pub struct Blake3Pool {}

impl Blake3Pool {
    pub fn new() -> (r: Blake3Pool) {
        Blake3Pool {}
    }

    /// Digest a byte string.
    pub fn hash_bytes(&self, data: &[u8]) -> (r: Digest)
        ensures
            r@ == hash_of(data@),
            r@.len() == 32,
    {
        blake3_digest(data)
    }
}

/// Compare two digests byte for byte.
pub fn digest_eq(a: &Digest, b: &Digest) -> (r: bool)
    ensures
        r <==> a@ == b@,
{
    let mut i: usize = 0;
    while i < 32
        invariant
            0 <= i <= 32,
            forall|j: int| 0 <= j < i ==> a@[j] == b@[j],
        decreases 32 - i,
    {
        if a[i] != b[i] {
            return false;
        }
        i += 1;
    }
    proof {
        assert(a@ =~= b@);
    }
    true
}

/// One lowercase hexadecimal digit.
pub open spec fn hex_digit(n: u8) -> char
    recommends
        n < 16,
{
    if n < 10 {
        (48 + n) as char
    } else {
        (87 + n) as char
    }
}

/// The lowercase hexadecimal rendering of a byte string: two digits per
/// byte, high nibble first.
pub open spec fn hex_of(s: Seq<u8>) -> Seq<char> {
    Seq::new(
        2 * s.len(),
        |i: int|
            if i % 2 == 0 {
                hex_digit(s[i / 2] >> 4)
            } else {
                hex_digit(s[i / 2] & 0x0f)
            },
    )
}

/// Relies on hex::encode: the lowercase hexadecimal rendering of the
/// input, two digits per byte, high nibble first.
#[verifier::external_body]
pub(crate) fn hex_lower(data: &[u8]) -> (r: String)
    ensures
        r@ == hex_of(data@),
{
    hex::encode(data)
}

} // verus!
