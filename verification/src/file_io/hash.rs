//! BLAKE3 digests of a file's content.

use vstd::prelude::*;

verus! {

/// The BLAKE3 digest of `data`, of 32 bytes.
pub uninterp spec fn blake3_digest(data: Seq<u8>) -> Seq<u8>;

/// `blake3::hash`: the digest of `data`.
#[verifier::external_body]
fn blake3(data: &[u8]) -> (digest: [u8; 32])
    ensures
        digest@ == blake3_digest(data@),
{
    ::blake3::hash(data).into()
}

/// A BLAKE3 digest.
#[derive(Clone, Copy, Debug)]
pub struct Digest {
    bytes: [u8; 32],
}

impl View for Digest {
    type V = Seq<u8>;

    closed spec fn view(&self) -> Seq<u8> {
        self.bytes@
    }
}

impl Digest {
    /// The digest of `data`.
    pub fn of(data: &[u8]) -> (digest: Digest)
        ensures
            digest@ == blake3_digest(data@),
    {
        Digest { bytes: blake3(data) }
    }

    /// The 32 bytes of the digest.
    pub fn as_bytes(&self) -> (bytes: [u8; 32])
        ensures
            bytes@ == self@,
    {
        self.bytes
    }

    /// Whether two digests are the same.
    pub fn same(&self, other: &Digest) -> (yes: bool)
        ensures
            yes == (self@ == other@),
    {
        let mut i: usize = 0;
        while i < 32
            invariant
                0 <= i <= 32,
                forall|k: int| 0 <= k < i ==> self.bytes@[k] == other.bytes@[k],
            decreases 32 - i,
        {
            if self.bytes[i] != other.bytes[i] {
                return false;
            }
            i += 1;
        }
        assert(self.bytes@ =~= other.bytes@);
        true
    }
}

} // verus!
