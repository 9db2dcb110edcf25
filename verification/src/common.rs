//! Identifiers and small value types that every module uses.

use vstd::prelude::*;

verus! {

/// Index of a replica in the configuration.
pub type ReplicaId = u8;

/// Identity that a client picks for itself.
pub type ClientId = u32;

/// Per-client counter of requests; the first request is number one.
pub type RequestNumber = u32;

/// Position in the log; the first entry has number one.
pub type OpNumber = u32;

/// Number of a view.
pub type ViewNumber = u8;

/// Uninterpreted bytes of an operation or of its result.
pub type Opaque = Vec<u8>;

/// A message digest.
#[derive(Clone, Copy, Debug)]
pub struct Digest {
    pub bytes: [u8; 32],
}

impl View for Digest {
    type V = Seq<u8>;

    open spec fn view(&self) -> Seq<u8> {
        self.bytes@
    }
}

/// The digest whose bytes are all zero.
pub open spec fn zero_digest() -> Seq<u8> {
    Seq::new(32, |i: int| 0u8)
}

impl Default for Digest {
    fn default() -> (digest: Self)
        ensures
            digest@ == zero_digest(),
    {
        let digest = Digest { bytes: [0u8; 32] };
        assert(digest@ =~= zero_digest());
        digest
    }
}

impl Digest {
    /// Whether two digests have the same bytes.
    pub fn same_as(&self, other: &Digest) -> (same: bool)
        ensures
            same == (self@ == other@),
            same == (self.bytes@ == other.bytes@),
    {
        let mut i: usize = 0;
        while i < 32
            invariant
                i <= 32,
                forall|j: int| 0 <= j < i ==> self.bytes@[j] == other.bytes@[j],
            decreases 32 - i,
        {
            if self.bytes[i] != other.bytes[i] {
                assert(self@[i as int] != other@[i as int]);
                return false;
            }
            i += 1;
        }
        assert(self@ =~= other@);
        true
    }
}

/// Whether two byte strings are equal.
pub fn bytes_equal(left: &Vec<u8>, right: &Vec<u8>) -> (equal: bool)
    ensures
        equal == (left@ == right@),
{
    if left.len() != right.len() {
        return false;
    }
    let mut i: usize = 0;
    while i < left.len()
        invariant
            i <= left.len(),
            left.len() == right.len(),
            forall|j: int| 0 <= j < i ==> left@[j] == right@[j],
        decreases left.len() - i,
    {
        if left[i] != right[i] {
            assert(left@[i as int] != right@[i as int]);
            return false;
        }
        i += 1;
    }
    assert(left@ =~= right@);
    true
}

/// A key that signs messages, whatever the signature scheme is.
pub trait SigningKey {
    /// The key that checks those signatures.
    type VerifyingKey;

    /// The verifying key that belongs to this key.
    fn verifying_key(&self) -> Self::VerifyingKey;
}

/// A digest is all of its 32 bytes, and two digests that agree in each of them
/// are the same.
pub proof fn law_digest_is_its_bytes(a: Digest, b: Digest)
    ensures
        a@.len() == 32,
        forall|i: int| 0 <= i < 32 ==> #[trigger] a@[i] == a.bytes@[i],
        a@ == b@ <==> a.bytes@ == b.bytes@,
{
}

} // verus!
