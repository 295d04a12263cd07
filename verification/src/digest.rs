//! Content addressing: a fixed 32-byte cryptographic digest over canonical
//! bytes.  Every trie node is stored under the digest of its serialization.

use crate::bytesrepr::{Error, FromBytes, ToBytes};
use vstd::prelude::*;

verus! {

/// The number of bytes in a [`Digest`].
pub const DIGEST_LENGTH: usize = 32;

/// The digest that the content hash assigns to a byte sequence.  Two calls on
/// the same bytes always name the same digest; nothing more is assumed of it.
pub uninterp spec fn digest_of(bytes: Seq<u8>) -> Seq<u8>;

/// Whether two distinct byte sequences share a digest.  No run of the library
/// can prove this false; the store's contracts promise full success only when
/// the digests actually encountered stay distinct.
pub open spec fn collision_exists() -> bool {
    exists|b1: Seq<u8>, b2: Seq<u8>| b1 != b2 && #[trigger] digest_of(b1) == #[trigger] digest_of(
        b2,
    )
}

/// A fixed 32-byte content hash output, used as the address of every stored
/// trie node.
#[derive(Clone, Copy, Debug, PartialEq, Eq, Hash)]
pub struct Digest {
    bytes: [u8; 32],
}

impl View for Digest {
    type V = Seq<u8>;

    closed spec fn view(&self) -> Seq<u8> {
        self.bytes@
    }
}

impl Digest {
    /// Wraps raw digest bytes.
    pub fn new(bytes: [u8; 32]) -> (d: Digest)
        ensures
            d@ == bytes@,
    {
        Digest { bytes }
    }

    /// The raw digest bytes.
    pub fn to_array(&self) -> (bytes: [u8; 32])
        ensures
            bytes@ == self@,
    {
        self.bytes
    }

    /// A digest always holds exactly 32 bytes.
    pub proof fn lemma_len(&self)
        ensures
            self@.len() == 32,
    {
    }

    /// Byte-wise equality of two digests.
    pub fn equals(&self, other: &Digest) -> (r: bool)
        ensures
            r <==> self@ == other@,
    {
        let mut i: usize = 0;
        while i < 32
            invariant
                i <= 32,
                forall|j: int| 0 <= j < i ==> self@[j] == other@[j],
            decreases 32 - i,
        {
            if self.bytes[i] != other.bytes[i] {
                assert(self@[i as int] != other@[i as int]);
                return false;
            }
            i = i + 1;
        }
        proof {
            assert(self@ =~= other@);
        }
        true
    }
}

/// Relies on `blake2::Blake2b256`: the 32-byte BLAKE2b digest of the input,
/// a pure function of the input bytes alone.
#[verifier::external_body]
pub fn hash(data: &[u8]) -> (r: Digest)
    ensures
        r@ == digest_of(data@),
{
    let mut hasher = <blake2::Blake2b256 as blake2::Digest>::new();
    blake2::Digest::update(&mut hasher, data);
    let out = blake2::Digest::finalize(hasher);
    Digest { bytes: out.into() }
}

impl ToBytes for Digest {
    type Model = Seq<u8>;

    open spec fn model(&self) -> Seq<u8> {
        self@
    }

    open spec fn spec_encodable(v: Seq<u8>) -> bool {
        v.len() == 32
    }

    open spec fn spec_encoding(v: Seq<u8>) -> Seq<u8> {
        v
    }

    fn to_bytes(&self, sink: &mut Vec<u8>) -> (r: Result<(), Error>) {
        self.bytes.to_bytes(sink)
    }

    fn serialized_length(&self) -> (n: usize) {
        DIGEST_LENGTH
    }
}

impl FromBytes for Digest {
    open spec fn spec_from(bytes: Seq<u8>) -> Result<(Seq<u8>, Seq<u8>), Error> {
        <[u8; 32] as FromBytes>::spec_from(bytes)
    }

    fn from_bytes(bytes: &[u8]) -> (r: Result<(Digest, &[u8]), Error>) {
        match <[u8; 32]>::from_bytes(bytes) {
            Ok((arr, rest)) => Ok((Digest { bytes: arr }, rest)),
            Err(e) => Err(e),
        }
    }

    proof fn lemma_roundtrip(v: Seq<u8>, suffix: Seq<u8>) {
        <[u8; 32] as FromBytes>::lemma_roundtrip(v, suffix);
    }

    proof fn lemma_parse_encoding(bytes: Seq<u8>) {
        <[u8; 32] as FromBytes>::lemma_parse_encoding(bytes);
    }
}

} // verus!
