//! The phase in which a given contract is executing.

use crate::bytesrepr::{Error, FromBytes, ToBytes};
use vstd::prelude::*;

verus! {

/// The number of bytes in a serialized [`Phase`].
pub const PHASE_SERIALIZED_LENGTH: usize = 1;

/// The phase in which a given contract is executing.
#[derive(Debug, PartialEq, Eq, Clone, Copy)]
pub enum Phase {
    /// Set while committing the genesis or upgrade configurations.
    System,
    /// Set while executing the payment code of a deploy.
    Payment,
    /// Set while executing the session code of a deploy.
    Session,
    /// Set while finalizing payment at the end of a deploy.
    FinalizePayment,
}

/// The wire tag of each phase.
pub open spec fn phase_tag(p: Phase) -> u8 {
    match p {
        Phase::System => 0,
        Phase::Payment => 1,
        Phase::Session => 2,
        Phase::FinalizePayment => 3,
    }
}

impl Phase {
    /// The wire tag of this phase.
    pub fn tag(&self) -> (t: u8)
        ensures
            t == phase_tag(*self),
    {
        match self {
            Phase::System => 0,
            Phase::Payment => 1,
            Phase::Session => 2,
            Phase::FinalizePayment => 3,
        }
    }
}

impl ToBytes for Phase {
    type Model = Phase;

    open spec fn model(&self) -> Phase {
        *self
    }

    open spec fn spec_encodable(v: Phase) -> bool {
        true
    }

    open spec fn spec_encoding(v: Phase) -> Seq<u8> {
        seq![phase_tag(v)]
    }

    fn to_bytes(&self, sink: &mut Vec<u8>) -> (r: Result<(), Error>) {
        sink.push(self.tag());
        Ok(())
    }

    fn serialized_length(&self) -> (n: usize) {
        PHASE_SERIALIZED_LENGTH
    }
}

impl FromBytes for Phase {
    open spec fn spec_from(bytes: Seq<u8>) -> Result<(Phase, Seq<u8>), Error> {
        if bytes.len() < 1 {
            Err(Error::EarlyEndOfStream)
        } else if bytes[0] == 0 {
            Ok((Phase::System, bytes.skip(1)))
        } else if bytes[0] == 1 {
            Ok((Phase::Payment, bytes.skip(1)))
        } else if bytes[0] == 2 {
            Ok((Phase::Session, bytes.skip(1)))
        } else if bytes[0] == 3 {
            Ok((Phase::FinalizePayment, bytes.skip(1)))
        } else {
            Err(Error::Formatting)
        }
    }

    fn from_bytes(bytes: &[u8]) -> (r: Result<(Phase, &[u8]), Error>) {
        if bytes.len() < 1 {
            Err(Error::EarlyEndOfStream)
        } else {
            let tag = bytes[0];
            let rest = vstd::slice::slice_subrange(bytes, 1, bytes.len());
            assert(rest@ == bytes@.skip(1));
            if tag == 0 {
                Ok((Phase::System, rest))
            } else if tag == 1 {
                Ok((Phase::Payment, rest))
            } else if tag == 2 {
                Ok((Phase::Session, rest))
            } else if tag == 3 {
                Ok((Phase::FinalizePayment, rest))
            } else {
                Err(Error::Formatting)
            }
        }
    }

    proof fn lemma_roundtrip(v: Phase, suffix: Seq<u8>) {
        let bytes = Self::spec_encoding(v) + suffix;
        assert(bytes[0] == phase_tag(v));
        assert(bytes.skip(1) =~= suffix);
    }

    proof fn lemma_parse_encoding(bytes: Seq<u8>) {
        if bytes.len() >= 1 && bytes[0] <= 3 {
            assert(seq![bytes[0]] + bytes.skip(1) =~= bytes);
        }
    }
}

} // verus!
