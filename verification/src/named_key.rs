//! A named key: a human-readable name bound to the text of a global-state
//! key.

use crate::bytesrepr::{Error, FromBytes, ToBytes};
use vstd::prelude::*;

verus! {

/// A named key.
#[derive(Clone, Eq, PartialEq, Default, Debug)]
pub struct NamedKey {
    /// The name of the entry.
    pub name: String,
    /// The value of the entry: the text of a global-state key.
    pub key: String,
}

impl ToBytes for NamedKey {
    type Model = (Seq<char>, Seq<char>);

    open spec fn model(&self) -> (Seq<char>, Seq<char>) {
        (self.name@, self.key@)
    }

    open spec fn spec_encodable(v: (Seq<char>, Seq<char>)) -> bool {
        <String as ToBytes>::spec_encodable(v.0) && <String as ToBytes>::spec_encodable(v.1)
    }

    open spec fn spec_encoding(v: (Seq<char>, Seq<char>)) -> Seq<u8> {
        <String as ToBytes>::spec_encoding(v.0) + <String as ToBytes>::spec_encoding(v.1)
    }

    fn to_bytes(&self, sink: &mut Vec<u8>) -> (r: Result<(), Error>) {
        let mut tmp: Vec<u8> = Vec::new();
        match self.name.to_bytes(&mut tmp) {
            Ok(()) => {},
            Err(e) => {
                return Err(e);
            },
        }
        match self.key.to_bytes(&mut tmp) {
            Ok(()) => {},
            Err(e) => {
                return Err(e);
            },
        }
        sink.append(&mut tmp);
        Ok(())
    }

    fn serialized_length(&self) -> (n: usize) {
        let n1 = self.name.serialized_length();
        let n2 = self.key.serialized_length();
        n1 + n2
    }
}

impl FromBytes for NamedKey {
    open spec fn spec_from(bytes: Seq<u8>) -> Result<((Seq<char>, Seq<char>), Seq<u8>), Error> {
        match <String as FromBytes>::spec_from(bytes) {
            Ok((name, r1)) => match <String as FromBytes>::spec_from(r1) {
                Ok((key, r2)) => Ok(((name, key), r2)),
                Err(e) => Err(e),
            },
            Err(e) => Err(e),
        }
    }

    fn from_bytes(bytes: &[u8]) -> (r: Result<(NamedKey, &[u8]), Error>) {
        match String::from_bytes(bytes) {
            Ok((name, r1)) => match String::from_bytes(r1) {
                Ok((key, r2)) => Ok((NamedKey { name, key }, r2)),
                Err(e) => Err(e),
            },
            Err(e) => Err(e),
        }
    }

    proof fn lemma_roundtrip(v: (Seq<char>, Seq<char>), suffix: Seq<u8>) {
        let e1 = <String as ToBytes>::spec_encoding(v.0);
        let e2 = <String as ToBytes>::spec_encoding(v.1);
        let bytes = Self::spec_encoding(v) + suffix;
        assert(bytes =~= e1 + (e2 + suffix));
        <String as FromBytes>::lemma_roundtrip(v.0, e2 + suffix);
        <String as FromBytes>::lemma_roundtrip(v.1, suffix);
    }

    proof fn lemma_parse_encoding(bytes: Seq<u8>) {
        <String as FromBytes>::lemma_parse_encoding(bytes);
        if let Ok((m1, r1)) = <String as FromBytes>::spec_from(bytes) {
            <String as FromBytes>::lemma_parse_encoding(r1);
            if let Ok((m2, r2)) = <String as FromBytes>::spec_from(r1) {
                assert((<String as ToBytes>::spec_encoding(m1) + <String as ToBytes>::spec_encoding(
                    m2,
                )) + r2 =~= <String as ToBytes>::spec_encoding(m1) + (
                <String as ToBytes>::spec_encoding(m2) + r2));
            }
        }
    }
}

} // verus!
