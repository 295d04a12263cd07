//! An unsigned rational number, serialized as its numerator and denominator.
//! A zero denominator is rejected in both directions of the codec.

use crate::bytesrepr::{Error, FromBytes, ToBytes};
use vstd::prelude::*;

verus! {

/// The greatest common divisor, by Euclid's recurrence.
pub open spec fn spec_gcd(a: nat, b: nat) -> nat
    decreases b,
{
    if b == 0 {
        a
    } else {
        spec_gcd(b, a % b)
    }
}

/// The greatest common divisor of a pair with a nonzero member is nonzero.
pub proof fn lemma_gcd_nonzero(a: nat, b: nat)
    requires
        a != 0 || b != 0,
    ensures
        spec_gcd(a, b) != 0,
    decreases b,
{
    if b != 0 {
        lemma_gcd_nonzero(b, a % b);
    }
}

/// The greatest common divisor of two `u64` values.
pub fn gcd(a: u64, b: u64) -> (g: u64)
    ensures
        g == spec_gcd(a as nat, b as nat),
{
    let mut x = a;
    let mut y = b;
    while y != 0
        invariant
            spec_gcd(x as nat, y as nat) == spec_gcd(a as nat, b as nat),
        decreases y,
    {
        let t = x % y;
        x = y;
        y = t;
    }
    x
}

/// An unsigned rational: a numerator and a nonzero denominator.
#[derive(Clone, Copy, Debug, PartialEq, Eq, Hash)]
pub struct Ratio {
    numer: u64,
    denom: u64,
}

impl Ratio {
    /// Wraps the two parts without reducing them.
    pub fn new_raw(numer: u64, denom: u64) -> (r: Ratio)
        ensures
            r.model() == (numer, denom),
    {
        Ratio { numer, denom }
    }

    /// Builds the fraction in lowest terms: both parts are divided by their
    /// greatest common divisor.
    pub fn new(numer: u64, denom: u64) -> (r: Ratio)
        requires
            denom != 0,
        ensures
            r.model() == (
                (numer as nat / spec_gcd(numer as nat, denom as nat)) as u64,
                (denom as nat / spec_gcd(numer as nat, denom as nat)) as u64,
            ),
    {
        proof {
            lemma_gcd_nonzero(numer as nat, denom as nat);
        }
        let g = gcd(numer, denom);
        Ratio { numer: numer / g, denom: denom / g }
    }

    /// The numerator.
    pub fn numer(&self) -> (n: u64)
        ensures
            n == self.model().0,
    {
        self.numer
    }

    /// The denominator.
    pub fn denom(&self) -> (d: u64)
        ensures
            d == self.model().1,
    {
        self.denom
    }
}

impl ToBytes for Ratio {
    type Model = (u64, u64);

    closed spec fn model(&self) -> (u64, u64) {
        (self.numer, self.denom)
    }

    open spec fn spec_encodable(v: (u64, u64)) -> bool {
        v.1 != 0
    }

    open spec fn spec_encoding(v: (u64, u64)) -> Seq<u8> {
        <(u64, u64) as ToBytes>::spec_encoding(v)
    }

    fn to_bytes(&self, sink: &mut Vec<u8>) -> (r: Result<(), Error>) {
        if self.denom == 0 {
            return Err(Error::Formatting);
        }
        let t = (self.numer, self.denom);
        t.to_bytes(sink)
    }

    fn serialized_length(&self) -> (n: usize) {
        proof {
            vstd::bytes::lemma_auto_spec_u64_to_from_le_bytes();
        }
        16
    }
}

impl FromBytes for Ratio {
    open spec fn spec_from(bytes: Seq<u8>) -> Result<((u64, u64), Seq<u8>), Error> {
        match <(u64, u64) as FromBytes>::spec_from(bytes) {
            Ok((t, rem)) => if t.1 == 0 {
                Err(Error::Formatting)
            } else {
                Ok((t, rem))
            },
            Err(e) => Err(e),
        }
    }

    fn from_bytes(bytes: &[u8]) -> (r: Result<(Ratio, &[u8]), Error>) {
        match <(u64, u64)>::from_bytes(bytes) {
            Ok((t, rem)) => {
                if t.1 == 0 {
                    Err(Error::Formatting)
                } else {
                    Ok((Ratio { numer: t.0, denom: t.1 }, rem))
                }
            },
            Err(e) => Err(e),
        }
    }

    proof fn lemma_roundtrip(v: (u64, u64), suffix: Seq<u8>) {
        <(u64, u64) as FromBytes>::lemma_roundtrip(v, suffix);
    }

    proof fn lemma_parse_encoding(bytes: Seq<u8>) {
        <(u64, u64) as FromBytes>::lemma_parse_encoding(bytes);
    }
}

} // verus!
