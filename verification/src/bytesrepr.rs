//! Canonical, deterministic binary serialization for every type stored in
//! global state.  Integers are little-endian and fixed-width; sequences carry a
//! 4-byte length prefix; `Option` and `Result` carry a 1-byte tag.  Every
//! encoder is paired with a decoder, and both directions of the round trip are
//! proved for each type that implements the two traits.

use vstd::bytes::{
    lemma_auto_spec_u32_to_from_le_bytes, spec_u32_from_le_bytes, spec_u32_to_le_bytes,
    u32_from_le_bytes, u32_to_le_bytes,
};
use vstd::prelude::*;

verus! {

/// The number of bytes in a serialized `()`.
pub const UNIT_SERIALIZED_LENGTH: usize = 0;

/// The number of bytes in a serialized `bool`.
pub const BOOL_SERIALIZED_LENGTH: usize = 1;

/// The number of bytes in a serialized `u8`.
pub const U8_SERIALIZED_LENGTH: usize = 1;

/// The number of bytes in a serialized `u16`.
pub const U16_SERIALIZED_LENGTH: usize = 2;

/// The number of bytes in a serialized `u32`.
pub const U32_SERIALIZED_LENGTH: usize = 4;

/// The number of bytes in a serialized `u64`.
pub const U64_SERIALIZED_LENGTH: usize = 8;

/// The number of bytes in a serialized `i32`.
pub const I32_SERIALIZED_LENGTH: usize = 4;

/// The number of bytes in a serialized `i64`.
pub const I64_SERIALIZED_LENGTH: usize = 8;

/// The tag representing a `None` value.
pub const OPTION_NONE_TAG: u8 = 0;

/// The tag representing a `Some` value.
pub const OPTION_SOME_TAG: u8 = 1;

/// The tag representing an `Err` value.
pub const RESULT_ERR_TAG: u8 = 0;

/// The tag representing an `Ok` value.
pub const RESULT_OK_TAG: u8 = 1;

/// Serialization and deserialization errors.
#[derive(Debug, PartialEq, Eq, Clone, Copy)]
pub enum Error {
    /// Early end of stream while deserializing.
    EarlyEndOfStream,
    /// Formatting error while deserializing.
    Formatting,
    /// Not all input bytes were consumed in [`deserialize`].
    LeftOverBytes,
    /// Out of memory error.  Kept for the error taxonomy; this crate's
    /// decoders grow their buffers as elements actually parse instead of
    /// preallocating from a length prefix, so an oversized count surfaces as
    /// `EarlyEndOfStream` and no input produces this variant.
    OutOfMemory,
}

/// A type which can be serialized to a `Vec<u8>`.
///
/// The canonical bytes of a value are fixed by the spec function
/// [`ToBytes::spec_encoding`], stated over the value's mathematical model so
/// that every contract in the crate can speak about encodings abstractly.
pub trait ToBytes {
    /// The mathematical model of the value: the codec promises the same bytes
    /// for any two values with equal models.
    type Model;

    /// The model of this value.
    spec fn model(&self) -> Self::Model;

    /// Whether the abstract value is representable in the canonical format
    /// (for instance, a sequence must fit its 4-byte length prefix).
    spec fn spec_encodable(v: Self::Model) -> bool;

    /// The canonical bytes of an abstract value.
    spec fn spec_encoding(v: Self::Model) -> Seq<u8>;

    /// Appends the canonical bytes of `self` to `sink`.
    fn to_bytes(&self, sink: &mut Vec<u8>) -> (r: Result<(), Error>)
        ensures
            r is Ok <==> Self::spec_encodable(self.model()),
            Self::spec_encodable(self.model()) ==> final(sink)@ == old(sink)@
                + Self::spec_encoding(self.model()),
            !Self::spec_encodable(self.model()) ==> final(sink)@ == old(sink)@ && r == Err::<
                (),
                Error,
            >(Error::Formatting),
    ;

    /// Returns the length of the canonical bytes without serializing.
    fn serialized_length(&self) -> (n: usize)
        requires
            Self::spec_encoding(self.model()).len() <= usize::MAX,
        ensures
            n == Self::spec_encoding(self.model()).len(),
    ;
}

/// A type which can be deserialized from a byte slice.
///
/// Both round-trip directions are proof obligations of every implementation:
/// decoding an encoding yields the encoded value and the untouched suffix
/// ([`FromBytes::lemma_roundtrip`]), and whatever a decode consumed
/// re-encodes to exactly the same bytes ([`FromBytes::lemma_parse_encoding`]).
pub trait FromBytes: ToBytes + Sized {
    /// The abstract decoder: consumes a prefix of `bytes` and yields the
    /// decoded model together with the remainder, or the error the concrete
    /// decoder reports.
    spec fn spec_from(bytes: Seq<u8>) -> Result<(Self::Model, Seq<u8>), Error>;

    /// Deserializes a prefix of the slice into `Self`, returning the value
    /// and the remaining bytes.
    fn from_bytes(bytes: &[u8]) -> (r: Result<(Self, &[u8]), Error>)
        ensures
            (match (r, Self::spec_from(bytes@)) {
                (Ok((v, rem)), Ok((sv, srem))) => v.model() == sv && rem@ == srem,
                (Err(e), Err(se)) => e == se,
                _ => false,
            }),
    ;

    /// Round trip: decoding an encoding consumes exactly the encoding and
    /// returns the encoded value, whatever follows it.
    proof fn lemma_roundtrip(v: Self::Model, suffix: Seq<u8>)
        requires
            Self::spec_encodable(v),
        ensures
            Self::spec_from(Self::spec_encoding(v) + suffix) == Ok::<
                (Self::Model, Seq<u8>),
                Error,
            >((v, suffix)),
    ;

    /// Determinism of the wire format: a successful decode consumed exactly
    /// the canonical encoding of the value it returned.
    proof fn lemma_parse_encoding(bytes: Seq<u8>)
        ensures
            Self::spec_from(bytes) matches Ok((v, rem)) ==> Self::spec_encodable(v) && bytes
                == Self::spec_encoding(v) + rem,
    ;
}

/// Serializes `t` into a `Vec<u8>` holding exactly its canonical bytes.
pub fn serialize<T: ToBytes>(t: &T) -> (r: Result<Vec<u8>, Error>)
    ensures
        T::spec_encodable(t.model()) ==> (r matches Ok(out) && out@ == T::spec_encoding(t.model())),
        !T::spec_encodable(t.model()) ==> r == Err::<Vec<u8>, Error>(Error::Formatting),
{
    let mut sink: Vec<u8> = Vec::new();
    match t.to_bytes(&mut sink) {
        Ok(()) => Ok(sink),
        Err(e) => Err(e),
    }
}

/// Deserializes `bytes` into an instance of `T`, failing with
/// `Error::LeftOverBytes` unless the value consumes the whole buffer.
pub fn deserialize<T: FromBytes>(bytes: Vec<u8>) -> (r: Result<T, Error>)
    ensures
        (match T::spec_from(bytes@) {
            Ok((sv, srem)) => if srem.len() == 0 {
                r matches Ok(v) && v.model() == sv
            } else {
                r == Err::<T, Error>(Error::LeftOverBytes)
            },
            Err(se) => r == Err::<T, Error>(se),
        }),
{
    match T::from_bytes(bytes.as_slice()) {
        Ok((t, remainder)) => {
            if remainder.len() == 0 {
                Ok(t)
            } else {
                Err(Error::LeftOverBytes)
            }
        },
        Err(e) => Err(e),
    }
}

/// Round trip at the buffer level: the canonical bytes of any representable
/// value decode back to that value, consuming the whole buffer.
pub proof fn lemma_serialize_deserialize_roundtrip<T: FromBytes>(v: T::Model)
    requires
        T::spec_encodable(v),
    ensures
        T::spec_from(T::spec_encoding(v)) == Ok::<(T::Model, Seq<u8>), Error>(
            (v, Seq::<u8>::empty()),
        ),
{
    T::lemma_roundtrip(v, Seq::empty());
    assert(T::spec_encoding(v) + Seq::<u8>::empty() =~= T::spec_encoding(v));
}

/// Leftover-bytes rejection: appending any extra byte to a canonical
/// encoding leaves the decoder a nonempty remainder, so the whole-buffer
/// entry point [`deserialize`] fails with `Error::LeftOverBytes`.
pub proof fn lemma_leftover_bytes_rejected<T: FromBytes>(v: T::Model, extra: u8)
    requires
        T::spec_encodable(v),
    ensures
        T::spec_from(T::spec_encoding(v) + seq![extra]) == Ok::<(T::Model, Seq<u8>), Error>(
            (v, seq![extra]),
        ),
{
    T::lemma_roundtrip(v, seq![extra]);
}

/// A checked oracle for the round trip: serializes `t`, confirms the length
/// against `serialized_length`, and deserializes the buffer back to a value
/// with the same model.  The checks are proved, so the call cannot fail.
pub fn test_serialization_roundtrip<T: FromBytes>(t: &T)
    requires
        T::spec_encodable(t.model()),
        T::spec_encoding(t.model()).len() <= usize::MAX,
{
    let n = t.serialized_length();
    match serialize(t) {
        Ok(buf) => {
            assert(buf@.len() == n);
            proof {
                lemma_serialize_deserialize_roundtrip::<T>(t.model());
            }
            match deserialize::<T>(buf) {
                Ok(v) => {
                    assert(v.model() == t.model());
                },
                Err(_) => {
                    proof {
                        assert(false);
                    }
                },
            }
        },
        Err(_) => {
            proof {
                assert(false);
            }
        },
    }
}

/// Splits `bytes` at `n`, failing with `EarlyEndOfStream` when fewer than `n`
/// bytes remain.
pub fn safe_split_at(bytes: &[u8], n: usize) -> (r: Result<(&[u8], &[u8]), Error>)
    ensures
        n <= bytes@.len() ==> (r matches Ok((taken, rest)) && taken@ == bytes@.take(n as int)
            && rest@ == bytes@.skip(n as int)),
        n > bytes@.len() ==> r == Err::<(&[u8], &[u8]), Error>(Error::EarlyEndOfStream),
{
    if n > bytes.len() {
        Err(Error::EarlyEndOfStream)
    } else {
        let taken = vstd::slice::slice_subrange(bytes, 0, n);
        let rest = vstd::slice::slice_subrange(bytes, n, bytes.len());
        assert(taken@ == bytes@.take(n as int));
        assert(rest@ == bytes@.skip(n as int));
        Ok((taken, rest))
    }
}

impl ToBytes for () {
    type Model = ();

    open spec fn model(&self) -> () {
        ()
    }

    open spec fn spec_encodable(v: ()) -> bool {
        true
    }

    open spec fn spec_encoding(v: ()) -> Seq<u8> {
        Seq::empty()
    }

    fn to_bytes(&self, sink: &mut Vec<u8>) -> (r: Result<(), Error>) {
        Ok(())
    }

    fn serialized_length(&self) -> (n: usize) {
        UNIT_SERIALIZED_LENGTH
    }
}

impl FromBytes for () {
    open spec fn spec_from(bytes: Seq<u8>) -> Result<((), Seq<u8>), Error> {
        Ok(((), bytes))
    }

    fn from_bytes(bytes: &[u8]) -> (r: Result<((), &[u8]), Error>) {
        Ok(((), bytes))
    }

    proof fn lemma_roundtrip(v: (), suffix: Seq<u8>) {
        assert(Self::spec_encoding(v) + suffix == suffix);
    }

    proof fn lemma_parse_encoding(bytes: Seq<u8>) {
        assert(Seq::<u8>::empty() + bytes == bytes);
    }
}

impl ToBytes for u8 {
    type Model = u8;

    open spec fn model(&self) -> u8 {
        *self
    }

    open spec fn spec_encodable(v: u8) -> bool {
        true
    }

    open spec fn spec_encoding(v: u8) -> Seq<u8> {
        seq![v]
    }

    fn to_bytes(&self, sink: &mut Vec<u8>) -> (r: Result<(), Error>) {
        sink.push(*self);
        Ok(())
    }

    fn serialized_length(&self) -> (n: usize) {
        U8_SERIALIZED_LENGTH
    }
}

impl FromBytes for u8 {
    open spec fn spec_from(bytes: Seq<u8>) -> Result<(u8, Seq<u8>), Error> {
        if bytes.len() >= 1 {
            Ok((bytes[0], bytes.skip(1)))
        } else {
            Err(Error::EarlyEndOfStream)
        }
    }

    fn from_bytes(bytes: &[u8]) -> (r: Result<(u8, &[u8]), Error>) {
        if bytes.len() < 1 {
            Err(Error::EarlyEndOfStream)
        } else {
            let b = bytes[0];
            let rest = vstd::slice::slice_subrange(bytes, 1, bytes.len());
            assert(rest@ == bytes@.skip(1));
            Ok((b, rest))
        }
    }

    proof fn lemma_roundtrip(v: u8, suffix: Seq<u8>) {
        let bytes = Self::spec_encoding(v) + suffix;
        assert(bytes[0] == v);
        assert(bytes.skip(1) == suffix);
    }

    proof fn lemma_parse_encoding(bytes: Seq<u8>) {
        if bytes.len() >= 1 {
            assert(seq![bytes[0]] + bytes.skip(1) == bytes);
        }
    }
}

impl ToBytes for bool {
    type Model = bool;

    open spec fn model(&self) -> bool {
        *self
    }

    open spec fn spec_encodable(v: bool) -> bool {
        true
    }

    open spec fn spec_encoding(v: bool) -> Seq<u8> {
        if v {
            seq![1u8]
        } else {
            seq![0u8]
        }
    }

    fn to_bytes(&self, sink: &mut Vec<u8>) -> (r: Result<(), Error>) {
        if *self {
            sink.push(1u8);
        } else {
            sink.push(0u8);
        }
        Ok(())
    }

    fn serialized_length(&self) -> (n: usize) {
        BOOL_SERIALIZED_LENGTH
    }
}

impl FromBytes for bool {
    open spec fn spec_from(bytes: Seq<u8>) -> Result<(bool, Seq<u8>), Error> {
        if bytes.len() < 1 {
            Err(Error::EarlyEndOfStream)
        } else if bytes[0] == 1u8 {
            Ok((true, bytes.skip(1)))
        } else if bytes[0] == 0u8 {
            Ok((false, bytes.skip(1)))
        } else {
            Err(Error::Formatting)
        }
    }

    fn from_bytes(bytes: &[u8]) -> (r: Result<(bool, &[u8]), Error>) {
        if bytes.len() < 1 {
            Err(Error::EarlyEndOfStream)
        } else {
            let b = bytes[0];
            let rest = vstd::slice::slice_subrange(bytes, 1, bytes.len());
            assert(rest@ == bytes@.skip(1));
            if b == 1u8 {
                Ok((true, rest))
            } else if b == 0u8 {
                Ok((false, rest))
            } else {
                Err(Error::Formatting)
            }
        }
    }

    proof fn lemma_roundtrip(v: bool, suffix: Seq<u8>) {
        let bytes = Self::spec_encoding(v) + suffix;
        assert(bytes.skip(1) == suffix);
    }

    proof fn lemma_parse_encoding(bytes: Seq<u8>) {
        if bytes.len() >= 1 && (bytes[0] == 1u8 || bytes[0] == 0u8) {
            assert(seq![bytes[0]] + bytes.skip(1) == bytes);
        }
    }
}

impl ToBytes for u16 {
    type Model = u16;

    open spec fn model(&self) -> u16 {
        *self
    }

    open spec fn spec_encodable(v: u16) -> bool {
        true
    }

    open spec fn spec_encoding(v: u16) -> Seq<u8> {
        vstd::bytes::spec_u16_to_le_bytes(v)
    }

    fn to_bytes(&self, sink: &mut Vec<u8>) -> (r: Result<(), Error>) {
        let bytes = vstd::bytes::u16_to_le_bytes(*self);
        sink.extend_from_slice(bytes.as_slice());
        Ok(())
    }

    fn serialized_length(&self) -> (n: usize) {
        proof {
            vstd::bytes::lemma_auto_spec_u16_to_from_le_bytes();
        }
        U16_SERIALIZED_LENGTH
    }
}

impl FromBytes for u16 {
    open spec fn spec_from(bytes: Seq<u8>) -> Result<(u16, Seq<u8>), Error> {
        if bytes.len() >= 2 {
            Ok((vstd::bytes::spec_u16_from_le_bytes(bytes.take(2)), bytes.skip(2)))
        } else {
            Err(Error::EarlyEndOfStream)
        }
    }

    fn from_bytes(bytes: &[u8]) -> (r: Result<(u16, &[u8]), Error>) {
        match safe_split_at(bytes, U16_SERIALIZED_LENGTH) {
            Ok((taken, rest)) => {
                let v = vstd::bytes::u16_from_le_bytes(taken);
                Ok((v, rest))
            },
            Err(e) => Err(e),
        }
    }

    proof fn lemma_roundtrip(v: u16, suffix: Seq<u8>) {
        vstd::bytes::lemma_auto_spec_u16_to_from_le_bytes();
        let bytes = Self::spec_encoding(v) + suffix;
        assert(bytes.take(2) == vstd::bytes::spec_u16_to_le_bytes(v));
        assert(bytes.skip(2) == suffix);
    }

    proof fn lemma_parse_encoding(bytes: Seq<u8>) {
        vstd::bytes::lemma_auto_spec_u16_to_from_le_bytes();
        if bytes.len() >= 2 {
            assert(bytes.take(2) + bytes.skip(2) == bytes);
        }
    }
}

impl ToBytes for u64 {
    type Model = u64;

    open spec fn model(&self) -> u64 {
        *self
    }

    open spec fn spec_encodable(v: u64) -> bool {
        true
    }

    open spec fn spec_encoding(v: u64) -> Seq<u8> {
        vstd::bytes::spec_u64_to_le_bytes(v)
    }

    fn to_bytes(&self, sink: &mut Vec<u8>) -> (r: Result<(), Error>) {
        let bytes = vstd::bytes::u64_to_le_bytes(*self);
        sink.extend_from_slice(bytes.as_slice());
        Ok(())
    }

    fn serialized_length(&self) -> (n: usize) {
        proof {
            vstd::bytes::lemma_auto_spec_u64_to_from_le_bytes();
        }
        U64_SERIALIZED_LENGTH
    }
}

impl FromBytes for u64 {
    open spec fn spec_from(bytes: Seq<u8>) -> Result<(u64, Seq<u8>), Error> {
        if bytes.len() >= 8 {
            Ok((vstd::bytes::spec_u64_from_le_bytes(bytes.take(8)), bytes.skip(8)))
        } else {
            Err(Error::EarlyEndOfStream)
        }
    }

    fn from_bytes(bytes: &[u8]) -> (r: Result<(u64, &[u8]), Error>) {
        match safe_split_at(bytes, U64_SERIALIZED_LENGTH) {
            Ok((taken, rest)) => {
                let v = vstd::bytes::u64_from_le_bytes(taken);
                Ok((v, rest))
            },
            Err(e) => Err(e),
        }
    }

    proof fn lemma_roundtrip(v: u64, suffix: Seq<u8>) {
        vstd::bytes::lemma_auto_spec_u64_to_from_le_bytes();
        let bytes = Self::spec_encoding(v) + suffix;
        assert(bytes.take(8) == vstd::bytes::spec_u64_to_le_bytes(v));
        assert(bytes.skip(8) == suffix);
    }

    proof fn lemma_parse_encoding(bytes: Seq<u8>) {
        vstd::bytes::lemma_auto_spec_u64_to_from_le_bytes();
        if bytes.len() >= 8 {
            assert(bytes.take(8) + bytes.skip(8) == bytes);
        }
    }
}

impl ToBytes for u32 {
    type Model = u32;

    open spec fn model(&self) -> u32 {
        *self
    }

    open spec fn spec_encodable(v: u32) -> bool {
        true
    }

    open spec fn spec_encoding(v: u32) -> Seq<u8> {
        spec_u32_to_le_bytes(v)
    }

    fn to_bytes(&self, sink: &mut Vec<u8>) -> (r: Result<(), Error>) {
        let bytes = u32_to_le_bytes(*self);
        sink.extend_from_slice(bytes.as_slice());
        Ok(())
    }

    fn serialized_length(&self) -> (n: usize) {
        proof {
            lemma_auto_spec_u32_to_from_le_bytes();
        }
        U32_SERIALIZED_LENGTH
    }
}

impl FromBytes for u32 {
    open spec fn spec_from(bytes: Seq<u8>) -> Result<(u32, Seq<u8>), Error> {
        if bytes.len() >= 4 {
            Ok((spec_u32_from_le_bytes(bytes.take(4)), bytes.skip(4)))
        } else {
            Err(Error::EarlyEndOfStream)
        }
    }

    fn from_bytes(bytes: &[u8]) -> (r: Result<(u32, &[u8]), Error>) {
        match safe_split_at(bytes, U32_SERIALIZED_LENGTH) {
            Ok((taken, rest)) => {
                let v = u32_from_le_bytes(taken);
                Ok((v, rest))
            },
            Err(e) => Err(e),
        }
    }

    proof fn lemma_roundtrip(v: u32, suffix: Seq<u8>) {
        lemma_auto_spec_u32_to_from_le_bytes();
        let bytes = Self::spec_encoding(v) + suffix;
        assert(bytes.take(4) == spec_u32_to_le_bytes(v));
        assert(bytes.skip(4) == suffix);
    }

    proof fn lemma_parse_encoding(bytes: Seq<u8>) {
        lemma_auto_spec_u32_to_from_le_bytes();
        if bytes.len() >= 4 {
            assert(bytes.take(4) + bytes.skip(4) == bytes);
        }
    }
}

impl ToBytes for i32 {
    type Model = i32;

    open spec fn model(&self) -> i32 {
        *self
    }

    open spec fn spec_encodable(v: i32) -> bool {
        true
    }

    open spec fn spec_encoding(v: i32) -> Seq<u8> {
        spec_u32_to_le_bytes(v as u32)
    }

    fn to_bytes(&self, sink: &mut Vec<u8>) -> (r: Result<(), Error>) {
        let u = #[verifier::truncate] (*self as u32);
        let bytes = u32_to_le_bytes(u);
        sink.extend_from_slice(bytes.as_slice());
        Ok(())
    }

    fn serialized_length(&self) -> (n: usize) {
        proof {
            lemma_auto_spec_u32_to_from_le_bytes();
        }
        I32_SERIALIZED_LENGTH
    }
}

impl FromBytes for i32 {
    open spec fn spec_from(bytes: Seq<u8>) -> Result<(i32, Seq<u8>), Error> {
        if bytes.len() >= 4 {
            Ok((spec_u32_from_le_bytes(bytes.take(4)) as i32, bytes.skip(4)))
        } else {
            Err(Error::EarlyEndOfStream)
        }
    }

    fn from_bytes(bytes: &[u8]) -> (r: Result<(i32, &[u8]), Error>) {
        match safe_split_at(bytes, I32_SERIALIZED_LENGTH) {
            Ok((taken, rest)) => {
                let u = u32_from_le_bytes(taken);
                let v = #[verifier::truncate] (u as i32);
                Ok((v, rest))
            },
            Err(e) => Err(e),
        }
    }

    proof fn lemma_roundtrip(v: i32, suffix: Seq<u8>) {
        lemma_auto_spec_u32_to_from_le_bytes();
        let bytes = Self::spec_encoding(v) + suffix;
        assert(bytes.take(4) == spec_u32_to_le_bytes(v as u32));
        assert(bytes.skip(4) == suffix);
        assert(((v as u32) as i32) == v) by (bit_vector);
    }

    proof fn lemma_parse_encoding(bytes: Seq<u8>) {
        lemma_auto_spec_u32_to_from_le_bytes();
        if bytes.len() >= 4 {
            let u = spec_u32_from_le_bytes(bytes.take(4));
            assert(((u as i32) as u32) == u) by (bit_vector);
            assert(bytes.take(4) + bytes.skip(4) == bytes);
        }
    }
}

impl ToBytes for i64 {
    type Model = i64;

    open spec fn model(&self) -> i64 {
        *self
    }

    open spec fn spec_encodable(v: i64) -> bool {
        true
    }

    open spec fn spec_encoding(v: i64) -> Seq<u8> {
        vstd::bytes::spec_u64_to_le_bytes(v as u64)
    }

    fn to_bytes(&self, sink: &mut Vec<u8>) -> (r: Result<(), Error>) {
        let u = #[verifier::truncate] (*self as u64);
        let bytes = vstd::bytes::u64_to_le_bytes(u);
        sink.extend_from_slice(bytes.as_slice());
        Ok(())
    }

    fn serialized_length(&self) -> (n: usize) {
        proof {
            vstd::bytes::lemma_auto_spec_u64_to_from_le_bytes();
        }
        I64_SERIALIZED_LENGTH
    }
}

impl FromBytes for i64 {
    open spec fn spec_from(bytes: Seq<u8>) -> Result<(i64, Seq<u8>), Error> {
        if bytes.len() >= 8 {
            Ok((vstd::bytes::spec_u64_from_le_bytes(bytes.take(8)) as i64, bytes.skip(8)))
        } else {
            Err(Error::EarlyEndOfStream)
        }
    }

    fn from_bytes(bytes: &[u8]) -> (r: Result<(i64, &[u8]), Error>) {
        match safe_split_at(bytes, I64_SERIALIZED_LENGTH) {
            Ok((taken, rest)) => {
                let u = vstd::bytes::u64_from_le_bytes(taken);
                let v = #[verifier::truncate] (u as i64);
                Ok((v, rest))
            },
            Err(e) => Err(e),
        }
    }

    proof fn lemma_roundtrip(v: i64, suffix: Seq<u8>) {
        vstd::bytes::lemma_auto_spec_u64_to_from_le_bytes();
        let bytes = Self::spec_encoding(v) + suffix;
        assert(bytes.take(8) == vstd::bytes::spec_u64_to_le_bytes(v as u64));
        assert(bytes.skip(8) == suffix);
        assert(((v as u64) as i64) == v) by (bit_vector);
    }

    proof fn lemma_parse_encoding(bytes: Seq<u8>) {
        vstd::bytes::lemma_auto_spec_u64_to_from_le_bytes();
        if bytes.len() >= 8 {
            let u = vstd::bytes::spec_u64_from_le_bytes(bytes.take(8));
            assert(((u as i64) as u64) == u) by (bit_vector);
            assert(bytes.take(8) + bytes.skip(8) == bytes);
        }
    }
}

impl<T: ToBytes> ToBytes for Option<T> {
    type Model = Option<T::Model>;

    open spec fn model(&self) -> Option<T::Model> {
        match self {
            None => None,
            Some(t) => Some(t.model()),
        }
    }

    open spec fn spec_encodable(v: Option<T::Model>) -> bool {
        match v {
            None => true,
            Some(m) => T::spec_encodable(m),
        }
    }

    open spec fn spec_encoding(v: Option<T::Model>) -> Seq<u8> {
        match v {
            None => seq![OPTION_NONE_TAG],
            Some(m) => seq![OPTION_SOME_TAG] + T::spec_encoding(m),
        }
    }

    fn to_bytes(&self, sink: &mut Vec<u8>) -> (r: Result<(), Error>) {
        match self {
            None => {
                sink.push(OPTION_NONE_TAG);
                Ok(())
            },
            Some(t) => {
                let mut tmp: Vec<u8> = Vec::new();
                match t.to_bytes(&mut tmp) {
                    Ok(()) => {
                        sink.push(OPTION_SOME_TAG);
                        sink.append(&mut tmp);
                        Ok(())
                    },
                    Err(e) => Err(e),
                }
            },
        }
    }

    fn serialized_length(&self) -> (n: usize) {
        match self {
            None => U8_SERIALIZED_LENGTH,
            Some(t) => {
                let inner = t.serialized_length();
                U8_SERIALIZED_LENGTH + inner
            },
        }
    }
}

impl<T: FromBytes> FromBytes for Option<T> {
    open spec fn spec_from(bytes: Seq<u8>) -> Result<(Option<T::Model>, Seq<u8>), Error> {
        if bytes.len() < 1 {
            Err(Error::EarlyEndOfStream)
        } else if bytes[0] == OPTION_NONE_TAG {
            Ok((None, bytes.skip(1)))
        } else if bytes[0] == OPTION_SOME_TAG {
            match T::spec_from(bytes.skip(1)) {
                Ok((m, rem)) => Ok((Some(m), rem)),
                Err(e) => Err(e),
            }
        } else {
            Err(Error::Formatting)
        }
    }

    fn from_bytes(bytes: &[u8]) -> (r: Result<(Option<T>, &[u8]), Error>) {
        if bytes.len() < 1 {
            Err(Error::EarlyEndOfStream)
        } else {
            let tag = bytes[0];
            let rest = vstd::slice::slice_subrange(bytes, 1, bytes.len());
            assert(rest@ == bytes@.skip(1));
            if tag == OPTION_NONE_TAG {
                Ok((None, rest))
            } else if tag == OPTION_SOME_TAG {
                match T::from_bytes(rest) {
                    Ok((t, rem)) => Ok((Some(t), rem)),
                    Err(e) => Err(e),
                }
            } else {
                Err(Error::Formatting)
            }
        }
    }

    proof fn lemma_roundtrip(v: Option<T::Model>, suffix: Seq<u8>) {
        let bytes = Self::spec_encoding(v) + suffix;
        match v {
            None => {
                assert(bytes[0] == OPTION_NONE_TAG);
                assert(bytes.skip(1) =~= suffix);
            },
            Some(m) => {
                assert(bytes[0] == OPTION_SOME_TAG);
                assert(bytes.skip(1) =~= T::spec_encoding(m) + suffix);
                T::lemma_roundtrip(m, suffix);
            },
        }
    }

    proof fn lemma_parse_encoding(bytes: Seq<u8>) {
        if bytes.len() >= 1 {
            if bytes[0] == OPTION_NONE_TAG {
                assert(seq![OPTION_NONE_TAG] + bytes.skip(1) =~= bytes);
            } else if bytes[0] == OPTION_SOME_TAG {
                T::lemma_parse_encoding(bytes.skip(1));
                if let Ok((m, rem)) = T::spec_from(bytes.skip(1)) {
                    assert((seq![OPTION_SOME_TAG] + T::spec_encoding(m)) + rem =~= seq![
                        OPTION_SOME_TAG,
                    ] + (T::spec_encoding(m) + rem));
                    assert(seq![OPTION_SOME_TAG] + bytes.skip(1) =~= bytes);
                }
            }
        }
    }
}

impl<T: ToBytes, E: ToBytes> ToBytes for Result<T, E> {
    type Model = Result<T::Model, E::Model>;

    open spec fn model(&self) -> Result<T::Model, E::Model> {
        match self {
            Ok(t) => Ok(t.model()),
            Err(e) => Err(e.model()),
        }
    }

    open spec fn spec_encodable(v: Result<T::Model, E::Model>) -> bool {
        match v {
            Ok(m) => T::spec_encodable(m),
            Err(m) => E::spec_encodable(m),
        }
    }

    open spec fn spec_encoding(v: Result<T::Model, E::Model>) -> Seq<u8> {
        match v {
            Ok(m) => seq![RESULT_OK_TAG] + T::spec_encoding(m),
            Err(m) => seq![RESULT_ERR_TAG] + E::spec_encoding(m),
        }
    }

    fn to_bytes(&self, sink: &mut Vec<u8>) -> (r: Result<(), Error>) {
        match self {
            Ok(t) => {
                let mut tmp: Vec<u8> = Vec::new();
                match t.to_bytes(&mut tmp) {
                    Ok(()) => {
                        sink.push(RESULT_OK_TAG);
                        sink.append(&mut tmp);
                        Ok(())
                    },
                    Err(e) => Err(e),
                }
            },
            Err(inner) => {
                let mut tmp: Vec<u8> = Vec::new();
                match inner.to_bytes(&mut tmp) {
                    Ok(()) => {
                        sink.push(RESULT_ERR_TAG);
                        sink.append(&mut tmp);
                        Ok(())
                    },
                    Err(e) => Err(e),
                }
            },
        }
    }

    fn serialized_length(&self) -> (n: usize) {
        match self {
            Ok(t) => {
                let inner = t.serialized_length();
                U8_SERIALIZED_LENGTH + inner
            },
            Err(e) => {
                let inner = e.serialized_length();
                U8_SERIALIZED_LENGTH + inner
            },
        }
    }
}

impl<T: FromBytes, E: FromBytes> FromBytes for Result<T, E> {
    open spec fn spec_from(bytes: Seq<u8>) -> Result<
        (Result<T::Model, E::Model>, Seq<u8>),
        Error,
    > {
        if bytes.len() < 1 {
            Err(Error::EarlyEndOfStream)
        } else if bytes[0] == RESULT_ERR_TAG {
            match E::spec_from(bytes.skip(1)) {
                Ok((m, rem)) => Ok((Err(m), rem)),
                Err(e) => Err(e),
            }
        } else if bytes[0] == RESULT_OK_TAG {
            match T::spec_from(bytes.skip(1)) {
                Ok((m, rem)) => Ok((Ok(m), rem)),
                Err(e) => Err(e),
            }
        } else {
            Err(Error::Formatting)
        }
    }

    fn from_bytes(bytes: &[u8]) -> (r: Result<(Result<T, E>, &[u8]), Error>) {
        if bytes.len() < 1 {
            Err(Error::EarlyEndOfStream)
        } else {
            let tag = bytes[0];
            let rest = vstd::slice::slice_subrange(bytes, 1, bytes.len());
            assert(rest@ == bytes@.skip(1));
            if tag == RESULT_ERR_TAG {
                match E::from_bytes(rest) {
                    Ok((e, rem)) => Ok((Err(e), rem)),
                    Err(e) => Err(e),
                }
            } else if tag == RESULT_OK_TAG {
                match T::from_bytes(rest) {
                    Ok((t, rem)) => Ok((Ok(t), rem)),
                    Err(e) => Err(e),
                }
            } else {
                Err(Error::Formatting)
            }
        }
    }

    proof fn lemma_roundtrip(v: Result<T::Model, E::Model>, suffix: Seq<u8>) {
        let bytes = Self::spec_encoding(v) + suffix;
        match v {
            Ok(m) => {
                assert(bytes[0] == RESULT_OK_TAG);
                assert(bytes.skip(1) =~= T::spec_encoding(m) + suffix);
                T::lemma_roundtrip(m, suffix);
            },
            Err(m) => {
                assert(bytes[0] == RESULT_ERR_TAG);
                assert(bytes.skip(1) =~= E::spec_encoding(m) + suffix);
                E::lemma_roundtrip(m, suffix);
            },
        }
    }

    proof fn lemma_parse_encoding(bytes: Seq<u8>) {
        if bytes.len() >= 1 {
            if bytes[0] == RESULT_ERR_TAG {
                E::lemma_parse_encoding(bytes.skip(1));
                if let Ok((m, rem)) = E::spec_from(bytes.skip(1)) {
                    assert((seq![RESULT_ERR_TAG] + E::spec_encoding(m)) + rem =~= seq![
                        RESULT_ERR_TAG,
                    ] + (E::spec_encoding(m) + rem));
                    assert(seq![RESULT_ERR_TAG] + bytes.skip(1) =~= bytes);
                }
            } else if bytes[0] == RESULT_OK_TAG {
                T::lemma_parse_encoding(bytes.skip(1));
                if let Ok((m, rem)) = T::spec_from(bytes.skip(1)) {
                    assert((seq![RESULT_OK_TAG] + T::spec_encoding(m)) + rem =~= seq![
                        RESULT_OK_TAG,
                    ] + (T::spec_encoding(m) + rem));
                    assert(seq![RESULT_OK_TAG] + bytes.skip(1) =~= bytes);
                }
            }
        }
    }
}

impl<T1: ToBytes> ToBytes for (T1,) {
    type Model = (T1::Model,);

    open spec fn model(&self) -> (T1::Model,) {
        (self.0.model(),)
    }

    open spec fn spec_encodable(v: (T1::Model,)) -> bool {
        T1::spec_encodable(v.0)
    }

    open spec fn spec_encoding(v: (T1::Model,)) -> Seq<u8> {
        T1::spec_encoding(v.0)
    }

    fn to_bytes(&self, sink: &mut Vec<u8>) -> (r: Result<(), Error>) {
        self.0.to_bytes(sink)
    }

    fn serialized_length(&self) -> (n: usize) {
        self.0.serialized_length()
    }
}

impl<T1: FromBytes> FromBytes for (T1,) {
    open spec fn spec_from(bytes: Seq<u8>) -> Result<((T1::Model,), Seq<u8>), Error> {
        match T1::spec_from(bytes) {
            Ok((m, rem)) => Ok(((m,), rem)),
            Err(e) => Err(e),
        }
    }

    fn from_bytes(bytes: &[u8]) -> (r: Result<((T1,), &[u8]), Error>) {
        match T1::from_bytes(bytes) {
            Ok((t1, rem)) => Ok(((t1,), rem)),
            Err(e) => Err(e),
        }
    }

    proof fn lemma_roundtrip(v: (T1::Model,), suffix: Seq<u8>) {
        T1::lemma_roundtrip(v.0, suffix);
    }

    proof fn lemma_parse_encoding(bytes: Seq<u8>) {
        T1::lemma_parse_encoding(bytes);
    }
}

impl<T1: ToBytes, T2: ToBytes> ToBytes for (T1, T2) {
    type Model = (T1::Model, T2::Model);

    open spec fn model(&self) -> (T1::Model, T2::Model) {
        (self.0.model(), self.1.model())
    }

    open spec fn spec_encodable(v: (T1::Model, T2::Model)) -> bool {
        T1::spec_encodable(v.0) && T2::spec_encodable(v.1)
    }

    open spec fn spec_encoding(v: (T1::Model, T2::Model)) -> Seq<u8> {
        T1::spec_encoding(v.0) + T2::spec_encoding(v.1)
    }

    fn to_bytes(&self, sink: &mut Vec<u8>) -> (r: Result<(), Error>) {
        let mut tmp: Vec<u8> = Vec::new();
        match self.0.to_bytes(&mut tmp) {
            Ok(()) => {},
            Err(e) => {
                return Err(e);
            },
        }
        match self.1.to_bytes(&mut tmp) {
            Ok(()) => {},
            Err(e) => {
                return Err(e);
            },
        }
        sink.append(&mut tmp);
        Ok(())
    }

    fn serialized_length(&self) -> (n: usize) {
        let n1 = self.0.serialized_length();
        let n2 = self.1.serialized_length();
        n1 + n2
    }
}

impl<T1: FromBytes, T2: FromBytes> FromBytes for (T1, T2) {
    open spec fn spec_from(bytes: Seq<u8>) -> Result<((T1::Model, T2::Model), Seq<u8>), Error> {
        match T1::spec_from(bytes) {
            Ok((m1, r1)) => match T2::spec_from(r1) {
                Ok((m2, r2)) => Ok(((m1, m2), r2)),
                Err(e) => Err(e),
            },
            Err(e) => Err(e),
        }
    }

    fn from_bytes(bytes: &[u8]) -> (r: Result<((T1, T2), &[u8]), Error>) {
        match T1::from_bytes(bytes) {
            Ok((t1, r1)) => match T2::from_bytes(r1) {
                Ok((t2, r2)) => Ok(((t1, t2), r2)),
                Err(e) => Err(e),
            },
            Err(e) => Err(e),
        }
    }

    proof fn lemma_roundtrip(v: (T1::Model, T2::Model), suffix: Seq<u8>) {
        let bytes = Self::spec_encoding(v) + suffix;
        assert(bytes =~= T1::spec_encoding(v.0) + (T2::spec_encoding(v.1) + suffix));
        T1::lemma_roundtrip(v.0, T2::spec_encoding(v.1) + suffix);
        T2::lemma_roundtrip(v.1, suffix);
    }

    proof fn lemma_parse_encoding(bytes: Seq<u8>) {
        T1::lemma_parse_encoding(bytes);
        if let Ok((m1, r1)) = T1::spec_from(bytes) {
            T2::lemma_parse_encoding(r1);
            if let Ok((m2, r2)) = T2::spec_from(r1) {
                assert((T1::spec_encoding(m1) + T2::spec_encoding(m2)) + r2 =~= T1::spec_encoding(
                    m1,
                ) + (T2::spec_encoding(m2) + r2));
            }
        }
    }
}

impl<T1: ToBytes, T2: ToBytes, T3: ToBytes> ToBytes for (T1, T2, T3) {
    type Model = (T1::Model, T2::Model, T3::Model);

    open spec fn model(&self) -> (T1::Model, T2::Model, T3::Model) {
        (self.0.model(), self.1.model(), self.2.model())
    }

    open spec fn spec_encodable(v: (T1::Model, T2::Model, T3::Model)) -> bool {
        T1::spec_encodable(v.0) && T2::spec_encodable(v.1) && T3::spec_encodable(v.2)
    }

    open spec fn spec_encoding(v: (T1::Model, T2::Model, T3::Model)) -> Seq<u8> {
        T1::spec_encoding(v.0) + T2::spec_encoding(v.1) + T3::spec_encoding(v.2)
    }

    fn to_bytes(&self, sink: &mut Vec<u8>) -> (r: Result<(), Error>) {
        let mut tmp: Vec<u8> = Vec::new();
        match self.0.to_bytes(&mut tmp) {
            Ok(()) => {},
            Err(e) => {
                return Err(e);
            },
        }
        match self.1.to_bytes(&mut tmp) {
            Ok(()) => {},
            Err(e) => {
                return Err(e);
            },
        }
        match self.2.to_bytes(&mut tmp) {
            Ok(()) => {},
            Err(e) => {
                return Err(e);
            },
        }
        sink.append(&mut tmp);
        Ok(())
    }

    fn serialized_length(&self) -> (n: usize) {
        let n1 = self.0.serialized_length();
        let n2 = self.1.serialized_length();
        let n3 = self.2.serialized_length();
        n1 + n2 + n3
    }
}

impl<T1: FromBytes, T2: FromBytes, T3: FromBytes> FromBytes for (T1, T2, T3) {
    open spec fn spec_from(bytes: Seq<u8>) -> Result<
        ((T1::Model, T2::Model, T3::Model), Seq<u8>),
        Error,
    > {
        match T1::spec_from(bytes) {
            Ok((m1, r1)) => match T2::spec_from(r1) {
                Ok((m2, r2)) => match T3::spec_from(r2) {
                    Ok((m3, r3)) => Ok(((m1, m2, m3), r3)),
                    Err(e) => Err(e),
                },
                Err(e) => Err(e),
            },
            Err(e) => Err(e),
        }
    }

    fn from_bytes(bytes: &[u8]) -> (r: Result<((T1, T2, T3), &[u8]), Error>) {
        match T1::from_bytes(bytes) {
            Ok((t1, r1)) => match T2::from_bytes(r1) {
                Ok((t2, r2)) => match T3::from_bytes(r2) {
                    Ok((t3, r3)) => Ok(((t1, t2, t3), r3)),
                    Err(e) => Err(e),
                },
                Err(e) => Err(e),
            },
            Err(e) => Err(e),
        }
    }

    proof fn lemma_roundtrip(v: (T1::Model, T2::Model, T3::Model), suffix: Seq<u8>) {
        let e1 = T1::spec_encoding(v.0);
        let e2 = T2::spec_encoding(v.1);
        let e3 = T3::spec_encoding(v.2);
        let bytes = Self::spec_encoding(v) + suffix;
        assert(bytes =~= e1 + (e2 + (e3 + suffix)));
        T1::lemma_roundtrip(v.0, e2 + (e3 + suffix));
        T2::lemma_roundtrip(v.1, e3 + suffix);
        T3::lemma_roundtrip(v.2, suffix);
    }

    proof fn lemma_parse_encoding(bytes: Seq<u8>) {
        T1::lemma_parse_encoding(bytes);
        if let Ok((m1, r1)) = T1::spec_from(bytes) {
            T2::lemma_parse_encoding(r1);
            if let Ok((m2, r2)) = T2::spec_from(r1) {
                T3::lemma_parse_encoding(r2);
                if let Ok((m3, r3)) = T3::spec_from(r2) {
                    assert((T1::spec_encoding(m1) + T2::spec_encoding(m2) + T3::spec_encoding(m3))
                        + r3 =~= T1::spec_encoding(m1) + (T2::spec_encoding(m2) + (
                    T3::spec_encoding(m3) + r3)));
                }
            }
        }
    }
}

impl<T1: ToBytes, T2: ToBytes, T3: ToBytes, T4: ToBytes> ToBytes for (T1, T2, T3, T4) {
    type Model = (T1::Model, T2::Model, T3::Model, T4::Model);

    open spec fn model(&self) -> (T1::Model, T2::Model, T3::Model, T4::Model) {
        (self.0.model(), self.1.model(), self.2.model(), self.3.model())
    }

    open spec fn spec_encodable(v: (T1::Model, T2::Model, T3::Model, T4::Model)) -> bool {
        T1::spec_encodable(v.0) && T2::spec_encodable(v.1) && T3::spec_encodable(v.2) && T4::spec_encodable(v.3)
    }

    open spec fn spec_encoding(v: (T1::Model, T2::Model, T3::Model, T4::Model)) -> Seq<u8> {
        T1::spec_encoding(v.0)
            + T2::spec_encoding(v.1)
            + T3::spec_encoding(v.2)
            + T4::spec_encoding(v.3)
    }

    fn to_bytes(&self, sink: &mut Vec<u8>) -> (r: Result<(), Error>) {
        let mut tmp: Vec<u8> = Vec::new();
        match self.0.to_bytes(&mut tmp) {
            Ok(()) => {},
            Err(e) => {
                return Err(e);
            },
        }
        match self.1.to_bytes(&mut tmp) {
            Ok(()) => {},
            Err(e) => {
                return Err(e);
            },
        }
        match self.2.to_bytes(&mut tmp) {
            Ok(()) => {},
            Err(e) => {
                return Err(e);
            },
        }
        match self.3.to_bytes(&mut tmp) {
            Ok(()) => {},
            Err(e) => {
                return Err(e);
            },
        }
        sink.append(&mut tmp);
        Ok(())
    }

    fn serialized_length(&self) -> (n: usize) {
        let n1 = self.0.serialized_length();
        let n2 = self.1.serialized_length();
        let n3 = self.2.serialized_length();
        let n4 = self.3.serialized_length();
        n1 + n2 + n3 + n4
    }
}

impl<T1: FromBytes, T2: FromBytes, T3: FromBytes, T4: FromBytes> FromBytes for (T1, T2, T3, T4) {
    open spec fn spec_from(bytes: Seq<u8>) -> Result<((T1::Model, T2::Model, T3::Model, T4::Model), Seq<u8>), Error> {
        match T1::spec_from(bytes) {
            Ok((m1, r1)) => match T2::spec_from(r1) {
                Ok((m2, r2)) => match T3::spec_from(r2) {
                    Ok((m3, r3)) => match T4::spec_from(r3) {
                        Ok((m4, r4)) => Ok(((m1, m2, m3, m4), r4)),
                        Err(e) => Err(e),
                    },
                    Err(e) => Err(e),
                },
                Err(e) => Err(e),
            },
            Err(e) => Err(e),
        }
    }

    fn from_bytes(bytes: &[u8]) -> (r: Result<((T1, T2, T3, T4), &[u8]), Error>) {
        match T1::from_bytes(bytes) {
            Ok((t1, r1)) => match T2::from_bytes(r1) {
                Ok((t2, r2)) => match T3::from_bytes(r2) {
                    Ok((t3, r3)) => match T4::from_bytes(r3) {
                        Ok((t4, r4)) => Ok(((t1, t2, t3, t4), r4)),
                        Err(e) => Err(e),
                    },
                    Err(e) => Err(e),
                },
                Err(e) => Err(e),
            },
            Err(e) => Err(e),
        }
    }

    #[verifier::rlimit(100)]
    proof fn lemma_roundtrip(v: (T1::Model, T2::Model, T3::Model, T4::Model), suffix: Seq<u8>) {
        let e1 = T1::spec_encoding(v.0);
        let e2 = T2::spec_encoding(v.1);
        let e3 = T3::spec_encoding(v.2);
        let e4 = T4::spec_encoding(v.3);
        let bytes = Self::spec_encoding(v) + suffix;
        assert(bytes =~= e1 + (e2 + (e3 + (e4 + suffix))));
        T1::lemma_roundtrip(v.0, e2 + (e3 + (e4 + suffix)));
        T2::lemma_roundtrip(v.1, e3 + (e4 + suffix));
        T3::lemma_roundtrip(v.2, e4 + suffix);
        T4::lemma_roundtrip(v.3, suffix);
    }

    #[verifier::rlimit(100)]
    proof fn lemma_parse_encoding(bytes: Seq<u8>) {
        T1::lemma_parse_encoding(bytes);
        if let Ok((m1, r1)) = T1::spec_from(bytes) {
            T2::lemma_parse_encoding(r1);
            if let Ok((m2, r2)) = T2::spec_from(r1) {
                T3::lemma_parse_encoding(r2);
                if let Ok((m3, r3)) = T3::spec_from(r2) {
                    T4::lemma_parse_encoding(r3);
                    if let Ok((m4, r4)) = T4::spec_from(r3) {
                            let e1 = T1::spec_encoding(m1);
                            let e2 = T2::spec_encoding(m2);
                            let e3 = T3::spec_encoding(m3);
                            let e4 = T4::spec_encoding(m4);
                            assert((e1 + e2 + e3 + e4) + r4 =~= e1 + (e2 + (e3 + (e4 + r4))));
                    }
                }
            }
        }
    }
}

impl<T1: ToBytes, T2: ToBytes, T3: ToBytes, T4: ToBytes, T5: ToBytes> ToBytes for (T1, T2, T3, T4, T5) {
    type Model = (T1::Model, T2::Model, T3::Model, T4::Model, T5::Model);

    open spec fn model(&self) -> (T1::Model, T2::Model, T3::Model, T4::Model, T5::Model) {
        (self.0.model(), self.1.model(), self.2.model(), self.3.model(), self.4.model())
    }

    open spec fn spec_encodable(v: (T1::Model, T2::Model, T3::Model, T4::Model, T5::Model)) -> bool {
        T1::spec_encodable(v.0) && T2::spec_encodable(v.1) && T3::spec_encodable(v.2) && T4::spec_encodable(v.3) && T5::spec_encodable(v.4)
    }

    open spec fn spec_encoding(v: (T1::Model, T2::Model, T3::Model, T4::Model, T5::Model)) -> Seq<u8> {
        T1::spec_encoding(v.0)
            + T2::spec_encoding(v.1)
            + T3::spec_encoding(v.2)
            + T4::spec_encoding(v.3)
            + T5::spec_encoding(v.4)
    }

    fn to_bytes(&self, sink: &mut Vec<u8>) -> (r: Result<(), Error>) {
        let mut tmp: Vec<u8> = Vec::new();
        match self.0.to_bytes(&mut tmp) {
            Ok(()) => {},
            Err(e) => {
                return Err(e);
            },
        }
        match self.1.to_bytes(&mut tmp) {
            Ok(()) => {},
            Err(e) => {
                return Err(e);
            },
        }
        match self.2.to_bytes(&mut tmp) {
            Ok(()) => {},
            Err(e) => {
                return Err(e);
            },
        }
        match self.3.to_bytes(&mut tmp) {
            Ok(()) => {},
            Err(e) => {
                return Err(e);
            },
        }
        match self.4.to_bytes(&mut tmp) {
            Ok(()) => {},
            Err(e) => {
                return Err(e);
            },
        }
        sink.append(&mut tmp);
        Ok(())
    }

    fn serialized_length(&self) -> (n: usize) {
        let n1 = self.0.serialized_length();
        let n2 = self.1.serialized_length();
        let n3 = self.2.serialized_length();
        let n4 = self.3.serialized_length();
        let n5 = self.4.serialized_length();
        n1 + n2 + n3 + n4 + n5
    }
}

impl<T1: FromBytes, T2: FromBytes, T3: FromBytes, T4: FromBytes, T5: FromBytes> FromBytes for (T1, T2, T3, T4, T5) {
    open spec fn spec_from(bytes: Seq<u8>) -> Result<((T1::Model, T2::Model, T3::Model, T4::Model, T5::Model), Seq<u8>), Error> {
        match T1::spec_from(bytes) {
            Ok((m1, r1)) => match T2::spec_from(r1) {
                Ok((m2, r2)) => match T3::spec_from(r2) {
                    Ok((m3, r3)) => match T4::spec_from(r3) {
                        Ok((m4, r4)) => match T5::spec_from(r4) {
                            Ok((m5, r5)) => Ok(((m1, m2, m3, m4, m5), r5)),
                            Err(e) => Err(e),
                        },
                        Err(e) => Err(e),
                    },
                    Err(e) => Err(e),
                },
                Err(e) => Err(e),
            },
            Err(e) => Err(e),
        }
    }

    fn from_bytes(bytes: &[u8]) -> (r: Result<((T1, T2, T3, T4, T5), &[u8]), Error>) {
        match T1::from_bytes(bytes) {
            Ok((t1, r1)) => match T2::from_bytes(r1) {
                Ok((t2, r2)) => match T3::from_bytes(r2) {
                    Ok((t3, r3)) => match T4::from_bytes(r3) {
                        Ok((t4, r4)) => match T5::from_bytes(r4) {
                            Ok((t5, r5)) => Ok(((t1, t2, t3, t4, t5), r5)),
                            Err(e) => Err(e),
                        },
                        Err(e) => Err(e),
                    },
                    Err(e) => Err(e),
                },
                Err(e) => Err(e),
            },
            Err(e) => Err(e),
        }
    }

    #[verifier::rlimit(100)]
    proof fn lemma_roundtrip(v: (T1::Model, T2::Model, T3::Model, T4::Model, T5::Model), suffix: Seq<u8>) {
        let e1 = T1::spec_encoding(v.0);
        let e2 = T2::spec_encoding(v.1);
        let e3 = T3::spec_encoding(v.2);
        let e4 = T4::spec_encoding(v.3);
        let e5 = T5::spec_encoding(v.4);
        let bytes = Self::spec_encoding(v) + suffix;
        assert(bytes =~= e1 + (e2 + (e3 + (e4 + (e5 + suffix)))));
        T1::lemma_roundtrip(v.0, e2 + (e3 + (e4 + (e5 + suffix))));
        T2::lemma_roundtrip(v.1, e3 + (e4 + (e5 + suffix)));
        T3::lemma_roundtrip(v.2, e4 + (e5 + suffix));
        T4::lemma_roundtrip(v.3, e5 + suffix);
        T5::lemma_roundtrip(v.4, suffix);
    }

    #[verifier::rlimit(100)]
    proof fn lemma_parse_encoding(bytes: Seq<u8>) {
        T1::lemma_parse_encoding(bytes);
        if let Ok((m1, r1)) = T1::spec_from(bytes) {
            T2::lemma_parse_encoding(r1);
            if let Ok((m2, r2)) = T2::spec_from(r1) {
                T3::lemma_parse_encoding(r2);
                if let Ok((m3, r3)) = T3::spec_from(r2) {
                    T4::lemma_parse_encoding(r3);
                    if let Ok((m4, r4)) = T4::spec_from(r3) {
                        T5::lemma_parse_encoding(r4);
                        if let Ok((m5, r5)) = T5::spec_from(r4) {
                                let e1 = T1::spec_encoding(m1);
                                let e2 = T2::spec_encoding(m2);
                                let e3 = T3::spec_encoding(m3);
                                let e4 = T4::spec_encoding(m4);
                                let e5 = T5::spec_encoding(m5);
                                assert((e1 + e2 + e3 + e4 + e5) + r5 =~= e1 + (e2 + (e3 + (e4 + (e5 + r5)))));
                        }
                    }
                }
            }
        }
    }
}

impl<T1: ToBytes, T2: ToBytes, T3: ToBytes, T4: ToBytes, T5: ToBytes, T6: ToBytes> ToBytes for (T1, T2, T3, T4, T5, T6) {
    type Model = (T1::Model, T2::Model, T3::Model, T4::Model, T5::Model, T6::Model);

    open spec fn model(&self) -> (T1::Model, T2::Model, T3::Model, T4::Model, T5::Model, T6::Model) {
        (self.0.model(), self.1.model(), self.2.model(), self.3.model(), self.4.model(), self.5.model())
    }

    open spec fn spec_encodable(v: (T1::Model, T2::Model, T3::Model, T4::Model, T5::Model, T6::Model)) -> bool {
        T1::spec_encodable(v.0) && T2::spec_encodable(v.1) && T3::spec_encodable(v.2) && T4::spec_encodable(v.3) && T5::spec_encodable(v.4) && T6::spec_encodable(v.5)
    }

    open spec fn spec_encoding(v: (T1::Model, T2::Model, T3::Model, T4::Model, T5::Model, T6::Model)) -> Seq<u8> {
        T1::spec_encoding(v.0)
            + T2::spec_encoding(v.1)
            + T3::spec_encoding(v.2)
            + T4::spec_encoding(v.3)
            + T5::spec_encoding(v.4)
            + T6::spec_encoding(v.5)
    }

    fn to_bytes(&self, sink: &mut Vec<u8>) -> (r: Result<(), Error>) {
        let mut tmp: Vec<u8> = Vec::new();
        match self.0.to_bytes(&mut tmp) {
            Ok(()) => {},
            Err(e) => {
                return Err(e);
            },
        }
        match self.1.to_bytes(&mut tmp) {
            Ok(()) => {},
            Err(e) => {
                return Err(e);
            },
        }
        match self.2.to_bytes(&mut tmp) {
            Ok(()) => {},
            Err(e) => {
                return Err(e);
            },
        }
        match self.3.to_bytes(&mut tmp) {
            Ok(()) => {},
            Err(e) => {
                return Err(e);
            },
        }
        match self.4.to_bytes(&mut tmp) {
            Ok(()) => {},
            Err(e) => {
                return Err(e);
            },
        }
        match self.5.to_bytes(&mut tmp) {
            Ok(()) => {},
            Err(e) => {
                return Err(e);
            },
        }
        sink.append(&mut tmp);
        Ok(())
    }

    fn serialized_length(&self) -> (n: usize) {
        let n1 = self.0.serialized_length();
        let n2 = self.1.serialized_length();
        let n3 = self.2.serialized_length();
        let n4 = self.3.serialized_length();
        let n5 = self.4.serialized_length();
        let n6 = self.5.serialized_length();
        n1 + n2 + n3 + n4 + n5 + n6
    }
}

impl<T1: FromBytes, T2: FromBytes, T3: FromBytes, T4: FromBytes, T5: FromBytes, T6: FromBytes> FromBytes for (T1, T2, T3, T4, T5, T6) {
    open spec fn spec_from(bytes: Seq<u8>) -> Result<((T1::Model, T2::Model, T3::Model, T4::Model, T5::Model, T6::Model), Seq<u8>), Error> {
        match T1::spec_from(bytes) {
            Ok((m1, r1)) => match T2::spec_from(r1) {
                Ok((m2, r2)) => match T3::spec_from(r2) {
                    Ok((m3, r3)) => match T4::spec_from(r3) {
                        Ok((m4, r4)) => match T5::spec_from(r4) {
                            Ok((m5, r5)) => match T6::spec_from(r5) {
                                Ok((m6, r6)) => Ok(((m1, m2, m3, m4, m5, m6), r6)),
                                Err(e) => Err(e),
                            },
                            Err(e) => Err(e),
                        },
                        Err(e) => Err(e),
                    },
                    Err(e) => Err(e),
                },
                Err(e) => Err(e),
            },
            Err(e) => Err(e),
        }
    }

    fn from_bytes(bytes: &[u8]) -> (r: Result<((T1, T2, T3, T4, T5, T6), &[u8]), Error>) {
        match T1::from_bytes(bytes) {
            Ok((t1, r1)) => match T2::from_bytes(r1) {
                Ok((t2, r2)) => match T3::from_bytes(r2) {
                    Ok((t3, r3)) => match T4::from_bytes(r3) {
                        Ok((t4, r4)) => match T5::from_bytes(r4) {
                            Ok((t5, r5)) => match T6::from_bytes(r5) {
                                Ok((t6, r6)) => Ok(((t1, t2, t3, t4, t5, t6), r6)),
                                Err(e) => Err(e),
                            },
                            Err(e) => Err(e),
                        },
                        Err(e) => Err(e),
                    },
                    Err(e) => Err(e),
                },
                Err(e) => Err(e),
            },
            Err(e) => Err(e),
        }
    }

    #[verifier::rlimit(100)]
    proof fn lemma_roundtrip(v: (T1::Model, T2::Model, T3::Model, T4::Model, T5::Model, T6::Model), suffix: Seq<u8>) {
        let e1 = T1::spec_encoding(v.0);
        let e2 = T2::spec_encoding(v.1);
        let e3 = T3::spec_encoding(v.2);
        let e4 = T4::spec_encoding(v.3);
        let e5 = T5::spec_encoding(v.4);
        let e6 = T6::spec_encoding(v.5);
        let bytes = Self::spec_encoding(v) + suffix;
        assert(bytes =~= e1 + (e2 + (e3 + (e4 + (e5 + (e6 + suffix))))));
        T1::lemma_roundtrip(v.0, e2 + (e3 + (e4 + (e5 + (e6 + suffix)))));
        T2::lemma_roundtrip(v.1, e3 + (e4 + (e5 + (e6 + suffix))));
        T3::lemma_roundtrip(v.2, e4 + (e5 + (e6 + suffix)));
        T4::lemma_roundtrip(v.3, e5 + (e6 + suffix));
        T5::lemma_roundtrip(v.4, e6 + suffix);
        T6::lemma_roundtrip(v.5, suffix);
    }

    #[verifier::rlimit(100)]
    proof fn lemma_parse_encoding(bytes: Seq<u8>) {
        T1::lemma_parse_encoding(bytes);
        if let Ok((m1, r1)) = T1::spec_from(bytes) {
            T2::lemma_parse_encoding(r1);
            if let Ok((m2, r2)) = T2::spec_from(r1) {
                T3::lemma_parse_encoding(r2);
                if let Ok((m3, r3)) = T3::spec_from(r2) {
                    T4::lemma_parse_encoding(r3);
                    if let Ok((m4, r4)) = T4::spec_from(r3) {
                        T5::lemma_parse_encoding(r4);
                        if let Ok((m5, r5)) = T5::spec_from(r4) {
                            T6::lemma_parse_encoding(r5);
                            if let Ok((m6, r6)) = T6::spec_from(r5) {
                                    let e1 = T1::spec_encoding(m1);
                                    let e2 = T2::spec_encoding(m2);
                                    let e3 = T3::spec_encoding(m3);
                                    let e4 = T4::spec_encoding(m4);
                                    let e5 = T5::spec_encoding(m5);
                                    let e6 = T6::spec_encoding(m6);
                                    assert((e1 + e2 + e3 + e4 + e5 + e6) + r6 =~= e1 + (e2 + (e3 + (e4 + (e5 + (e6 + r6))))));
                            }
                        }
                    }
                }
            }
        }
    }
}

impl<T1: ToBytes, T2: ToBytes, T3: ToBytes, T4: ToBytes, T5: ToBytes, T6: ToBytes, T7: ToBytes> ToBytes for (T1, T2, T3, T4, T5, T6, T7) {
    type Model = (T1::Model, T2::Model, T3::Model, T4::Model, T5::Model, T6::Model, T7::Model);

    open spec fn model(&self) -> (T1::Model, T2::Model, T3::Model, T4::Model, T5::Model, T6::Model, T7::Model) {
        (self.0.model(), self.1.model(), self.2.model(), self.3.model(), self.4.model(), self.5.model(), self.6.model())
    }

    open spec fn spec_encodable(v: (T1::Model, T2::Model, T3::Model, T4::Model, T5::Model, T6::Model, T7::Model)) -> bool {
        T1::spec_encodable(v.0) && T2::spec_encodable(v.1) && T3::spec_encodable(v.2) && T4::spec_encodable(v.3) && T5::spec_encodable(v.4) && T6::spec_encodable(v.5) && T7::spec_encodable(v.6)
    }

    open spec fn spec_encoding(v: (T1::Model, T2::Model, T3::Model, T4::Model, T5::Model, T6::Model, T7::Model)) -> Seq<u8> {
        T1::spec_encoding(v.0)
            + T2::spec_encoding(v.1)
            + T3::spec_encoding(v.2)
            + T4::spec_encoding(v.3)
            + T5::spec_encoding(v.4)
            + T6::spec_encoding(v.5)
            + T7::spec_encoding(v.6)
    }

    fn to_bytes(&self, sink: &mut Vec<u8>) -> (r: Result<(), Error>) {
        let mut tmp: Vec<u8> = Vec::new();
        match self.0.to_bytes(&mut tmp) {
            Ok(()) => {},
            Err(e) => {
                return Err(e);
            },
        }
        match self.1.to_bytes(&mut tmp) {
            Ok(()) => {},
            Err(e) => {
                return Err(e);
            },
        }
        match self.2.to_bytes(&mut tmp) {
            Ok(()) => {},
            Err(e) => {
                return Err(e);
            },
        }
        match self.3.to_bytes(&mut tmp) {
            Ok(()) => {},
            Err(e) => {
                return Err(e);
            },
        }
        match self.4.to_bytes(&mut tmp) {
            Ok(()) => {},
            Err(e) => {
                return Err(e);
            },
        }
        match self.5.to_bytes(&mut tmp) {
            Ok(()) => {},
            Err(e) => {
                return Err(e);
            },
        }
        match self.6.to_bytes(&mut tmp) {
            Ok(()) => {},
            Err(e) => {
                return Err(e);
            },
        }
        sink.append(&mut tmp);
        Ok(())
    }

    fn serialized_length(&self) -> (n: usize) {
        let n1 = self.0.serialized_length();
        let n2 = self.1.serialized_length();
        let n3 = self.2.serialized_length();
        let n4 = self.3.serialized_length();
        let n5 = self.4.serialized_length();
        let n6 = self.5.serialized_length();
        let n7 = self.6.serialized_length();
        n1 + n2 + n3 + n4 + n5 + n6 + n7
    }
}

impl<T1: FromBytes, T2: FromBytes, T3: FromBytes, T4: FromBytes, T5: FromBytes, T6: FromBytes, T7: FromBytes> FromBytes for (T1, T2, T3, T4, T5, T6, T7) {
    open spec fn spec_from(bytes: Seq<u8>) -> Result<((T1::Model, T2::Model, T3::Model, T4::Model, T5::Model, T6::Model, T7::Model), Seq<u8>), Error> {
        match T1::spec_from(bytes) {
            Ok((m1, r1)) => match T2::spec_from(r1) {
                Ok((m2, r2)) => match T3::spec_from(r2) {
                    Ok((m3, r3)) => match T4::spec_from(r3) {
                        Ok((m4, r4)) => match T5::spec_from(r4) {
                            Ok((m5, r5)) => match T6::spec_from(r5) {
                                Ok((m6, r6)) => match T7::spec_from(r6) {
                                    Ok((m7, r7)) => Ok(((m1, m2, m3, m4, m5, m6, m7), r7)),
                                    Err(e) => Err(e),
                                },
                                Err(e) => Err(e),
                            },
                            Err(e) => Err(e),
                        },
                        Err(e) => Err(e),
                    },
                    Err(e) => Err(e),
                },
                Err(e) => Err(e),
            },
            Err(e) => Err(e),
        }
    }

    fn from_bytes(bytes: &[u8]) -> (r: Result<((T1, T2, T3, T4, T5, T6, T7), &[u8]), Error>) {
        match T1::from_bytes(bytes) {
            Ok((t1, r1)) => match T2::from_bytes(r1) {
                Ok((t2, r2)) => match T3::from_bytes(r2) {
                    Ok((t3, r3)) => match T4::from_bytes(r3) {
                        Ok((t4, r4)) => match T5::from_bytes(r4) {
                            Ok((t5, r5)) => match T6::from_bytes(r5) {
                                Ok((t6, r6)) => match T7::from_bytes(r6) {
                                    Ok((t7, r7)) => Ok(((t1, t2, t3, t4, t5, t6, t7), r7)),
                                    Err(e) => Err(e),
                                },
                                Err(e) => Err(e),
                            },
                            Err(e) => Err(e),
                        },
                        Err(e) => Err(e),
                    },
                    Err(e) => Err(e),
                },
                Err(e) => Err(e),
            },
            Err(e) => Err(e),
        }
    }

    #[verifier::rlimit(100)]
    proof fn lemma_roundtrip(v: (T1::Model, T2::Model, T3::Model, T4::Model, T5::Model, T6::Model, T7::Model), suffix: Seq<u8>) {
        let e1 = T1::spec_encoding(v.0);
        let e2 = T2::spec_encoding(v.1);
        let e3 = T3::spec_encoding(v.2);
        let e4 = T4::spec_encoding(v.3);
        let e5 = T5::spec_encoding(v.4);
        let e6 = T6::spec_encoding(v.5);
        let e7 = T7::spec_encoding(v.6);
        let bytes = Self::spec_encoding(v) + suffix;
        assert(bytes =~= e1 + (e2 + (e3 + (e4 + (e5 + (e6 + (e7 + suffix)))))));
        T1::lemma_roundtrip(v.0, e2 + (e3 + (e4 + (e5 + (e6 + (e7 + suffix))))));
        T2::lemma_roundtrip(v.1, e3 + (e4 + (e5 + (e6 + (e7 + suffix)))));
        T3::lemma_roundtrip(v.2, e4 + (e5 + (e6 + (e7 + suffix))));
        T4::lemma_roundtrip(v.3, e5 + (e6 + (e7 + suffix)));
        T5::lemma_roundtrip(v.4, e6 + (e7 + suffix));
        T6::lemma_roundtrip(v.5, e7 + suffix);
        T7::lemma_roundtrip(v.6, suffix);
    }

    #[verifier::rlimit(100)]
    proof fn lemma_parse_encoding(bytes: Seq<u8>) {
        T1::lemma_parse_encoding(bytes);
        if let Ok((m1, r1)) = T1::spec_from(bytes) {
            T2::lemma_parse_encoding(r1);
            if let Ok((m2, r2)) = T2::spec_from(r1) {
                T3::lemma_parse_encoding(r2);
                if let Ok((m3, r3)) = T3::spec_from(r2) {
                    T4::lemma_parse_encoding(r3);
                    if let Ok((m4, r4)) = T4::spec_from(r3) {
                        T5::lemma_parse_encoding(r4);
                        if let Ok((m5, r5)) = T5::spec_from(r4) {
                            T6::lemma_parse_encoding(r5);
                            if let Ok((m6, r6)) = T6::spec_from(r5) {
                                T7::lemma_parse_encoding(r6);
                                if let Ok((m7, r7)) = T7::spec_from(r6) {
                                        let e1 = T1::spec_encoding(m1);
                                        let e2 = T2::spec_encoding(m2);
                                        let e3 = T3::spec_encoding(m3);
                                        let e4 = T4::spec_encoding(m4);
                                        let e5 = T5::spec_encoding(m5);
                                        let e6 = T6::spec_encoding(m6);
                                        let e7 = T7::spec_encoding(m7);
                                        assert((e1 + e2 + e3 + e4 + e5 + e6 + e7) + r7 =~= e1 + (e2 + (e3 + (e4 + (e5 + (e6 + (e7 + r7)))))));
                                }
                            }
                        }
                    }
                }
            }
        }
    }
}

impl<T1: ToBytes, T2: ToBytes, T3: ToBytes, T4: ToBytes, T5: ToBytes, T6: ToBytes, T7: ToBytes, T8: ToBytes> ToBytes for (T1, T2, T3, T4, T5, T6, T7, T8) {
    type Model = (T1::Model, T2::Model, T3::Model, T4::Model, T5::Model, T6::Model, T7::Model, T8::Model);

    open spec fn model(&self) -> (T1::Model, T2::Model, T3::Model, T4::Model, T5::Model, T6::Model, T7::Model, T8::Model) {
        (self.0.model(), self.1.model(), self.2.model(), self.3.model(), self.4.model(), self.5.model(), self.6.model(), self.7.model())
    }

    open spec fn spec_encodable(v: (T1::Model, T2::Model, T3::Model, T4::Model, T5::Model, T6::Model, T7::Model, T8::Model)) -> bool {
        T1::spec_encodable(v.0) && T2::spec_encodable(v.1) && T3::spec_encodable(v.2) && T4::spec_encodable(v.3) && T5::spec_encodable(v.4) && T6::spec_encodable(v.5) && T7::spec_encodable(v.6) && T8::spec_encodable(v.7)
    }

    open spec fn spec_encoding(v: (T1::Model, T2::Model, T3::Model, T4::Model, T5::Model, T6::Model, T7::Model, T8::Model)) -> Seq<u8> {
        T1::spec_encoding(v.0)
            + T2::spec_encoding(v.1)
            + T3::spec_encoding(v.2)
            + T4::spec_encoding(v.3)
            + T5::spec_encoding(v.4)
            + T6::spec_encoding(v.5)
            + T7::spec_encoding(v.6)
            + T8::spec_encoding(v.7)
    }

    fn to_bytes(&self, sink: &mut Vec<u8>) -> (r: Result<(), Error>) {
        let mut tmp: Vec<u8> = Vec::new();
        match self.0.to_bytes(&mut tmp) {
            Ok(()) => {},
            Err(e) => {
                return Err(e);
            },
        }
        match self.1.to_bytes(&mut tmp) {
            Ok(()) => {},
            Err(e) => {
                return Err(e);
            },
        }
        match self.2.to_bytes(&mut tmp) {
            Ok(()) => {},
            Err(e) => {
                return Err(e);
            },
        }
        match self.3.to_bytes(&mut tmp) {
            Ok(()) => {},
            Err(e) => {
                return Err(e);
            },
        }
        match self.4.to_bytes(&mut tmp) {
            Ok(()) => {},
            Err(e) => {
                return Err(e);
            },
        }
        match self.5.to_bytes(&mut tmp) {
            Ok(()) => {},
            Err(e) => {
                return Err(e);
            },
        }
        match self.6.to_bytes(&mut tmp) {
            Ok(()) => {},
            Err(e) => {
                return Err(e);
            },
        }
        match self.7.to_bytes(&mut tmp) {
            Ok(()) => {},
            Err(e) => {
                return Err(e);
            },
        }
        sink.append(&mut tmp);
        Ok(())
    }

    fn serialized_length(&self) -> (n: usize) {
        let n1 = self.0.serialized_length();
        let n2 = self.1.serialized_length();
        let n3 = self.2.serialized_length();
        let n4 = self.3.serialized_length();
        let n5 = self.4.serialized_length();
        let n6 = self.5.serialized_length();
        let n7 = self.6.serialized_length();
        let n8 = self.7.serialized_length();
        n1 + n2 + n3 + n4 + n5 + n6 + n7 + n8
    }
}

impl<T1: FromBytes, T2: FromBytes, T3: FromBytes, T4: FromBytes, T5: FromBytes, T6: FromBytes, T7: FromBytes, T8: FromBytes> FromBytes for (T1, T2, T3, T4, T5, T6, T7, T8) {
    open spec fn spec_from(bytes: Seq<u8>) -> Result<((T1::Model, T2::Model, T3::Model, T4::Model, T5::Model, T6::Model, T7::Model, T8::Model), Seq<u8>), Error> {
        match T1::spec_from(bytes) {
            Ok((m1, r1)) => match T2::spec_from(r1) {
                Ok((m2, r2)) => match T3::spec_from(r2) {
                    Ok((m3, r3)) => match T4::spec_from(r3) {
                        Ok((m4, r4)) => match T5::spec_from(r4) {
                            Ok((m5, r5)) => match T6::spec_from(r5) {
                                Ok((m6, r6)) => match T7::spec_from(r6) {
                                    Ok((m7, r7)) => match T8::spec_from(r7) {
                                        Ok((m8, r8)) => Ok(((m1, m2, m3, m4, m5, m6, m7, m8), r8)),
                                        Err(e) => Err(e),
                                    },
                                    Err(e) => Err(e),
                                },
                                Err(e) => Err(e),
                            },
                            Err(e) => Err(e),
                        },
                        Err(e) => Err(e),
                    },
                    Err(e) => Err(e),
                },
                Err(e) => Err(e),
            },
            Err(e) => Err(e),
        }
    }

    fn from_bytes(bytes: &[u8]) -> (r: Result<((T1, T2, T3, T4, T5, T6, T7, T8), &[u8]), Error>) {
        match T1::from_bytes(bytes) {
            Ok((t1, r1)) => match T2::from_bytes(r1) {
                Ok((t2, r2)) => match T3::from_bytes(r2) {
                    Ok((t3, r3)) => match T4::from_bytes(r3) {
                        Ok((t4, r4)) => match T5::from_bytes(r4) {
                            Ok((t5, r5)) => match T6::from_bytes(r5) {
                                Ok((t6, r6)) => match T7::from_bytes(r6) {
                                    Ok((t7, r7)) => match T8::from_bytes(r7) {
                                        Ok((t8, r8)) => Ok(((t1, t2, t3, t4, t5, t6, t7, t8), r8)),
                                        Err(e) => Err(e),
                                    },
                                    Err(e) => Err(e),
                                },
                                Err(e) => Err(e),
                            },
                            Err(e) => Err(e),
                        },
                        Err(e) => Err(e),
                    },
                    Err(e) => Err(e),
                },
                Err(e) => Err(e),
            },
            Err(e) => Err(e),
        }
    }

    #[verifier::rlimit(100)]
    proof fn lemma_roundtrip(v: (T1::Model, T2::Model, T3::Model, T4::Model, T5::Model, T6::Model, T7::Model, T8::Model), suffix: Seq<u8>) {
        let e1 = T1::spec_encoding(v.0);
        let e2 = T2::spec_encoding(v.1);
        let e3 = T3::spec_encoding(v.2);
        let e4 = T4::spec_encoding(v.3);
        let e5 = T5::spec_encoding(v.4);
        let e6 = T6::spec_encoding(v.5);
        let e7 = T7::spec_encoding(v.6);
        let e8 = T8::spec_encoding(v.7);
        let bytes = Self::spec_encoding(v) + suffix;
        assert(bytes =~= e1 + (e2 + (e3 + (e4 + (e5 + (e6 + (e7 + (e8 + suffix))))))));
        T1::lemma_roundtrip(v.0, e2 + (e3 + (e4 + (e5 + (e6 + (e7 + (e8 + suffix)))))));
        T2::lemma_roundtrip(v.1, e3 + (e4 + (e5 + (e6 + (e7 + (e8 + suffix))))));
        T3::lemma_roundtrip(v.2, e4 + (e5 + (e6 + (e7 + (e8 + suffix)))));
        T4::lemma_roundtrip(v.3, e5 + (e6 + (e7 + (e8 + suffix))));
        T5::lemma_roundtrip(v.4, e6 + (e7 + (e8 + suffix)));
        T6::lemma_roundtrip(v.5, e7 + (e8 + suffix));
        T7::lemma_roundtrip(v.6, e8 + suffix);
        T8::lemma_roundtrip(v.7, suffix);
    }

    #[verifier::rlimit(100)]
    proof fn lemma_parse_encoding(bytes: Seq<u8>) {
        T1::lemma_parse_encoding(bytes);
        if let Ok((m1, r1)) = T1::spec_from(bytes) {
            T2::lemma_parse_encoding(r1);
            if let Ok((m2, r2)) = T2::spec_from(r1) {
                T3::lemma_parse_encoding(r2);
                if let Ok((m3, r3)) = T3::spec_from(r2) {
                    T4::lemma_parse_encoding(r3);
                    if let Ok((m4, r4)) = T4::spec_from(r3) {
                        T5::lemma_parse_encoding(r4);
                        if let Ok((m5, r5)) = T5::spec_from(r4) {
                            T6::lemma_parse_encoding(r5);
                            if let Ok((m6, r6)) = T6::spec_from(r5) {
                                T7::lemma_parse_encoding(r6);
                                if let Ok((m7, r7)) = T7::spec_from(r6) {
                                    T8::lemma_parse_encoding(r7);
                                    if let Ok((m8, r8)) = T8::spec_from(r7) {
                                            let e1 = T1::spec_encoding(m1);
                                            let e2 = T2::spec_encoding(m2);
                                            let e3 = T3::spec_encoding(m3);
                                            let e4 = T4::spec_encoding(m4);
                                            let e5 = T5::spec_encoding(m5);
                                            let e6 = T6::spec_encoding(m6);
                                            let e7 = T7::spec_encoding(m7);
                                            let e8 = T8::spec_encoding(m8);
                                            assert((e1 + e2 + e3 + e4 + e5 + e6 + e7 + e8) + r8 =~= e1 + (e2 + (e3 + (e4 + (e5 + (e6 + (e7 + (e8 + r8))))))));
                                    }
                                }
                            }
                        }
                    }
                }
            }
        }
    }
}

impl<T1: ToBytes, T2: ToBytes, T3: ToBytes, T4: ToBytes, T5: ToBytes, T6: ToBytes, T7: ToBytes, T8: ToBytes, T9: ToBytes> ToBytes for (T1, T2, T3, T4, T5, T6, T7, T8, T9) {
    type Model = (T1::Model, T2::Model, T3::Model, T4::Model, T5::Model, T6::Model, T7::Model, T8::Model, T9::Model);

    open spec fn model(&self) -> (T1::Model, T2::Model, T3::Model, T4::Model, T5::Model, T6::Model, T7::Model, T8::Model, T9::Model) {
        (self.0.model(), self.1.model(), self.2.model(), self.3.model(), self.4.model(), self.5.model(), self.6.model(), self.7.model(), self.8.model())
    }

    open spec fn spec_encodable(v: (T1::Model, T2::Model, T3::Model, T4::Model, T5::Model, T6::Model, T7::Model, T8::Model, T9::Model)) -> bool {
        T1::spec_encodable(v.0) && T2::spec_encodable(v.1) && T3::spec_encodable(v.2) && T4::spec_encodable(v.3) && T5::spec_encodable(v.4) && T6::spec_encodable(v.5) && T7::spec_encodable(v.6) && T8::spec_encodable(v.7) && T9::spec_encodable(v.8)
    }

    open spec fn spec_encoding(v: (T1::Model, T2::Model, T3::Model, T4::Model, T5::Model, T6::Model, T7::Model, T8::Model, T9::Model)) -> Seq<u8> {
        T1::spec_encoding(v.0)
            + T2::spec_encoding(v.1)
            + T3::spec_encoding(v.2)
            + T4::spec_encoding(v.3)
            + T5::spec_encoding(v.4)
            + T6::spec_encoding(v.5)
            + T7::spec_encoding(v.6)
            + T8::spec_encoding(v.7)
            + T9::spec_encoding(v.8)
    }

    fn to_bytes(&self, sink: &mut Vec<u8>) -> (r: Result<(), Error>) {
        let mut tmp: Vec<u8> = Vec::new();
        match self.0.to_bytes(&mut tmp) {
            Ok(()) => {},
            Err(e) => {
                return Err(e);
            },
        }
        match self.1.to_bytes(&mut tmp) {
            Ok(()) => {},
            Err(e) => {
                return Err(e);
            },
        }
        match self.2.to_bytes(&mut tmp) {
            Ok(()) => {},
            Err(e) => {
                return Err(e);
            },
        }
        match self.3.to_bytes(&mut tmp) {
            Ok(()) => {},
            Err(e) => {
                return Err(e);
            },
        }
        match self.4.to_bytes(&mut tmp) {
            Ok(()) => {},
            Err(e) => {
                return Err(e);
            },
        }
        match self.5.to_bytes(&mut tmp) {
            Ok(()) => {},
            Err(e) => {
                return Err(e);
            },
        }
        match self.6.to_bytes(&mut tmp) {
            Ok(()) => {},
            Err(e) => {
                return Err(e);
            },
        }
        match self.7.to_bytes(&mut tmp) {
            Ok(()) => {},
            Err(e) => {
                return Err(e);
            },
        }
        match self.8.to_bytes(&mut tmp) {
            Ok(()) => {},
            Err(e) => {
                return Err(e);
            },
        }
        sink.append(&mut tmp);
        Ok(())
    }

    fn serialized_length(&self) -> (n: usize) {
        let n1 = self.0.serialized_length();
        let n2 = self.1.serialized_length();
        let n3 = self.2.serialized_length();
        let n4 = self.3.serialized_length();
        let n5 = self.4.serialized_length();
        let n6 = self.5.serialized_length();
        let n7 = self.6.serialized_length();
        let n8 = self.7.serialized_length();
        let n9 = self.8.serialized_length();
        n1 + n2 + n3 + n4 + n5 + n6 + n7 + n8 + n9
    }
}

impl<T1: FromBytes, T2: FromBytes, T3: FromBytes, T4: FromBytes, T5: FromBytes, T6: FromBytes, T7: FromBytes, T8: FromBytes, T9: FromBytes> FromBytes for (T1, T2, T3, T4, T5, T6, T7, T8, T9) {
    open spec fn spec_from(bytes: Seq<u8>) -> Result<((T1::Model, T2::Model, T3::Model, T4::Model, T5::Model, T6::Model, T7::Model, T8::Model, T9::Model), Seq<u8>), Error> {
        match T1::spec_from(bytes) {
            Ok((m1, r1)) => match T2::spec_from(r1) {
                Ok((m2, r2)) => match T3::spec_from(r2) {
                    Ok((m3, r3)) => match T4::spec_from(r3) {
                        Ok((m4, r4)) => match T5::spec_from(r4) {
                            Ok((m5, r5)) => match T6::spec_from(r5) {
                                Ok((m6, r6)) => match T7::spec_from(r6) {
                                    Ok((m7, r7)) => match T8::spec_from(r7) {
                                        Ok((m8, r8)) => match T9::spec_from(r8) {
                                            Ok((m9, r9)) => Ok(((m1, m2, m3, m4, m5, m6, m7, m8, m9), r9)),
                                            Err(e) => Err(e),
                                        },
                                        Err(e) => Err(e),
                                    },
                                    Err(e) => Err(e),
                                },
                                Err(e) => Err(e),
                            },
                            Err(e) => Err(e),
                        },
                        Err(e) => Err(e),
                    },
                    Err(e) => Err(e),
                },
                Err(e) => Err(e),
            },
            Err(e) => Err(e),
        }
    }

    fn from_bytes(bytes: &[u8]) -> (r: Result<((T1, T2, T3, T4, T5, T6, T7, T8, T9), &[u8]), Error>) {
        match T1::from_bytes(bytes) {
            Ok((t1, r1)) => match T2::from_bytes(r1) {
                Ok((t2, r2)) => match T3::from_bytes(r2) {
                    Ok((t3, r3)) => match T4::from_bytes(r3) {
                        Ok((t4, r4)) => match T5::from_bytes(r4) {
                            Ok((t5, r5)) => match T6::from_bytes(r5) {
                                Ok((t6, r6)) => match T7::from_bytes(r6) {
                                    Ok((t7, r7)) => match T8::from_bytes(r7) {
                                        Ok((t8, r8)) => match T9::from_bytes(r8) {
                                            Ok((t9, r9)) => Ok(((t1, t2, t3, t4, t5, t6, t7, t8, t9), r9)),
                                            Err(e) => Err(e),
                                        },
                                        Err(e) => Err(e),
                                    },
                                    Err(e) => Err(e),
                                },
                                Err(e) => Err(e),
                            },
                            Err(e) => Err(e),
                        },
                        Err(e) => Err(e),
                    },
                    Err(e) => Err(e),
                },
                Err(e) => Err(e),
            },
            Err(e) => Err(e),
        }
    }

    #[verifier::rlimit(100)]
    proof fn lemma_roundtrip(v: (T1::Model, T2::Model, T3::Model, T4::Model, T5::Model, T6::Model, T7::Model, T8::Model, T9::Model), suffix: Seq<u8>) {
        let e1 = T1::spec_encoding(v.0);
        let e2 = T2::spec_encoding(v.1);
        let e3 = T3::spec_encoding(v.2);
        let e4 = T4::spec_encoding(v.3);
        let e5 = T5::spec_encoding(v.4);
        let e6 = T6::spec_encoding(v.5);
        let e7 = T7::spec_encoding(v.6);
        let e8 = T8::spec_encoding(v.7);
        let e9 = T9::spec_encoding(v.8);
        let bytes = Self::spec_encoding(v) + suffix;
        assert(bytes =~= e1 + (e2 + (e3 + (e4 + (e5 + (e6 + (e7 + (e8 + (e9 + suffix)))))))));
        T1::lemma_roundtrip(v.0, e2 + (e3 + (e4 + (e5 + (e6 + (e7 + (e8 + (e9 + suffix))))))));
        T2::lemma_roundtrip(v.1, e3 + (e4 + (e5 + (e6 + (e7 + (e8 + (e9 + suffix)))))));
        T3::lemma_roundtrip(v.2, e4 + (e5 + (e6 + (e7 + (e8 + (e9 + suffix))))));
        T4::lemma_roundtrip(v.3, e5 + (e6 + (e7 + (e8 + (e9 + suffix)))));
        T5::lemma_roundtrip(v.4, e6 + (e7 + (e8 + (e9 + suffix))));
        T6::lemma_roundtrip(v.5, e7 + (e8 + (e9 + suffix)));
        T7::lemma_roundtrip(v.6, e8 + (e9 + suffix));
        T8::lemma_roundtrip(v.7, e9 + suffix);
        T9::lemma_roundtrip(v.8, suffix);
    }

    #[verifier::rlimit(100)]
    proof fn lemma_parse_encoding(bytes: Seq<u8>) {
        T1::lemma_parse_encoding(bytes);
        if let Ok((m1, r1)) = T1::spec_from(bytes) {
            T2::lemma_parse_encoding(r1);
            if let Ok((m2, r2)) = T2::spec_from(r1) {
                T3::lemma_parse_encoding(r2);
                if let Ok((m3, r3)) = T3::spec_from(r2) {
                    T4::lemma_parse_encoding(r3);
                    if let Ok((m4, r4)) = T4::spec_from(r3) {
                        T5::lemma_parse_encoding(r4);
                        if let Ok((m5, r5)) = T5::spec_from(r4) {
                            T6::lemma_parse_encoding(r5);
                            if let Ok((m6, r6)) = T6::spec_from(r5) {
                                T7::lemma_parse_encoding(r6);
                                if let Ok((m7, r7)) = T7::spec_from(r6) {
                                    T8::lemma_parse_encoding(r7);
                                    if let Ok((m8, r8)) = T8::spec_from(r7) {
                                        T9::lemma_parse_encoding(r8);
                                        if let Ok((m9, r9)) = T9::spec_from(r8) {
                                                let e1 = T1::spec_encoding(m1);
                                                let e2 = T2::spec_encoding(m2);
                                                let e3 = T3::spec_encoding(m3);
                                                let e4 = T4::spec_encoding(m4);
                                                let e5 = T5::spec_encoding(m5);
                                                let e6 = T6::spec_encoding(m6);
                                                let e7 = T7::spec_encoding(m7);
                                                let e8 = T8::spec_encoding(m8);
                                                let e9 = T9::spec_encoding(m9);
                                                assert((e1 + e2 + e3 + e4 + e5 + e6 + e7 + e8 + e9) + r9 =~= e1 + (e2 + (e3 + (e4 + (e5 + (e6 + (e7 + (e8 + (e9 + r9)))))))));
                                        }
                                    }
                                }
                            }
                        }
                    }
                }
            }
        }
    }
}

impl<T1: ToBytes, T2: ToBytes, T3: ToBytes, T4: ToBytes, T5: ToBytes, T6: ToBytes, T7: ToBytes, T8: ToBytes, T9: ToBytes, T10: ToBytes> ToBytes for (T1, T2, T3, T4, T5, T6, T7, T8, T9, T10) {
    type Model = (T1::Model, T2::Model, T3::Model, T4::Model, T5::Model, T6::Model, T7::Model, T8::Model, T9::Model, T10::Model);

    open spec fn model(&self) -> (T1::Model, T2::Model, T3::Model, T4::Model, T5::Model, T6::Model, T7::Model, T8::Model, T9::Model, T10::Model) {
        (self.0.model(), self.1.model(), self.2.model(), self.3.model(), self.4.model(), self.5.model(), self.6.model(), self.7.model(), self.8.model(), self.9.model())
    }

    open spec fn spec_encodable(v: (T1::Model, T2::Model, T3::Model, T4::Model, T5::Model, T6::Model, T7::Model, T8::Model, T9::Model, T10::Model)) -> bool {
        T1::spec_encodable(v.0) && T2::spec_encodable(v.1) && T3::spec_encodable(v.2) && T4::spec_encodable(v.3) && T5::spec_encodable(v.4) && T6::spec_encodable(v.5) && T7::spec_encodable(v.6) && T8::spec_encodable(v.7) && T9::spec_encodable(v.8) && T10::spec_encodable(v.9)
    }

    open spec fn spec_encoding(v: (T1::Model, T2::Model, T3::Model, T4::Model, T5::Model, T6::Model, T7::Model, T8::Model, T9::Model, T10::Model)) -> Seq<u8> {
        T1::spec_encoding(v.0)
            + T2::spec_encoding(v.1)
            + T3::spec_encoding(v.2)
            + T4::spec_encoding(v.3)
            + T5::spec_encoding(v.4)
            + T6::spec_encoding(v.5)
            + T7::spec_encoding(v.6)
            + T8::spec_encoding(v.7)
            + T9::spec_encoding(v.8)
            + T10::spec_encoding(v.9)
    }

    fn to_bytes(&self, sink: &mut Vec<u8>) -> (r: Result<(), Error>) {
        let mut tmp: Vec<u8> = Vec::new();
        match self.0.to_bytes(&mut tmp) {
            Ok(()) => {},
            Err(e) => {
                return Err(e);
            },
        }
        match self.1.to_bytes(&mut tmp) {
            Ok(()) => {},
            Err(e) => {
                return Err(e);
            },
        }
        match self.2.to_bytes(&mut tmp) {
            Ok(()) => {},
            Err(e) => {
                return Err(e);
            },
        }
        match self.3.to_bytes(&mut tmp) {
            Ok(()) => {},
            Err(e) => {
                return Err(e);
            },
        }
        match self.4.to_bytes(&mut tmp) {
            Ok(()) => {},
            Err(e) => {
                return Err(e);
            },
        }
        match self.5.to_bytes(&mut tmp) {
            Ok(()) => {},
            Err(e) => {
                return Err(e);
            },
        }
        match self.6.to_bytes(&mut tmp) {
            Ok(()) => {},
            Err(e) => {
                return Err(e);
            },
        }
        match self.7.to_bytes(&mut tmp) {
            Ok(()) => {},
            Err(e) => {
                return Err(e);
            },
        }
        match self.8.to_bytes(&mut tmp) {
            Ok(()) => {},
            Err(e) => {
                return Err(e);
            },
        }
        match self.9.to_bytes(&mut tmp) {
            Ok(()) => {},
            Err(e) => {
                return Err(e);
            },
        }
        sink.append(&mut tmp);
        Ok(())
    }

    fn serialized_length(&self) -> (n: usize) {
        let n1 = self.0.serialized_length();
        let n2 = self.1.serialized_length();
        let n3 = self.2.serialized_length();
        let n4 = self.3.serialized_length();
        let n5 = self.4.serialized_length();
        let n6 = self.5.serialized_length();
        let n7 = self.6.serialized_length();
        let n8 = self.7.serialized_length();
        let n9 = self.8.serialized_length();
        let n10 = self.9.serialized_length();
        n1 + n2 + n3 + n4 + n5 + n6 + n7 + n8 + n9 + n10
    }
}

impl<T1: FromBytes, T2: FromBytes, T3: FromBytes, T4: FromBytes, T5: FromBytes, T6: FromBytes, T7: FromBytes, T8: FromBytes, T9: FromBytes, T10: FromBytes> FromBytes for (T1, T2, T3, T4, T5, T6, T7, T8, T9, T10) {
    open spec fn spec_from(bytes: Seq<u8>) -> Result<((T1::Model, T2::Model, T3::Model, T4::Model, T5::Model, T6::Model, T7::Model, T8::Model, T9::Model, T10::Model), Seq<u8>), Error> {
        match T1::spec_from(bytes) {
            Ok((m1, r1)) => match T2::spec_from(r1) {
                Ok((m2, r2)) => match T3::spec_from(r2) {
                    Ok((m3, r3)) => match T4::spec_from(r3) {
                        Ok((m4, r4)) => match T5::spec_from(r4) {
                            Ok((m5, r5)) => match T6::spec_from(r5) {
                                Ok((m6, r6)) => match T7::spec_from(r6) {
                                    Ok((m7, r7)) => match T8::spec_from(r7) {
                                        Ok((m8, r8)) => match T9::spec_from(r8) {
                                            Ok((m9, r9)) => match T10::spec_from(r9) {
                                                Ok((m10, r10)) => Ok(((m1, m2, m3, m4, m5, m6, m7, m8, m9, m10), r10)),
                                                Err(e) => Err(e),
                                            },
                                            Err(e) => Err(e),
                                        },
                                        Err(e) => Err(e),
                                    },
                                    Err(e) => Err(e),
                                },
                                Err(e) => Err(e),
                            },
                            Err(e) => Err(e),
                        },
                        Err(e) => Err(e),
                    },
                    Err(e) => Err(e),
                },
                Err(e) => Err(e),
            },
            Err(e) => Err(e),
        }
    }

    fn from_bytes(bytes: &[u8]) -> (r: Result<((T1, T2, T3, T4, T5, T6, T7, T8, T9, T10), &[u8]), Error>) {
        match T1::from_bytes(bytes) {
            Ok((t1, r1)) => match T2::from_bytes(r1) {
                Ok((t2, r2)) => match T3::from_bytes(r2) {
                    Ok((t3, r3)) => match T4::from_bytes(r3) {
                        Ok((t4, r4)) => match T5::from_bytes(r4) {
                            Ok((t5, r5)) => match T6::from_bytes(r5) {
                                Ok((t6, r6)) => match T7::from_bytes(r6) {
                                    Ok((t7, r7)) => match T8::from_bytes(r7) {
                                        Ok((t8, r8)) => match T9::from_bytes(r8) {
                                            Ok((t9, r9)) => match T10::from_bytes(r9) {
                                                Ok((t10, r10)) => Ok(((t1, t2, t3, t4, t5, t6, t7, t8, t9, t10), r10)),
                                                Err(e) => Err(e),
                                            },
                                            Err(e) => Err(e),
                                        },
                                        Err(e) => Err(e),
                                    },
                                    Err(e) => Err(e),
                                },
                                Err(e) => Err(e),
                            },
                            Err(e) => Err(e),
                        },
                        Err(e) => Err(e),
                    },
                    Err(e) => Err(e),
                },
                Err(e) => Err(e),
            },
            Err(e) => Err(e),
        }
    }

    #[verifier::rlimit(100)]
    proof fn lemma_roundtrip(v: (T1::Model, T2::Model, T3::Model, T4::Model, T5::Model, T6::Model, T7::Model, T8::Model, T9::Model, T10::Model), suffix: Seq<u8>) {
        let e1 = T1::spec_encoding(v.0);
        let e2 = T2::spec_encoding(v.1);
        let e3 = T3::spec_encoding(v.2);
        let e4 = T4::spec_encoding(v.3);
        let e5 = T5::spec_encoding(v.4);
        let e6 = T6::spec_encoding(v.5);
        let e7 = T7::spec_encoding(v.6);
        let e8 = T8::spec_encoding(v.7);
        let e9 = T9::spec_encoding(v.8);
        let e10 = T10::spec_encoding(v.9);
        let bytes = Self::spec_encoding(v) + suffix;
        assert(bytes =~= e1 + (e2 + (e3 + (e4 + (e5 + (e6 + (e7 + (e8 + (e9 + (e10 + suffix))))))))));
        T1::lemma_roundtrip(v.0, e2 + (e3 + (e4 + (e5 + (e6 + (e7 + (e8 + (e9 + (e10 + suffix)))))))));
        T2::lemma_roundtrip(v.1, e3 + (e4 + (e5 + (e6 + (e7 + (e8 + (e9 + (e10 + suffix))))))));
        T3::lemma_roundtrip(v.2, e4 + (e5 + (e6 + (e7 + (e8 + (e9 + (e10 + suffix)))))));
        T4::lemma_roundtrip(v.3, e5 + (e6 + (e7 + (e8 + (e9 + (e10 + suffix))))));
        T5::lemma_roundtrip(v.4, e6 + (e7 + (e8 + (e9 + (e10 + suffix)))));
        T6::lemma_roundtrip(v.5, e7 + (e8 + (e9 + (e10 + suffix))));
        T7::lemma_roundtrip(v.6, e8 + (e9 + (e10 + suffix)));
        T8::lemma_roundtrip(v.7, e9 + (e10 + suffix));
        T9::lemma_roundtrip(v.8, e10 + suffix);
        T10::lemma_roundtrip(v.9, suffix);
    }

    #[verifier::rlimit(100)]
    proof fn lemma_parse_encoding(bytes: Seq<u8>) {
        T1::lemma_parse_encoding(bytes);
        if let Ok((m1, r1)) = T1::spec_from(bytes) {
            T2::lemma_parse_encoding(r1);
            if let Ok((m2, r2)) = T2::spec_from(r1) {
                T3::lemma_parse_encoding(r2);
                if let Ok((m3, r3)) = T3::spec_from(r2) {
                    T4::lemma_parse_encoding(r3);
                    if let Ok((m4, r4)) = T4::spec_from(r3) {
                        T5::lemma_parse_encoding(r4);
                        if let Ok((m5, r5)) = T5::spec_from(r4) {
                            T6::lemma_parse_encoding(r5);
                            if let Ok((m6, r6)) = T6::spec_from(r5) {
                                T7::lemma_parse_encoding(r6);
                                if let Ok((m7, r7)) = T7::spec_from(r6) {
                                    T8::lemma_parse_encoding(r7);
                                    if let Ok((m8, r8)) = T8::spec_from(r7) {
                                        T9::lemma_parse_encoding(r8);
                                        if let Ok((m9, r9)) = T9::spec_from(r8) {
                                            T10::lemma_parse_encoding(r9);
                                            if let Ok((m10, r10)) = T10::spec_from(r9) {
                                                    let e1 = T1::spec_encoding(m1);
                                                    let e2 = T2::spec_encoding(m2);
                                                    let e3 = T3::spec_encoding(m3);
                                                    let e4 = T4::spec_encoding(m4);
                                                    let e5 = T5::spec_encoding(m5);
                                                    let e6 = T6::spec_encoding(m6);
                                                    let e7 = T7::spec_encoding(m7);
                                                    let e8 = T8::spec_encoding(m8);
                                                    let e9 = T9::spec_encoding(m9);
                                                    let e10 = T10::spec_encoding(m10);
                                                    assert((e1 + e2 + e3 + e4 + e5 + e6 + e7 + e8 + e9 + e10) + r10 =~= e1 + (e2 + (e3 + (e4 + (e5 + (e6 + (e7 + (e8 + (e9 + (e10 + r10))))))))));
                                            }
                                        }
                                    }
                                }
                            }
                        }
                    }
                }
            }
        }
    }
}

/// The models of the elements of a vector, in order.
pub open spec fn seq_models<T: ToBytes>(s: Seq<T>) -> Seq<T::Model> {
    s.map_values(|t: T| t.model())
}

/// A sequence of bytes is its own sequence of models.
pub proof fn lemma_u8_models(s: Seq<u8>)
    ensures
        seq_models::<u8>(s) == s,
{
    assert(seq_models::<u8>(s) =~= s);
}

/// Whether every element of an abstract sequence is encodable.
pub open spec fn seq_encodable<T: ToBytes>(s: Seq<T::Model>) -> bool {
    forall|i: int| 0 <= i < s.len() ==> T::spec_encodable(#[trigger] s[i])
}

/// The concatenation of the canonical bytes of the elements of a sequence.
pub open spec fn spec_encoding_of_seq<T: ToBytes>(s: Seq<T::Model>) -> Seq<u8>
    decreases s.len(),
{
    if s.len() == 0 {
        Seq::empty()
    } else {
        T::spec_encoding(s[0]) + spec_encoding_of_seq::<T>(s.skip(1))
    }
}

/// The abstract decoder for `count` consecutive elements.
pub open spec fn spec_from_seq<T: FromBytes>(bytes: Seq<u8>, count: nat) -> Result<
    (Seq<T::Model>, Seq<u8>),
    Error,
>
    decreases count,
{
    if count == 0 {
        Ok((Seq::empty(), bytes))
    } else {
        match T::spec_from(bytes) {
            Ok((m, rest)) => match spec_from_seq::<T>(rest, (count - 1) as nat) {
                Ok((s, rem)) => Ok((seq![m] + s, rem)),
                Err(e) => Err(e),
            },
            Err(e) => Err(e),
        }
    }
}

/// Element-wise encoding distributes over concatenation.
pub proof fn lemma_encoding_of_seq_append<T: ToBytes>(a: Seq<T::Model>, b: Seq<T::Model>)
    ensures
        spec_encoding_of_seq::<T>(a + b) == spec_encoding_of_seq::<T>(a) + spec_encoding_of_seq::<
            T,
        >(b),
    decreases a.len(),
{
    if a.len() == 0 {
        assert(a + b == b);
        assert(Seq::<u8>::empty() + spec_encoding_of_seq::<T>(b) == spec_encoding_of_seq::<T>(b));
    } else {
        lemma_encoding_of_seq_append::<T>(a.skip(1), b);
        assert((a + b).skip(1) == a.skip(1) + b);
        assert((a + b)[0] == a[0]);
        assert(T::spec_encoding(a[0]) + (spec_encoding_of_seq::<T>(a.skip(1))
            + spec_encoding_of_seq::<T>(b)) == (T::spec_encoding(a[0]) + spec_encoding_of_seq::<T>(
            a.skip(1),
        )) + spec_encoding_of_seq::<T>(b));
    }
}

/// Appending one element appends its canonical bytes.
pub proof fn lemma_encoding_of_seq_snoc<T: ToBytes>(s: Seq<T::Model>, m: T::Model)
    ensures
        spec_encoding_of_seq::<T>(s.push(m)) == spec_encoding_of_seq::<T>(s) + T::spec_encoding(m),
    decreases s.len(),
{
    if s.len() == 0 {
        let single = s.push(m);
        assert(single.skip(1) =~= Seq::<T::Model>::empty());
        assert(spec_encoding_of_seq::<T>(Seq::<T::Model>::empty()) == Seq::<u8>::empty());
        assert(single[0] == m);
        assert(T::spec_encoding(m) + Seq::<u8>::empty() =~= T::spec_encoding(m));
        assert(spec_encoding_of_seq::<T>(s) + T::spec_encoding(m) =~= T::spec_encoding(m));
    } else {
        lemma_encoding_of_seq_snoc::<T>(s.skip(1), m);
        assert(s.push(m).skip(1) =~= s.skip(1).push(m));
        assert(s.push(m)[0] == s[0]);
        assert(T::spec_encoding(s[0]) + (spec_encoding_of_seq::<T>(s.skip(1)) + T::spec_encoding(m))
            =~= (T::spec_encoding(s[0]) + spec_encoding_of_seq::<T>(s.skip(1)))
            + T::spec_encoding(m));
    }
}

/// Round trip for element sequences: decoding the concatenated encodings of
/// `v.len()` elements yields `v` and the untouched suffix.
pub proof fn lemma_from_seq_roundtrip<T: FromBytes>(v: Seq<T::Model>, suffix: Seq<u8>)
    requires
        seq_encodable::<T>(v),
    ensures
        spec_from_seq::<T>(spec_encoding_of_seq::<T>(v) + suffix, v.len()) == Ok::<
            (Seq<T::Model>, Seq<u8>),
            Error,
        >((v, suffix)),
    decreases v.len(),
{
    if v.len() == 0 {
        assert(spec_encoding_of_seq::<T>(v) + suffix == suffix);
        assert(v =~= Seq::<T::Model>::empty());
    } else {
        let tail = v.skip(1);
        let bytes = spec_encoding_of_seq::<T>(v) + suffix;
        assert(bytes =~= T::spec_encoding(v[0]) + (spec_encoding_of_seq::<T>(tail) + suffix));
        T::lemma_roundtrip(v[0], spec_encoding_of_seq::<T>(tail) + suffix);
        lemma_from_seq_roundtrip::<T>(tail, suffix);
        assert(seq![v[0]] + tail =~= v);
    }
}

/// A successful element-sequence decode consumed exactly the concatenation of
/// the canonical encodings of the elements it returned.
pub proof fn lemma_from_seq_parse_encoding<T: FromBytes>(bytes: Seq<u8>, count: nat)
    ensures
        spec_from_seq::<T>(bytes, count) matches Ok((s, rem)) ==> seq_encodable::<T>(s) && s.len()
            == count && bytes == spec_encoding_of_seq::<T>(s) + rem,
    decreases count,
{
    if count > 0 {
        if let Ok((m, rest)) = T::spec_from(bytes) {
            T::lemma_parse_encoding(bytes);
            lemma_from_seq_parse_encoding::<T>(rest, (count - 1) as nat);
            if let Ok((s, rem)) = spec_from_seq::<T>(rest, (count - 1) as nat) {
                let whole = seq![m] + s;
                assert(whole.skip(1) =~= s);
                assert(seq_encodable::<T>(whole)) by {
                    assert(forall|i: int|
                        0 <= i < whole.len() ==> #[trigger] whole[i] == if i == 0 {
                            m
                        } else {
                            s[i - 1]
                        });
                }
                assert(bytes =~= (T::spec_encoding(m) + spec_encoding_of_seq::<T>(s)) + rem);
            }
        }
    }
}

/// Appends the canonical bytes of each element of `items`, in order and with
/// no count prefix, to `sink`.
pub(crate) fn to_bytes_elems<T: ToBytes>(items: &Vec<T>, sink: &mut Vec<u8>) -> (r: Result<
    (),
    Error,
>)
    ensures
        r is Ok <==> seq_encodable::<T>(seq_models::<T>(items@)),
        seq_encodable::<T>(seq_models::<T>(items@)) ==> final(sink)@ == old(sink)@
            + spec_encoding_of_seq::<T>(seq_models::<T>(items@)),
        !seq_encodable::<T>(seq_models::<T>(items@)) ==> final(sink)@ == old(sink)@ && r == Err::<
            (),
            Error,
        >(Error::Formatting),
{
    let ghost m = seq_models::<T>(items@);
    let mut tmp: Vec<u8> = Vec::new();
    let mut i: usize = 0;
    while i < items.len()
        invariant
            i <= items@.len(),
            m == seq_models::<T>(items@),
            forall|j: int| 0 <= j < i ==> T::spec_encodable(#[trigger] m[j]),
            tmp@ == spec_encoding_of_seq::<T>(m.take(i as int)),
        decreases items@.len() - i,
    {
        let elem = &items[i];
        assert(elem.model() == m[i as int]);
        match elem.to_bytes(&mut tmp) {
            Ok(()) => {},
            Err(e) => {
                return Err(e);
            },
        }
        proof {
            lemma_encoding_of_seq_snoc::<T>(m.take(i as int), m[i as int]);
            assert(m.take(i + 1) =~= m.take(i as int).push(m[i as int]));
        }
        i = i + 1;
    }
    sink.append(&mut tmp);
    proof {
        assert(m.take(items@.len() as int) =~= m);
    }
    Ok(())
}

/// Decodes exactly `count` consecutive elements from the front of `bytes`.
pub(crate) fn from_bytes_elems<T: FromBytes>(bytes: &[u8], count: u32) -> (r: Result<
    (Vec<T>, &[u8]),
    Error,
>)
    ensures
        (match (r, spec_from_seq::<T>(bytes@, count as nat)) {
            (Ok((v, rem)), Ok((sv, srem))) => seq_models::<T>(v@) == sv && rem@ == srem,
            (Err(e), Err(se)) => e == se,
            _ => false,
        }),
{
    let ghost bytes0 = bytes@;
    let mut result: Vec<T> = Vec::new();
    let mut stream: &[u8] = bytes;
    let mut i: u32 = 0;
    proof {
        if let Ok((s, rem)) = spec_from_seq::<T>(bytes0, count as nat) {
            assert(seq_models::<T>(result@) =~= Seq::<T::Model>::empty());
            assert(seq_models::<T>(result@) + s =~= s);
        }
    }
    while i < count
        invariant
            i <= count,
            bytes0 == bytes@,
            spec_from_seq::<T>(bytes0, count as nat) == (match spec_from_seq::<T>(
                stream@,
                (count - i) as nat,
            ) {
                Ok((s, rem)) => Ok::<(Seq<T::Model>, Seq<u8>), Error>(
                    (seq_models::<T>(result@) + s, rem),
                ),
                Err(e) => Err::<(Seq<T::Model>, Seq<u8>), Error>(e),
            }),
        decreases count - i,
    {
        let ghost models_old = seq_models::<T>(result@);
        match T::from_bytes(stream) {
            Err(e) => {
                return Err(e);
            },
            Ok((v, rest)) => {
                let ghost mv = v.model();
                result.push(v);
                proof {
                    assert(seq_models::<T>(result@) =~= models_old.push(mv));
                    if let Ok((s2, rem2)) = spec_from_seq::<T>(rest@, (count - i - 1) as nat) {
                        assert(models_old + (seq![mv] + s2) =~= models_old.push(mv) + s2);
                    }
                }
                stream = rest;
                i = i + 1;
            },
        }
    }
    proof {
        assert(seq_models::<T>(result@) + Seq::<T::Model>::empty() =~= seq_models::<T>(result@));
    }
    Ok((result, stream))
}

impl<T: ToBytes> ToBytes for Vec<T> {
    type Model = Seq<T::Model>;

    open spec fn model(&self) -> Seq<T::Model> {
        seq_models::<T>(self@)
    }

    open spec fn spec_encodable(v: Seq<T::Model>) -> bool {
        v.len() <= u32::MAX && seq_encodable::<T>(v)
    }

    open spec fn spec_encoding(v: Seq<T::Model>) -> Seq<u8> {
        spec_u32_to_le_bytes(v.len() as u32) + spec_encoding_of_seq::<T>(v)
    }

    fn to_bytes(&self, sink: &mut Vec<u8>) -> (r: Result<(), Error>) {
        let ghost m = seq_models::<T>(self@);
        if self.len() > u32::MAX as usize {
            return Err(Error::Formatting);
        }
        let mut tmp: Vec<u8> = Vec::new();
        let mut i: usize = 0;
        while i < self.len()
            invariant
                i <= self@.len(),
                self@.len() <= u32::MAX,
                m == seq_models::<T>(self@),
                forall|j: int| 0 <= j < i ==> T::spec_encodable(#[trigger] m[j]),
                tmp@ == spec_encoding_of_seq::<T>(m.take(i as int)),
            decreases self@.len() - i,
        {
            let elem = &self[i];
            assert(elem.model() == m[i as int]);
            match elem.to_bytes(&mut tmp) {
                Ok(()) => {},
                Err(e) => {
                    return Err(e);
                },
            }
            proof {
                lemma_encoding_of_seq_snoc::<T>(m.take(i as int), m[i as int]);
                assert(m.take(i + 1) =~= m.take(i as int).push(m[i as int]));
            }
            i = i + 1;
        }
        let prefix = u32_to_le_bytes(self.len() as u32);
        sink.extend_from_slice(prefix.as_slice());
        sink.append(&mut tmp);
        proof {
            assert(m.take(self@.len() as int) =~= m);
        }
        Ok(())
    }

    fn serialized_length(&self) -> (n: usize) {
        let ghost m = seq_models::<T>(self@);
        let mut n: usize = U32_SERIALIZED_LENGTH;
        let mut i: usize = 0;
        proof {
            lemma_auto_spec_u32_to_from_le_bytes();
        }
        while i < self.len()
            invariant
                i <= self@.len(),
                m == seq_models::<T>(self@),
                Self::spec_encoding(m).len() <= usize::MAX,
                n == U32_SERIALIZED_LENGTH + spec_encoding_of_seq::<T>(m.take(i as int)).len(),
                spec_u32_to_le_bytes(m.len() as u32).len() == 4,
            decreases self@.len() - i,
        {
            let elem = &self[i];
            assert(elem.model() == m[i as int]);
            proof {
                lemma_encoding_of_seq_snoc::<T>(m.take(i as int), m[i as int]);
                assert(m.take(i + 1) =~= m.take(i as int).push(m[i as int]));
                lemma_encoding_of_seq_append::<T>(m.take(i + 1), m.skip(i + 1));
                assert(m.take(i + 1) + m.skip(i + 1) =~= m);
            }
            let elem_len = elem.serialized_length();
            n = n + elem_len;
            i = i + 1;
        }
        proof {
            assert(m.take(self@.len() as int) =~= m);
        }
        n
    }
}

impl<T: FromBytes> FromBytes for Vec<T> {
    open spec fn spec_from(bytes: Seq<u8>) -> Result<(Seq<T::Model>, Seq<u8>), Error> {
        match <u32 as FromBytes>::spec_from(bytes) {
            Ok((count, rest)) => spec_from_seq::<T>(rest, count as nat),
            Err(e) => Err(e),
        }
    }

    fn from_bytes(bytes: &[u8]) -> (r: Result<(Vec<T>, &[u8]), Error>) {
        match u32::from_bytes(bytes) {
            Err(e) => Err(e),
            Ok((count, after_prefix)) => {
                let ghost bytes0 = after_prefix@;
                let mut result: Vec<T> = Vec::new();
                let mut stream: &[u8] = after_prefix;
                let mut i: u32 = 0;
                proof {
                    if let Ok((s, rem)) = spec_from_seq::<T>(bytes0, count as nat) {
                        assert(seq_models::<T>(result@) =~= Seq::<T::Model>::empty());
                        assert(seq_models::<T>(result@) + s =~= s);
                    }
                }
                while i < count
                    invariant
                        i <= count,
                        <u32 as FromBytes>::spec_from(bytes@) == Ok::<(u32, Seq<u8>), Error>(
                            (count, bytes0),
                        ),
                        spec_from_seq::<T>(bytes0, count as nat) == (
                        match spec_from_seq::<T>(stream@, (count - i) as nat) {
                            Ok((s, rem)) => Ok::<(Seq<T::Model>, Seq<u8>), Error>((
                                seq_models::<T>(result@) + s,
                                rem,
                            )),
                            Err(e) => Err::<(Seq<T::Model>, Seq<u8>), Error>(e),
                        }),
                    decreases count - i,
                {
                    let ghost models_old = seq_models::<T>(result@);
                    match T::from_bytes(stream) {
                        Err(e) => {
                            return Err(e);
                        },
                        Ok((v, rest)) => {
                            let ghost mv = v.model();
                            result.push(v);
                            proof {
                                assert(seq_models::<T>(result@) =~= models_old.push(mv));
                                if let Ok((s2, rem2)) = spec_from_seq::<T>(
                                    rest@,
                                    (count - i - 1) as nat,
                                ) {
                                    assert(models_old + (seq![mv] + s2) =~= models_old.push(mv)
                                        + s2);
                                }
                            }
                            stream = rest;
                            i = i + 1;
                        },
                    }
                }
                proof {
                    assert(seq_models::<T>(result@) + Seq::<T::Model>::empty() =~= seq_models::<T>(
                        result@,
                    ));
                }
                Ok((result, stream))
            },
        }
    }

    proof fn lemma_roundtrip(v: Seq<T::Model>, suffix: Seq<u8>) {
        lemma_auto_spec_u32_to_from_le_bytes();
        let payload = spec_encoding_of_seq::<T>(v);
        let bytes = Self::spec_encoding(v) + suffix;
        assert(bytes =~= spec_u32_to_le_bytes(v.len() as u32) + (payload + suffix));
        <u32 as FromBytes>::lemma_roundtrip(v.len() as u32, payload + suffix);
        lemma_from_seq_roundtrip::<T>(v, suffix);
        assert((v.len() as u32) as nat == v.len());
    }

    proof fn lemma_parse_encoding(bytes: Seq<u8>) {
        lemma_auto_spec_u32_to_from_le_bytes();
        if let Ok((count, rest)) = <u32 as FromBytes>::spec_from(bytes) {
            <u32 as FromBytes>::lemma_parse_encoding(bytes);
            lemma_from_seq_parse_encoding::<T>(rest, count as nat);
            if let Ok((s, rem)) = spec_from_seq::<T>(rest, count as nat) {
                assert((s.len() as u32) == count);
                assert(bytes =~= (spec_u32_to_le_bytes(s.len() as u32) + spec_encoding_of_seq::<T>(
                    s,
                )) + rem);
            }
        }
    }
}

impl<const N: usize> ToBytes for [u8; N] {
    type Model = Seq<u8>;

    open spec fn model(&self) -> Seq<u8> {
        self@
    }

    open spec fn spec_encodable(v: Seq<u8>) -> bool {
        v.len() == N
    }

    open spec fn spec_encoding(v: Seq<u8>) -> Seq<u8> {
        v
    }

    fn to_bytes(&self, sink: &mut Vec<u8>) -> (r: Result<(), Error>) {
        sink.extend_from_slice(self.as_slice());
        Ok(())
    }

    fn serialized_length(&self) -> (n: usize) {
        N
    }
}

impl<const N: usize> FromBytes for [u8; N] {
    open spec fn spec_from(bytes: Seq<u8>) -> Result<(Seq<u8>, Seq<u8>), Error> {
        if bytes.len() >= N {
            Ok((bytes.take(N as int), bytes.skip(N as int)))
        } else {
            Err(Error::EarlyEndOfStream)
        }
    }

    fn from_bytes(bytes: &[u8]) -> (r: Result<([u8; N], &[u8]), Error>) {
        match safe_split_at(bytes, N) {
            Ok((taken, rest)) => {
                let mut result: [u8; N] = [0u8; N];
                let mut i: usize = 0;
                while i < N
                    invariant
                        i <= N,
                        taken@.len() == N,
                        result@.len() == N,
                        forall|j: int| 0 <= j < i ==> result@[j] == taken@[j],
                    decreases N - i,
                {
                    result[i] = taken[i];
                    i = i + 1;
                }
                assert(result@ =~= taken@);
                Ok((result, rest))
            },
            Err(e) => Err(e),
        }
    }

    proof fn lemma_roundtrip(v: Seq<u8>, suffix: Seq<u8>) {
        let bytes = v + suffix;
        assert(bytes.take(N as int) =~= v);
        assert(bytes.skip(N as int) =~= suffix);
    }

    proof fn lemma_parse_encoding(bytes: Seq<u8>) {
        if bytes.len() >= N {
            assert(bytes.take(N as int) + bytes.skip(N as int) =~= bytes);
        }
    }
}

/// Relies on `core::str::from_utf8` (with `str::to_owned` to take ownership):
/// it succeeds exactly on valid UTF-8 and decodes those bytes to the
/// characters they encode.
#[verifier::external_body]
fn string_from_utf8(bytes: &[u8]) -> (r: Result<String, Error>)
    ensures
        (match r {
            Ok(s) => vstd::utf8::valid_utf8(bytes@) && s@ == vstd::utf8::decode_utf8(bytes@),
            Err(e) => !vstd::utf8::valid_utf8(bytes@) && e == Error::Formatting,
        }),
{
    match core::str::from_utf8(bytes) {
        Ok(s) => Ok(s.to_owned()),
        Err(_) => Err(Error::Formatting),
    }
}

impl ToBytes for String {
    type Model = Seq<char>;

    open spec fn model(&self) -> Seq<char> {
        self@
    }

    open spec fn spec_encodable(v: Seq<char>) -> bool {
        vstd::utf8::encode_utf8(v).len() <= u32::MAX
    }

    open spec fn spec_encoding(v: Seq<char>) -> Seq<u8> {
        spec_u32_to_le_bytes(vstd::utf8::encode_utf8(v).len() as u32) + vstd::utf8::encode_utf8(v)
    }

    fn to_bytes(&self, sink: &mut Vec<u8>) -> (r: Result<(), Error>) {
        let bs = self.as_str().as_bytes();
        if bs.len() > u32::MAX as usize {
            return Err(Error::Formatting);
        }
        let prefix = u32_to_le_bytes(bs.len() as u32);
        sink.extend_from_slice(prefix.as_slice());
        sink.extend_from_slice(bs);
        Ok(())
    }

    fn serialized_length(&self) -> (n: usize) {
        proof {
            lemma_auto_spec_u32_to_from_le_bytes();
        }
        let bs = self.as_str().as_bytes();
        U32_SERIALIZED_LENGTH + bs.len()
    }
}

impl FromBytes for String {
    open spec fn spec_from(bytes: Seq<u8>) -> Result<(Seq<char>, Seq<u8>), Error> {
        match <u32 as FromBytes>::spec_from(bytes) {
            Ok((count, rest)) => if count <= rest.len() {
                if vstd::utf8::valid_utf8(rest.take(count as int)) {
                    Ok((vstd::utf8::decode_utf8(rest.take(count as int)), rest.skip(count as int)))
                } else {
                    Err(Error::Formatting)
                }
            } else {
                Err(Error::EarlyEndOfStream)
            },
            Err(e) => Err(e),
        }
    }

    fn from_bytes(bytes: &[u8]) -> (r: Result<(String, &[u8]), Error>) {
        match u32::from_bytes(bytes) {
            Ok((count, rest)) => match safe_split_at(rest, count as usize) {
                Ok((raw, rem)) => match string_from_utf8(raw) {
                    Ok(s) => Ok((s, rem)),
                    Err(e) => Err(e),
                },
                Err(e) => Err(e),
            },
            Err(e) => Err(e),
        }
    }

    proof fn lemma_roundtrip(v: Seq<char>, suffix: Seq<u8>) {
        lemma_auto_spec_u32_to_from_le_bytes();
        let payload = vstd::utf8::encode_utf8(v);
        let bytes = Self::spec_encoding(v) + suffix;
        assert(bytes =~= spec_u32_to_le_bytes(payload.len() as u32) + (payload + suffix));
        <u32 as FromBytes>::lemma_roundtrip(payload.len() as u32, payload + suffix);
        assert((payload + suffix).take(payload.len() as int) =~= payload);
        assert((payload + suffix).skip(payload.len() as int) =~= suffix);
        vstd::utf8::encode_utf8_valid_utf8(v);
        vstd::utf8::encode_utf8_decode_utf8(v);
    }

    proof fn lemma_parse_encoding(bytes: Seq<u8>) {
        lemma_auto_spec_u32_to_from_le_bytes();
        if let Ok((count, rest)) = <u32 as FromBytes>::spec_from(bytes) {
            <u32 as FromBytes>::lemma_parse_encoding(bytes);
            if count <= rest.len() {
                let raw = rest.take(count as int);
                if vstd::utf8::valid_utf8(raw) {
                    vstd::utf8::decode_utf8_encode_utf8(raw);
                    assert(raw.len() == count);
                    assert(bytes =~= (spec_u32_to_le_bytes(count) + raw) + rest.skip(count as int));
                }
            }
        }
    }
}

} // verus!
