//! Semantic versions: a triple of `u32` parts, with canonical serialization
//! and parsing from dot-separated decimal text.

use crate::bytesrepr::{Error, FromBytes, ToBytes};
use vstd::prelude::*;
use vstd::string::StringSliceAdditionalSpecFns;

verus! {

/// Length of a [`SemVer`] when serialized.
pub const SEM_VER_SERIALIZED_LENGTH: usize = 12;

/// A struct for semantic versioning.
#[derive(Copy, Clone, Debug, Default, Hash, PartialEq, Eq, PartialOrd, Ord)]
pub struct SemVer {
    /// Major version.
    pub major: u32,
    /// Minor version.
    pub minor: u32,
    /// Patch version.
    pub patch: u32,
}

/// Parsing error when creating a SemVer.
#[derive(Debug, Clone, Copy, PartialEq, Eq)]
pub enum ParseSemVerError {
    /// Not exactly three dot-separated parts.
    InvalidVersionFormat,
    /// A part is not a valid base-10 `u32`.
    ParseIntError,
}

/// The byte of an ASCII decimal digit.
pub open spec fn is_ascii_digit(b: u8) -> bool {
    48 <= b <= 57
}

/// The value of a run of ASCII digits, most significant first.
pub open spec fn digits_value(s: Seq<u8>) -> int
    decreases s.len(),
{
    if s.len() == 0 {
        0
    } else {
        digits_value(s.drop_last()) * 10 + (s.last() - 48)
    }
}

/// Whether every byte of `s` is an ASCII decimal digit.
pub open spec fn all_digits(s: Seq<u8>) -> bool {
    forall|i: int| 0 <= i < s.len() ==> is_ascii_digit(#[trigger] s[i])
}

/// How `u32` text parsing reads one part: an optional leading plus sign,
/// then one or more decimal digits whose value fits in a `u32`.
pub open spec fn spec_parse_u32(s: Seq<u8>) -> Option<u32> {
    let digits = if s.len() > 0 && s[0] == 43 {
        s.skip(1)
    } else {
        s
    };
    if digits.len() > 0 && all_digits(digits) && digits_value(digits) <= u32::MAX {
        Some(digits_value(digits) as u32)
    } else {
        None
    }
}

/// The number of dots in `s`.
pub open spec fn dot_count(s: Seq<u8>) -> nat
    decreases s.len(),
{
    if s.len() == 0 {
        0
    } else {
        dot_count(s.drop_last()) + (if s.last() == 46 {
            1nat
        } else {
            0nat
        })
    }
}

/// The index of the first dot in `s`, or `s.len()` if there is none.
pub open spec fn first_dot(s: Seq<u8>) -> int
    decreases s.len(),
{
    if s.len() == 0 {
        0
    } else if s[0] == 46 {
        0
    } else {
        1 + first_dot(s.skip(1))
    }
}

/// How a version string parses: exactly two dots, and the three parts each a
/// decimal `u32`.
pub open spec fn spec_semver_from(s: Seq<u8>) -> Result<SemVer, ParseSemVerError> {
    if dot_count(s) != 2 {
        Err(ParseSemVerError::InvalidVersionFormat)
    } else {
        let i = first_dot(s);
        let j = i + 1 + first_dot(s.skip(i + 1));
        match spec_parse_u32(s.take(i)) {
            None => Err(ParseSemVerError::ParseIntError),
            Some(major) => match spec_parse_u32(s.subrange(i + 1, j)) {
                None => Err(ParseSemVerError::ParseIntError),
                Some(minor) => match spec_parse_u32(s.skip(j + 1)) {
                    None => Err(ParseSemVerError::ParseIntError),
                    Some(patch) => Ok(SemVer { major, minor, patch }),
                },
            },
        }
    }
}

/// Digit values never go negative.
proof fn lemma_digits_value_nonneg(s: Seq<u8>)
    requires
        all_digits(s),
    ensures
        digits_value(s) >= 0,
    decreases s.len(),
{
    if s.len() > 0 {
        assert(all_digits(s.drop_last())) by {
            assert(forall|i: int| 0 <= i < s.len() - 1 ==> s.drop_last()[i] == s[i]);
        }
        lemma_digits_value_nonneg(s.drop_last());
    }
}

/// Extending a digit run never shrinks its value.
proof fn lemma_digits_value_monotone(s: Seq<u8>, i: int)
    requires
        all_digits(s),
        0 <= i <= s.len(),
    ensures
        digits_value(s) >= digits_value(s.take(i)),
    decreases s.len() - i,
{
    if i < s.len() {
        lemma_digits_value_monotone(s, i + 1);
        assert(s.take(i + 1).drop_last() =~= s.take(i));
        assert(all_digits(s.take(i))) by {
            assert(forall|k: int| 0 <= k < i ==> s.take(i)[k] == s[k]);
        }
        lemma_digits_value_nonneg(s.take(i));
        assert(digits_value(s.take(i + 1)) == digits_value(s.take(i)) * 10 + (s[i] - 48));
        assert(digits_value(s.take(i)) * 10 >= digits_value(s.take(i))) by (nonlinear_arith)
            requires
                digits_value(s.take(i)) >= 0,
        ;
    } else {
        assert(s.take(i) =~= s);
    }
}

/// A dot at `i` with none before it is the first dot.
proof fn lemma_first_dot_at(s: Seq<u8>, i: int)
    requires
        0 <= i < s.len(),
        s[i] == 46,
        forall|k: int| 0 <= k < i ==> s[k] != 46,
    ensures
        first_dot(s) == i,
    decreases i,
{
    if i > 0 {
        assert(s[0] != 46);
        assert(s.skip(1)[i - 1] == 46);
        assert(forall|k: int| 0 <= k < i - 1 ==> s.skip(1)[k] == s[k + 1]);
        lemma_first_dot_at(s.skip(1), i - 1);
    }
}

/// Parses one decimal `u32` part exactly as `u32` text parsing does.
fn parse_u32_part(bytes: &[u8]) -> (r: Option<u32>)
    ensures
        r == spec_parse_u32(bytes@),
{
    let digits: &[u8] = if bytes.len() > 0 && bytes[0] == 43 {
        let d = vstd::slice::slice_subrange(bytes, 1, bytes.len());
        assert(d@ == bytes@.skip(1));
        d
    } else {
        bytes
    };
    if digits.len() == 0 {
        return None;
    }
    let mut val: u64 = 0;
    let mut i: usize = 0;
    while i < digits.len()
        invariant
            i <= digits@.len(),
            digits@ == (if bytes@.len() > 0 && bytes@[0] == 43 {
                bytes@.skip(1)
            } else {
                bytes@
            }),
            digits@.len() > 0,
            all_digits(digits@.take(i as int)),
            val == digits_value(digits@.take(i as int)),
            val <= u32::MAX,
        decreases digits@.len() - i,
    {
        let b = digits[i];
        if b < 48 || b > 57 {
            assert(!is_ascii_digit(digits@[i as int]));
            return None;
        }
        proof {
            assert(digits@.take(i + 1).drop_last() =~= digits@.take(i as int));
            assert(all_digits(digits@.take(i + 1))) by {
                assert(forall|k: int|
                    0 <= k < i + 1 ==> digits@.take(i + 1)[k] == digits@[k]);
            }
        }
        let next = val * 10 + ((b - 48) as u64);
        if next > u32::MAX as u64 {
            proof {
                if all_digits(digits@) {
                    lemma_digits_value_monotone(digits@, i + 1);
                }
            }
            return None;
        }
        val = next;
        i = i + 1;
    }
    proof {
        assert(digits@.take(digits@.len() as int) =~= digits@);
    }
    Some(val as u32)
}

impl SemVer {
    /// Constructs a new `SemVer` from the given semver parts.
    pub fn new(major: u32, minor: u32, patch: u32) -> (v: SemVer)
        ensures
            v == (SemVer { major, minor, patch }),
    {
        SemVer { major, minor, patch }
    }

    /// Parses a `major.minor.patch` version string.
    #[verifier::rlimit(100)]
    pub fn try_from(value: &str) -> (r: Result<SemVer, ParseSemVerError>)
        ensures
            r == spec_semver_from(value.spec_bytes()),
    {
        let bytes = value.as_bytes();
        let ghost s = bytes@;
        let mut count: usize = 0;
        let mut d1: usize = bytes.len();
        let mut d2: usize = bytes.len();
        let mut i: usize = 0;
        while i < bytes.len()
            invariant
                i <= s.len(),
                s == bytes@,
                count == dot_count(s.take(i as int)),
                count >= 1 ==> d1 < i && s[d1 as int] == 46 && (forall|k: int|
                    0 <= k < d1 ==> #[trigger] s[k] != 46),
                count == 0 ==> d1 == s.len() && d2 == s.len() && (forall|k: int|
                    0 <= k < i ==> #[trigger] s[k] != 46),
                count >= 2 ==> d2 < i && d1 < d2 && s[d2 as int] == 46 && (forall|k: int|
                    d1 < k < d2 ==> #[trigger] s[k] != 46),
                count == 1 ==> d2 == s.len() && (forall|k: int|
                    d1 < k < i ==> #[trigger] s[k] != 46),
                count <= i,
            decreases s.len() - i,
        {
            proof {
                assert(s.take(i + 1).drop_last() =~= s.take(i as int));
            }
            if bytes[i] == 46 {
                count = count + 1;
                if count == 1 {
                    d1 = i;
                } else if count == 2 {
                    d2 = i;
                }
            }
            i = i + 1;
        }
        proof {
            assert(s.take(s.len() as int) =~= s);
        }
        if count != 2 {
            return Err(ParseSemVerError::InvalidVersionFormat);
        }
        proof {
            lemma_first_dot_at(s, d1 as int);
            assert(s.skip(d1 + 1)[d2 - d1 - 1] == 46);
            assert(forall|k: int|
                0 <= k < d2 - d1 - 1 ==> #[trigger] s.skip(d1 + 1)[k] == s[k + d1 + 1]);
            lemma_first_dot_at(s.skip(d1 + 1), d2 - d1 - 1);
        }
        let part1 = vstd::slice::slice_subrange(bytes, 0, d1);
        assert(part1@ == s.take(d1 as int));
        let part2 = vstd::slice::slice_subrange(bytes, d1 + 1, d2);
        assert(part2@ == s.subrange(d1 + 1, d2 as int));
        let part3 = vstd::slice::slice_subrange(bytes, d2 + 1, bytes.len());
        assert(part3@ == s.skip(d2 + 1));
        let major = match parse_u32_part(part1) {
            Some(x) => x,
            None => {
                return Err(ParseSemVerError::ParseIntError);
            },
        };
        let minor = match parse_u32_part(part2) {
            Some(x) => x,
            None => {
                return Err(ParseSemVerError::ParseIntError);
            },
        };
        let patch = match parse_u32_part(part3) {
            Some(x) => x,
            None => {
                return Err(ParseSemVerError::ParseIntError);
            },
        };
        Ok(SemVer { major, minor, patch })
    }
}

impl ToBytes for SemVer {
    type Model = SemVer;

    open spec fn model(&self) -> SemVer {
        *self
    }

    open spec fn spec_encodable(v: SemVer) -> bool {
        true
    }

    open spec fn spec_encoding(v: SemVer) -> Seq<u8> {
        <(u32, u32, u32) as ToBytes>::spec_encoding((v.major, v.minor, v.patch))
    }

    fn to_bytes(&self, sink: &mut Vec<u8>) -> (r: Result<(), Error>) {
        let t = (self.major, self.minor, self.patch);
        t.to_bytes(sink)
    }

    fn serialized_length(&self) -> (n: usize) {
        proof {
            vstd::bytes::lemma_auto_spec_u32_to_from_le_bytes();
        }
        SEM_VER_SERIALIZED_LENGTH
    }
}

impl FromBytes for SemVer {
    open spec fn spec_from(bytes: Seq<u8>) -> Result<(SemVer, Seq<u8>), Error> {
        match <(u32, u32, u32) as FromBytes>::spec_from(bytes) {
            Ok((t, rem)) => Ok((SemVer { major: t.0, minor: t.1, patch: t.2 }, rem)),
            Err(e) => Err(e),
        }
    }

    fn from_bytes(bytes: &[u8]) -> (r: Result<(SemVer, &[u8]), Error>) {
        match <(u32, u32, u32)>::from_bytes(bytes) {
            Ok((t, rem)) => Ok((SemVer { major: t.0, minor: t.1, patch: t.2 }, rem)),
            Err(e) => Err(e),
        }
    }

    proof fn lemma_roundtrip(v: SemVer, suffix: Seq<u8>) {
        <(u32, u32, u32) as FromBytes>::lemma_roundtrip((v.major, v.minor, v.patch), suffix);
    }

    proof fn lemma_parse_encoding(bytes: Seq<u8>) {
        <(u32, u32, u32) as FromBytes>::lemma_parse_encoding(bytes);
    }
}

} // verus!
