use casper_state::bytesrepr::{deserialize, serialize, ToBytes};
use casper_state::semver::{ParseSemVerError, SemVer};

#[test]
fn should_compare_semver_versions() {
    assert!(SemVer::new(0, 0, 0) < SemVer::new(1, 2, 3));
    assert!(SemVer::new(1, 1, 0) < SemVer::new(1, 2, 0));
    assert!(SemVer::new(1, 0, 0) < SemVer::new(1, 2, 0));
    assert!(SemVer::new(1, 0, 0) < SemVer::new(1, 2, 3));
    assert!(SemVer::new(1, 2, 0) < SemVer::new(1, 2, 3));
    assert!(SemVer::new(1, 2, 3) == SemVer::new(1, 2, 3));
    assert!(SemVer::new(1, 2, 3) >= SemVer::new(1, 2, 3));
    assert!(SemVer::new(1, 2, 3) <= SemVer::new(1, 2, 3));
    assert!(SemVer::new(2, 0, 0) >= SemVer::new(1, 99, 99));
    assert!(SemVer::new(2, 0, 0) > SemVer::new(1, 99, 99));
}

#[test]
fn parse_from_string() {
    let ver1: SemVer = SemVer::try_from("100.20.3").expect("should parse");
    assert_eq!(ver1, SemVer::new(100, 20, 3));
    let ver2: SemVer = SemVer::try_from("0.0.1").expect("should parse");
    assert_eq!(ver2, SemVer::new(0, 0, 1));

    assert!(SemVer::try_from("1.a.2.3").is_err());
    assert!(SemVer::try_from("1. 2.3").is_err());
    assert!(SemVer::try_from("12345124361461.0.1").is_err());
    assert!(SemVer::try_from("1.2.3.4").is_err());
    assert!(SemVer::try_from("1.2").is_err());
    assert!(SemVer::try_from("1").is_err());
    assert!(SemVer::try_from("0").is_err());
}

#[test]
fn parse_error_kinds() {
    assert_eq!(
        SemVer::try_from("1.2").unwrap_err(),
        ParseSemVerError::InvalidVersionFormat
    );
    assert_eq!(
        SemVer::try_from("1.x.3").unwrap_err(),
        ParseSemVerError::ParseIntError
    );
    assert_eq!(
        SemVer::try_from("..").unwrap_err(),
        ParseSemVerError::ParseIntError
    );
    // Overflowing a u32 part is an integer parse error.
    assert_eq!(
        SemVer::try_from("4294967296.0.0").unwrap_err(),
        ParseSemVerError::ParseIntError
    );
    // The largest part still in range parses.
    assert_eq!(
        SemVer::try_from("4294967295.0.0").unwrap(),
        SemVer::new(u32::MAX, 0, 0)
    );
    // A leading plus sign is accepted, as u32 text parsing accepts it.
    assert_eq!(SemVer::try_from("+1.2.3").unwrap(), SemVer::new(1, 2, 3));
}

#[test]
fn semver_serialization() {
    let v = SemVer::new(1, 2, 3);
    let bytes = serialize(&v).unwrap();
    assert_eq!(bytes, vec![1u8, 0, 0, 0, 2, 0, 0, 0, 3, 0, 0, 0]);
    assert_eq!(bytes.len(), v.serialized_length());
    let back: SemVer = deserialize(bytes).unwrap();
    assert_eq!(back, v);
}
