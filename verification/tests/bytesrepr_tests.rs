use casper_state::bytesrepr::{
    deserialize, serialize, test_serialization_roundtrip, Error, FromBytes, ToBytes,
};

fn roundtrip_exact<T>(t: &T)
where
    T: FromBytes + PartialEq + std::fmt::Debug,
{
    let serialized = serialize(t).expect("should serialize");
    assert_eq!(serialized.len(), t.serialized_length());
    let deserialized: T = deserialize(serialized).expect("should deserialize");
    assert!(*t == deserialized);
}

#[test]
fn test_bool() {
    roundtrip_exact(&true);
    roundtrip_exact(&false);
    test_serialization_roundtrip(&true);
    assert_eq!(serialize(&true).unwrap(), vec![1u8]);
    assert_eq!(serialize(&false).unwrap(), vec![0u8]);
}

#[test]
fn test_u8() {
    roundtrip_exact(&0u8);
    roundtrip_exact(&255u8);
    test_serialization_roundtrip(&42u8);
}

#[test]
fn test_u16() {
    roundtrip_exact(&0xabcdu16);
    assert_eq!(serialize(&0x0102u16).unwrap(), vec![2u8, 1u8]);
}

#[test]
fn test_u32() {
    roundtrip_exact(&0xdeadbeefu32);
    assert_eq!(serialize(&1u32).unwrap(), vec![1u8, 0, 0, 0]);
    assert_eq!(serialize(&0x01020304u32).unwrap(), vec![4u8, 3, 2, 1]);
}

#[test]
fn test_u64() {
    roundtrip_exact(&u64::MAX);
    assert_eq!(serialize(&1u64).unwrap(), vec![1u8, 0, 0, 0, 0, 0, 0, 0]);
}

#[test]
fn test_i32() {
    roundtrip_exact(&-1i32);
    roundtrip_exact(&i32::MIN);
    roundtrip_exact(&i32::MAX);
    assert_eq!(serialize(&-1i32).unwrap(), vec![255u8, 255, 255, 255]);
}

#[test]
fn test_i64() {
    roundtrip_exact(&-2i64);
    roundtrip_exact(&i64::MIN);
    assert_eq!(
        serialize(&-1i64).unwrap(),
        vec![255u8, 255, 255, 255, 255, 255, 255, 255]
    );
}

#[test]
fn test_unit() {
    roundtrip_exact(&());
    assert_eq!(serialize(&()).unwrap(), Vec::<u8>::new());
}

#[test]
fn test_string() {
    roundtrip_exact(&String::from("hello, world"));
    roundtrip_exact(&String::from(""));
    roundtrip_exact(&String::from("\u{1F980} non-ascii \u{00e9}"));
    assert_eq!(
        serialize(&String::from("abc")).unwrap(),
        vec![3u8, 0, 0, 0, 97, 98, 99]
    );
}

#[test]
fn test_string_invalid_utf8_rejected() {
    // A claimed length of 1 followed by a lone continuation byte.
    let bytes = vec![1u8, 0, 0, 0, 0xFF];
    let result: Result<String, Error> = deserialize(bytes);
    assert_eq!(result.unwrap_err(), Error::Formatting);
}

#[test]
fn test_vec_u8() {
    roundtrip_exact(&vec![1u8, 2, 3, 4, 5]);
    roundtrip_exact(&Vec::<u8>::new());
    assert_eq!(serialize(&vec![7u8, 8]).unwrap(), vec![2u8, 0, 0, 0, 7, 8]);
}

#[test]
fn test_vec_i32() {
    roundtrip_exact(&vec![-1i32, 0, 1, i32::MAX, i32::MIN]);
}

#[test]
fn test_vec_vec_u8() {
    roundtrip_exact(&vec![vec![1u8, 2], vec![], vec![3u8]]);
}

#[test]
fn test_array_u8_32() {
    let mut arr = [0u8; 32];
    for (i, b) in arr.iter_mut().enumerate() {
        *b = i as u8;
    }
    roundtrip_exact(&arr);
    // Fixed-size arrays carry no length prefix.
    assert_eq!(serialize(&[9u8, 8, 7]).unwrap(), vec![9u8, 8, 7]);
}

#[test]
fn test_option() {
    roundtrip_exact(&Some(17u32));
    roundtrip_exact(&None::<u32>);
    assert_eq!(serialize(&None::<u32>).unwrap(), vec![0u8]);
    assert_eq!(serialize(&Some(1u8)).unwrap(), vec![1u8, 1]);
}

#[test]
fn test_option_bad_tag() {
    let result: Result<Option<u8>, Error> = deserialize(vec![2u8, 1]);
    assert_eq!(result.unwrap_err(), Error::Formatting);
}

#[test]
fn test_result() {
    roundtrip_exact(&Ok::<u32, u8>(13));
    roundtrip_exact(&Err::<u32, u8>(9));
    // Err carries tag 0, Ok carries tag 1.
    assert_eq!(serialize(&Err::<u32, u8>(9)).unwrap(), vec![0u8, 9]);
    assert_eq!(serialize(&Ok::<u32, u8>(1)).unwrap(), vec![1u8, 1, 0, 0, 0]);
}

#[test]
fn test_tuples() {
    roundtrip_exact(&(1u8,));
    roundtrip_exact(&(1u8, 2u32));
    roundtrip_exact(&(1u8, 2u32, -3i32));
    assert_eq!(serialize(&(1u8, 2u8)).unwrap(), vec![1u8, 2]);
}

#[test]
fn test_early_end_of_stream() {
    let result: Result<u32, Error> = deserialize(vec![1u8, 2]);
    assert_eq!(result.unwrap_err(), Error::EarlyEndOfStream);
    let empty: Result<u8, Error> = deserialize(Vec::new());
    assert_eq!(empty.unwrap_err(), Error::EarlyEndOfStream);
}

#[test]
fn test_leftover_bytes_rejected() {
    // One extra trailing byte appended to a canonical encoding must fail
    // with the leftover-bytes error in the whole-buffer entry point.
    let mut bytes = serialize(&0x01020304u32).unwrap();
    bytes.push(0);
    let result: Result<u32, Error> = deserialize(bytes);
    assert_eq!(result.unwrap_err(), Error::LeftOverBytes);

    let mut bytes2 = serialize(&String::from("xyz")).unwrap();
    bytes2.push(7);
    let result2: Result<String, Error> = deserialize(bytes2);
    assert_eq!(result2.unwrap_err(), Error::LeftOverBytes);
}

#[test]
fn test_bool_bad_byte() {
    let result: Result<bool, Error> = deserialize(vec![2u8]);
    assert_eq!(result.unwrap_err(), Error::Formatting);
}

#[test]
fn test_reserialize_is_identical() {
    let original = serialize(&vec![(1u8, 2u32), (3u8, 4u32)]).unwrap();
    let decoded: Vec<(u8, u32)> = deserialize(original.clone()).unwrap();
    let reserialized = serialize(&decoded).unwrap();
    assert_eq!(original, reserialized);
}

#[test]
fn test_tuple4_to_tuple10() {
    roundtrip_exact(&(1u8, 2u32, -3i32, 4u64));
    roundtrip_exact(&(1u8, 2u32, -3i32, 4u64, true));
    roundtrip_exact(&(1u8, 2u32, -3i32, 4u64, true, 6u16));
    roundtrip_exact(&(1u8, 2u32, -3i32, 4u64, true, 6u16, -7i64));
    roundtrip_exact(&(1u8, 2u32, -3i32, 4u64, true, 6u16, -7i64, 8u8));
    roundtrip_exact(&(1u8, 2u32, -3i32, 4u64, true, 6u16, -7i64, 8u8, 9u32));
    roundtrip_exact(&(
        1u8,
        2u32,
        -3i32,
        4u64,
        true,
        6u16,
        -7i64,
        8u8,
        9u32,
        String::from("ten"),
    ));
    // Tuples concatenate their parts' canonical bytes with no separators.
    assert_eq!(
        serialize(&(1u8, 2u8, 3u8, 4u8)).unwrap(),
        vec![1u8, 2, 3, 4]
    );
}
