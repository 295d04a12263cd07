use casper_state::bytesrepr::{deserialize, serialize, Error, ToBytes};
use casper_state::ordered::{OrderedMap, OrderedSet};

#[test]
fn ordered_map_insert_and_get() {
    let mut map: OrderedMap<u32, u64> = OrderedMap::new();
    assert_eq!(map.len(), 0);
    assert!(map.insert(2, 20).is_none());
    assert!(map.insert(1, 10).is_none());
    assert!(map.insert(3, 30).is_none());
    assert_eq!(map.len(), 3);
    assert_eq!(map.get(&1), Some(&10));
    assert_eq!(map.get(&2), Some(&20));
    assert_eq!(map.get(&3), Some(&30));
    assert_eq!(map.get(&4), None);
    // Re-binding a key replaces the value and returns the old one.
    assert_eq!(map.insert(2, 21), Some(20));
    assert_eq!(map.len(), 3);
    assert_eq!(map.get(&2), Some(&21));
}

#[test]
fn ordered_map_roundtrip() {
    let mut map: OrderedMap<u32, u64> = OrderedMap::new();
    map.insert(5, 50);
    map.insert(1, 10);
    map.insert(3, 30);
    let bytes = serialize(&map).unwrap();
    assert_eq!(bytes.len(), map.serialized_length());
    // Count prefix, then entries in increasing key order.
    assert_eq!(&bytes[0..4], &[3, 0, 0, 0]);
    assert_eq!(&bytes[4..8], &[1, 0, 0, 0]);
    let back: OrderedMap<u32, u64> = deserialize(bytes).unwrap();
    assert_eq!(back, map);
}

#[test]
fn ordered_map_rejects_unsorted_wire_bytes() {
    // Two entries with keys out of order: not the canonical form.
    let mut bytes = vec![2u8, 0, 0, 0];
    bytes.extend_from_slice(&serialize(&(2u32, 20u64)).unwrap());
    bytes.extend_from_slice(&serialize(&(1u32, 10u64)).unwrap());
    let r: Result<OrderedMap<u32, u64>, Error> = deserialize(bytes);
    assert_eq!(r.unwrap_err(), Error::Formatting);
}

#[test]
fn ordered_map_rejects_duplicate_keys() {
    let mut bytes = vec![2u8, 0, 0, 0];
    bytes.extend_from_slice(&serialize(&(1u32, 10u64)).unwrap());
    bytes.extend_from_slice(&serialize(&(1u32, 11u64)).unwrap());
    let r: Result<OrderedMap<u32, u64>, Error> = deserialize(bytes);
    assert_eq!(r.unwrap_err(), Error::Formatting);
}

#[test]
fn ordered_set_membership_and_roundtrip() {
    let mut set: OrderedSet<u32> = OrderedSet::new();
    assert!(set.insert(7));
    assert!(set.insert(3));
    assert!(!set.insert(7));
    assert_eq!(set.len(), 2);
    assert!(set.contains(&3));
    assert!(!set.contains(&4));
    let bytes = serialize(&set).unwrap();
    // Count prefix, then the members' bytes in increasing order.
    assert_eq!(bytes, vec![2u8, 0, 0, 0, 3, 0, 0, 0, 7, 0, 0, 0]);
    let back: OrderedSet<u32> = deserialize(bytes).unwrap();
    assert_eq!(back, set);
}

#[test]
fn ordered_map_string_keys_sort_by_canonical_bytes() {
    let mut map: OrderedMap<String, u8> = OrderedMap::new();
    map.insert(String::from("bb"), 1);
    map.insert(String::from("a"), 2);
    // The canonical order is over the keys' canonical bytes, which carry a
    // length prefix, so the shorter key orders first here.
    let bytes = serialize(&map).unwrap();
    assert_eq!(&bytes[0..4], &[2, 0, 0, 0]);
    assert_eq!(&bytes[4..8], &[1, 0, 0, 0]);
    assert_eq!(bytes[8], b'a');
    let back: OrderedMap<String, u8> = deserialize(bytes).unwrap();
    assert_eq!(back, map);
}
