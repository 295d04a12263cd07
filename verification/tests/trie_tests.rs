use casper_state::bytesrepr::{deserialize, serialize};
use casper_state::digest::{hash, Digest};
use casper_state::state::read;
use casper_state::store::{TrieStore, TrieStoreError};
use casper_state::trie::{Pointer, PointerBlock, Trie};

fn empty_root(store: &mut TrieStore) -> Digest {
    let empty: Trie<u32, u64> = Trie::Node {
        pointer_block: PointerBlock::new(),
    };
    store.put(&empty).expect("should store the empty node")
}

#[test]
fn blake2b_known_vector() {
    // BLAKE2b-256 of the empty input.
    let expected = [
        0x0e, 0x57, 0x51, 0xc0, 0x26, 0xe5, 0x43, 0xb2, 0xe8, 0xab, 0x2e, 0xb0, 0x60, 0x99,
        0xda, 0xa1, 0xd1, 0xe5, 0xdf, 0x47, 0x77, 0x8f, 0x77, 0x87, 0xfa, 0xab, 0x45, 0xcd,
        0xf1, 0x2f, 0xe3, 0xa8,
    ];
    assert_eq!(hash(&[]).to_array(), expected);
}

#[test]
fn hashing_is_deterministic() {
    let a = hash(b"some node bytes");
    let b = hash(b"some node bytes");
    let c = hash(b"other bytes");
    assert!(a.equals(&b));
    assert!(!a.equals(&c));
}

#[test]
fn serialize_trie_leaf_roundtrip() {
    let leaf: Trie<u32, u64> = Trie::Leaf {
        key: 7,
        value: 99,
    };
    let bytes = serialize(&leaf).unwrap();
    // Leading tag 0, then the key and the value, little-endian.
    assert_eq!(bytes[0], 0);
    assert_eq!(&bytes[1..5], &[7, 0, 0, 0]);
    let back: Trie<u32, u64> = deserialize(bytes.clone()).unwrap();
    assert_eq!(back, leaf);
    assert_eq!(serialize(&back).unwrap(), bytes);
}

#[test]
fn serialize_trie_extension_roundtrip() {
    let ext: Trie<u32, u64> = Trie::Extension {
        affix: vec![1, 2, 3],
        pointer: Pointer::NodePointer(hash(b"child")),
    };
    let bytes = serialize(&ext).unwrap();
    // Leading tag 1, then the length-prefixed affix.
    assert_eq!(&bytes[0..8], &[1, 3, 0, 0, 0, 1, 2, 3]);
    let back: Trie<u32, u64> = deserialize(bytes.clone()).unwrap();
    assert_eq!(back, ext);
}

#[test]
fn serialize_trie_node_roundtrip() {
    let node: Trie<u32, u64> = Trie::Node {
        pointer_block: PointerBlock::new(),
    };
    let bytes = serialize(&node).unwrap();
    // Leading tag 2, then 256 empty slots of one byte each.
    assert_eq!(bytes.len(), 1 + 256);
    assert_eq!(bytes[0], 2);
    let back: Trie<u32, u64> = deserialize(bytes.clone()).unwrap();
    assert_eq!(back, node);
}

#[test]
fn put_is_idempotent() {
    let mut store = TrieStore::new();
    let leaf: Trie<u32, u64> = Trie::Leaf { key: 5, value: 50 };
    let d1 = store.put(&leaf).unwrap();
    let len_after_first = store.len();
    let d2 = store.put(&leaf).unwrap();
    assert!(d1.equals(&d2));
    assert_eq!(store.len(), len_after_first);
}

#[test]
fn get_absent_digest_is_none() {
    let store = TrieStore::new();
    let d = hash(b"never stored");
    let found: Option<Trie<u32, u64>> = store.get(&d).unwrap();
    assert!(found.is_none());
}

#[test]
fn get_returns_what_put_stored() {
    let mut store = TrieStore::new();
    let leaf: Trie<u32, u64> = Trie::Leaf { key: 5, value: 50 };
    let d = store.put(&leaf).unwrap();
    let found: Trie<u32, u64> = store.get(&d).unwrap().expect("should be present");
    assert_eq!(found, leaf);
}

#[test]
fn insert_then_read() {
    let mut store = TrieStore::new();
    let root = empty_root(&mut store);
    let r1 = casper_state::state::write(&mut store, &root, &7u32, &700u64).unwrap();
    assert_eq!(read(&store, &r1, &7u32).unwrap(), Some(700u64));
    assert_eq!(read::<u32, u64>(&store, &r1, &8u32).unwrap(), None);
}

#[test]
fn update_replaces_value() {
    let mut store = TrieStore::new();
    let root = empty_root(&mut store);
    let r1 = casper_state::state::write(&mut store, &root, &7u32, &700u64).unwrap();
    let r2 = casper_state::state::write(&mut store, &r1, &7u32, &701u64).unwrap();
    assert_eq!(read(&store, &r2, &7u32).unwrap(), Some(701u64));
    // The old root still answers with the old value: nodes are immutable.
    assert_eq!(read(&store, &r1, &7u32).unwrap(), Some(700u64));
}

#[test]
fn unrelated_keys_are_undisturbed() {
    let mut store = TrieStore::new();
    let root = empty_root(&mut store);
    let mut cur = root;
    // Keys sharing three path bytes before diverging, and keys differing in
    // the first byte: both extension splits and branch fills occur.
    let keys: [u32; 6] = [1, 2, 0x01000000, 0x02000000, 0x01020304, 0x01020305];
    for (i, k) in keys.iter().enumerate() {
        cur = casper_state::state::write(&mut store, &cur, k, &((i as u64) * 10)).unwrap();
    }
    for (i, k) in keys.iter().enumerate() {
        assert_eq!(read(&store, &cur, k).unwrap(), Some((i as u64) * 10));
    }
    assert_eq!(read::<u32, u64>(&store, &cur, &9u32).unwrap(), None);
}

#[test]
fn two_keys_two_slots() {
    // Example scenario: an empty trie, then two keys differing in their
    // first path byte; the root becomes a branch with exactly two occupied
    // slots and no extension above it.
    let mut store = TrieStore::new();
    let root = empty_root(&mut store);
    let r1 = casper_state::state::write(&mut store, &root, &1u32, &1u64).unwrap();
    let r2 = casper_state::state::write(&mut store, &r1, &2u32, &2u64).unwrap();
    assert_eq!(read(&store, &r2, &1u32).unwrap(), Some(1u64));
    assert_eq!(read(&store, &r2, &2u32).unwrap(), Some(2u64));
    let top: Trie<u32, u64> = store.get(&r2).unwrap().expect("root should be stored");
    match top {
        Trie::Node { pointer_block } => {
            assert_eq!(pointer_block.occupied_count(), 2);
        }
        _ => panic!("the root of the two-key trie should be a branch node"),
    }
}

#[test]
fn corrupt_bytes_reported_not_ignored() {
    let mut store = TrieStore::new();
    // Store bytes that do not decode to any trie node.
    let d = store.put_bytes(vec![9u8, 9, 9]).unwrap();
    let r: Result<Option<Trie<u32, u64>>, TrieStoreError> = store.get(&d);
    assert_eq!(r.unwrap_err(), TrieStoreError::Corruption);
}

#[test]
fn extension_split_keeps_structure() {
    // The paths are the keys' little-endian bytes, so 0x01000007 and
    // 0x02000007 share the run [7, 0, 0] before diverging: the first insert
    // hangs a leaf off the root, and the second splits the shared run into
    // an extension leading to a two-child branch.
    let mut store = TrieStore::new();
    let root = empty_root(&mut store);
    let r1 = casper_state::state::write(&mut store, &root, &0x01000007u32, &4u64).unwrap();
    let r2 = casper_state::state::write(&mut store, &r1, &0x02000007u32, &5u64).unwrap();
    assert_eq!(read(&store, &r2, &0x01000007u32).unwrap(), Some(4u64));
    assert_eq!(read(&store, &r2, &0x02000007u32).unwrap(), Some(5u64));
    // Descend: root branch -> shared-run extension -> two-child branch.
    let top: Trie<u32, u64> = store.get(&r2).unwrap().expect("root stored");
    let slot = match top {
        Trie::Node { pointer_block } => {
            assert_eq!(pointer_block.occupied_count(), 1);
            pointer_block.get_slot(7).expect("slot for first path byte")
        }
        _ => panic!("root should be a branch"),
    };
    let below: Trie<u32, u64> = store
        .get(&slot.into_digest())
        .unwrap()
        .expect("child stored");
    match below {
        Trie::Extension { affix, pointer } => {
            // The shared run continues with two zero bytes.
            assert_eq!(affix, vec![0, 0]);
            let branch: Trie<u32, u64> = store
                .get(&pointer.into_digest())
                .unwrap()
                .expect("branch stored");
            match branch {
                Trie::Node { pointer_block } => {
                    assert_eq!(pointer_block.occupied_count(), 2);
                    assert!(pointer_block.get_slot(1).is_some());
                    assert!(pointer_block.get_slot(2).is_some());
                }
                _ => panic!("the split should end in a branch"),
            }
        }
        other => panic!("expected an extension, found {:?}", other),
    }
}
