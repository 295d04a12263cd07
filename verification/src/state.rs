//! The typed state interface over the trie store: descending the trie by a
//! key's canonical byte path, and rewriting the path from a changed leaf back
//! to a fresh root.  Nodes are immutable once written; a write only appends.

use crate::bytesrepr::{serialize, Error, FromBytes, ToBytes};
use crate::digest::{collision_exists, digest_of, Digest};
use crate::store::{bytes_eq, TrieStore, TrieStoreError};
use crate::trie::{Pointer, PointerBlock, SpecPointer, SpecTrie, Trie, RADIX};
use vstd::prelude::*;

verus! {

/// Structural health of one stored node, relative to the store contents `m`:
/// the bytes decode fully to a node; an extension's affix is never empty and
/// its child is present; a branch has exactly [`RADIX`] slots, each occupied
/// slot's child present.
pub open spec fn node_ok<K: FromBytes, V: FromBytes>(
    m: Map<Seq<u8>, Seq<u8>>,
    bytes: Seq<u8>,
) -> bool {
    match Trie::<K, V>::spec_from(bytes) {
        Ok((node, rem)) => rem.len() == 0 && (match node {
            SpecTrie::Leaf { key, value } => true,
            SpecTrie::Extension { affix, pointer } => 0 < affix.len() && m.contains_key(
                pointer.digest(),
            ),
            SpecTrie::Node { slots } => slots.len() == RADIX && (forall|i: int|
                0 <= i < RADIX ==> ((#[trigger] slots[i]) matches Some(p) ==> m.contains_key(
                    p.digest(),
                ))),
        }),
        Err(_) => false,
    }
}

/// Every stored node is structurally healthy; in particular no reachable
/// extension has an empty affix, and every reachable pointer resolves.
pub open spec fn store_ok<K: FromBytes, V: FromBytes>(m: Map<Seq<u8>, Seq<u8>>) -> bool {
    forall|d: Seq<u8>| #[trigger] m.contains_key(d) ==> node_ok::<K, V>(m, m[d])
}

/// `m2` holds everything `m1` holds, unchanged.
pub open spec fn extends(m1: Map<Seq<u8>, Seq<u8>>, m2: Map<Seq<u8>, Seq<u8>>) -> bool {
    forall|d: Seq<u8>| #[trigger] m1.contains_key(d) ==> m2.contains_key(d) && m2[d] == m1[d]
}

/// The value bound to `km` in the trie rooted at digest `d`, descending from
/// byte `pos` of the key's canonical path.  Missing digests, undecodable
/// nodes and diverging paths all yield `None`.
pub open spec fn spec_lookup<K: FromBytes, V: FromBytes>(
    m: Map<Seq<u8>, Seq<u8>>,
    d: Seq<u8>,
    km: K::Model,
    pos: int,
) -> Option<V::Model>
    decreases K::spec_encoding(km).len() - pos,
{
    let path = K::spec_encoding(km);
    if !m.contains_key(d) {
        None
    } else {
        match Trie::<K, V>::spec_from(m[d]) {
            Ok((node, rem)) => {
                if rem.len() != 0 {
                    None
                } else {
                    match node {
                        SpecTrie::Leaf { key, value } => if key == km {
                            Some(value)
                        } else {
                            None
                        },
                        SpecTrie::Extension { affix, pointer } => {
                            if 0 < affix.len() && 0 <= pos && pos + affix.len() <= path.len()
                                && path.subrange(pos, pos + affix.len() as int) == affix {
                                spec_lookup::<K, V>(m, pointer.digest(), km, pos + affix.len())
                            } else {
                                None
                            }
                        },
                        SpecTrie::Node { slots } => {
                            if 0 <= pos < path.len() {
                                match slots[path[pos] as int] {
                                    Some(p) => spec_lookup::<K, V>(m, p.digest(), km, pos + 1),
                                    None => None,
                                }
                            } else {
                                None
                            }
                        },
                    }
                }
            },
            Err(_) => None,
        }
    }
}

/// A node's health only depends on which digests are present, so it survives
/// store growth.
pub proof fn lemma_node_ok_extend<K: FromBytes, V: FromBytes>(
    m1: Map<Seq<u8>, Seq<u8>>,
    m2: Map<Seq<u8>, Seq<u8>>,
    bytes: Seq<u8>,
)
    requires
        node_ok::<K, V>(m1, bytes),
        extends(m1, m2),
    ensures
        node_ok::<K, V>(m2, bytes),
{
}

/// Lookups below a healthy root are unchanged by store growth: the descent
/// only touches digests the old store already held.
pub proof fn lemma_lookup_extend<K: FromBytes, V: FromBytes>(
    m1: Map<Seq<u8>, Seq<u8>>,
    m2: Map<Seq<u8>, Seq<u8>>,
    d: Seq<u8>,
    km: K::Model,
    pos: int,
)
    requires
        store_ok::<K, V>(m1),
        m1.contains_key(d),
        extends(m1, m2),
    ensures
        spec_lookup::<K, V>(m2, d, km, pos) == spec_lookup::<K, V>(m1, d, km, pos),
    decreases K::spec_encoding(km).len() - pos,
{
    let path = K::spec_encoding(km);
    assert(m2.contains_key(d) && m2[d] == m1[d]);
    match Trie::<K, V>::spec_from(m1[d]) {
        Ok((node, rem)) => {
            if rem.len() == 0 {
                match node {
                    SpecTrie::Leaf { key, value } => {},
                    SpecTrie::Extension { affix, pointer } => {
                        if 0 < affix.len() && 0 <= pos && pos + affix.len() <= path.len()
                            && path.subrange(pos, pos + affix.len() as int) == affix {
                            lemma_lookup_extend::<K, V>(m1, m2, pointer.digest(), km, pos
                                + affix.len());
                        }
                    },
                    SpecTrie::Node { slots } => {
                        if 0 <= pos < path.len() {
                            match slots[path[pos] as int] {
                                Some(p) => {
                                    lemma_lookup_extend::<K, V>(m1, m2, p.digest(), km, pos + 1);
                                },
                                None => {},
                            }
                        }
                    },
                }
            }
        },
        Err(_) => {},
    }
}

/// Whether the insert descent for `km` meets only well-placed nodes below
/// digest `d`, starting `pos` bytes into the key's canonical path.  It is
/// false exactly at the structural faults the insert reports as corruption:
/// a leaf whose key encoding diverges from the path before `pos`, an
/// extension whose affix matches but outruns the path, and a branch met with
/// the path already exhausted (or a node that fails to decode at all).
pub open spec fn descent_clean<K: FromBytes, V: FromBytes>(
    m: Map<Seq<u8>, Seq<u8>>,
    d: Seq<u8>,
    km: K::Model,
    pos: int,
) -> bool
    decreases K::spec_encoding(km).len() - pos,
{
    let path = K::spec_encoding(km);
    if !m.contains_key(d) {
        false
    } else {
        match Trie::<K, V>::spec_from(m[d]) {
            Ok((node, rem)) => rem.len() == 0 && (match node {
                SpecTrie::Leaf { key, value } => key == km || (pos <= K::spec_encoding(key).len()
                    && pos <= path.len() && K::spec_encoding(key).subrange(0, pos)
                    == path.subrange(0, pos)),
                SpecTrie::Extension { affix, pointer } => {
                    if 0 < affix.len() && 0 <= pos && pos + affix.len() <= path.len()
                        && path.subrange(pos, pos + affix.len() as int) == affix {
                        // The whole affix matches: the descent continues.
                        descent_clean::<K, V>(m, pointer.digest(), km, pos + affix.len())
                    } else if 0 <= pos <= path.len() && path.len() - pos < affix.len()
                        && path.subrange(pos, path.len() as int) == affix.subrange(
                        0,
                        path.len() - pos,
                    ) {
                        // The path ends inside the affix with every available
                        // byte matching: nowhere to place the leaf.
                        false
                    } else {
                        // The affix and the path genuinely diverge: the
                        // extension can be split.
                        0 < affix.len()
                    }
                },
                SpecTrie::Node { slots } => {
                    if 0 <= pos < path.len() {
                        match slots[path[pos] as int] {
                            Some(p) => descent_clean::<K, V>(m, p.digest(), km, pos + 1),
                            None => true,
                        }
                    } else {
                        false
                    }
                },
            }),
            Err(_) => false,
        }
    }
}

/// Like lookups, the cleanliness of a descent below a healthy root is
/// unchanged by store growth.
pub proof fn lemma_descent_clean_extend<K: FromBytes, V: FromBytes>(
    m1: Map<Seq<u8>, Seq<u8>>,
    m2: Map<Seq<u8>, Seq<u8>>,
    d: Seq<u8>,
    km: K::Model,
    pos: int,
)
    requires
        store_ok::<K, V>(m1),
        m1.contains_key(d),
        extends(m1, m2),
    ensures
        descent_clean::<K, V>(m2, d, km, pos) == descent_clean::<K, V>(m1, d, km, pos),
    decreases K::spec_encoding(km).len() - pos,
{
    let path = K::spec_encoding(km);
    assert(m2.contains_key(d) && m2[d] == m1[d]);
    match Trie::<K, V>::spec_from(m1[d]) {
        Ok((node, rem)) => {
            if rem.len() == 0 {
                match node {
                    SpecTrie::Leaf { key, value } => {},
                    SpecTrie::Extension { affix, pointer } => {
                        if 0 < affix.len() && 0 <= pos && pos + affix.len() <= path.len()
                            && path.subrange(pos, pos + affix.len() as int) == affix {
                            lemma_descent_clean_extend::<K, V>(m1, m2, pointer.digest(), km, pos
                                + affix.len());
                        }
                    },
                    SpecTrie::Node { slots } => {
                        if 0 <= pos < path.len() {
                            match slots[path[pos] as int] {
                                Some(p) => {
                                    lemma_descent_clean_extend::<K, V>(
                                        m1,
                                        m2,
                                        p.digest(),
                                        km,
                                        pos + 1,
                                    );
                                },
                                None => {},
                            }
                        }
                    },
                }
            }
        },
        Err(_) => {},
    }
}

/// Growing a healthy store with one healthy node keeps it healthy.
pub proof fn lemma_store_ok_insert<K: FromBytes, V: FromBytes>(
    m: Map<Seq<u8>, Seq<u8>>,
    d: Seq<u8>,
    bytes: Seq<u8>,
)
    requires
        store_ok::<K, V>(m),
        node_ok::<K, V>(m.insert(d, bytes), bytes),
        m.contains_key(d) ==> m[d] == bytes,
    ensures
        store_ok::<K, V>(m.insert(d, bytes)),
        extends(m, m.insert(d, bytes)),
{
    let m2 = m.insert(d, bytes);
    assert(extends(m, m2));
    assert forall|k: Seq<u8>| #[trigger] m2.contains_key(k) implies node_ok::<K, V>(
        m2,
        m2[k],
    ) by {
        if k == d {
        } else {
            assert(m.contains_key(k) && m2[k] == m[k]);
            assert(extends(m, m2));
            lemma_node_ok_extend::<K, V>(m, m2, m[k]);
        }
    }
}

/// Two models with the same canonical encoding are the same model.
pub proof fn lemma_key_injective<K: FromBytes>(a: K::Model, b: K::Model)
    requires
        K::spec_encodable(a),
        K::spec_encodable(b),
        K::spec_encoding(a) == K::spec_encoding(b),
    ensures
        a == b,
{
    K::lemma_roundtrip(a, Seq::empty());
    K::lemma_roundtrip(b, Seq::empty());
}

/// The empty-affix invariant: in a healthy store, no stored extension node
/// has a zero-length affix.  `write` keeps every store it returns healthy.
pub proof fn lemma_no_empty_affix<K: FromBytes, V: FromBytes>(m: Map<Seq<u8>, Seq<u8>>, d: Seq<u8>)
    requires
        store_ok::<K, V>(m),
        m.contains_key(d),
    ensures
        Trie::<K, V>::spec_from(m[d]) matches Ok((node, rem)) ==> (node matches SpecTrie::Extension {
            affix,
            pointer,
        } ==> affix.len() > 0),
{
}

/// Determinism of the node format: re-serializing whatever a decode returned
/// yields exactly the bytes the decode consumed.  Together with the content
/// hash being a function of those bytes, two equal logical nodes always hash
/// to the same digest.
pub proof fn lemma_reserialize_identity<K: FromBytes, V: FromBytes>(bytes: Seq<u8>)
    ensures
        Trie::<K, V>::spec_from(bytes) matches Ok((node, rem)) ==> <Trie<
            K,
            V,
        > as ToBytes>::spec_encodable(node) && bytes == <Trie<K, V> as ToBytes>::spec_encoding(node)
            + rem,
{
    Trie::<K, V>::lemma_parse_encoding(bytes);
}

/// Canonical key encodings are prefix-free: the encodings of two distinct
/// keys disagree at some position within both.
pub proof fn lemma_encodings_diverge<K: FromBytes>(a: K::Model, b: K::Model)
    requires
        K::spec_encodable(a),
        K::spec_encodable(b),
        a != b,
    ensures
        exists|j: int|
            0 <= j < K::spec_encoding(a).len() && j < K::spec_encoding(b).len()
                && K::spec_encoding(a)[j] != K::spec_encoding(b)[j],
{
    let e1 = K::spec_encoding(a);
    let e2 = K::spec_encoding(b);
    if forall|j: int| 0 <= j < e1.len() && j < e2.len() ==> e1[j] == e2[j] {
        if e1.len() <= e2.len() {
            assert(e2 =~= e1 + e2.skip(e1.len() as int));
            K::lemma_roundtrip(a, e2.skip(e1.len() as int));
            K::lemma_roundtrip(b, Seq::empty());
            assert(e2 + Seq::empty() =~= e2);
            assert(a == b);
        } else {
            assert(e1 =~= e2 + e1.skip(e2.len() as int));
            K::lemma_roundtrip(b, e1.skip(e2.len() as int));
            K::lemma_roundtrip(a, Seq::empty());
            assert(e1 + Seq::empty() =~= e1);
            assert(a == b);
        }
    }
}

impl TrieStore {
    /// Fetches and decodes the node stored under `digest`.  Bytes that do not
    /// decode to exactly one node are reported as corruption, never silently
    /// ignored; an absent digest is a normal `None`.
    pub fn get<K: FromBytes, V: FromBytes>(&self, digest: &Digest) -> (r: Result<
        Option<Trie<K, V>>,
        TrieStoreError,
    >)
        requires
            self.wf(),
        ensures
            (match r {
                Ok(Some(t)) => self@.contains_key(digest@) && Trie::<K, V>::spec_from(
                    self@[digest@],
                ) == Ok::<_, Error>((t.model(), Seq::<u8>::empty())),
                Ok(None) => !self@.contains_key(digest@),
                Err(e) => e == TrieStoreError::Corruption && self@.contains_key(digest@)
                    && !node_decodes::<K, V>(self@[digest@]),
            }),
    {
        match self.get_bytes(digest) {
            None => Ok(None),
            Some(b) => match Trie::<K, V>::from_bytes(b.as_slice()) {
                Ok((node, rest)) => {
                    if rest.len() == 0 {
                        assert(rest@ =~= Seq::<u8>::empty());
                        Ok(Some(node))
                    } else {
                        Err(TrieStoreError::Corruption)
                    }
                },
                Err(_) => Err(TrieStoreError::Corruption),
            },
        }
    }

    /// Serializes `node` and stores its bytes under their digest, returning
    /// the digest.  Idempotent for an already-stored node.
    pub fn put<K: FromBytes, V: FromBytes>(&mut self, node: &Trie<K, V>) -> (r: Result<
        Digest,
        TrieStoreError,
    >)
        requires
            old(self).wf(),
        ensures
            final(self).wf(),
            (match r {
                Ok(d) => {
                    let enc = <Trie<K, V> as ToBytes>::spec_encoding(node.model());
                    &&& <Trie<K, V> as ToBytes>::spec_encodable(node.model())
                    &&& d@ == digest_of(enc)
                    &&& final(self)@ =~= old(self)@.insert(digest_of(enc), enc)
                    &&& (old(self)@.contains_key(digest_of(enc)) ==> final(self)@ =~= old(
                        self,
                    )@)
                },
                Err(e) => {
                    &&& final(self)@ =~= old(self)@
                    &&& *final(self) == *old(self)
                    &&& (match e {
                        TrieStoreError::Serialization(se) => !<Trie<K, V> as ToBytes>::spec_encodable(
                            node.model(),
                        ) && se == Error::Formatting,
                        TrieStoreError::Corruption => {
                            let enc = <Trie<K, V> as ToBytes>::spec_encoding(node.model());
                            &&& <Trie<K, V> as ToBytes>::spec_encodable(node.model())
                            &&& old(self)@.contains_key(digest_of(enc))
                            &&& old(self)@[digest_of(enc)] != enc
                            &&& collision_exists()
                        },
                    })
                },
            }),
    {
        match serialize(node) {
            Ok(bytes) => {
                let ghost enc = bytes@;
                let r = self.put_bytes(bytes);
                proof {
                    if r is Err {
                        old(self).lemma_consistent();
                        let stored = old(self)@[digest_of(enc)];
                        assert(digest_of(stored) == digest_of(enc) && stored != enc);
                        assert(collision_exists());
                    }
                }
                r
            },
            Err(e) => Err(TrieStoreError::Serialization(e)),
        }
    }
}

/// Whether bytes decode to exactly one node with nothing left over.
pub open spec fn node_decodes<K: FromBytes, V: FromBytes>(bytes: Seq<u8>) -> bool {
    match Trie::<K, V>::spec_from(bytes) {
        Ok((node, rem)) => rem.len() == 0,
        Err(_) => false,
    }
}

/// Looks up `key` in the trie rooted at `root`.  With a healthy store this
/// never fails: an absent binding is a normal `Ok(None)`.
pub fn read<K: FromBytes, V: FromBytes>(store: &TrieStore, root: &Digest, key: &K) -> (r: Result<
    Option<V>,
    TrieStoreError,
>)
    requires
        store.wf(),
        store_ok::<K, V>(store@),
        K::spec_encodable(key.model()),
    ensures
        (match r {
            Ok(Some(v)) => spec_lookup::<K, V>(store@, root@, key.model(), 0) == Some(v.model()),
            Ok(None) => spec_lookup::<K, V>(store@, root@, key.model(), 0) is None,
            Err(_) => false,
        }),
{
    let ghost km = key.model();
    let path = match serialize(key) {
        Ok(p) => p,
        Err(_) => {
            proof {
                assert(false);
            }
            return Err(TrieStoreError::Corruption);
        },
    };
    let mut cur: Digest = *root;
    let mut pos: usize = 0;
    loop
        invariant
            store.wf(),
            store_ok::<K, V>(store@),
            km == key.model(),
            K::spec_encodable(km),
            path@ == K::spec_encoding(km),
            pos <= path@.len(),
            spec_lookup::<K, V>(store@, root@, km, 0) == spec_lookup::<K, V>(
                store@,
                cur@,
                km,
                pos as int,
            ),
        decreases path@.len() - pos,
    {
        let b = match store.get_bytes(&cur) {
            None => {
                return Ok(None);
            },
            Some(b) => b,
        };
        match Trie::<K, V>::from_bytes(b.as_slice()) {
            Err(_) => {
                proof {
                    assert(false);
                }
                return Err(TrieStoreError::Corruption);
            },
            Ok((node, rest)) => {
                if rest.len() != 0 {
                    proof {
                        assert(false);
                    }
                    return Err(TrieStoreError::Corruption);
                }
                assert(rest@ =~= Seq::<u8>::empty());
                match node {
                    Trie::Leaf { key: leaf_key, value } => {
                        proof {
                            Trie::<K, V>::lemma_parse_encoding(store@[cur@]);
                        }
                        let leaf_key_bytes = match serialize(&leaf_key) {
                            Ok(p) => p,
                            Err(_) => {
                                proof {
                                    assert(false);
                                }
                                return Err(TrieStoreError::Corruption);
                            },
                        };
                        if bytes_eq(leaf_key_bytes.as_slice(), path.as_slice()) {
                            proof {
                                lemma_key_injective::<K>(leaf_key.model(), km);
                            }
                            return Ok(Some(value));
                        } else {
                            assert(leaf_key.model() != km);
                            return Ok(None);
                        }
                    },
                    Trie::Extension { affix, pointer } => {
                        proof {
                            crate::bytesrepr::lemma_u8_models(affix@);
                            assert(affix@.len() > 0);
                        }
                        if affix.len() > path.len() - pos {
                            return Ok(None);
                        }
                        let segment = vstd::slice::slice_subrange(
                            path.as_slice(),
                            pos,
                            pos + affix.len(),
                        );
                        if bytes_eq(segment, affix.as_slice()) {
                            cur = pointer.into_digest();
                            pos = pos + affix.len();
                        } else {
                            assert(path@.subrange(pos as int, pos + affix@.len()) != affix.model());
                            return Ok(None);
                        }
                    },
                    Trie::Node { pointer_block } => {
                        if pos >= path.len() {
                            return Ok(None);
                        }
                        let sym = path[pos];
                        proof {
                            pointer_block.lemma_wf();
                        }
                        match pointer_block.get_slot(sym) {
                            Some(p) => {
                                cur = p.into_digest();
                                pos = pos + 1;
                            },
                            None => {
                                return Ok(None);
                            },
                        }
                    },
                }
            },
        }
    }
}

/// The canonical bytes of the leaf binding `km` to `vm`.
pub open spec fn leaf_encoding<K: FromBytes, V: FromBytes>(km: K::Model, vm: V::Model) -> Seq<
    u8,
> {
    <Trie<K, V> as ToBytes>::spec_encoding(SpecTrie::Leaf { key: km, value: vm })
}

/// The shape an insert leaves behind when it meets a branch with an empty
/// slot at the key's next path byte: the node stored at `nd` is the same
/// branch with only that slot changed, now holding a leaf pointer to the
/// canonical leaf binding `km` to `vm`.
pub open spec fn branch_filled<K: FromBytes, V: FromBytes>(
    m: Map<Seq<u8>, Seq<u8>>,
    nd: Seq<u8>,
    slots: Seq<Option<SpecPointer>>,
    sym: u8,
    km: K::Model,
    vm: V::Model,
) -> bool {
    &&& m.contains_key(nd)
    &&& (match Trie::<K, V>::spec_from(m[nd]) {
        Ok((node, rem)) => rem.len() == 0 && (match node {
            SpecTrie::Node { slots: new_slots } => {
                &&& new_slots.len() == slots.len()
                &&& (match new_slots[sym as int] {
                    Some(lp) => lp is Leaf && m.contains_key(lp.digest()) && m[lp.digest()]
                        == leaf_encoding::<K, V>(km, vm),
                    None => false,
                })
                &&& (forall|i: int|
                    0 <= i < slots.len() && i != sym as int ==> #[trigger] new_slots[i]
                        == slots[i])
            },
            _ => false,
        }),
        Err(_) => false,
    })
}

/// What every insertion step assumes: a healthy store holding both the
/// subtrie root `d` and the already-written leaf for `km`, and a position
/// `pos` within the key's canonical path.
pub open spec fn insert_pre<K: FromBytes, V: FromBytes>(
    m: Map<Seq<u8>, Seq<u8>>,
    d: Seq<u8>,
    path: Seq<u8>,
    pos: int,
    lp: SpecPointer,
    km: K::Model,
    vm: V::Model,
) -> bool {
    &&& store_ok::<K, V>(m)
    &&& m.contains_key(d)
    &&& K::spec_encodable(km)
    &&& V::spec_encodable(vm)
    &&& path == K::spec_encoding(km)
    &&& 0 <= pos <= path.len()
    &&& path.len() <= u32::MAX
    &&& lp is Leaf
    &&& lp.digest() == digest_of(leaf_encoding::<K, V>(km, vm))
    &&& m.contains_key(lp.digest())
    &&& m[lp.digest()] == leaf_encoding::<K, V>(km, vm)
}

/// What every insertion step guarantees: the store stays healthy and only
/// grows; on success the returned pointer's subtrie binds `km` to `vm`, and
/// every other key reads below it exactly as it did below `d`.
pub open spec fn insert_post<K: FromBytes, V: FromBytes>(
    m0: Map<Seq<u8>, Seq<u8>>,
    m1: Map<Seq<u8>, Seq<u8>>,
    r: Result<Pointer, TrieStoreError>,
    d: Seq<u8>,
    km: K::Model,
    vm: V::Model,
    pos: int,
) -> bool {
    &&& store_ok::<K, V>(m1)
    &&& extends(m0, m1)
    &&& (match r {
        Ok(p) => {
            &&& m1.contains_key(p.model().digest())
            &&& spec_lookup::<K, V>(m1, p.model().digest(), km, pos) == Some(vm)
            &&& (forall|km2: K::Model|
                km2 != km ==> spec_lookup::<K, V>(m1, p.model().digest(), km2, pos)
                    == spec_lookup::<K, V>(m0, d, km2, pos))
            &&& (match Trie::<K, V>::spec_from(m0[d]) {
                Ok((node, rem)) => (match node {
                    SpecTrie::Node { slots } => (rem.len() == 0 && pos < K::spec_encoding(
                        km,
                    ).len() && slots[K::spec_encoding(km)[pos] as int] is None)
                        ==> branch_filled::<K, V>(
                        m1,
                        p.model().digest(),
                        slots,
                        K::spec_encoding(km)[pos],
                        km,
                        vm,
                    ),
                    _ => true,
                }),
                Err(_) => true,
            })
        },
        Err(e) => e == TrieStoreError::Corruption && (collision_exists() || !descent_clean::<
            K,
            V,
        >(m0, d, km, pos)),
    })
}

/// Replaces or splits the leaf stored at `d`, which holds `leaf_key`.
#[verifier::rlimit(100)]
fn insert_into_leaf<K: FromBytes, V: FromBytes>(
    store: &mut TrieStore,
    d: &Digest,
    path: &Vec<u8>,
    pos: usize,
    leaf_ptr: Pointer,
    leaf_key: K,
    Ghost(km): Ghost<K::Model>,
    Ghost(vm): Ghost<V::Model>,
    Ghost(lv): Ghost<V::Model>,
) -> (r: Result<Pointer, TrieStoreError>)
    requires
        old(store).wf(),
        insert_pre::<K, V>(old(store)@, d@, path@, pos as int, leaf_ptr.model(), km, vm),
        Trie::<K, V>::spec_from(old(store)@[d@]) == Ok::<
            (SpecTrie<K::Model, V::Model>, Seq<u8>),
            Error,
        >((SpecTrie::Leaf { key: leaf_key.model(), value: lv }, Seq::<u8>::empty()),),
    ensures
        final(store).wf(),
        insert_post::<K, V>(old(store)@, final(store)@, r, d@, km, vm, pos as int),
{
    let ghost m0 = store@;
    let ghost leaf_enc = leaf_encoding::<K, V>(km, vm);
    proof {
        Trie::<K, V>::lemma_parse_encoding(m0[d@]);
    }
    let leaf_key_bytes = match serialize(&leaf_key) {
        Ok(p) => p,
        Err(_) => {
            proof {
                assert(false);
            }
            return Err(TrieStoreError::Corruption);
        },
    };
    if bytes_eq(leaf_key_bytes.as_slice(), path.as_slice()) {
        // Same key: the freshly stored leaf simply replaces this one.
        proof {
            lemma_key_injective::<K>(leaf_key.model(), km);
            Trie::<K, V>::lemma_roundtrip(SpecTrie::Leaf { key: km, value: vm }, Seq::empty());
            assert(leaf_enc + Seq::<u8>::empty() =~= leaf_enc);
            assert forall|km2: K::Model| km2 != km implies spec_lookup::<K, V>(
                m0,
                leaf_ptr.model().digest(),
                km2,
                pos as int,
            ) == spec_lookup::<K, V>(m0, d@, km2, pos as int) by {
                assert(spec_lookup::<K, V>(m0, leaf_ptr.model().digest(), km2, pos as int)
                    is None);
                assert(spec_lookup::<K, V>(m0, d@, km2, pos as int) is None);
            }
        }
        return Ok(leaf_ptr);
    }
    // Diverging keys: find the first byte where the two paths differ.
    proof {
        if leaf_key.model() == km {
            assert(leaf_key_bytes@ == path@);
        }
        lemma_encodings_diverge::<K>(leaf_key.model(), km);
    }
    let minlen = if leaf_key_bytes.len() < path.len() {
        leaf_key_bytes.len()
    } else {
        path.len()
    };
    let mut j: usize = 0;
    while j < minlen && leaf_key_bytes[j] == path[j]
        invariant
            j <= minlen,
            minlen <= leaf_key_bytes@.len(),
            minlen <= path@.len(),
            forall|i: int| 0 <= i < j ==> leaf_key_bytes@[i] == path@[i],
        decreases minlen - j,
    {
        j = j + 1;
    }
    if j >= minlen {
        proof {
            let jj = choose|jj: int|
                0 <= jj < K::spec_encoding(leaf_key.model()).len() && jj < K::spec_encoding(
                    km,
                ).len() && K::spec_encoding(leaf_key.model())[jj] != K::spec_encoding(km)[jj];
            assert(leaf_key_bytes@[jj] != path@[jj]);
            assert(false);
        }
        return Err(TrieStoreError::Corruption);
    }
    if j < pos {
        // The stored leaf does not extend the path that led here: report the
        // structural violation as corruption.
        proof {
            if leaf_key.model() == km {
                assert(leaf_key_bytes@ == path@);
                assert(false);
            }
            assert(!descent_clean::<K, V>(m0, d@, km, pos as int)) by {
                let k2enc = K::spec_encoding(leaf_key.model());
                if pos <= k2enc.len() && pos <= path@.len() && k2enc.subrange(0, pos as int)
                    == path@.subrange(0, pos as int) {
                    assert(k2enc.subrange(0, pos as int)[j as int] == path@.subrange(
                        0,
                        pos as int,
                    )[j as int]);
                    assert(false);
                }
            }
        }
        return Err(TrieStoreError::Corruption);
    }
    proof {
        if leaf_key.model() == km {
            assert(leaf_key_bytes@ == path@);
            assert(false);
        }
    }
    let old_sym = leaf_key_bytes[j];
    let new_sym = path[j];
    let mut pb = PointerBlock::new();
    pb.set_slot(old_sym, Some(Pointer::LeafPointer(*d)));
    pb.set_slot(new_sym, Some(leaf_ptr));
    let ghost branch_slots = pb.model();
    let branch: Trie<K, V> = Trie::Node { pointer_block: pb };
    let ghost branch_model = branch.model();
    let ghost branch_enc = <Trie<K, V> as ToBytes>::spec_encoding(branch_model);
    proof {
        d.lemma_len();
        leaf_ptr.lemma_digest_len();
        assert(forall|i: int|
            0 <= i < RADIX && i != old_sym as int && i != new_sym as int ==> (
            #[trigger] branch_slots[i]) is None);
        assert(<Trie<K, V> as ToBytes>::spec_encodable(branch_model));
    }
    let nd = match store.put(&branch) {
        Ok(x) => x,
        Err(e) => {
            return Err(e);
        },
    };
    let ghost m1 = store@;
    proof {
        Trie::<K, V>::lemma_roundtrip(branch_model, Seq::empty());
        assert(branch_enc + Seq::<u8>::empty() =~= branch_enc);
        assert(node_ok::<K, V>(m1, branch_enc));
        lemma_store_ok_insert::<K, V>(m0, digest_of(branch_enc), branch_enc);
        assert(m1 =~= m0.insert(digest_of(branch_enc), branch_enc));
    }
    if j > pos {
        let front = vstd::slice::slice_to_vec(
            vstd::slice::slice_subrange(path.as_slice(), pos, j),
        );
        let ext: Trie<K, V> = Trie::Extension { affix: front, pointer: Pointer::NodePointer(nd) };
        let ghost ext_model = ext.model();
        let ghost ext_enc = <Trie<K, V> as ToBytes>::spec_encoding(ext_model);
        proof {
            crate::bytesrepr::lemma_u8_models(path@.subrange(pos as int, j as int));
            nd.lemma_len();
            assert(<Trie<K, V> as ToBytes>::spec_encodable(ext_model));
        }
        let ed = match store.put(&ext) {
            Ok(x) => x,
            Err(e) => {
                return Err(e);
            },
        };
        let ghost m2 = store@;
        proof {
            crate::bytesrepr::lemma_u8_models(path@.subrange(pos as int, j as int));
            Trie::<K, V>::lemma_roundtrip(ext_model, Seq::empty());
            assert(ext_enc + Seq::<u8>::empty() =~= ext_enc);
            assert(node_ok::<K, V>(m2, ext_enc));
            lemma_store_ok_insert::<K, V>(m1, digest_of(ext_enc), ext_enc);
            assert(m2 =~= m1.insert(digest_of(ext_enc), ext_enc));
            assert(extends(m0, m2));
            // Descend the new extension, branch and leaf.
            assert(path@.subrange(pos as int, j as int) =~= path@.subrange(
                pos as int,
                pos + (j - pos),
            ));
            assert(m2[ed@] == ext_enc);
            assert(m2[nd@] == branch_enc);
            assert(m2[leaf_ptr.model().digest()] == leaf_enc);
            Trie::<K, V>::lemma_roundtrip(SpecTrie::Leaf { key: km, value: vm }, Seq::empty());
            assert(leaf_enc + Seq::<u8>::empty() =~= leaf_enc);
            assert(spec_lookup::<K, V>(m2, leaf_ptr.model().digest(), km, j + 1) == Some(vm));
            assert(spec_lookup::<K, V>(m2, nd@, km, j as int) == Some(vm));
            assert(spec_lookup::<K, V>(m2, ed@, km, pos as int) == Some(vm));
            assert(m2[d@] == m0[d@]);
            let k2m = leaf_key.model();
            let lv2 = lv;
            assert forall|km2: K::Model| km2 != km implies spec_lookup::<K, V>(
                m2,
                ed@,
                km2,
                pos as int,
            ) == spec_lookup::<K, V>(m0, d@, km2, pos as int) by {
                let path2 = K::spec_encoding(km2);
                let affix2 = path@.subrange(pos as int, j as int);
                if km2 == k2m {
                    assert(path2 == leaf_key_bytes@);
                    assert(path2.subrange(pos as int, j as int) =~= affix2);
                    assert(path2[j as int] == old_sym);
                    assert(spec_lookup::<K, V>(m2, d@, km2, j + 1) == Some(lv2));
                    assert(spec_lookup::<K, V>(m2, nd@, km2, j as int) == Some(lv2));
                    assert(spec_lookup::<K, V>(m2, ed@, km2, pos as int) == Some(lv2));
                } else {
                    assert(spec_lookup::<K, V>(m0, d@, km2, pos as int) is None);
                    if j <= path2.len() && path2.subrange(pos as int, j as int) == affix2 {
                        if j < path2.len() {
                            let s2 = path2[j as int];
                            if s2 == old_sym {
                                assert(spec_lookup::<K, V>(m2, d@, km2, j + 1) is None);
                            } else if s2 == new_sym {
                                assert(spec_lookup::<K, V>(
                                    m2,
                                    leaf_ptr.model().digest(),
                                    km2,
                                    j + 1,
                                ) is None);
                            }
                            assert(spec_lookup::<K, V>(m2, nd@, km2, j as int) is None);
                        } else {
                            assert(spec_lookup::<K, V>(m2, nd@, km2, j as int) is None);
                        }
                        assert(spec_lookup::<K, V>(m2, ed@, km2, pos as int) is None);
                    } else {
                        assert(spec_lookup::<K, V>(m2, ed@, km2, pos as int) is None);
                    }
                }
            }
        }
        Ok(Pointer::NodePointer(ed))
    } else {
        proof {
            Trie::<K, V>::lemma_roundtrip(SpecTrie::Leaf { key: km, value: vm }, Seq::empty());
            assert(leaf_enc + Seq::<u8>::empty() =~= leaf_enc);
            assert(m1[leaf_ptr.model().digest()] == leaf_enc);
            assert(spec_lookup::<K, V>(m1, leaf_ptr.model().digest(), km, j + 1) == Some(vm));
            assert(spec_lookup::<K, V>(m1, nd@, km, pos as int) == Some(vm));
            assert(m1[d@] == m0[d@]);
            let k2m = leaf_key.model();
            let lv2 = lv;
            assert forall|km2: K::Model| km2 != km implies spec_lookup::<K, V>(
                m1,
                nd@,
                km2,
                pos as int,
            ) == spec_lookup::<K, V>(m0, d@, km2, pos as int) by {
                let path2 = K::spec_encoding(km2);
                if km2 == k2m {
                    assert(path2 == leaf_key_bytes@);
                    assert(path2[j as int] == old_sym);
                    assert(spec_lookup::<K, V>(m1, d@, km2, j + 1) == Some(lv2));
                    assert(spec_lookup::<K, V>(m1, nd@, km2, pos as int) == Some(lv2));
                } else {
                    assert(spec_lookup::<K, V>(m0, d@, km2, pos as int) is None);
                    if j < path2.len() {
                        let s2 = path2[j as int];
                        if s2 == old_sym {
                            assert(spec_lookup::<K, V>(m1, d@, km2, j + 1) is None);
                        } else if s2 == new_sym {
                            assert(spec_lookup::<K, V>(
                                m1,
                                leaf_ptr.model().digest(),
                                km2,
                                j + 1,
                            ) is None);
                        }
                    }
                    assert(spec_lookup::<K, V>(m1, nd@, km2, pos as int) is None);
                }
            }
        }
        Ok(Pointer::NodePointer(nd))
    }
}

/// After splitting an extension at offset `mcnt` of its affix into a front
/// run, a two-child branch and a shortened tail, lookups of every key other
/// than the inserted one are unchanged.
#[verifier::rlimit(100)]
proof fn lemma_ext_split_preserves<K: FromBytes, V: FromBytes>(
    m0: Map<Seq<u8>, Seq<u8>>,
    mfin: Map<Seq<u8>, Seq<u8>>,
    d: Seq<u8>,
    root_d: Seq<u8>,
    nd_d: Seq<u8>,
    cd: Seq<u8>,
    leaf_d: Seq<u8>,
    pm: SpecPointer,
    cp: SpecPointer,
    lp: SpecPointer,
    rp: SpecPointer,
    slots: Seq<Option<SpecPointer>>,
    affix0: Seq<u8>,
    ns: u8,
    pos: int,
    mcnt: int,
    km: K::Model,
    vm: V::Model,
)
    requires
        store_ok::<K, V>(m0),
        extends(m0, mfin),
        m0.contains_key(d),
        Trie::<K, V>::spec_from(m0[d]) == Ok::<(SpecTrie<K::Model, V::Model>, Seq<u8>), Error>(
            (SpecTrie::Extension { affix: affix0, pointer: pm }, Seq::<u8>::empty()),
        ),
        m0.contains_key(pm.digest()),
        0 <= mcnt < affix0.len(),
        0 <= pos,
        ns != affix0[mcnt],
        cp.digest() == cd,
        lp.digest() == leaf_d,
        slots.len() == RADIX,
        slots[affix0[mcnt] as int] == Some(cp),
        slots[ns as int] == Some(lp),
        forall|i: int|
            0 <= i < RADIX && i != affix0[mcnt] as int && i != ns as int ==> (#[trigger] slots[i])
                is None,
        mfin.contains_key(nd_d),
        Trie::<K, V>::spec_from(mfin[nd_d]) == Ok::<(SpecTrie<K::Model, V::Model>, Seq<u8>), Error>(
            (SpecTrie::Node { slots }, Seq::<u8>::empty()),
        ),
        mfin.contains_key(leaf_d),
        Trie::<K, V>::spec_from(mfin[leaf_d]) == Ok::<
            (SpecTrie<K::Model, V::Model>, Seq<u8>),
            Error,
        >((SpecTrie::Leaf { key: km, value: vm }, Seq::<u8>::empty())),
        mcnt + 1 == affix0.len() ==> cd == pm.digest(),
        mcnt + 1 < affix0.len() ==> mfin.contains_key(cd) && Trie::<K, V>::spec_from(mfin[cd])
            == Ok::<(SpecTrie<K::Model, V::Model>, Seq<u8>), Error>(
            (
                SpecTrie::Extension {
                    affix: affix0.subrange(mcnt + 1, affix0.len() as int),
                    pointer: pm,
                },
                Seq::<u8>::empty(),
            ),
        ),
        mcnt == 0 ==> root_d == nd_d,
        mcnt > 0 ==> rp.digest() == nd_d && mfin.contains_key(root_d) && Trie::<K, V>::spec_from(
            mfin[root_d],
        ) == Ok::<(SpecTrie<K::Model, V::Model>, Seq<u8>), Error>(
            (SpecTrie::Extension { affix: affix0.subrange(0, mcnt), pointer: rp }, Seq::<u8>::empty()),
        ),
    ensures
        forall|km2: K::Model|
            km2 != km ==> spec_lookup::<K, V>(mfin, root_d, km2, pos) == spec_lookup::<K, V>(
                m0,
                d,
                km2,
                pos,
            ),
{
    let alen = affix0.len() as int;
    let j = pos + mcnt;
    let old_sym = affix0[mcnt];
    let front0 = affix0.subrange(0, mcnt);
    let rest0 = affix0.subrange(mcnt + 1, alen);
    assert(affix0 =~= front0 + seq![old_sym] + rest0);
    assert forall|km2: K::Model| km2 != km implies spec_lookup::<K, V>(mfin, root_d, km2, pos)
        == spec_lookup::<K, V>(m0, d, km2, pos) by {
        let path2 = K::spec_encoding(km2);
        if pos + alen <= path2.len() && path2.subrange(pos, pos + alen) == affix0 {
            assert(path2.subrange(pos, j) =~= front0);
            assert(path2[j] == old_sym);
            lemma_lookup_extend::<K, V>(m0, mfin, pm.digest(), km2, pos + alen);
            if mcnt + 1 == alen {
                assert(spec_lookup::<K, V>(mfin, nd_d, km2, j) == spec_lookup::<K, V>(
                    mfin,
                    pm.digest(),
                    km2,
                    pos + alen,
                ));
            } else {
                assert(path2.subrange(j + 1, pos + alen) =~= rest0);
                assert(spec_lookup::<K, V>(mfin, cd, km2, j + 1) == spec_lookup::<K, V>(
                    mfin,
                    pm.digest(),
                    km2,
                    pos + alen,
                ));
                assert(spec_lookup::<K, V>(mfin, nd_d, km2, j) == spec_lookup::<K, V>(
                    mfin,
                    pm.digest(),
                    km2,
                    pos + alen,
                ));
            }
            if mcnt > 0 {
                assert(spec_lookup::<K, V>(mfin, root_d, km2, pos) == spec_lookup::<K, V>(
                    mfin,
                    nd_d,
                    km2,
                    j,
                ));
            }
        } else {
            assert(spec_lookup::<K, V>(m0, d, km2, pos) is None);
            if pos + mcnt <= path2.len() && path2.subrange(pos, j) == front0 {
                if j < path2.len() {
                    let s2 = path2[j];
                    if s2 == old_sym {
                        if mcnt + 1 == alen {
                            assert(path2.subrange(pos, pos + alen) =~= affix0);
                            assert(false);
                        } else {
                            if j + 1 + rest0.len() <= path2.len() && path2.subrange(
                                j + 1,
                                pos + alen,
                            ) == rest0 {
                                assert(path2.subrange(pos, pos + alen) =~= affix0);
                                assert(false);
                            }
                            assert(spec_lookup::<K, V>(mfin, cd, km2, j + 1) is None);
                        }
                    } else if s2 == ns {
                        assert(spec_lookup::<K, V>(mfin, leaf_d, km2, j + 1) is None);
                    }
                    assert(spec_lookup::<K, V>(mfin, nd_d, km2, j) is None);
                } else {
                    assert(spec_lookup::<K, V>(mfin, nd_d, km2, j) is None);
                }
                if mcnt > 0 {
                    assert(spec_lookup::<K, V>(mfin, root_d, km2, pos) is None);
                }
            } else {
                if mcnt == 0 {
                    if pos <= path2.len() {
                        assert(path2.subrange(pos, j) =~= front0);
                        assert(false);
                    }
                    assert(spec_lookup::<K, V>(mfin, nd_d, km2, pos) is None);
                } else {
                    assert(spec_lookup::<K, V>(mfin, root_d, km2, pos) is None);
                }
            }
        }
    }
}

/// Splits the extension stored at `d` at affix offset `mcnt`, where the
/// affix and the key's path diverge: the shared front run (if any) leads to
/// a fresh two-child branch holding the new leaf and the shortened old
/// subtrie.
#[verifier::rlimit(100)]
fn split_extension<K: FromBytes, V: FromBytes>(
    store: &mut TrieStore,
    d: &Digest,
    path: &Vec<u8>,
    pos: usize,
    mcnt: usize,
    leaf_ptr: Pointer,
    affix: Vec<u8>,
    pointer: Pointer,
    Ghost(km): Ghost<K::Model>,
    Ghost(vm): Ghost<V::Model>,
) -> (r: Result<Pointer, TrieStoreError>)
    requires
        old(store).wf(),
        insert_pre::<K, V>(old(store)@, d@, path@, pos as int, leaf_ptr.model(), km, vm),
        Trie::<K, V>::spec_from(old(store)@[d@]) == Ok::<
            (SpecTrie<K::Model, V::Model>, Seq<u8>),
            Error,
        >(
            (
                SpecTrie::Extension { affix: affix.model(), pointer: pointer.model() },
                Seq::<u8>::empty(),
            ),
        ),
        mcnt < affix@.len(),
        pos + mcnt < path@.len(),
        forall|i: int| 0 <= i < mcnt ==> affix@[i] == path@[pos + i],
        affix@[mcnt as int] != path@[pos + mcnt],
    ensures
        final(store).wf(),
        insert_post::<K, V>(old(store)@, final(store)@, r, d@, km, vm, pos as int),
{
    let ghost m0 = store@;
    let ghost leaf_enc = leaf_encoding::<K, V>(km, vm);
    let ghost affix0 = affix@;
    proof {
        crate::bytesrepr::lemma_u8_models(affix@);
        Trie::<K, V>::lemma_parse_encoding(m0[d@]);
        assert(affix0.len() <= u32::MAX);
    }
    let j = pos + mcnt;
    let old_sym = affix[mcnt];
    let new_sym = path[j];
    let ghost pm = pointer.model();
    let child_old: Pointer = if mcnt + 1 == affix.len() {
        pointer
    } else {
        let rest_affix = vstd::slice::slice_to_vec(
            vstd::slice::slice_subrange(affix.as_slice(), mcnt + 1, affix.len()),
        );
        let ext_rest: Trie<K, V> = Trie::Extension { affix: rest_affix, pointer };
        let ghost rest_model = ext_rest.model();
        let ghost rest_enc = <Trie<K, V> as ToBytes>::spec_encoding(rest_model);
        proof {
            crate::bytesrepr::lemma_u8_models(affix0.subrange(mcnt + 1, affix0.len() as int));
            pointer.lemma_digest_len();
            assert(<Trie<K, V> as ToBytes>::spec_encodable(rest_model));
        }
        let rd = match store.put(&ext_rest) {
            Ok(x) => x,
            Err(e) => {
                return Err(e);
            },
        };
        proof {
            Trie::<K, V>::lemma_roundtrip(rest_model, Seq::empty());
            assert(rest_enc + Seq::<u8>::empty() =~= rest_enc);
            assert(node_ok::<K, V>(store@, rest_enc));
            lemma_store_ok_insert::<K, V>(m0, digest_of(rest_enc), rest_enc);
            assert(store@ =~= m0.insert(digest_of(rest_enc), rest_enc));
        }
        Pointer::NodePointer(rd)
    };
    let ghost ma = store@;
    let mut pb = PointerBlock::new();
    pb.set_slot(old_sym, Some(child_old));
    pb.set_slot(new_sym, Some(leaf_ptr));
    let ghost branch_slots = pb.model();
    let branch: Trie<K, V> = Trie::Node { pointer_block: pb };
    let ghost branch_model = branch.model();
    let ghost branch_enc = <Trie<K, V> as ToBytes>::spec_encoding(branch_model);
    proof {
        assert(old_sym == affix0[mcnt as int]);
        assert(new_sym != old_sym);
        assert(branch_slots[old_sym as int] == Some(child_old.model()));
        assert(branch_slots[new_sym as int] == Some(leaf_ptr.model()));
        assert(forall|i: int|
            0 <= i < RADIX && i != old_sym as int && i != new_sym as int ==> (
            #[trigger] branch_slots[i]) is None);
        child_old.lemma_digest_len();
        leaf_ptr.lemma_digest_len();
        assert(<Trie<K, V> as ToBytes>::spec_encodable(branch_model));
    }
    let nd = match store.put(&branch) {
        Ok(x) => x,
        Err(e) => {
            return Err(e);
        },
    };
    let ghost mb = store@;
    proof {
        Trie::<K, V>::lemma_roundtrip(branch_model, Seq::empty());
        assert(branch_enc + Seq::<u8>::empty() =~= branch_enc);
        assert(node_ok::<K, V>(mb, branch_enc));
        lemma_store_ok_insert::<K, V>(ma, digest_of(branch_enc), branch_enc);
        assert(mb =~= ma.insert(digest_of(branch_enc), branch_enc));
        Trie::<K, V>::lemma_roundtrip(SpecTrie::Leaf { key: km, value: vm }, Seq::empty());
        assert(leaf_enc + Seq::<u8>::empty() =~= leaf_enc);
        assert(mb[leaf_ptr.model().digest()] == leaf_enc);
        assert(spec_lookup::<K, V>(mb, leaf_ptr.model().digest(), km, j + 1) == Some(vm));
        assert(spec_lookup::<K, V>(mb, nd@, km, j as int) == Some(vm));
        assert(affix0 =~= affix0.subrange(0, mcnt as int) + seq![old_sym] + affix0.subrange(
            mcnt + 1,
            affix0.len() as int,
        ));
        assert(m0.contains_key(pm.digest()));
        if mcnt + 1 < affix0.len() {
            let rest0 = affix0.subrange(mcnt + 1, affix0.len() as int);
            let rest_model0: SpecTrie<K::Model, V::Model> = SpecTrie::Extension {
                affix: rest0,
                pointer: pm,
            };
            let rest_enc0 = <Trie<K, V> as ToBytes>::spec_encoding(rest_model0);
            Trie::<K, V>::lemma_roundtrip(rest_model0, Seq::empty());
            assert(rest_enc0 + Seq::<u8>::empty() =~= rest_enc0);
            assert(child_old.model().digest() == digest_of(rest_enc0));
            assert(ma[digest_of(rest_enc0)] == rest_enc0);
            assert(mb[child_old.model().digest()] == rest_enc0);
        } else {
            assert(child_old.model().digest() == pm.digest());
        }
    }
    if mcnt > 0 {
        let front = vstd::slice::slice_to_vec(
            vstd::slice::slice_subrange(affix.as_slice(), 0, mcnt),
        );
        let ext_front: Trie<K, V> = Trie::Extension {
            affix: front,
            pointer: Pointer::NodePointer(nd),
        };
        let ghost front_model = ext_front.model();
        let ghost front_enc = <Trie<K, V> as ToBytes>::spec_encoding(front_model);
        proof {
            crate::bytesrepr::lemma_u8_models(affix0.subrange(0, mcnt as int));
            nd.lemma_len();
            assert(<Trie<K, V> as ToBytes>::spec_encodable(front_model));
        }
        let fd = match store.put(&ext_front) {
            Ok(x) => x,
            Err(e) => {
                return Err(e);
            },
        };
        let ghost mc = store@;
        proof {
            Trie::<K, V>::lemma_roundtrip(front_model, Seq::empty());
            assert(front_enc + Seq::<u8>::empty() =~= front_enc);
            assert(node_ok::<K, V>(mc, front_enc));
            lemma_store_ok_insert::<K, V>(mb, digest_of(front_enc), front_enc);
            assert(mc =~= mb.insert(digest_of(front_enc), front_enc));
            assert(extends(m0, mc));
            assert(path@.subrange(pos as int, pos + mcnt) =~= affix0.subrange(0, mcnt as int));
            lemma_lookup_extend::<K, V>(mb, mc, nd@, km, j as int);
            assert(spec_lookup::<K, V>(mc, fd@, km, pos as int) == Some(vm));
            assert(mc[d@] == m0[d@]);
            assert(mc[nd@] == branch_enc);
            assert(mc[leaf_ptr.model().digest()] == leaf_enc);
            lemma_ext_split_preserves::<K, V>(
                m0,
                mc,
                d@,
                fd@,
                nd@,
                child_old.model().digest(),
                leaf_ptr.model().digest(),
                pm,
                child_old.model(),
                leaf_ptr.model(),
                SpecPointer::Node(nd@),
                branch_slots,
                affix0,
                new_sym,
                pos as int,
                mcnt as int,
                km,
                vm,
            );
        }
        Ok(Pointer::NodePointer(fd))
    } else {
        proof {
            assert(extends(m0, mb));
            assert(mb[d@] == m0[d@]);
            assert(mb[nd@] == branch_enc);
            lemma_ext_split_preserves::<K, V>(
                m0,
                mb,
                d@,
                nd@,
                nd@,
                child_old.model().digest(),
                leaf_ptr.model().digest(),
                pm,
                child_old.model(),
                leaf_ptr.model(),
                SpecPointer::Node(nd@),
                branch_slots,
                affix0,
                new_sym,
                pos as int,
                mcnt as int,
                km,
                vm,
            );
        }
        Ok(Pointer::NodePointer(nd))
    }
}

/// Descends through or splits the extension stored at `d`.
#[verifier::rlimit(100)]
fn insert_into_extension<K: FromBytes, V: FromBytes>(
    store: &mut TrieStore,
    d: &Digest,
    path: &Vec<u8>,
    pos: usize,
    leaf_ptr: Pointer,
    affix: Vec<u8>,
    pointer: Pointer,
    Ghost(km): Ghost<K::Model>,
    Ghost(vm): Ghost<V::Model>,
) -> (r: Result<Pointer, TrieStoreError>)
    requires
        old(store).wf(),
        insert_pre::<K, V>(old(store)@, d@, path@, pos as int, leaf_ptr.model(), km, vm),
        Trie::<K, V>::spec_from(old(store)@[d@]) == Ok::<
            (SpecTrie<K::Model, V::Model>, Seq<u8>),
            Error,
        >(
            (
                SpecTrie::Extension { affix: affix.model(), pointer: pointer.model() },
                Seq::<u8>::empty(),
            ),
        ),
    ensures
        final(store).wf(),
        insert_post::<K, V>(old(store)@, final(store)@, r, d@, km, vm, pos as int),
    decreases path@.len() - pos, 0int,
{
    let ghost m0 = store@;
    let ghost affix0 = affix@;
    proof {
        crate::bytesrepr::lemma_u8_models(affix@);
        Trie::<K, V>::lemma_parse_encoding(m0[d@]);
        assert(affix@.len() > 0);
        assert(affix0.len() <= u32::MAX);
    }
    let avail = path.len() - pos;
    let cap = if affix.len() < avail {
        affix.len()
    } else {
        avail
    };
    let mut mcnt: usize = 0;
    while mcnt < cap && affix[mcnt] == path[pos + mcnt]
        invariant
            mcnt <= cap,
            pos <= path@.len(),
            path@.len() <= usize::MAX,
            cap <= affix@.len(),
            pos + cap <= path@.len(),
            forall|i: int| 0 <= i < mcnt ==> affix@[i] == path@[pos + i],
        decreases cap - mcnt,
    {
        mcnt = mcnt + 1;
    }
    if mcnt == affix.len() {
        // The whole affix matches: descend and rebuild this extension.
        let child = pointer.into_digest();
        let sub = match insert_at::<K, V>(
            store,
            &child,
            path,
            pos + mcnt,
            leaf_ptr,
            Ghost(km),
            Ghost(vm),
        ) {
            Ok(p) => p,
            Err(e) => {
                proof {
                    assert(path@.subrange(pos as int, pos + mcnt) =~= affix@);
                    assert(descent_clean::<K, V>(m0, d@, km, pos as int) == descent_clean::<K, V>(
                        m0,
                        child@,
                        km,
                        pos + mcnt,
                    ));
                }
                return Err(e);
            },
        };
        let ghost m1 = store@;
        let ext2: Trie<K, V> = Trie::Extension { affix, pointer: sub };
        let ghost ext_model = ext2.model();
        let ghost ext_enc = <Trie<K, V> as ToBytes>::spec_encoding(ext_model);
        proof {
            sub.lemma_digest_len();
            assert(<Trie<K, V> as ToBytes>::spec_encodable(ext_model));
        }
        let ed = match store.put(&ext2) {
            Ok(x) => x,
            Err(e) => {
                return Err(e);
            },
        };
        let ghost m2 = store@;
        proof {
            Trie::<K, V>::lemma_roundtrip(ext_model, Seq::empty());
            assert(ext_enc + Seq::<u8>::empty() =~= ext_enc);
            assert(node_ok::<K, V>(m2, ext_enc));
            lemma_store_ok_insert::<K, V>(m1, digest_of(ext_enc), ext_enc);
            assert(m2 =~= m1.insert(digest_of(ext_enc), ext_enc));
            assert(extends(m0, m2));
            lemma_lookup_extend::<K, V>(m1, m2, sub.model().digest(), km, pos + mcnt);
            assert(path@.subrange(pos as int, pos + mcnt) =~= affix@);
            assert(spec_lookup::<K, V>(m2, ed@, km, pos as int) == Some(vm));
            assert(m2[d@] == m0[d@]);
            let alen = affix0.len() as int;
            assert forall|km2: K::Model| km2 != km implies spec_lookup::<K, V>(
                m2,
                ed@,
                km2,
                pos as int,
            ) == spec_lookup::<K, V>(m0, d@, km2, pos as int) by {
                let path2 = K::spec_encoding(km2);
                if pos + alen <= path2.len() && path2.subrange(pos as int, pos + alen)
                    == affix0 {
                    lemma_lookup_extend::<K, V>(m1, m2, sub.model().digest(), km2, pos + alen);
                    assert(spec_lookup::<K, V>(m1, sub.model().digest(), km2, pos + alen)
                        == spec_lookup::<K, V>(m0, child@, km2, pos + alen));
                } else {
                    assert(spec_lookup::<K, V>(m2, ed@, km2, pos as int) is None);
                    assert(spec_lookup::<K, V>(m0, d@, km2, pos as int) is None);
                }
            }
        }
        Ok(Pointer::NodePointer(ed))
    } else if mcnt == cap {
        // The path ends inside the affix: structurally impossible for
        // prefix-free keys, so report corruption.
        proof {
            assert(cap == path@.len() - pos);
            assert(path@.subrange(pos as int, path@.len() as int) =~= affix0.subrange(
                0,
                path@.len() - pos,
            ));
            assert(!descent_clean::<K, V>(m0, d@, km, pos as int));
        }
        return Err(TrieStoreError::Corruption);
    } else {
        split_extension::<K, V>(
            store,
            d,
            path,
            pos,
            mcnt,
            leaf_ptr,
            affix,
            pointer,
            Ghost(km),
            Ghost(vm),
        )
    }
}

/// Fills or redirects one slot of the branch stored at `d`.
#[verifier::rlimit(100)]
fn insert_into_node<K: FromBytes, V: FromBytes>(
    store: &mut TrieStore,
    d: &Digest,
    path: &Vec<u8>,
    pos: usize,
    leaf_ptr: Pointer,
    pointer_block: PointerBlock,
    Ghost(km): Ghost<K::Model>,
    Ghost(vm): Ghost<V::Model>,
) -> (r: Result<Pointer, TrieStoreError>)
    requires
        old(store).wf(),
        insert_pre::<K, V>(old(store)@, d@, path@, pos as int, leaf_ptr.model(), km, vm),
        Trie::<K, V>::spec_from(old(store)@[d@]) == Ok::<
            (SpecTrie<K::Model, V::Model>, Seq<u8>),
            Error,
        >((SpecTrie::Node { slots: pointer_block.model() }, Seq::<u8>::empty()),),
    ensures
        final(store).wf(),
        insert_post::<K, V>(old(store)@, final(store)@, r, d@, km, vm, pos as int),
    decreases path@.len() - pos, 0int,
{
    let ghost m0 = store@;
    let ghost leaf_enc = leaf_encoding::<K, V>(km, vm);
    let ghost slots0 = pointer_block.model();
    if pos >= path.len() {
        // The path is exhausted at a branch: structurally impossible for
        // prefix-free keys, so report corruption.
        return Err(TrieStoreError::Corruption);
    }
    let sym = path[pos];
    proof {
        pointer_block.lemma_wf();
    }
    let mut pb = pointer_block;
    match pb.get_slot(sym) {
        None => {
            pb.set_slot(sym, Some(leaf_ptr));
            let branch: Trie<K, V> = Trie::Node { pointer_block: pb };
            let ghost branch_model = branch.model();
            let ghost branch_enc = <Trie<K, V> as ToBytes>::spec_encoding(branch_model);
            proof {
                Trie::<K, V>::lemma_parse_encoding(m0[d@]);
                leaf_ptr.lemma_digest_len();
                assert(<Trie<K, V> as ToBytes>::spec_encodable(branch_model));
            }
            let nd = match store.put(&branch) {
                Ok(x) => x,
                Err(e) => {
                    return Err(e);
                },
            };
            let ghost m1 = store@;
            proof {
                Trie::<K, V>::lemma_roundtrip(branch_model, Seq::empty());
                assert(branch_enc + Seq::<u8>::empty() =~= branch_enc);
                assert(node_ok::<K, V>(m1, branch_enc));
                lemma_store_ok_insert::<K, V>(m0, digest_of(branch_enc), branch_enc);
                assert(m1 =~= m0.insert(digest_of(branch_enc), branch_enc));
                Trie::<K, V>::lemma_roundtrip(SpecTrie::Leaf { key: km, value: vm }, Seq::empty());
                assert(leaf_enc + Seq::<u8>::empty() =~= leaf_enc);
                assert(m1[leaf_ptr.model().digest()] == leaf_enc);
                assert(spec_lookup::<K, V>(m1, leaf_ptr.model().digest(), km, pos + 1) == Some(
                    vm,
                ));
                assert(spec_lookup::<K, V>(m1, nd@, km, pos as int) == Some(vm));
                assert(m1[d@] == m0[d@]);
                assert forall|km2: K::Model| km2 != km implies spec_lookup::<K, V>(
                    m1,
                    nd@,
                    km2,
                    pos as int,
                ) == spec_lookup::<K, V>(m0, d@, km2, pos as int) by {
                    let path2 = K::spec_encoding(km2);
                    if 0 <= pos < path2.len() {
                        let sym2 = path2[pos as int];
                        if sym2 == sym {
                            assert(spec_lookup::<K, V>(
                                m1,
                                leaf_ptr.model().digest(),
                                km2,
                                pos + 1,
                            ) is None);
                        } else {
                            match slots0[sym2 as int] {
                                Some(q) => {
                                    lemma_lookup_extend::<K, V>(m0, m1, q.digest(), km2, pos + 1);
                                },
                                None => {},
                            }
                        }
                    }
                }
            }
            Ok(Pointer::NodePointer(nd))
        },
        Some(p) => {
            let child = p.into_digest();
            let sub = match insert_at::<K, V>(
                store,
                &child,
                path,
                pos + 1,
                leaf_ptr,
                Ghost(km),
                Ghost(vm),
            ) {
                Ok(q) => q,
                Err(e) => {
                    return Err(e);
                },
            };
            let ghost m1 = store@;
            pb.set_slot(sym, Some(sub));
            let branch: Trie<K, V> = Trie::Node { pointer_block: pb };
            let ghost branch_model = branch.model();
            let ghost branch_enc = <Trie<K, V> as ToBytes>::spec_encoding(branch_model);
            proof {
                Trie::<K, V>::lemma_parse_encoding(m0[d@]);
                sub.lemma_digest_len();
                assert(<Trie<K, V> as ToBytes>::spec_encodable(branch_model));
            }
            let nd = match store.put(&branch) {
                Ok(x) => x,
                Err(e) => {
                    return Err(e);
                },
            };
            let ghost m2 = store@;
            proof {
                Trie::<K, V>::lemma_roundtrip(branch_model, Seq::empty());
                assert(branch_enc + Seq::<u8>::empty() =~= branch_enc);
                assert(node_ok::<K, V>(m2, branch_enc));
                lemma_store_ok_insert::<K, V>(m1, digest_of(branch_enc), branch_enc);
                assert(m2 =~= m1.insert(digest_of(branch_enc), branch_enc));
                assert(extends(m0, m2));
                lemma_lookup_extend::<K, V>(m1, m2, sub.model().digest(), km, pos + 1);
                assert(spec_lookup::<K, V>(m2, nd@, km, pos as int) == Some(vm));
                assert(m2[d@] == m0[d@]);
                assert forall|km2: K::Model| km2 != km implies spec_lookup::<K, V>(
                    m2,
                    nd@,
                    km2,
                    pos as int,
                ) == spec_lookup::<K, V>(m0, d@, km2, pos as int) by {
                    let path2 = K::spec_encoding(km2);
                    if 0 <= pos < path2.len() {
                        let sym2 = path2[pos as int];
                        if sym2 == sym {
                            lemma_lookup_extend::<K, V>(m1, m2, sub.model().digest(), km2, pos
                                + 1);
                            assert(spec_lookup::<K, V>(m1, sub.model().digest(), km2, pos + 1)
                                == spec_lookup::<K, V>(m0, child@, km2, pos + 1));
                        } else {
                            match slots0[sym2 as int] {
                                Some(q) => {
                                    lemma_lookup_extend::<K, V>(m0, m2, q.digest(), km2, pos + 1);
                                },
                                None => {},
                            }
                        }
                    }
                }
            }
            Ok(Pointer::NodePointer(nd))
        },
    }
}

/// Inserts the already-stored leaf for `km` into the subtrie rooted at `d`,
/// which sits `pos` bytes deep along the key's path.  Returns the pointer to
/// the freshly written replacement subtrie, which binds `km` to `vm` and
/// leaves every other key undisturbed.
fn insert_at<K: FromBytes, V: FromBytes>(
    store: &mut TrieStore,
    d: &Digest,
    path: &Vec<u8>,
    pos: usize,
    leaf_ptr: Pointer,
    Ghost(km): Ghost<K::Model>,
    Ghost(vm): Ghost<V::Model>,
) -> (r: Result<Pointer, TrieStoreError>)
    requires
        old(store).wf(),
        insert_pre::<K, V>(old(store)@, d@, path@, pos as int, leaf_ptr.model(), km, vm),
    ensures
        final(store).wf(),
        insert_post::<K, V>(old(store)@, final(store)@, r, d@, km, vm, pos as int),
    decreases path@.len() - pos, 1int,
{
    let ghost m0 = store@;
    let b = match store.get_bytes(d) {
        None => {
            proof {
                assert(false);
            }
            return Err(TrieStoreError::Corruption);
        },
        Some(b) => b,
    };
    let (node, rest) = match Trie::<K, V>::from_bytes(b.as_slice()) {
        Ok(p) => p,
        Err(_) => {
            proof {
                assert(false);
            }
            return Err(TrieStoreError::Corruption);
        },
    };
    if rest.len() != 0 {
        proof {
            assert(false);
        }
        return Err(TrieStoreError::Corruption);
    }
    proof {
        assert(rest@ =~= Seq::<u8>::empty());
    }
    match node {
        Trie::Leaf { key: leaf_key, value: leaf_value } => {
            let ghost lv = leaf_value.model();
            insert_into_leaf::<K, V>(
                store,
                d,
                path,
                pos,
                leaf_ptr,
                leaf_key,
                Ghost(km),
                Ghost(vm),
                Ghost(lv),
            )
        },
        Trie::Extension { affix, pointer } => {
            insert_into_extension::<K, V>(
                store,
                d,
                path,
                pos,
                leaf_ptr,
                affix,
                pointer,
                Ghost(km),
                Ghost(vm),
            )
        },
        Trie::Node { pointer_block } => {
            insert_into_node::<K, V>(
                store,
                d,
                path,
                pos,
                leaf_ptr,
                pointer_block,
                Ghost(km),
                Ghost(vm),
            )
        },
    }
}

/// Binds `key` to `value` in the trie rooted at `root`, writing fresh nodes
/// bottom-up along the key's path, and returns the digest of the new root.
/// Old nodes are left untouched, so the old root still answers exactly as
/// before, and below the new root every key other than `key` reads exactly
/// as it did below `root`.  Failure is owed only to a store that cannot hold
/// the result: it requires either two distinct byte strings sharing a digest
/// or a node met out of place on the key's path, both reported as
/// corruption.
pub fn write<K: FromBytes, V: FromBytes>(
    store: &mut TrieStore,
    root: &Digest,
    key: &K,
    value: &V,
) -> (r: Result<Digest, TrieStoreError>)
    requires
        old(store).wf(),
        store_ok::<K, V>(old(store)@),
        old(store)@.contains_key(root@),
        K::spec_encodable(key.model()),
        V::spec_encodable(value.model()),
        K::spec_encoding(key.model()).len() <= u32::MAX,
    ensures
        final(store).wf(),
        store_ok::<K, V>(final(store)@),
        extends(old(store)@, final(store)@),
        (match r {
            Ok(d) => {
                &&& final(store)@.contains_key(d@)
                &&& spec_lookup::<K, V>(final(store)@, d@, key.model(), 0) == Some(value.model())
                &&& (forall|km2: K::Model|
                    km2 != key.model() ==> spec_lookup::<K, V>(final(store)@, d@, km2, 0)
                        == spec_lookup::<K, V>(old(store)@, root@, km2, 0))
                &&& (match Trie::<K, V>::spec_from(old(store)@[root@]) {
                    Ok((node, rem)) => (match node {
                        SpecTrie::Node { slots } => (rem.len() == 0 && K::spec_encoding(
                            key.model(),
                        ).len() > 0 && slots[K::spec_encoding(key.model())[0] as int] is None)
                            ==> branch_filled::<K, V>(
                            final(store)@,
                            d@,
                            slots,
                            K::spec_encoding(key.model())[0],
                            key.model(),
                            value.model(),
                        ),
                        _ => true,
                    }),
                    Err(_) => true,
                })
            },
            Err(e) => e == TrieStoreError::Corruption && (collision_exists()
                || !descent_clean::<K, V>(old(store)@, root@, key.model(), 0)),
        }),
{
    let ghost m0 = store@;
    let ghost km = key.model();
    let ghost vm = value.model();
    let path = match serialize(key) {
        Ok(p) => p,
        Err(e) => {
            proof {
                assert(false);
            }
            return Err(TrieStoreError::Serialization(e));
        },
    };
    let ghost leaf_model: SpecTrie<K::Model, V::Model> = SpecTrie::Leaf { key: km, value: vm };
    let ghost leaf_enc = <Trie<K, V> as ToBytes>::spec_encoding(leaf_model);
    let mut leaf_bytes: Vec<u8> = Vec::new();
    leaf_bytes.push(crate::trie::TRIE_LEAF_TAG);
    leaf_bytes.extend_from_slice(path.as_slice());
    match value.to_bytes(&mut leaf_bytes) {
        Ok(()) => {},
        Err(e) => {
            proof {
                assert(false);
            }
            return Err(TrieStoreError::Serialization(e));
        },
    }
    proof {
        assert(leaf_bytes@ =~= leaf_enc);
    }
    let ld = match store.put_bytes(leaf_bytes) {
        Ok(x) => x,
        Err(e) => {
            proof {
                old(store).lemma_consistent();
                let stored = m0[digest_of(leaf_enc)];
                assert(digest_of(stored) == digest_of(leaf_enc) && stored != leaf_enc);
                assert(collision_exists());
            }
            return Err(e);
        },
    };
    let ghost m1 = store@;
    proof {
        Trie::<K, V>::lemma_roundtrip(leaf_model, Seq::empty());
        assert(leaf_enc + Seq::<u8>::empty() =~= leaf_enc);
        assert(node_ok::<K, V>(m1, leaf_enc));
        lemma_store_ok_insert::<K, V>(m0, digest_of(leaf_enc), leaf_enc);
        assert(m1 =~= m0.insert(digest_of(leaf_enc), leaf_enc));
    }
    let leaf_ptr = Pointer::LeafPointer(ld);
    match insert_at::<K, V>(store, root, &path, 0, leaf_ptr, Ghost(km), Ghost(vm)) {
        Err(e) => {
            proof {
                lemma_descent_clean_extend::<K, V>(m0, m1, root@, km, 0);
            }
            Err(e)
        },
        Ok(p) => {
            proof {
                assert(m1[root@] == m0[root@]);
                assert forall|km2: K::Model| km2 != km implies spec_lookup::<K, V>(
                    store@,
                    p.model().digest(),
                    km2,
                    0,
                ) == spec_lookup::<K, V>(m0, root@, km2, 0) by {
                    lemma_lookup_extend::<K, V>(m0, m1, root@, km2, 0);
                }
            }
            let nd = p.into_digest();
            Ok(nd)
        },
    }
}

} // verus!
