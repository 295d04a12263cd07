//! The persistent Merkle Patricia Trie node model: `Leaf`, `Extension` and
//! `Node` (branch) variants, typed child pointers, and the fixed 256-slot
//! pointer block, together with their canonical serialization.

use crate::bytesrepr::{
    from_bytes_elems, seq_encodable, seq_models, spec_encoding_of_seq, spec_from_seq,
    to_bytes_elems, Error, FromBytes, ToBytes,
};
use crate::digest::Digest;
use vstd::prelude::*;

verus! {

/// The leading tag of a serialized `Trie::Leaf`.
pub const TRIE_LEAF_TAG: u8 = 0;

/// The leading tag of a serialized `Trie::Extension`.
pub const TRIE_EXTENSION_TAG: u8 = 1;

/// The leading tag of a serialized `Trie::Node`.
pub const TRIE_NODE_TAG: u8 = 2;

/// The leading tag of a serialized `Pointer::LeafPointer`.
pub const POINTER_LEAF_TAG: u8 = 0;

/// The leading tag of a serialized `Pointer::NodePointer`.
pub const POINTER_NODE_TAG: u8 = 1;

/// The branching factor of the trie: one pointer-block slot per possible
/// next path byte.
pub const RADIX: usize = 256;

/// A typed child pointer: the digest addresses either a `Leaf` or a non-leaf
/// node (`Extension` or `Node`), so that downstream handling can dispatch
/// without re-reading the child.
#[derive(Clone, Copy, Debug, PartialEq, Eq)]
pub enum Pointer {
    /// The digest addresses a `Leaf`.
    LeafPointer(Digest),
    /// The digest addresses an `Extension` or a `Node`.
    NodePointer(Digest),
}

/// The mathematical model of a [`Pointer`]: the same two variants over the
/// digest's bytes.
pub enum SpecPointer {
    /// Model of `Pointer::LeafPointer`.
    Leaf(Seq<u8>),
    /// Model of `Pointer::NodePointer`.
    Node(Seq<u8>),
}

impl SpecPointer {
    /// The digest bytes, whichever the variant.
    pub open spec fn digest(self) -> Seq<u8> {
        match self {
            SpecPointer::Leaf(d) => d,
            SpecPointer::Node(d) => d,
        }
    }
}

impl Pointer {
    /// A pointer's digest always holds exactly 32 bytes.
    pub proof fn lemma_digest_len(&self)
        ensures
            self.model().digest().len() == 32,
    {
        match self {
            Pointer::LeafPointer(d) => d.lemma_len(),
            Pointer::NodePointer(d) => d.lemma_len(),
        }
    }

    /// The digest this pointer holds.
    pub fn into_digest(&self) -> (d: Digest)
        ensures
            d@ == self.model().digest(),
    {
        match self {
            Pointer::LeafPointer(d) => *d,
            Pointer::NodePointer(d) => *d,
        }
    }
}

impl ToBytes for Pointer {
    type Model = SpecPointer;

    open spec fn model(&self) -> SpecPointer {
        match self {
            Pointer::LeafPointer(d) => SpecPointer::Leaf(d@),
            Pointer::NodePointer(d) => SpecPointer::Node(d@),
        }
    }

    open spec fn spec_encodable(v: SpecPointer) -> bool {
        v.digest().len() == 32
    }

    open spec fn spec_encoding(v: SpecPointer) -> Seq<u8> {
        match v {
            SpecPointer::Leaf(d) => seq![POINTER_LEAF_TAG] + d,
            SpecPointer::Node(d) => seq![POINTER_NODE_TAG] + d,
        }
    }

    fn to_bytes(&self, sink: &mut Vec<u8>) -> (r: Result<(), Error>) {
        proof {
            match self {
                Pointer::LeafPointer(d) => d.lemma_len(),
                Pointer::NodePointer(d) => d.lemma_len(),
            }
        }
        match self {
            Pointer::LeafPointer(d) => {
                sink.push(POINTER_LEAF_TAG);
                let r = d.to_bytes(sink);
                r
            },
            Pointer::NodePointer(d) => {
                sink.push(POINTER_NODE_TAG);
                let r = d.to_bytes(sink);
                r
            },
        }
    }

    fn serialized_length(&self) -> (n: usize) {
        proof {
            match self {
                Pointer::LeafPointer(d) => d.lemma_len(),
                Pointer::NodePointer(d) => d.lemma_len(),
            }
        }
        33
    }
}

impl FromBytes for Pointer {
    open spec fn spec_from(bytes: Seq<u8>) -> Result<(SpecPointer, Seq<u8>), Error> {
        if bytes.len() < 1 {
            Err(Error::EarlyEndOfStream)
        } else if bytes[0] == POINTER_LEAF_TAG {
            match <Digest as FromBytes>::spec_from(bytes.skip(1)) {
                Ok((d, rem)) => Ok((SpecPointer::Leaf(d), rem)),
                Err(e) => Err(e),
            }
        } else if bytes[0] == POINTER_NODE_TAG {
            match <Digest as FromBytes>::spec_from(bytes.skip(1)) {
                Ok((d, rem)) => Ok((SpecPointer::Node(d), rem)),
                Err(e) => Err(e),
            }
        } else {
            Err(Error::Formatting)
        }
    }

    fn from_bytes(bytes: &[u8]) -> (r: Result<(Pointer, &[u8]), Error>) {
        if bytes.len() < 1 {
            Err(Error::EarlyEndOfStream)
        } else {
            let tag = bytes[0];
            let rest = vstd::slice::slice_subrange(bytes, 1, bytes.len());
            assert(rest@ == bytes@.skip(1));
            if tag == POINTER_LEAF_TAG {
                match Digest::from_bytes(rest) {
                    Ok((d, rem)) => Ok((Pointer::LeafPointer(d), rem)),
                    Err(e) => Err(e),
                }
            } else if tag == POINTER_NODE_TAG {
                match Digest::from_bytes(rest) {
                    Ok((d, rem)) => Ok((Pointer::NodePointer(d), rem)),
                    Err(e) => Err(e),
                }
            } else {
                Err(Error::Formatting)
            }
        }
    }

    proof fn lemma_roundtrip(v: SpecPointer, suffix: Seq<u8>) {
        let bytes = Self::spec_encoding(v) + suffix;
        assert(bytes.skip(1) =~= v.digest() + suffix);
        <Digest as FromBytes>::lemma_roundtrip(v.digest(), suffix);
        match v {
            SpecPointer::Leaf(d) => {
                assert(bytes[0] == POINTER_LEAF_TAG);
            },
            SpecPointer::Node(d) => {
                assert(bytes[0] == POINTER_NODE_TAG);
            },
        }
    }

    proof fn lemma_parse_encoding(bytes: Seq<u8>) {
        if bytes.len() >= 1 && (bytes[0] == POINTER_LEAF_TAG || bytes[0] == POINTER_NODE_TAG) {
            <Digest as FromBytes>::lemma_parse_encoding(bytes.skip(1));
            if let Ok((d, rem)) = <Digest as FromBytes>::spec_from(bytes.skip(1)) {
                assert((seq![bytes[0]] + d) + rem =~= seq![bytes[0]] + (d + rem));
                assert(seq![bytes[0]] + bytes.skip(1) =~= bytes);
            }
        }
    }
}

/// The number of occupied slots in a pointer-block model.
pub open spec fn num_occupied(s: Seq<Option<SpecPointer>>) -> nat
    decreases s.len(),
{
    if s.len() == 0 {
        0
    } else {
        num_occupied(s.drop_last()) + (if s.last() is Some {
            1nat
        } else {
            0nat
        })
    }
}

/// Replacing one slot changes the occupied count by exactly the difference
/// between the new and old occupancy of that slot: filling an empty slot
/// raises the count by one, emptying an occupied one lowers it by one.
pub proof fn lemma_num_occupied_update(s: Seq<Option<SpecPointer>>, i: int, v: Option<SpecPointer>)
    requires
        0 <= i < s.len(),
    ensures
        num_occupied(s.update(i, v)) + (if s[i] is Some {
            1nat
        } else {
            0nat
        }) == num_occupied(s) + (if v is Some {
            1nat
        } else {
            0nat
        }),
    decreases s.len(),
{
    let s2 = s.update(i, v);
    if i == s.len() - 1 {
        assert(s2.drop_last() =~= s.drop_last());
        assert(s2.last() == v);
    } else {
        assert(s2.drop_last() =~= s.drop_last().update(i, v));
        assert(s2.last() == s.last());
        lemma_num_occupied_update(s.drop_last(), i, v);
    }
}

/// A branch node's fixed-size sparse array of child pointers: one slot for
/// each possible next path byte, each slot either empty or a typed pointer.
#[derive(Debug, PartialEq, Eq)]
pub struct PointerBlock {
    slots: Vec<Option<Pointer>>,
}

impl PointerBlock {
    /// Structural invariant: exactly [`RADIX`] slots.
    pub closed spec fn wf(&self) -> bool {
        self.slots@.len() == RADIX
    }

    /// The structural invariant is visible on the model: exactly [`RADIX`]
    /// slots.
    pub proof fn lemma_wf(&self)
        ensures
            self.wf() <==> self.model().len() == RADIX,
    {
    }

    /// A pointer block with every slot empty.
    pub fn new() -> (r: PointerBlock)
        ensures
            r.wf(),
            r.model() =~= Seq::new(RADIX as nat, |i: int| None::<SpecPointer>),
    {
        let mut slots: Vec<Option<Pointer>> = Vec::new();
        let mut i: usize = 0;
        while i < RADIX
            invariant
                i <= RADIX,
                slots@.len() == i,
                forall|j: int| 0 <= j < i ==> slots@[j] is None,
            decreases RADIX - i,
        {
            slots.push(None);
            i = i + 1;
        }
        let r = PointerBlock { slots };
        proof {
            assert forall|j: int| 0 <= j < RADIX implies r.model()[j] is None by {
                assert(r.slots@[j] is None);
            }
            assert(r.model() =~= Seq::new(RADIX as nat, |i: int| None::<SpecPointer>));
        }
        r
    }

    /// The slot for path byte `index`.
    pub fn get_slot(&self, index: u8) -> (r: Option<Pointer>)
        requires
            self.wf(),
        ensures
            r.model() == self.model()[index as int],
    {
        self.slots[index as usize]
    }

    /// Replaces the slot for path byte `index`.
    pub fn set_slot(&mut self, index: u8, p: Option<Pointer>)
        requires
            old(self).wf(),
        ensures
            final(self).wf(),
            final(self).model() =~= old(self).model().update(index as int, p.model()),
    {
        self.slots[index as usize] = p;
        proof {
            assert(self.model() =~= old(self).model().update(index as int, p.model()));
        }
    }

    /// How many slots are occupied.
    pub fn occupied_count(&self) -> (n: usize)
        requires
            self.wf(),
        ensures
            n == num_occupied(self.model()),
    {
        let ghost m = self.model();
        let mut n: usize = 0;
        let mut i: usize = 0;
        while i < RADIX
            invariant
                i <= RADIX,
                m == self.model(),
                self.wf(),
                n <= i,
                n == num_occupied(m.take(i as int)),
            decreases RADIX - i,
        {
            proof {
                assert(m.take(i + 1).drop_last() =~= m.take(i as int));
                assert(m.take(i + 1).last() == m[i as int]);
            }
            if self.slots[i].is_some() {
                n = n + 1;
            }
            proof {
                assert(m[i as int] == self.slots@[i as int].model());
            }
            i = i + 1;
        }
        proof {
            assert(m.take(RADIX as int) =~= m);
        }
        n
    }
}

impl ToBytes for PointerBlock {
    type Model = Seq<Option<SpecPointer>>;

    closed spec fn model(&self) -> Seq<Option<SpecPointer>> {
        seq_models::<Option<Pointer>>(self.slots@)
    }

    open spec fn spec_encodable(v: Seq<Option<SpecPointer>>) -> bool {
        v.len() == RADIX && seq_encodable::<Option<Pointer>>(v)
    }

    open spec fn spec_encoding(v: Seq<Option<SpecPointer>>) -> Seq<u8> {
        spec_encoding_of_seq::<Option<Pointer>>(v)
    }

    fn to_bytes(&self, sink: &mut Vec<u8>) -> (r: Result<(), Error>) {
        if self.slots.len() != RADIX {
            return Err(Error::Formatting);
        }
        to_bytes_elems::<Option<Pointer>>(&self.slots, sink)
    }

    fn serialized_length(&self) -> (n: usize) {
        let ghost m = self.model();
        let mut n: usize = 0;
        let mut i: usize = 0;
        while i < self.slots.len()
            invariant
                i <= self.slots@.len(),
                m == self.model(),
                Self::spec_encoding(m).len() <= usize::MAX,
                n == spec_encoding_of_seq::<Option<Pointer>>(m.take(i as int)).len(),
            decreases self.slots@.len() - i,
        {
            let elem = &self.slots[i];
            assert(elem.model() == m[i as int]);
            proof {
                crate::bytesrepr::lemma_encoding_of_seq_snoc::<Option<Pointer>>(
                    m.take(i as int),
                    m[i as int],
                );
                assert(m.take(i + 1) =~= m.take(i as int).push(m[i as int]));
                crate::bytesrepr::lemma_encoding_of_seq_append::<Option<Pointer>>(
                    m.take(i + 1),
                    m.skip(i + 1),
                );
                assert(m.take(i + 1) + m.skip(i + 1) =~= m);
            }
            let elem_len = elem.serialized_length();
            n = n + elem_len;
            i = i + 1;
        }
        proof {
            assert(m.take(self.slots@.len() as int) =~= m);
        }
        n
    }
}

impl FromBytes for PointerBlock {
    open spec fn spec_from(bytes: Seq<u8>) -> Result<(Seq<Option<SpecPointer>>, Seq<u8>), Error> {
        spec_from_seq::<Option<Pointer>>(bytes, RADIX as nat)
    }

    fn from_bytes(bytes: &[u8]) -> (r: Result<(PointerBlock, &[u8]), Error>) {
        match from_bytes_elems::<Option<Pointer>>(bytes, RADIX as u32) {
            Ok((slots, rest)) => Ok((PointerBlock { slots }, rest)),
            Err(e) => Err(e),
        }
    }

    proof fn lemma_roundtrip(v: Seq<Option<SpecPointer>>, suffix: Seq<u8>) {
        crate::bytesrepr::lemma_from_seq_roundtrip::<Option<Pointer>>(v, suffix);
    }

    proof fn lemma_parse_encoding(bytes: Seq<u8>) {
        crate::bytesrepr::lemma_from_seq_parse_encoding::<Option<Pointer>>(bytes, RADIX as nat);
    }
}

/// One node of the persistent trie.
#[derive(Debug, PartialEq, Eq)]
pub enum Trie<K, V> {
    /// Terminal node binding one key to one value.
    Leaf {
        /// The full key this leaf binds.
        key: K,
        /// The bound value.
        value: V,
    },
    /// Path-compression node: one child reached after consuming a shared
    /// run of path bytes.  The affix is never empty in a well-formed trie.
    Extension {
        /// The shared run of path bytes.
        affix: Vec<u8>,
        /// The single child.
        pointer: Pointer,
    },
    /// A branch with up to [`RADIX`] children, one slot per next path byte.
    Node {
        /// The child slots.
        pointer_block: PointerBlock,
    },
}

/// The mathematical model of a [`Trie`] node.
pub enum SpecTrie<KM, VM> {
    /// Model of `Trie::Leaf`.
    Leaf {
        /// Model of the key.
        key: KM,
        /// Model of the value.
        value: VM,
    },
    /// Model of `Trie::Extension`.
    Extension {
        /// The shared run of path bytes.
        affix: Seq<u8>,
        /// Model of the single child pointer.
        pointer: SpecPointer,
    },
    /// Model of `Trie::Node`.
    Node {
        /// The child slots.
        slots: Seq<Option<SpecPointer>>,
    },
}

impl<K: ToBytes, V: ToBytes> ToBytes for Trie<K, V> {
    type Model = SpecTrie<K::Model, V::Model>;

    open spec fn model(&self) -> SpecTrie<K::Model, V::Model> {
        match self {
            Trie::Leaf { key, value } => SpecTrie::Leaf { key: key.model(), value: value.model() },
            Trie::Extension { affix, pointer } => SpecTrie::Extension {
                affix: affix.model(),
                pointer: pointer.model(),
            },
            Trie::Node { pointer_block } => SpecTrie::Node { slots: pointer_block.model() },
        }
    }

    open spec fn spec_encodable(v: SpecTrie<K::Model, V::Model>) -> bool {
        match v {
            SpecTrie::Leaf { key, value } => K::spec_encodable(key) && V::spec_encodable(value),
            SpecTrie::Extension { affix, pointer } => <Vec<u8> as ToBytes>::spec_encodable(affix)
                && <Pointer as ToBytes>::spec_encodable(pointer),
            SpecTrie::Node { slots } => <PointerBlock as ToBytes>::spec_encodable(slots),
        }
    }

    open spec fn spec_encoding(v: SpecTrie<K::Model, V::Model>) -> Seq<u8> {
        match v {
            SpecTrie::Leaf { key, value } => seq![TRIE_LEAF_TAG] + K::spec_encoding(key)
                + V::spec_encoding(value),
            SpecTrie::Extension { affix, pointer } => seq![TRIE_EXTENSION_TAG] + <Vec<
                u8,
            > as ToBytes>::spec_encoding(affix) + <Pointer as ToBytes>::spec_encoding(pointer),
            SpecTrie::Node { slots } => seq![TRIE_NODE_TAG] + <PointerBlock as ToBytes>::spec_encoding(
                slots,
            ),
        }
    }

    fn to_bytes(&self, sink: &mut Vec<u8>) -> (r: Result<(), Error>) {
        match self {
            Trie::Leaf { key, value } => {
                let mut tmp: Vec<u8> = Vec::new();
                match key.to_bytes(&mut tmp) {
                    Ok(()) => {},
                    Err(e) => {
                        return Err(e);
                    },
                }
                match value.to_bytes(&mut tmp) {
                    Ok(()) => {},
                    Err(e) => {
                        return Err(e);
                    },
                }
                sink.push(TRIE_LEAF_TAG);
                sink.append(&mut tmp);
                Ok(())
            },
            Trie::Extension { affix, pointer } => {
                let mut tmp: Vec<u8> = Vec::new();
                match affix.to_bytes(&mut tmp) {
                    Ok(()) => {},
                    Err(e) => {
                        return Err(e);
                    },
                }
                match pointer.to_bytes(&mut tmp) {
                    Ok(()) => {},
                    Err(e) => {
                        return Err(e);
                    },
                }
                sink.push(TRIE_EXTENSION_TAG);
                sink.append(&mut tmp);
                Ok(())
            },
            Trie::Node { pointer_block } => {
                let mut tmp: Vec<u8> = Vec::new();
                match pointer_block.to_bytes(&mut tmp) {
                    Ok(()) => {},
                    Err(e) => {
                        return Err(e);
                    },
                }
                sink.push(TRIE_NODE_TAG);
                sink.append(&mut tmp);
                Ok(())
            },
        }
    }

    fn serialized_length(&self) -> (n: usize) {
        match self {
            Trie::Leaf { key, value } => {
                let nk = key.serialized_length();
                let nv = value.serialized_length();
                1 + nk + nv
            },
            Trie::Extension { affix, pointer } => {
                let na = affix.serialized_length();
                let np = pointer.serialized_length();
                1 + na + np
            },
            Trie::Node { pointer_block } => {
                let nb = pointer_block.serialized_length();
                1 + nb
            },
        }
    }
}

impl<K: FromBytes, V: FromBytes> FromBytes for Trie<K, V> {
    open spec fn spec_from(bytes: Seq<u8>) -> Result<
        (SpecTrie<K::Model, V::Model>, Seq<u8>),
        Error,
    > {
        if bytes.len() < 1 {
            Err(Error::EarlyEndOfStream)
        } else if bytes[0] == TRIE_LEAF_TAG {
            match K::spec_from(bytes.skip(1)) {
                Ok((key, r1)) => match V::spec_from(r1) {
                    Ok((value, r2)) => Ok((SpecTrie::Leaf { key, value }, r2)),
                    Err(e) => Err(e),
                },
                Err(e) => Err(e),
            }
        } else if bytes[0] == TRIE_EXTENSION_TAG {
            match <Vec<u8> as FromBytes>::spec_from(bytes.skip(1)) {
                Ok((affix, r1)) => match <Pointer as FromBytes>::spec_from(r1) {
                    Ok((pointer, r2)) => Ok((SpecTrie::Extension { affix, pointer }, r2)),
                    Err(e) => Err(e),
                },
                Err(e) => Err(e),
            }
        } else if bytes[0] == TRIE_NODE_TAG {
            match <PointerBlock as FromBytes>::spec_from(bytes.skip(1)) {
                Ok((slots, r1)) => Ok((SpecTrie::Node { slots }, r1)),
                Err(e) => Err(e),
            }
        } else {
            Err(Error::Formatting)
        }
    }

    fn from_bytes(bytes: &[u8]) -> (r: Result<(Trie<K, V>, &[u8]), Error>) {
        if bytes.len() < 1 {
            Err(Error::EarlyEndOfStream)
        } else {
            let tag = bytes[0];
            let rest = vstd::slice::slice_subrange(bytes, 1, bytes.len());
            assert(rest@ == bytes@.skip(1));
            if tag == TRIE_LEAF_TAG {
                match K::from_bytes(rest) {
                    Ok((key, r1)) => match V::from_bytes(r1) {
                        Ok((value, r2)) => Ok((Trie::Leaf { key, value }, r2)),
                        Err(e) => Err(e),
                    },
                    Err(e) => Err(e),
                }
            } else if tag == TRIE_EXTENSION_TAG {
                match <Vec<u8>>::from_bytes(rest) {
                    Ok((affix, r1)) => match Pointer::from_bytes(r1) {
                        Ok((pointer, r2)) => Ok((Trie::Extension { affix, pointer }, r2)),
                        Err(e) => Err(e),
                    },
                    Err(e) => Err(e),
                }
            } else if tag == TRIE_NODE_TAG {
                match PointerBlock::from_bytes(rest) {
                    Ok((pointer_block, r1)) => Ok((Trie::Node { pointer_block }, r1)),
                    Err(e) => Err(e),
                }
            } else {
                Err(Error::Formatting)
            }
        }
    }

    proof fn lemma_roundtrip(v: SpecTrie<K::Model, V::Model>, suffix: Seq<u8>) {
        let bytes = Self::spec_encoding(v) + suffix;
        match v {
            SpecTrie::Leaf { key, value } => {
                assert(bytes[0] == TRIE_LEAF_TAG);
                assert(bytes.skip(1) =~= K::spec_encoding(key) + (V::spec_encoding(value)
                    + suffix));
                K::lemma_roundtrip(key, V::spec_encoding(value) + suffix);
                V::lemma_roundtrip(value, suffix);
            },
            SpecTrie::Extension { affix, pointer } => {
                assert(bytes[0] == TRIE_EXTENSION_TAG);
                let ea = <Vec<u8> as ToBytes>::spec_encoding(affix);
                let ep = <Pointer as ToBytes>::spec_encoding(pointer);
                assert(bytes.skip(1) =~= ea + (ep + suffix));
                <Vec<u8> as FromBytes>::lemma_roundtrip(affix, ep + suffix);
                <Pointer as FromBytes>::lemma_roundtrip(pointer, suffix);
            },
            SpecTrie::Node { slots } => {
                assert(bytes[0] == TRIE_NODE_TAG);
                assert(bytes.skip(1) =~= <PointerBlock as ToBytes>::spec_encoding(slots) + suffix);
                <PointerBlock as FromBytes>::lemma_roundtrip(slots, suffix);
            },
        }
    }

    proof fn lemma_parse_encoding(bytes: Seq<u8>) {
        if bytes.len() >= 1 {
            if bytes[0] == TRIE_LEAF_TAG {
                K::lemma_parse_encoding(bytes.skip(1));
                if let Ok((key, r1)) = K::spec_from(bytes.skip(1)) {
                    V::lemma_parse_encoding(r1);
                    if let Ok((value, r2)) = V::spec_from(r1) {
                        assert((seq![TRIE_LEAF_TAG] + K::spec_encoding(key) + V::spec_encoding(
                            value,
                        )) + r2 =~= seq![TRIE_LEAF_TAG] + (K::spec_encoding(key) + (
                        V::spec_encoding(value) + r2)));
                        assert(seq![TRIE_LEAF_TAG] + bytes.skip(1) =~= bytes);
                    }
                }
            } else if bytes[0] == TRIE_EXTENSION_TAG {
                <Vec<u8> as FromBytes>::lemma_parse_encoding(bytes.skip(1));
                if let Ok((affix, r1)) = <Vec<u8> as FromBytes>::spec_from(bytes.skip(1)) {
                    <Pointer as FromBytes>::lemma_parse_encoding(r1);
                    if let Ok((pointer, r2)) = <Pointer as FromBytes>::spec_from(r1) {
                        let ea = <Vec<u8> as ToBytes>::spec_encoding(affix);
                        let ep = <Pointer as ToBytes>::spec_encoding(pointer);
                        assert((seq![TRIE_EXTENSION_TAG] + ea + ep) + r2 =~= seq![
                            TRIE_EXTENSION_TAG,
                        ] + (ea + (ep + r2)));
                        assert(seq![TRIE_EXTENSION_TAG] + bytes.skip(1) =~= bytes);
                    }
                }
            } else if bytes[0] == TRIE_NODE_TAG {
                <PointerBlock as FromBytes>::lemma_parse_encoding(bytes.skip(1));
                if let Ok((slots, r1)) = <PointerBlock as FromBytes>::spec_from(bytes.skip(1)) {
                    let eb = <PointerBlock as ToBytes>::spec_encoding(slots);
                    assert((seq![TRIE_NODE_TAG] + eb) + r1 =~= seq![TRIE_NODE_TAG] + (eb + r1));
                    assert(seq![TRIE_NODE_TAG] + bytes.skip(1) =~= bytes);
                }
            }
        }
    }
}

} // verus!
