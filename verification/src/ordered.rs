//! Ordered associative collections with a canonical serialization: entries
//! are kept strictly sorted by the lexicographic order of their keys'
//! canonical bytes, so every map or set has exactly one wire form, and the
//! decoder rejects any other order as non-canonical.

use crate::bytesrepr::{seq_models, serialize, Error, FromBytes, ToBytes};
use vstd::prelude::*;

verus! {

/// Strict lexicographic order on byte sequences: the first differing byte
/// decides, and a proper prefix comes first.
pub open spec fn bytes_lt(a: Seq<u8>, b: Seq<u8>) -> bool
    decreases a.len(),
{
    if b.len() == 0 {
        false
    } else if a.len() == 0 {
        true
    } else if a[0] < b[0] {
        true
    } else if a[0] > b[0] {
        false
    } else {
        bytes_lt(a.skip(1), b.skip(1))
    }
}

/// Skipping a common prefix does not change the order.
pub proof fn lemma_bytes_lt_skip(a: Seq<u8>, b: Seq<u8>, i: int)
    requires
        0 <= i <= a.len(),
        i <= b.len(),
        forall|k: int| 0 <= k < i ==> a[k] == b[k],
    ensures
        bytes_lt(a, b) == bytes_lt(a.skip(i), b.skip(i)),
    decreases i,
{
    if i > 0 {
        assert(a.len() > 0 && b.len() > 0 && a[0] == b[0]);
        assert(forall|k: int| 0 <= k < i - 1 ==> a.skip(1)[k] == b.skip(1)[k]);
        lemma_bytes_lt_skip(a.skip(1), b.skip(1), i - 1);
        assert(a.skip(1).skip(i - 1) =~= a.skip(i));
        assert(b.skip(1).skip(i - 1) =~= b.skip(i));
    } else {
        assert(a.skip(0) =~= a);
        assert(b.skip(0) =~= b);
    }
}

/// The order is trichotomous: two distinct sequences compare one way or the
/// other.
pub proof fn lemma_bytes_lt_trichotomy(a: Seq<u8>, b: Seq<u8>)
    requires
        a != b,
    ensures
        bytes_lt(a, b) || bytes_lt(b, a),
    decreases a.len(),
{
    if a.len() > 0 && b.len() > 0 && a[0] == b[0] {
        if a.skip(1) == b.skip(1) {
            assert(a =~= seq![a[0]] + a.skip(1));
            assert(b =~= seq![b[0]] + b.skip(1));
            assert(false);
        }
        lemma_bytes_lt_trichotomy(a.skip(1), b.skip(1));
    } else if a.len() == 0 {
        if b.len() == 0 {
            assert(a =~= b);
        }
    }
}

/// Compares two byte slices in the lexicographic order.
pub fn bytes_lt_exec(a: &[u8], b: &[u8]) -> (r: bool)
    ensures
        r == bytes_lt(a@, b@),
{
    let minlen = if a.len() < b.len() {
        a.len()
    } else {
        b.len()
    };
    let mut i: usize = 0;
    while i < minlen && a[i] == b[i]
        invariant
            i <= minlen,
            minlen <= a@.len(),
            minlen <= b@.len(),
            forall|k: int| 0 <= k < i ==> a@[k] == b@[k],
        decreases minlen - i,
    {
        i = i + 1;
    }
    proof {
        lemma_bytes_lt_skip(a@, b@, i as int);
    }
    if i < minlen {
        a[i] < b[i]
    } else {
        a.len() < b.len()
    }
}

/// Whether the keys of an entry sequence are strictly increasing in the
/// lexicographic order of their canonical bytes.
pub open spec fn keys_sorted<K: ToBytes, V: ToBytes>(s: Seq<(K::Model, V::Model)>) -> bool {
    forall|i: int|
        0 <= i < s.len() - 1 ==> bytes_lt(
            #[trigger] K::spec_encoding(s[i].0),
            K::spec_encoding(s[i + 1].0),
        )
}

/// The order is asymmetric (and hence irreflexive).
pub proof fn lemma_bytes_lt_asym(a: Seq<u8>, b: Seq<u8>)
    requires
        bytes_lt(a, b),
    ensures
        !bytes_lt(b, a),
    decreases a.len(),
{
    if a.len() > 0 && b.len() > 0 && a[0] == b[0] {
        lemma_bytes_lt_asym(a.skip(1), b.skip(1));
    }
}

/// The order is transitive.
pub proof fn lemma_bytes_lt_trans(a: Seq<u8>, b: Seq<u8>, c: Seq<u8>)
    requires
        bytes_lt(a, b),
        bytes_lt(b, c),
    ensures
        bytes_lt(a, c),
    decreases a.len(),
{
    if a.len() > 0 && b.len() > 0 && c.len() > 0 && a[0] == b[0] && b[0] == c[0] {
        lemma_bytes_lt_trans(a.skip(1), b.skip(1), c.skip(1));
    }
}

/// In a sorted entry sequence every earlier key comes before every later one.
pub proof fn lemma_keys_sorted_pairwise<K: ToBytes, V: ToBytes>(
    s: Seq<(K::Model, V::Model)>,
    i: int,
    j: int,
)
    requires
        keys_sorted::<K, V>(s),
        0 <= i < j < s.len(),
    ensures
        bytes_lt(K::spec_encoding(s[i].0), K::spec_encoding(s[j].0)),
    decreases j - i,
{
    if i + 1 < j {
        lemma_keys_sorted_pairwise::<K, V>(s, i + 1, j);
        lemma_bytes_lt_trans(
            K::spec_encoding(s[i].0),
            K::spec_encoding(s[i + 1].0),
            K::spec_encoding(s[j].0),
        );
    }
}

/// What an entry sequence binds a key model to: the first entry with that
/// key, if any.
pub open spec fn spec_get<K: ToBytes, V: ToBytes>(
    s: Seq<(K::Model, V::Model)>,
    km: K::Model,
) -> Option<V::Model>
    decreases s.len(),
{
    if s.len() == 0 {
        None
    } else if s[0].0 == km {
        Some(s[0].1)
    } else {
        spec_get::<K, V>(s.skip(1), km)
    }
}

/// The binding found at the first entry holding the key.
proof fn lemma_spec_get_at<K: ToBytes, V: ToBytes>(s: Seq<(K::Model, V::Model)>, km: K::Model, i: int)
    requires
        0 <= i < s.len(),
        forall|j: int| 0 <= j < i ==> (#[trigger] s[j]).0 != km,
        s[i].0 == km,
    ensures
        spec_get::<K, V>(s, km) == Some(s[i].1),
    decreases i,
{
    if i > 0 {
        assert(forall|j: int| 0 <= j < i - 1 ==> (#[trigger] s.skip(1)[j]) == s[j + 1]);
        lemma_spec_get_at::<K, V>(s.skip(1), km, i - 1);
    }
}

/// A key held by no entry is unbound.
proof fn lemma_spec_get_absent<K: ToBytes, V: ToBytes>(s: Seq<(K::Model, V::Model)>, km: K::Model)
    requires
        forall|j: int| 0 <= j < s.len() ==> (#[trigger] s[j]).0 != km,
    ensures
        spec_get::<K, V>(s, km) is None,
    decreases s.len(),
{
    if s.len() > 0 {
        assert(forall|j: int| 0 <= j < s.len() - 1 ==> (#[trigger] s.skip(1)[j]) == s[j + 1]);
        lemma_spec_get_absent::<K, V>(s.skip(1), km);
    }
}

/// The entry sequence with `km` bound to `vm`: an existing binding is
/// replaced in place, a new one is spliced in at its key-order position.
pub open spec fn spec_insert<K: ToBytes, V: ToBytes>(
    s: Seq<(K::Model, V::Model)>,
    km: K::Model,
    vm: V::Model,
) -> Seq<(K::Model, V::Model)>
    decreases s.len(),
{
    if s.len() == 0 {
        seq![(km, vm)]
    } else if bytes_lt(K::spec_encoding(s[0].0), K::spec_encoding(km)) {
        seq![s[0]] + spec_insert::<K, V>(s.skip(1), km, vm)
    } else if s[0].0 == km {
        seq![(km, vm)] + s.skip(1)
    } else {
        seq![(km, vm)] + s
    }
}

/// A map whose entries are kept strictly sorted by the lexicographic order
/// of their keys' canonical bytes; its wire form is the length-prefixed
/// entry sequence in exactly that order, and the decoder rejects any other.
#[derive(Debug, PartialEq, Eq)]
pub struct OrderedMap<K, V> {
    entries: Vec<(K, V)>,
}

impl<K: FromBytes, V: FromBytes> OrderedMap<K, V> {
    /// Structural invariant: every key is representable and the keys are
    /// strictly increasing.
    pub open spec fn wf(&self) -> bool {
        &&& keys_sorted::<K, V>(self.model())
        &&& (forall|i: int|
            0 <= i < self.model().len() ==> K::spec_encodable((#[trigger] self.model()[i]).0))
    }

    /// An empty map.
    pub fn new() -> (r: OrderedMap<K, V>)
        ensures
            r.wf(),
            r.model() =~= Seq::<(K::Model, V::Model)>::empty(),
    {
        let r = OrderedMap { entries: Vec::new() };
        proof {
            assert(r.model() =~= Seq::<(K::Model, V::Model)>::empty());
        }
        r
    }

    /// The number of entries.
    pub fn len(&self) -> (n: usize)
        ensures
            n == self.model().len(),
    {
        self.entries.len()
    }

    /// The value bound to `key`, if any.
    pub fn get(&self, key: &K) -> (r: Option<&V>)
        requires
            self.wf(),
            K::spec_encodable(key.model()),
        ensures
            (match r {
                Some(v) => spec_get::<K, V>(self.model(), key.model()) == Some(v.model()),
                None => spec_get::<K, V>(self.model(), key.model()) is None,
            }),
    {
        let ghost m = self.model();
        let ghost km = key.model();
        let key_bytes = match serialize(key) {
            Ok(b) => b,
            Err(_) => {
                proof {
                    assert(false);
                }
                return None;
            },
        };
        let mut i: usize = 0;
        while i < self.entries.len()
            invariant
                i <= m.len(),
                m == self.model(),
                self.wf(),
                km == key.model(),
                K::spec_encodable(km),
                key_bytes@ == K::spec_encoding(km),
                forall|j: int| 0 <= j < i ==> (#[trigger] m[j]).0 != km,
            decreases m.len() - i,
        {
            assert(self.entries@[i as int].model() == m[i as int]);
            let cur_bytes = match serialize(&self.entries[i].0) {
                Ok(b) => b,
                Err(_) => {
                    proof {
                        assert(false);
                    }
                    return None;
                },
            };
            if crate::store::bytes_eq(cur_bytes.as_slice(), key_bytes.as_slice()) {
                proof {
                    crate::state::lemma_key_injective::<K>(m[i as int].0, km);
                    lemma_spec_get_at::<K, V>(m, km, i as int);
                }
                return Some(&self.entries[i].1);
            }
            i = i + 1;
        }
        proof {
            lemma_spec_get_absent::<K, V>(m, km);
        }
        None
    }

    /// Binds `key` to `value`, replacing any existing binding, and returns
    /// the value previously bound, if any.
    pub fn insert(&mut self, key: K, value: V) -> (r: Option<V>)
        requires
            old(self).wf(),
            K::spec_encodable(key.model()),
        ensures
            final(self).wf(),
            final(self).model() == spec_insert::<K, V>(
                old(self).model(),
                key.model(),
                value.model(),
            ),
            (match r {
                Some(v) => spec_get::<K, V>(old(self).model(), key.model()) == Some(v.model()),
                None => spec_get::<K, V>(old(self).model(), key.model()) is None,
            }),
    {
        let ghost m = self.model();
        let ghost km = key.model();
        let ghost vm = value.model();
        let key_bytes = match serialize(&key) {
            Ok(b) => b,
            Err(_) => {
                proof {
                    assert(false);
                }
                return None;
            },
        };
        let mut i: usize = 0;
        proof {
            assert(m.take(0) =~= Seq::<(K::Model, V::Model)>::empty());
            assert(m.skip(0) =~= m);
            assert(m.take(0) + spec_insert::<K, V>(m.skip(0), km, vm) =~= spec_insert::<K, V>(
                m,
                km,
                vm,
            ));
        }
        while i < self.entries.len()
            invariant
                i <= m.len(),
                m == self.model(),
                m == old(self).model(),
                self.wf(),
                km == key.model(),
                vm == value.model(),
                K::spec_encodable(km),
                key_bytes@ == K::spec_encoding(km),
                forall|j: int|
                    0 <= j < i ==> bytes_lt(
                        #[trigger] K::spec_encoding(m[j].0),
                        K::spec_encoding(km),
                    ),
                spec_insert::<K, V>(m, km, vm) == m.take(i as int) + spec_insert::<K, V>(
                    m.skip(i as int),
                    km,
                    vm,
                ),
            decreases m.len() - i,
        {
            assert(self.entries@[i as int].model() == m[i as int]);
            let cur_bytes = match serialize(&self.entries[i].0) {
                Ok(b) => b,
                Err(_) => {
                    proof {
                        assert(false);
                    }
                    return None;
                },
            };
            if crate::store::bytes_eq(cur_bytes.as_slice(), key_bytes.as_slice()) {
                // The key is already bound: replace the entry in place.
                proof {
                    assert(K::spec_encodable(m[i as int].0));
                    crate::state::lemma_key_injective::<K>(m[i as int].0, km);
                    assert forall|j: int| 0 <= j < i implies (#[trigger] m[j]).0 != km by {
                        lemma_bytes_lt_asym(K::spec_encoding(m[j].0), K::spec_encoding(km));
                    }
                    lemma_spec_get_at::<K, V>(m, km, i as int);
                    assert(m.skip(i as int)[0] == m[i as int]);
                    assert(m.skip(i as int).skip(1) =~= m.skip(i + 1));
                }
                let ghost new_model = (key.model(), value.model());
                let new_entry = (key, value);
                proof {
                    assert(new_entry.model() == new_model);
                }
                let ghost entries0 = self.entries@;
                let old_pair = self.entries.remove(i);
                let ghost entries1 = self.entries@;
                self.entries.insert(i, new_entry);
                proof {
                    assert(new_model == (km, vm));
                    assert(entries1 == entries0.remove(i as int));
                    assert(self.entries@ == entries1.insert(i as int, new_entry));
                    assert(self.entries@.len() == entries0.len());
                    assert(forall|k: int|
                        0 <= k < i ==> #[trigger] self.entries@[k] == entries0[k]);
                    assert(forall|k: int|
                        i < k < entries0.len() ==> #[trigger] self.entries@[k] == entries0[k]);
                    assert(self.entries@[i as int].model() == (km, vm));
                    assert(self.model() =~= m.take(i as int) + (seq![(km, vm)] + m.skip(i + 1)));
                    assert forall|a: int, b: int|
                        0 <= a < self.model().len() && b == a + 1 && b
                            < self.model().len() implies bytes_lt(
                        K::spec_encoding(self.model()[a].0),
                        K::spec_encoding(self.model()[b].0),
                    ) by {
                        assert(self.model()[a].0 == m[a].0);
                        assert(self.model()[b].0 == m[b].0);
                    }
                    assert forall|a: int|
                        0 <= a < self.model().len() implies K::spec_encodable(
                        (#[trigger] self.model()[a]).0,
                    ) by {
                        assert(self.model()[a].0 == m[a].0);
                    }
                    let e = K::spec_encoding(km);
                    if bytes_lt(e, e) {
                        lemma_bytes_lt_asym(e, e);
                    }
                    assert(spec_insert::<K, V>(m.skip(i as int), km, vm) == seq![(km, vm)]
                        + m.skip(i + 1));
                    assert(spec_insert::<K, V>(m, km, vm) =~= self.model());
                    assert(old_pair == entries0[i as int]);
                    assert(old_pair.model() == m[i as int]);
                }
                return Some(old_pair.1);
            }
            if bytes_lt_exec(key_bytes.as_slice(), cur_bytes.as_slice()) {
                // The new key orders before this entry: splice it in here.
                proof {
                    lemma_bytes_lt_asym(K::spec_encoding(km), K::spec_encoding(m[i as int].0));
                    assert(m.skip(i as int)[0] == m[i as int]);
                    assert forall|j: int| 0 <= j < m.len() implies (#[trigger] m[j]).0 != km by {
                        if j < i {
                            lemma_bytes_lt_asym(K::spec_encoding(m[j].0), K::spec_encoding(km));
                        } else if j == i {
                            lemma_bytes_lt_asym(K::spec_encoding(km), K::spec_encoding(m[j].0));
                        } else {
                            lemma_keys_sorted_pairwise::<K, V>(m, i as int, j);
                            lemma_bytes_lt_trans(
                                K::spec_encoding(km),
                                K::spec_encoding(m[i as int].0),
                                K::spec_encoding(m[j].0),
                            );
                            lemma_bytes_lt_asym(K::spec_encoding(km), K::spec_encoding(m[j].0));
                        }
                    }
                    lemma_spec_get_absent::<K, V>(m, km);
                }
                let ghost new_model = (key.model(), value.model());
                let new_entry = (key, value);
                proof {
                    assert(new_entry.model() == new_model);
                }
                let ghost entries0 = self.entries@;
                self.entries.insert(i, new_entry);
                proof {
                    assert(new_model == (km, vm));
                    assert(self.entries@ == entries0.insert(i as int, new_entry));
                    assert(self.entries@[i as int].model() == (km, vm));
                    assert(forall|k: int|
                        0 <= k < i ==> #[trigger] self.entries@[k] == entries0[k]);
                    assert(forall|k: int|
                        i < k < self.entries@.len() ==> #[trigger] self.entries@[k] == entries0[k
                            - 1]);
                    assert(self.model() =~= m.take(i as int) + (seq![(km, vm)] + m.skip(i as int)));
                    assert forall|a: int|
                        0 <= a < self.model().len() - 1 implies bytes_lt(
                        #[trigger] K::spec_encoding(self.model()[a].0),
                        K::spec_encoding(self.model()[a + 1].0),
                    ) by {
                        if a < i {
                        } else if a == i as int - 1 {
                        } else if a == i {
                        } else {
                            assert(self.model()[a].0 == m[a - 1].0);
                            assert(self.model()[a + 1].0 == m[a].0);
                        }
                    }
                    assert forall|a: int|
                        0 <= a < self.model().len() implies K::spec_encodable(
                        (#[trigger] self.model()[a]).0,
                    ) by {
                        if a < i {
                            assert(self.model()[a].0 == m[a].0);
                        } else if a > i {
                            assert(self.model()[a].0 == m[a - 1].0);
                        }
                    }
                    assert(m.skip(i as int)[0] == m[i as int]);
                    assert(spec_insert::<K, V>(m.skip(i as int), km, vm) == seq![(km, vm)]
                        + m.skip(i as int));
                    assert(spec_insert::<K, V>(m, km, vm) =~= self.model());
                }
                return None;
            }
            proof {
                // Neither equal nor greater: the entry's key orders strictly
                // before the new key.
                lemma_bytes_lt_trichotomy(cur_bytes@, key_bytes@);
                assert(bytes_lt(K::spec_encoding(m[i as int].0), K::spec_encoding(km)));
                assert(m.skip(i as int)[0] == m[i as int]);
                assert(m.skip(i as int).skip(1) =~= m.skip(i + 1));
                assert(m.take(i as int).push(m[i as int]) =~= m.take(i + 1));
                assert(m.take(i as int) + (seq![m[i as int]] + spec_insert::<K, V>(
                    m.skip(i + 1),
                    km,
                    vm,
                )) =~= m.take(i + 1) + spec_insert::<K, V>(m.skip(i + 1), km, vm));
            }
            i = i + 1;
        }
        // Every key orders before the new one: append it.
        proof {
            assert forall|j: int| 0 <= j < m.len() implies (#[trigger] m[j]).0 != km by {
                lemma_bytes_lt_asym(K::spec_encoding(m[j].0), K::spec_encoding(km));
            }
            lemma_spec_get_absent::<K, V>(m, km);
            assert(m.skip(m.len() as int) =~= Seq::<(K::Model, V::Model)>::empty());
            assert(m.take(m.len() as int) =~= m);
        }
        let ghost new_model = (key.model(), value.model());
        let new_entry = (key, value);
        proof {
            assert(new_entry.model() == new_model);
        }
        let ghost entries0 = self.entries@;
        self.entries.push(new_entry);
        proof {
            assert(new_model == (km, vm));
            assert(self.entries@ == entries0.push(new_entry));
            assert(self.entries@[entries0.len() as int].model() == (km, vm));
            assert(self.model() =~= m + seq![(km, vm)]);
            assert(m.take(m.len() as int) + (seq![(km, vm)]
                + Seq::<(K::Model, V::Model)>::empty()) =~= m + seq![(km, vm)]);
            assert(spec_insert::<K, V>(m.skip(m.len() as int), km, vm) == seq![(km, vm)]);
            assert(seq![(km, vm)] =~= seq![(km, vm)] + Seq::<(K::Model, V::Model)>::empty());
            assert(spec_insert::<K, V>(m, km, vm) =~= self.model());
            assert forall|a: int|
                0 <= a < self.model().len() - 1 implies bytes_lt(
                #[trigger] K::spec_encoding(self.model()[a].0),
                K::spec_encoding(self.model()[a + 1].0),
            ) by {
                assert(self.model()[a].0 == m[a].0);
            }
            assert forall|a: int|
                0 <= a < self.model().len() implies K::spec_encodable(
                (#[trigger] self.model()[a]).0,
            ) by {
                if a < m.len() {
                    assert(self.model()[a].0 == m[a].0);
                }
            }
        }
        None
    }
}

impl<K: ToBytes, V: ToBytes> ToBytes for OrderedMap<K, V> {
    type Model = Seq<(K::Model, V::Model)>;

    closed spec fn model(&self) -> Seq<(K::Model, V::Model)> {
        seq_models::<(K, V)>(self.entries@)
    }

    open spec fn spec_encodable(v: Seq<(K::Model, V::Model)>) -> bool {
        <Vec<(K, V)> as ToBytes>::spec_encodable(v) && keys_sorted::<K, V>(v)
    }

    open spec fn spec_encoding(v: Seq<(K::Model, V::Model)>) -> Seq<u8> {
        <Vec<(K, V)> as ToBytes>::spec_encoding(v)
    }

    fn to_bytes(&self, sink: &mut Vec<u8>) -> (r: Result<(), Error>) {
        let ghost m = self.model();
        let mut prev: Vec<u8> = Vec::new();
        let mut i: usize = 0;
        while i < self.entries.len()
            invariant
                i <= self.entries@.len(),
                m == self.model(),
                forall|j: int|
                    0 <= j < i - 1 ==> bytes_lt(
                        #[trigger] K::spec_encoding(m[j].0),
                        K::spec_encoding(m[j + 1].0),
                    ),
                i > 0 ==> K::spec_encodable(m[i - 1].0) && prev@ == K::spec_encoding(m[i - 1].0),
            decreases self.entries@.len() - i,
        {
            assert(self.entries@[i as int].model() == m[i as int]);
            let cur = match serialize(&self.entries[i].0) {
                Ok(b) => b,
                Err(e) => {
                    return Err(e);
                },
            };
            if i > 0 && !bytes_lt_exec(prev.as_slice(), cur.as_slice()) {
                assert(!keys_sorted::<K, V>(m));
                return Err(Error::Formatting);
            }
            prev = cur;
            i = i + 1;
        }
        self.entries.to_bytes(sink)
    }

    fn serialized_length(&self) -> (n: usize) {
        self.entries.serialized_length()
    }
}

impl<K: FromBytes, V: FromBytes> FromBytes for OrderedMap<K, V> {
    open spec fn spec_from(bytes: Seq<u8>) -> Result<(Seq<(K::Model, V::Model)>, Seq<u8>), Error> {
        match <Vec<(K, V)> as FromBytes>::spec_from(bytes) {
            Ok((s, rem)) => if keys_sorted::<K, V>(s) {
                Ok((s, rem))
            } else {
                Err(Error::Formatting)
            },
            Err(e) => Err(e),
        }
    }

    fn from_bytes(bytes: &[u8]) -> (r: Result<(OrderedMap<K, V>, &[u8]), Error>) {
        let (entries, rest) = match <Vec<(K, V)>>::from_bytes(bytes) {
            Ok(p) => p,
            Err(e) => {
                return Err(e);
            },
        };
        let ghost m = seq_models::<(K, V)>(entries@);
        proof {
            <Vec<(K, V)> as FromBytes>::lemma_parse_encoding(bytes@);
        }
        let mut prev: Vec<u8> = Vec::new();
        let mut i: usize = 0;
        while i < entries.len()
            invariant
                i <= entries@.len(),
                m == seq_models::<(K, V)>(entries@),
                crate::bytesrepr::seq_encodable::<(K, V)>(m),
                <Vec<(K, V)> as FromBytes>::spec_from(bytes@) == Ok::<
                    (Seq<(K::Model, V::Model)>, Seq<u8>),
                    Error,
                >((m, rest@)),
                forall|j: int|
                    0 <= j < i - 1 ==> bytes_lt(
                        #[trigger] K::spec_encoding(m[j].0),
                        K::spec_encoding(m[j + 1].0),
                    ),
                i > 0 ==> prev@ == K::spec_encoding(m[i - 1].0),
            decreases entries@.len() - i,
        {
            assert(entries@[i as int].model() == m[i as int]);
            let cur = match serialize(&entries[i].0) {
                Ok(b) => b,
                Err(_) => {
                    proof {
                        assert(false);
                    }
                    return Err(Error::Formatting);
                },
            };
            if i > 0 && !bytes_lt_exec(prev.as_slice(), cur.as_slice()) {
                assert(!keys_sorted::<K, V>(m));
                return Err(Error::Formatting);
            }
            prev = cur;
            i = i + 1;
        }
        Ok((OrderedMap { entries }, rest))
    }

    proof fn lemma_roundtrip(v: Seq<(K::Model, V::Model)>, suffix: Seq<u8>) {
        <Vec<(K, V)> as FromBytes>::lemma_roundtrip(v, suffix);
    }

    proof fn lemma_parse_encoding(bytes: Seq<u8>) {
        <Vec<(K, V)> as FromBytes>::lemma_parse_encoding(bytes);
    }
}

/// A set whose members are kept strictly sorted by the lexicographic order
/// of their canonical bytes; its wire form is the length-prefixed member
/// sequence in exactly that order (each member carried as an entry with an
/// empty payload, which adds no bytes).
#[derive(Debug, PartialEq, Eq)]
pub struct OrderedSet<K> {
    inner: OrderedMap<K, ()>,
}

impl<K: FromBytes> OrderedSet<K> {
    /// Structural invariant: the members are representable and strictly
    /// increasing.
    pub open spec fn wf(&self) -> bool {
        &&& keys_sorted::<K, ()>(self.model())
        &&& (forall|i: int|
            0 <= i < self.model().len() ==> K::spec_encodable((#[trigger] self.model()[i]).0))
    }

    /// An empty set.
    pub fn new() -> (r: OrderedSet<K>)
        ensures
            r.wf(),
            r.model() =~= Seq::<(K::Model, ())>::empty(),
    {
        OrderedSet { inner: OrderedMap::new() }
    }

    /// The number of members.
    pub fn len(&self) -> (n: usize)
        ensures
            n == self.model().len(),
    {
        self.inner.len()
    }

    /// Whether `key` is a member.
    pub fn contains(&self, key: &K) -> (r: bool)
        requires
            self.wf(),
            K::spec_encodable(key.model()),
        ensures
            r == (spec_get::<K, ()>(self.model(), key.model()) is Some),
    {
        self.inner.get(key).is_some()
    }

    /// Adds `key` to the set; returns whether it was newly added.
    pub fn insert(&mut self, key: K) -> (r: bool)
        requires
            old(self).wf(),
            K::spec_encodable(key.model()),
        ensures
            final(self).wf(),
            final(self).model() == spec_insert::<K, ()>(old(self).model(), key.model(), ()),
            r == (spec_get::<K, ()>(old(self).model(), key.model()) is None),
    {
        self.inner.insert(key, ()).is_none()
    }
}

impl<K: ToBytes> ToBytes for OrderedSet<K> {
    type Model = Seq<(K::Model, ())>;

    closed spec fn model(&self) -> Seq<(K::Model, ())> {
        self.inner.model()
    }

    open spec fn spec_encodable(v: Seq<(K::Model, ())>) -> bool {
        <OrderedMap<K, ()> as ToBytes>::spec_encodable(v)
    }

    open spec fn spec_encoding(v: Seq<(K::Model, ())>) -> Seq<u8> {
        <OrderedMap<K, ()> as ToBytes>::spec_encoding(v)
    }

    fn to_bytes(&self, sink: &mut Vec<u8>) -> (r: Result<(), Error>) {
        self.inner.to_bytes(sink)
    }

    fn serialized_length(&self) -> (n: usize) {
        self.inner.serialized_length()
    }
}

impl<K: FromBytes> FromBytes for OrderedSet<K> {
    open spec fn spec_from(bytes: Seq<u8>) -> Result<(Seq<(K::Model, ())>, Seq<u8>), Error> {
        <OrderedMap<K, ()> as FromBytes>::spec_from(bytes)
    }

    fn from_bytes(bytes: &[u8]) -> (r: Result<(OrderedSet<K>, &[u8]), Error>) {
        match OrderedMap::<K, ()>::from_bytes(bytes) {
            Ok((inner, rest)) => Ok((OrderedSet { inner }, rest)),
            Err(e) => Err(e),
        }
    }

    proof fn lemma_roundtrip(v: Seq<(K::Model, ())>, suffix: Seq<u8>) {
        <OrderedMap<K, ()> as FromBytes>::lemma_roundtrip(v, suffix);
    }

    proof fn lemma_parse_encoding(bytes: Seq<u8>) {
        <OrderedMap<K, ()> as FromBytes>::lemma_parse_encoding(bytes);
    }
}

} // verus!
