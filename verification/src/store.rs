//! The trie store: a byte-addressed, append-only backing store mapping each
//! node's digest to its canonical bytes.  `put` is idempotent for
//! byte-identical content and refuses to overwrite a digest with different
//! bytes, so no node is ever stored under the wrong digest.

use crate::bytesrepr::Error;
use crate::digest::{digest_of, hash, Digest};
use vstd::prelude::*;

verus! {

/// Errors reported by the trie store.
#[derive(Debug, PartialEq, Eq, Clone, Copy)]
pub enum TrieStoreError {
    /// A node could not be serialized.
    Serialization(Error),
    /// The backing store holds, or would come to hold, bytes that disagree
    /// with their digest, or a node that does not decode: corruption, never
    /// silently ignored.
    Corruption,
}

/// Every entry's key is the digest of its bytes.
pub open spec fn digests_consistent(m: Map<Seq<u8>, Seq<u8>>) -> bool {
    forall|d: Seq<u8>| #[trigger] m.contains_key(d) ==> d == digest_of(m[d])
}

/// Byte-wise equality of two byte slices.
pub(crate) fn bytes_eq(a: &[u8], b: &[u8]) -> (r: bool)
    ensures
        r <==> a@ == b@,
{
    if a.len() != b.len() {
        assert(a@.len() != b@.len());
        return false;
    }
    let mut i: usize = 0;
    while i < a.len()
        invariant
            i <= a@.len(),
            a@.len() == b@.len(),
            forall|j: int| 0 <= j < i ==> a@[j] == b@[j],
        decreases a@.len() - i,
    {
        if a[i] != b[i] {
            assert(a@[i as int] != b@[i as int]);
            return false;
        }
        i = i + 1;
    }
    proof {
        assert(a@ =~= b@);
    }
    true
}

/// The abstract contents of a sequence of store entries, later entries
/// winning (entries are in fact unique, see [`TrieStore::wf`]).
pub open spec fn entries_map(s: Seq<(Digest, Vec<u8>)>) -> Map<Seq<u8>, Seq<u8>>
    decreases s.len(),
{
    if s.len() == 0 {
        Map::empty()
    } else {
        entries_map(s.drop_last()).insert(s.last().0@, s.last().1@)
    }
}

/// The byte-addressed backing store: digest to canonical node bytes.
pub struct TrieStore {
    entries: Vec<(Digest, Vec<u8>)>,
}

impl View for TrieStore {
    type V = Map<Seq<u8>, Seq<u8>>;

    closed spec fn view(&self) -> Map<Seq<u8>, Seq<u8>> {
        entries_map(self.entries@)
    }
}

/// A key is in the contents exactly when some entry holds it.
proof fn lemma_entries_map_contains(s: Seq<(Digest, Vec<u8>)>, k: Seq<u8>)
    ensures
        entries_map(s).contains_key(k) <==> exists|i: int|
            0 <= i < s.len() && #[trigger] s[i].0@ == k,
    decreases s.len(),
{
    if s.len() > 0 {
        lemma_entries_map_contains(s.drop_last(), k);
        if s.last().0@ == k {
            assert(s[s.len() - 1].0@ == k);
        } else if entries_map(s).contains_key(k) {
            let i = choose|i: int| 0 <= i < s.drop_last().len() && #[trigger] s.drop_last()[i].0@
                == k;
            assert(s[i].0@ == k);
        } else {
            if exists|i: int| 0 <= i < s.len() && #[trigger] s[i].0@ == k {
                let i = choose|i: int| 0 <= i < s.len() && #[trigger] s[i].0@ == k;
                assert(i < s.len() - 1);
                assert(s.drop_last()[i].0@ == k);
            }
        }
    }
}

/// An entry's bytes are what the contents hold at its digest, provided no
/// later entry claims the same digest.
proof fn lemma_entries_map_at(s: Seq<(Digest, Vec<u8>)>, i: int)
    requires
        0 <= i < s.len(),
        forall|a: int, b: int| 0 <= a < b < s.len() ==> s[a].0@ != s[b].0@,
    ensures
        entries_map(s).contains_key(s[i].0@),
        entries_map(s)[s[i].0@] == s[i].1@,
    decreases s.len(),
{
    if i == s.len() - 1 {
        assert(s.last() == s[i]);
    } else {
        lemma_entries_map_at(s.drop_last(), i);
        assert(s.drop_last()[i] == s[i]);
        assert(s.last().0@ != s[i].0@);
    }
}

/// The number of distinct keys equals the number of entries, given unique
/// digests.
proof fn lemma_entries_map_len(s: Seq<(Digest, Vec<u8>)>)
    requires
        forall|a: int, b: int| 0 <= a < b < s.len() ==> s[a].0@ != s[b].0@,
    ensures
        entries_map(s).dom().finite(),
        entries_map(s).dom().len() == s.len(),
    decreases s.len(),
{
    if s.len() == 0 {
        assert(entries_map(s).dom() =~= Set::<Seq<u8>>::empty());
    } else {
        lemma_entries_map_len(s.drop_last());
        lemma_entries_map_contains(s.drop_last(), s.last().0@);
        assert(forall|i: int|
            0 <= i < s.drop_last().len() ==> #[trigger] s.drop_last()[i].0@ == s[i].0@);
        assert(!entries_map(s.drop_last()).contains_key(s.last().0@));
        assert(entries_map(s).dom() =~= entries_map(s.drop_last()).dom().insert(s.last().0@));
    }
}

impl TrieStore {
    /// Structural invariant: entry digests are pairwise distinct and each is
    /// the digest of its bytes.
    pub closed spec fn wf(&self) -> bool {
        &&& forall|a: int, b: int|
            0 <= a < b < self.entries@.len() ==> self.entries@[a].0@ != self.entries@[b].0@
        &&& forall|i: int|
            0 <= i < self.entries@.len() ==> #[trigger] self.entries@[i].0@ == digest_of(
                self.entries@[i].1@,
            )
    }

    /// An empty store.
    pub fn new() -> (s: TrieStore)
        ensures
            s.wf(),
            s@ =~= Map::<Seq<u8>, Seq<u8>>::empty(),
    {
        TrieStore { entries: Vec::new() }
    }

    /// The number of stored nodes.
    pub fn len(&self) -> (n: usize)
        requires
            self.wf(),
        ensures
            self@.dom().finite(),
            n == self@.dom().len(),
    {
        proof {
            lemma_entries_map_len(self.entries@);
        }
        self.entries.len()
    }

    /// A well-formed store never stores bytes under the wrong digest.
    pub proof fn lemma_consistent(&self)
        requires
            self.wf(),
        ensures
            digests_consistent(self@),
    {
        assert forall|d: Seq<u8>| #[trigger] self@.contains_key(d) implies d == digest_of(
            self@[d],
        ) by {
            lemma_entries_map_contains(self.entries@, d);
            let i = choose|i: int|
                0 <= i < self.entries@.len() && #[trigger] self.entries@[i].0@ == d;
            lemma_entries_map_at(self.entries@, i);
        }
    }

    /// Fetches the raw bytes stored under `digest`, if any.
    pub fn get_bytes(&self, digest: &Digest) -> (r: Option<&Vec<u8>>)
        requires
            self.wf(),
        ensures
            (match r {
                Some(b) => self@.contains_key(digest@) && b@ == self@[digest@],
                None => !self@.contains_key(digest@),
            }),
    {
        let mut i: usize = 0;
        while i < self.entries.len()
            invariant
                self.wf(),
                i <= self.entries@.len(),
                forall|j: int| 0 <= j < i ==> self.entries@[j].0@ != digest@,
            decreases self.entries@.len() - i,
        {
            if self.entries[i].0.equals(digest) {
                proof {
                    lemma_entries_map_at(self.entries@, i as int);
                }
                return Some(&self.entries[i].1);
            }
            i = i + 1;
        }
        proof {
            lemma_entries_map_contains(self.entries@, digest@);
        }
        None
    }

    /// Stores `bytes` under their digest.  Idempotent for byte-identical
    /// content; refuses to overwrite a digest whose stored bytes differ,
    /// which can only happen when two distinct byte sequences share a digest.
    pub fn put_bytes(&mut self, bytes: Vec<u8>) -> (r: Result<Digest, TrieStoreError>)
        requires
            old(self).wf(),
        ensures
            final(self).wf(),
            (match r {
                Ok(d) => {
                    &&& d@ == digest_of(bytes@)
                    &&& final(self)@ =~= old(self)@.insert(digest_of(bytes@), bytes@)
                    &&& (old(self)@.contains_key(digest_of(bytes@)) ==> final(self)@ =~= old(
                        self,
                    )@)
                },
                Err(e) => {
                    &&& e == TrieStoreError::Corruption
                    &&& final(self)@ =~= old(self)@
                    &&& *final(self) == *old(self)
                    &&& old(self)@.contains_key(digest_of(bytes@))
                    &&& old(self)@[digest_of(bytes@)] != bytes@
                },
            }),
    {
        let digest = hash(bytes.as_slice());
        let mut i: usize = 0;
        while i < self.entries.len()
            invariant
                self.wf(),
                digest@ == digest_of(bytes@),
                i <= self.entries@.len(),
                forall|j: int| 0 <= j < i ==> self.entries@[j].0@ != digest@,
            decreases self.entries@.len() - i,
        {
            if self.entries[i].0.equals(&digest) {
                proof {
                    lemma_entries_map_at(self.entries@, i as int);
                }
                if bytes_eq(self.entries[i].1.as_slice(), bytes.as_slice()) {
                    proof {
                        assert(self@ =~= self@.insert(digest_of(bytes@), bytes@));
                    }
                    return Ok(digest);
                } else {
                    return Err(TrieStoreError::Corruption);
                }
            }
            i = i + 1;
        }
        proof {
            lemma_entries_map_contains(self.entries@, digest@);
        }
        let ghost old_entries = self.entries@;
        self.entries.push((digest, bytes));
        proof {
            assert(self.entries@.drop_last() =~= old_entries);
            assert(forall|j: int|
                0 <= j < old_entries.len() ==> #[trigger] self.entries@[j] == old_entries[j]);
        }
        Ok(digest)
    }
}

} // verus!
