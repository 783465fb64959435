//! The collection of recovered digest/plaintext pairs.
//!
//! The collection is a mapping from digest to the plaintext that produced
//! it. Insertion is idempotent: re-inserting a digest leaves both the size
//! and the originally recorded plaintext unchanged, which is what makes a
//! bounded overrun of concurrent workers harmless.

use vstd::prelude::*;
use crate::assoc::{map_of, distinct_keys, lemma_map_of_contains, lemma_map_of_index,
    lemma_map_of_len, bytes_eq, clone_bytes};

verus! {

/// One recovered pair: a matched target digest and its plaintext candidate.
pub struct FoundEntry {
    pub digest: Vec<u8>,
    pub plaintext: Vec<u8>,
}

impl FoundEntry {
    /// A fresh entry holding the same digest and plaintext bytes.
    pub fn duplicate(&self) -> (r: FoundEntry)
        ensures
            r.digest@ == self.digest@,
            r.plaintext@ == self.plaintext@,
    {
        FoundEntry { digest: clone_bytes(&self.digest), plaintext: clone_bytes(&self.plaintext) }
    }
}

/// All recovered pairs, keyed by digest.
pub struct ResultCollection {
    pub entries: Vec<FoundEntry>,
}

/// The digest and plaintext of one entry, as the map view lists them.
pub open spec fn found_pairs(entries: Seq<FoundEntry>) -> Seq<(Seq<u8>, Seq<u8>)> {
    entries.map(|i: int, e: FoundEntry| (e.digest@, e.plaintext@))
}

impl View for ResultCollection {
    type V = Map<Seq<u8>, Seq<u8>>;

    open spec fn view(&self) -> Map<Seq<u8>, Seq<u8>> {
        map_of(found_pairs(self.entries@))
    }
}

impl ResultCollection {
    /// Recorded digests are distinct.
    pub open spec fn wf(self) -> bool {
        distinct_keys(found_pairs(self.entries@))
    }

    /// An empty collection.
    pub fn new() -> (r: ResultCollection)
        ensures
            r.wf(),
            r@ == Map::<Seq<u8>, Seq<u8>>::empty(),
            r.entries@.len() == 0,
    {
        let r = ResultCollection { entries: Vec::new() };
        proof {
            assert(found_pairs(r.entries@) =~= Seq::<(Seq<u8>, Seq<u8>)>::empty());
        }
        r
    }

    /// How many digests have been recovered.
    pub fn len(&self) -> (r: usize)
        requires
            self.wf(),
        ensures
            r == self@.dom().len(),
    {
        proof {
            lemma_map_of_len(found_pairs(self.entries@));
        }
        self.entries.len()
    }

    /// The position of `digest` among the entries, when present.
    fn find(&self, digest: &Vec<u8>) -> (r: Option<usize>)
        ensures
            match r {
                Some(i) => i < self.entries@.len() && self.entries@[i as int].digest@ == digest@,
                None => forall|i: int|
                    0 <= i < self.entries@.len()
                        ==> (#[trigger] self.entries@[i]).digest@ != digest@,
            },
    {
        let mut i: usize = 0;
        while i < self.entries.len()
            invariant
                i <= self.entries@.len(),
                forall|p: int| 0 <= p < i ==> (#[trigger] self.entries@[p]).digest@ != digest@,
            decreases self.entries@.len() - i,
        {
            if bytes_eq(&self.entries[i].digest, digest) {
                return Some(i);
            }
            i += 1;
        }
        None
    }

    /// Whether `digest` has been recovered.
    pub fn contains(&self, digest: &Vec<u8>) -> (r: bool)
        ensures
            r == self@.contains_key(digest@),
    {
        proof {
            lemma_map_of_contains(found_pairs(self.entries@), digest@);
        }
        match self.find(digest) {
            Some(i) => {
                proof {
                    assert(found_pairs(self.entries@)[i as int].0 == digest@);
                }
                true
            },
            None => {
                proof {
                    assert forall|i: int|
                        0 <= i < found_pairs(self.entries@).len() implies (#[trigger]
                    found_pairs(self.entries@)[i]).0 != digest@ by {
                        assert(self.entries@[i].digest@ != digest@);
                    }
                }
                false
            },
        }
    }

    /// The plaintext recovered for `digest`, when there is one.
    pub fn get(&self, digest: &Vec<u8>) -> (r: Option<&Vec<u8>>)
        requires
            self.wf(),
        ensures
            match r {
                Some(p) => self@.contains_key(digest@) && p@ == self@[digest@],
                None => !self@.contains_key(digest@),
            },
    {
        proof {
            lemma_map_of_contains(found_pairs(self.entries@), digest@);
        }
        match self.find(digest) {
            Some(i) => {
                proof {
                    lemma_map_of_index(found_pairs(self.entries@), i as int);
                    assert(found_pairs(self.entries@)[i as int].0 == digest@);
                }
                Some(&self.entries[i].plaintext)
            },
            None => {
                proof {
                    assert forall|i: int|
                        0 <= i < found_pairs(self.entries@).len() implies (#[trigger]
                    found_pairs(self.entries@)[i]).0 != digest@ by {
                        assert(self.entries@[i].digest@ != digest@);
                    }
                }
                None
            },
        }
    }

    /// Records `entry` unless its digest is already present.
    ///
    /// Law: the insert is idempotent — re-inserting a digest leaves the
    /// collection, its size and the originally recorded plaintext unchanged.
    pub fn insert_if_absent(&mut self, entry: FoundEntry) -> (r: bool)
        requires
            old(self).wf(),
        ensures
            final(self).wf(),
            r == !old(self)@.contains_key(entry.digest@),
            final(self)@ == if old(self)@.contains_key(entry.digest@) {
                old(self)@
            } else {
                old(self)@.insert(entry.digest@, entry.plaintext@)
            },
            old(self)@.contains_key(entry.digest@) ==> *final(self) == *old(self),
    {
        let ghost pairs = found_pairs(self.entries@);
        proof {
            lemma_map_of_contains(pairs, entry.digest@);
        }
        match self.find(&entry.digest) {
            Some(i) => {
                proof {
                    assert(pairs[i as int].0 == entry.digest@);
                }
                false
            },
            None => {
                proof {
                    assert forall|i: int|
                        0 <= i < pairs.len() implies (#[trigger] pairs[i]).0 != entry.digest@ by {
                        assert(self.entries@[i].digest@ != entry.digest@);
                    }
                }
                let ghost keyv = entry.digest@;
                let ghost valv = entry.plaintext@;
                let ghost old_entries = self.entries@;
                self.entries.push(entry);
                proof {
                    let new_pairs = found_pairs(self.entries@);
                    assert(self.entries@.last().digest@ == keyv);
                    assert(self.entries@.last().plaintext@ == valv);
                    assert(new_pairs.drop_last() =~= pairs);
                    assert(new_pairs.last() == (keyv, valv));
                    assert(self@ == map_of(pairs).insert(keyv, valv));
                    assert forall|p: int, q: int|
                        0 <= p < q < new_pairs.len() implies new_pairs[p].0 != new_pairs[q].0 by {
                        if q == new_pairs.len() - 1 {
                            assert(old_entries[p].digest@ != keyv);
                        } else {
                            assert(pairs[p].0 != pairs[q].0);
                        }
                    }
                }
                true
            },
        }
    }
}

} // verus!
