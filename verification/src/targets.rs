//! The set of target digests to search for.
//!
//! A target line is normalized (ASCII whitespace trimmed, ASCII letters
//! lowered) and its algorithm is inferred from its length: 32 hex
//! characters mean MD5 and 64 mean SHA-256; any other length is rejected.
//! Keys are unique: re-adding a digest leaves the set unchanged.

use vstd::prelude::*;
use vstd::string::{StrSliceExecFns, StringSliceAdditionalSpecFns};
use crate::assoc::{map_of, distinct_keys, lemma_map_of_contains, lemma_map_of_index,
    lemma_map_of_len, bytes_eq};

verus! {

/// The digest algorithm of a target, inferred from its hex length.
#[derive(Clone, Copy, PartialEq, Eq, Structural, Debug)]
pub enum HashType {
    Md5,
    Sha256,
}

/// One target: lowercase hex digest bytes and the algorithm they imply.
pub struct TargetEntry {
    pub digest: Vec<u8>,
    pub alg: HashType,
}

/// The set of digests the engines search for, keyed by hex digest bytes.
pub struct TargetSet {
    pub entries: Vec<TargetEntry>,
}

/// ASCII whitespace, as `trim` of the standard library treats ASCII text.
pub open spec fn is_space(b: u8) -> bool {
    b == 32 || b == 9 || b == 10 || b == 12 || b == 13
}

/// `bs` with leading and trailing ASCII whitespace removed.
pub open spec fn trim_spec(bs: Seq<u8>) -> Seq<u8>
    decreases bs.len(),
{
    if bs.len() == 0 {
        bs
    } else if is_space(bs[0]) {
        trim_spec(bs.drop_first())
    } else if is_space(bs.last()) {
        trim_spec(bs.drop_last())
    } else {
        bs
    }
}

/// An ASCII uppercase letter lowered; any other byte unchanged.
pub open spec fn lower_byte(b: u8) -> u8 {
    if 65 <= b <= 90 {
        (b + 32) as u8
    } else {
        b
    }
}

/// Every byte of `bs` lowered.
pub open spec fn lower_spec(bs: Seq<u8>) -> Seq<u8> {
    bs.map_values(|b: u8| lower_byte(b))
}

/// A raw target line normalized: trimmed, then lowered.
pub open spec fn normalize_spec(bs: Seq<u8>) -> Seq<u8> {
    lower_spec(trim_spec(bs))
}

/// Rejection of a malformed target line.
#[derive(Clone, Copy, PartialEq, Eq, Structural, Debug)]
pub enum TargetError {
    UnsupportedLength,
}

/// The digest and algorithm of one entry, as the map view lists them.
pub open spec fn target_pairs(entries: Seq<TargetEntry>) -> Seq<(Seq<u8>, HashType)> {
    entries.map(|i: int, e: TargetEntry| (e.digest@, e.alg))
}

impl View for TargetSet {
    type V = Map<Seq<u8>, HashType>;

    open spec fn view(&self) -> Map<Seq<u8>, HashType> {
        map_of(target_pairs(self.entries@))
    }
}

impl TargetEntry {
    /// The digest length matches the algorithm tag and is 32 or 64.
    pub open spec fn wf(self) -> bool {
        &&& (self.alg == HashType::Md5 <==> self.digest@.len() == 32)
        &&& (self.alg == HashType::Sha256 <==> self.digest@.len() == 64)
    }
}

impl TargetSet {
    /// Keys are distinct and every entry's length matches its algorithm.
    pub open spec fn wf(self) -> bool {
        &&& distinct_keys(target_pairs(self.entries@))
        &&& forall|i: int| 0 <= i < self.entries@.len() ==> (#[trigger] self.entries@[i]).wf()
    }

    /// An empty target set.
    pub fn new() -> (r: TargetSet)
        ensures
            r.wf(),
            r@ == Map::<Seq<u8>, HashType>::empty(),
    {
        let r = TargetSet { entries: Vec::new() };
        proof {
            assert(target_pairs(r.entries@) =~= Seq::<(Seq<u8>, HashType)>::empty());
        }
        r
    }

    /// How many targets the set holds.
    pub fn len(&self) -> (r: usize)
        requires
            self.wf(),
        ensures
            r == self@.dom().len(),
    {
        proof {
            lemma_map_of_len(target_pairs(self.entries@));
        }
        self.entries.len()
    }

    /// The position of `digest` among the entries, when present.
    fn find(&self, digest: &Vec<u8>) -> (r: Option<usize>)
        ensures
            match r {
                Some(i) => i < self.entries@.len() && self.entries@[i as int].digest@ == digest@,
                None => forall|i: int|
                    0 <= i < self.entries@.len()
                        ==> (#[trigger] self.entries@[i]).digest@ != digest@,
            },
    {
        let mut i: usize = 0;
        while i < self.entries.len()
            invariant
                i <= self.entries@.len(),
                forall|p: int| 0 <= p < i ==> (#[trigger] self.entries@[p]).digest@ != digest@,
            decreases self.entries@.len() - i,
        {
            if bytes_eq(&self.entries[i].digest, digest) {
                return Some(i);
            }
            i += 1;
        }
        None
    }

    /// Whether `digest` is one of the targets.
    pub fn contains(&self, digest: &Vec<u8>) -> (r: bool)
        ensures
            r == self@.contains_key(digest@),
    {
        proof {
            lemma_map_of_contains(target_pairs(self.entries@), digest@);
        }
        match self.find(digest) {
            Some(i) => {
                proof {
                    assert(target_pairs(self.entries@)[i as int].0 == digest@);
                }
                true
            },
            None => {
                proof {
                    assert forall|i: int|
                        0 <= i < target_pairs(self.entries@).len() implies (#[trigger]
                    target_pairs(self.entries@)[i]).0 != digest@ by {
                        assert(self.entries@[i].digest@ != digest@);
                    }
                }
                false
            },
        }
    }

    /// Normalizes one raw line and adds it as a target.
    ///
    /// The algorithm is inferred from the normalized length: 32 characters
    /// mean MD5, 64 mean SHA-256; any other length is rejected and the set
    /// is left unchanged. Re-adding a digest also leaves the set unchanged.
    pub fn add_target(&mut self, line: &str) -> (r: Result<HashType, TargetError>)
        requires
            old(self).wf(),
        ensures
            final(self).wf(),
            ({
                let key = normalize_spec(line.spec_bytes());
                match r {
                    Ok(alg) => {
                        &&& (key.len() == 32 || key.len() == 64)
                        &&& alg == (if key.len() == 32 {
                            HashType::Md5
                        } else {
                            HashType::Sha256
                        })
                        &&& final(self)@ == old(self)@.insert(key, alg)
                    },
                    Err(e) => {
                        &&& key.len() != 32
                        &&& key.len() != 64
                        &&& e == TargetError::UnsupportedLength
                        &&& final(self)@ == old(self)@
                    },
                }
            }),
    {
        let raw = line.as_bytes_vec();
        let key = normalize(&raw);
        let alg = if key.len() == 32 {
            HashType::Md5
        } else if key.len() == 64 {
            HashType::Sha256
        } else {
            return Err(TargetError::UnsupportedLength);
        };
        let ghost pairs = target_pairs(self.entries@);
        match self.find(&key) {
            Some(i) => {
                proof {
                    lemma_map_of_index(pairs, i as int);
                    assert(pairs[i as int].0 == key@);
                    assert(self.entries@[i as int].wf());
                    assert(pairs[i as int].1 == alg);
                    assert(self@.insert(key@, alg) =~= self@);
                }
                Ok(alg)
            },
            None => {
                let ghost keyv = key@;
                let entry = TargetEntry { digest: key, alg };
                let ghost old_entries = self.entries@;
                self.entries.push(entry);
                proof {
                    let new_pairs = target_pairs(self.entries@);
                    assert(self.entries@.last().digest@ == keyv);
                    assert(self.entries@.last().alg == alg);
                    assert(new_pairs.drop_last() =~= pairs);
                    assert(new_pairs.last() == (keyv, alg));
                    assert(self@ == map_of(pairs).insert(keyv, alg));
                    assert forall|p: int, q: int|
                        0 <= p < q < new_pairs.len() implies new_pairs[p].0 != new_pairs[q].0 by {
                        if q == new_pairs.len() - 1 {
                            assert(old_entries[p].digest@ != keyv);
                        } else {
                            assert(pairs[p].0 != pairs[q].0);
                        }
                    }
                    assert forall|p: int|
                        0 <= p < self.entries@.len() implies (#[trigger] self.entries@[p]).wf() by {
                        if p < self.entries@.len() - 1 {
                            assert(old_entries[p].wf());
                        }
                    }
                }
                Ok(alg)
            },
        }
    }
}

/// `v` trimmed of ASCII whitespace, then ASCII-lowered.
fn normalize(v: &Vec<u8>) -> (r: Vec<u8>)
    ensures
        r@ == normalize_spec(v@),
{
    let mut lo: usize = 0;
    while lo < v.len() && is_space_exec(v[lo])
        invariant
            lo <= v@.len(),
            forall|p: int| 0 <= p < lo ==> is_space(v@[p]),
        decreases v@.len() - lo,
    {
        lo += 1;
    }
    let mut hi: usize = v.len();
    while hi > lo && is_space_exec(v[hi - 1])
        invariant
            lo <= hi <= v@.len(),
            forall|p: int| 0 <= p < lo ==> is_space(v@[p]),
            forall|p: int| hi <= p < v@.len() ==> is_space(v@[p]),
        decreases hi,
    {
        hi -= 1;
    }
    proof {
        lemma_trim_range(v@, lo as int, hi as int);
    }
    let mut out: Vec<u8> = Vec::new();
    let mut i: usize = lo;
    while i < hi
        invariant
            lo <= i <= hi <= v@.len(),
            out@ == lower_spec(v@.subrange(lo as int, hi as int)).take(i - lo),
        decreases hi - i,
    {
        out.push(lower_byte_exec(v[i]));
        proof {
            let full = lower_spec(v@.subrange(lo as int, hi as int));
            assert(full[i - lo] == lower_byte(v@.subrange(lo as int, hi as int)[i - lo]));
            assert(v@.subrange(lo as int, hi as int)[i - lo] == v@[i as int]);
            assert(out@ =~= full.take(i + 1 - lo));
        }
        i += 1;
    }
    proof {
        let full = lower_spec(v@.subrange(lo as int, hi as int));
        assert(full.take(hi - lo) =~= full);
        assert(out@ == normalize_spec(v@));
    }
    out
}

/// Whether `b` is ASCII whitespace.
fn is_space_exec(b: u8) -> (r: bool)
    ensures
        r == is_space(b),
{
    b == 32 || b == 9 || b == 10 || b == 12 || b == 13
}

/// `b` ASCII-lowered.
fn lower_byte_exec(b: u8) -> (r: u8)
    ensures
        r == lower_byte(b),
{
    if 65 <= b && b <= 90 {
        b + 32
    } else {
        b
    }
}

/// Trimming removes exactly the maximal space prefix and suffix.
proof fn lemma_trim_range(bs: Seq<u8>, lo: int, hi: int)
    requires
        0 <= lo <= hi <= bs.len(),
        forall|p: int| 0 <= p < lo ==> is_space(bs[p]),
        forall|p: int| hi <= p < bs.len() ==> is_space(bs[p]),
        lo == hi || (!is_space(bs[lo]) && !is_space(bs[hi - 1])),
    ensures
        trim_spec(bs) == bs.subrange(lo, hi),
    decreases bs.len(),
{
    if bs.len() == 0 {
        assert(trim_spec(bs) =~= bs.subrange(lo, hi));
    } else if is_space(bs[0]) {
        let rest = bs.drop_first();
        if lo == 0 {
            assert(lo == hi);
            lemma_trim_range(rest, 0, 0);
            assert(bs.subrange(lo, hi) =~= rest.subrange(0, 0));
        } else {
            lemma_trim_range(rest, lo - 1, hi - 1);
            assert(bs.subrange(lo, hi) =~= rest.subrange(lo - 1, hi - 1));
        }
    } else if is_space(bs.last()) {
        let rest = bs.drop_last();
        assert(lo == 0);
        assert(hi < bs.len());
        lemma_trim_range(rest, lo, hi);
        assert(bs.subrange(lo, hi) =~= rest.subrange(lo, hi));
    } else {
        assert(lo == 0);
        assert(hi == bs.len());
        assert(bs.subrange(lo, hi) =~= bs);
    }
}

} // verus!
