//! Sequences of key/value pairs viewed as maps.
//!
//! The target set and the result collection both store their entries as a
//! vector of pairs keyed by digest bytes; `map_of` is the map such a vector
//! denotes, and the lemmas here relate membership, lookup and size of that
//! map to the underlying sequence.

use vstd::prelude::*;

verus! {

/// The map holding, for each key listed in `pairs`, the value listed last.
pub open spec fn map_of<V>(pairs: Seq<(Seq<u8>, V)>) -> Map<Seq<u8>, V>
    decreases pairs.len(),
{
    if pairs.len() == 0 {
        Map::empty()
    } else {
        map_of(pairs.drop_last()).insert(pairs.last().0, pairs.last().1)
    }
}

/// No key is listed twice.
pub open spec fn distinct_keys<V>(pairs: Seq<(Seq<u8>, V)>) -> bool {
    forall|i: int, j: int| 0 <= i < j < pairs.len() ==> pairs[i].0 != pairs[j].0
}

/// A key is in the map exactly when some pair lists it.
pub proof fn lemma_map_of_contains<V>(pairs: Seq<(Seq<u8>, V)>, k: Seq<u8>)
    ensures
        map_of(pairs).contains_key(k) <==> exists|i: int|
            0 <= i < pairs.len() && pairs[i].0 == k,
    decreases pairs.len(),
{
    if pairs.len() > 0 {
        lemma_map_of_contains(pairs.drop_last(), k);
        let rest = pairs.drop_last();
        if pairs.last().0 == k {
            assert(pairs[pairs.len() - 1].0 == k);
        } else {
            if map_of(pairs).contains_key(k) {
                let w = choose|i: int| 0 <= i < rest.len() && rest[i].0 == k;
                assert(pairs[w].0 == k);
            }
            if exists|i: int| 0 <= i < pairs.len() && pairs[i].0 == k {
                let w = choose|i: int| 0 <= i < pairs.len() && pairs[i].0 == k;
                assert(w < pairs.len() - 1);
                assert(rest[w].0 == k);
            }
        }
    }
}

/// With distinct keys, the map looks any listed pair up to its own value.
pub proof fn lemma_map_of_index<V>(pairs: Seq<(Seq<u8>, V)>, i: int)
    requires
        distinct_keys(pairs),
        0 <= i < pairs.len(),
    ensures
        map_of(pairs).contains_key(pairs[i].0),
        map_of(pairs)[pairs[i].0] == pairs[i].1,
    decreases pairs.len(),
{
    let rest = pairs.drop_last();
    if i < pairs.len() - 1 {
        assert(distinct_keys(rest));
        lemma_map_of_index(rest, i);
        assert(rest[i] == pairs[i]);
        assert(pairs[i].0 != pairs.last().0);
    }
}

/// With distinct keys, the map has exactly one entry per listed pair.
pub proof fn lemma_map_of_len<V>(pairs: Seq<(Seq<u8>, V)>)
    requires
        distinct_keys(pairs),
    ensures
        map_of(pairs).dom().finite(),
        map_of(pairs).dom().len() == pairs.len(),
    decreases pairs.len(),
{
    if pairs.len() == 0 {
        assert(map_of(pairs).dom() =~= Set::<Seq<u8>>::empty());
    } else {
        let rest = pairs.drop_last();
        assert(distinct_keys(rest));
        lemma_map_of_len(rest);
        lemma_map_of_contains(rest, pairs.last().0);
        assert forall|i: int| 0 <= i < rest.len() implies rest[i].0 != pairs.last().0 by {
            assert(pairs[i].0 != pairs[pairs.len() - 1].0);
        }
        assert(!map_of(rest).contains_key(pairs.last().0));
        assert(map_of(pairs).dom() =~= map_of(rest).dom().insert(pairs.last().0));
    }
}

/// Whether two byte vectors hold the same bytes.
pub fn bytes_eq(a: &Vec<u8>, b: &Vec<u8>) -> (r: bool)
    ensures
        r == (a@ == b@),
{
    if a.len() != b.len() {
        return false;
    }
    let mut i: usize = 0;
    while i < a.len()
        invariant
            i <= a@.len(),
            a@.len() == b@.len(),
            forall|p: int| 0 <= p < i ==> a@[p] == b@[p],
        decreases a@.len() - i,
    {
        if a[i] != b[i] {
            return false;
        }
        i += 1;
    }
    proof {
        assert(a@ =~= b@);
    }
    true
}

/// A fresh vector holding the same bytes as `v`.
pub fn clone_bytes(v: &Vec<u8>) -> (r: Vec<u8>)
    ensures
        r@ == v@,
{
    let mut out: Vec<u8> = Vec::new();
    let mut i: usize = 0;
    while i < v.len()
        invariant
            i <= v@.len(),
            out@ =~= v@.subrange(0, i as int),
        decreases v@.len() - i,
    {
        out.push(v[i]);
        i += 1;
    }
    proof {
        assert(v@.subrange(0, v@.len() as int) =~= v@);
    }
    out
}

} // verus!
