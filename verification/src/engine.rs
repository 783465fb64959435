//! The search engines.
//!
//! Both engines scan the keyspace in enumeration order, record every hit
//! through the idempotent insert of the result collection, and stop once
//! every target digest has been recovered or the keyspace is exhausted.
//! The sequential engine scans alone; the parallel engine splits the scan
//! into batches of per-worker ranges handed to a rayon worker pool, merging
//! each batch in range order. Both are proved to return the map
//! `search_results`, so their outcomes are identical.

use vstd::prelude::*;
use vstd::arithmetic::power::pow;
use rayon::iter::{IntoParallelRefIterator, ParallelIterator};
use crate::keyspace::{Keyspace, decode_spec};
use crate::matcher::{match_spec, check_password};
use crate::targets::{TargetSet, HashType, target_pairs};
use crate::results::{FoundEntry, ResultCollection, found_pairs};
use crate::digest::{hex_of, md5_of, sha256_of};
use crate::assoc::lemma_map_of_len;

verus! {

/// How many indices one worker takes per batch of the parallel engine.
pub const BATCH_CHUNK: u64 = 16384;

/// The hit that index `i` contributes: the matched pair, or nothing.
pub open spec fn hit_at(ks: Keyspace, targets: Map<Seq<u8>, HashType>, i: int) -> Seq<
    (Seq<u8>, Seq<u8>),
> {
    match match_spec(decode_spec(ks.spec_alphabet(), ks.spec_length(), i), targets) {
        Some(p) => seq![p],
        None => Seq::empty(),
    }
}

/// All hits of the index range `[lo, hi)`, in enumeration order.
pub open spec fn hits_spec(
    ks: Keyspace,
    targets: Map<Seq<u8>, HashType>,
    lo: int,
    hi: int,
) -> Seq<(Seq<u8>, Seq<u8>)>
    decreases hi - lo,
{
    if lo >= hi {
        Seq::empty()
    } else {
        hit_at(ks, targets, lo) + hits_spec(ks, targets, lo + 1, hi)
    }
}

/// One idempotent insert: a pair whose digest is already recorded is
/// dropped.
pub open spec fn found_step(m: Map<Seq<u8>, Seq<u8>>, p: (Seq<u8>, Seq<u8>)) -> Map<
    Seq<u8>,
    Seq<u8>,
> {
    if m.contains_key(p.0) {
        m
    } else {
        m.insert(p.0, p.1)
    }
}

/// All pairs of `hits` inserted idempotently into `m`, in order.
pub open spec fn found_of(m: Map<Seq<u8>, Seq<u8>>, hits: Seq<(Seq<u8>, Seq<u8>)>) -> Map<
    Seq<u8>,
    Seq<u8>,
>
    decreases hits.len(),
{
    if hits.len() == 0 {
        m
    } else {
        found_of(found_step(m, hits[0]), hits.drop_first())
    }
}

/// What a search of the whole keyspace recovers: every hit of the full
/// index range, first preimage per digest.
pub open spec fn search_results(ks: Keyspace, targets: Map<Seq<u8>, HashType>) -> Map<
    Seq<u8>,
    Seq<u8>,
> {
    found_of(
        Map::empty(),
        hits_spec(ks, targets, 0, pow(ks.spec_alphabet().len() as int, ks.spec_length())),
    )
}

/// Hits over a split range concatenate.
proof fn lemma_hits_split(ks: Keyspace, t: Map<Seq<u8>, HashType>, lo: int, mid: int, hi: int)
    requires
        lo <= mid <= hi,
    ensures
        hits_spec(ks, t, lo, hi) == hits_spec(ks, t, lo, mid) + hits_spec(ks, t, mid, hi),
    decreases mid - lo,
{
    if lo == mid {
        assert(hits_spec(ks, t, lo, mid) + hits_spec(ks, t, mid, hi) =~= hits_spec(
            ks,
            t,
            mid,
            hi,
        ));
    } else {
        lemma_hits_split(ks, t, lo + 1, mid, hi);
        assert(hit_at(ks, t, lo) + (hits_spec(ks, t, lo + 1, mid) + hits_spec(ks, t, mid, hi))
            =~= (hit_at(ks, t, lo) + hits_spec(ks, t, lo + 1, mid)) + hits_spec(ks, t, mid, hi));
    }
}

/// Extending a range by one index appends that index's hit.
proof fn lemma_hits_snoc(ks: Keyspace, t: Map<Seq<u8>, HashType>, lo: int, hi: int)
    requires
        lo <= hi,
    ensures
        hits_spec(ks, t, lo, hi + 1) == hits_spec(ks, t, lo, hi) + hit_at(ks, t, hi),
{
    lemma_hits_split(ks, t, lo, hi, hi + 1);
    assert(hit_at(ks, t, hi) + hits_spec(ks, t, hi + 1, hi + 1) =~= hit_at(ks, t, hi));
}

/// Every hit's digest is a target key.
proof fn lemma_hits_keys(ks: Keyspace, t: Map<Seq<u8>, HashType>, lo: int, hi: int)
    ensures
        forall|q: int|
            0 <= q < hits_spec(ks, t, lo, hi).len() ==> t.contains_key(
                #[trigger] hits_spec(ks, t, lo, hi)[q].0,
            ),
    decreases hi - lo,
{
    if lo < hi {
        lemma_hits_keys(ks, t, lo + 1, hi);
        assert forall|q: int| 0 <= q < hits_spec(ks, t, lo, hi).len() implies t.contains_key(
            hits_spec(ks, t, lo, hi)[q].0,
        ) by {
            let head = hit_at(ks, t, lo);
            if q >= head.len() {
                assert(hits_spec(ks, t, lo, hi)[q] == hits_spec(ks, t, lo + 1, hi)[q
                    - head.len()]);
            }
        }
    }
}

/// Folding in pairs splits over concatenation.
proof fn lemma_found_of_concat(
    m: Map<Seq<u8>, Seq<u8>>,
    h1: Seq<(Seq<u8>, Seq<u8>)>,
    h2: Seq<(Seq<u8>, Seq<u8>)>,
)
    ensures
        found_of(m, h1 + h2) == found_of(found_of(m, h1), h2),
    decreases h1.len(),
{
    if h1.len() == 0 {
        assert(h1 + h2 =~= h2);
    } else {
        assert((h1 + h2)[0] == h1[0]);
        assert((h1 + h2).drop_first() =~= h1.drop_first() + h2);
        lemma_found_of_concat(found_step(m, h1[0]), h1.drop_first(), h2);
    }
}

/// Folding in one more pair is one idempotent insert.
proof fn lemma_found_of_snoc(
    m: Map<Seq<u8>, Seq<u8>>,
    h: Seq<(Seq<u8>, Seq<u8>)>,
    p: (Seq<u8>, Seq<u8>),
)
    ensures
        found_of(m, h.push(p)) == found_step(found_of(m, h), p),
{
    assert(h.push(p) =~= h + seq![p]);
    lemma_found_of_concat(m, h, seq![p]);
    let e = Seq::<(Seq<u8>, Seq<u8>)>::empty();
    assert(seq![p].drop_first() =~= e);
    assert(seq![p][0] == p);
    assert(found_of(found_of(m, h), seq![p]) == found_of(found_step(found_of(m, h), p), e));
    assert(found_of(found_step(found_of(m, h), p), e) == found_step(found_of(m, h), p));
}

/// A digest is recovered exactly when it was already recorded or some hit
/// lists it.
proof fn lemma_found_of_contains(
    m: Map<Seq<u8>, Seq<u8>>,
    hits: Seq<(Seq<u8>, Seq<u8>)>,
    k: Seq<u8>,
)
    ensures
        found_of(m, hits).contains_key(k) <==> (m.contains_key(k) || exists|q: int|
            0 <= q < hits.len() && hits[q].0 == k),
    decreases hits.len(),
{
    if hits.len() > 0 {
        lemma_found_of_contains(found_step(m, hits[0]), hits.drop_first(), k);
        let rest = hits.drop_first();
        if found_of(m, hits).contains_key(k) {
            if !m.contains_key(k) {
                if found_step(m, hits[0]).contains_key(k) {
                    assert(hits[0].0 == k);
                } else {
                    let w = choose|q: int| 0 <= q < rest.len() && rest[q].0 == k;
                    assert(hits[w + 1].0 == k);
                }
            }
        }
        if m.contains_key(k) {
            assert(found_step(m, hits[0]).contains_key(k));
        }
        if exists|q: int| 0 <= q < hits.len() && hits[q].0 == k {
            let w = choose|q: int| 0 <= q < hits.len() && hits[q].0 == k;
            if w == 0 {
                assert(found_step(m, hits[0]).contains_key(k));
            } else {
                assert(rest[w - 1].0 == k);
            }
        }
    }
}

/// Once the recorded digests cover every hit key, folding in more hits
/// changes nothing.
proof fn lemma_found_of_frozen(
    m: Map<Seq<u8>, Seq<u8>>,
    hits: Seq<(Seq<u8>, Seq<u8>)>,
    t: Map<Seq<u8>, HashType>,
)
    requires
        forall|q: int| 0 <= q < hits.len() ==> t.contains_key(#[trigger] hits[q].0),
        forall|k: Seq<u8>| t.contains_key(k) ==> m.contains_key(k),
    ensures
        found_of(m, hits) == m,
    decreases hits.len(),
{
    if hits.len() > 0 {
        assert(t.contains_key(hits[0].0));
        assert(found_step(m, hits[0]) == m);
        assert(forall|q: int|
            0 <= q < hits.drop_first().len() ==> t.contains_key(
                #[trigger] hits.drop_first()[q].0,
            ));
        lemma_found_of_frozen(m, hits.drop_first(), t);
    }
}

/// Law: early termination is sound — once the digests recovered from the
/// first `n` indices number as many as the targets, scanning the remaining
/// indices adds nothing to the outcome.
pub proof fn lemma_early_termination(
    ks: Keyspace,
    t: Map<Seq<u8>, HashType>,
    n: int,
    total: int,
)
    requires
        t.dom().finite(),
        0 <= n <= total,
        found_of(Map::empty(), hits_spec(ks, t, 0, n)).dom().len() == t.dom().len(),
    ensures
        found_of(Map::empty(), hits_spec(ks, t, 0, total)) == found_of(
            Map::empty(),
            hits_spec(ks, t, 0, n),
        ),
{
    let found = found_of(Map::<Seq<u8>, Seq<u8>>::empty(), hits_spec(ks, t, 0, n));
    lemma_hits_keys(ks, t, 0, n);
    assert forall|k: Seq<u8>| found.contains_key(k) implies t.contains_key(k) by {
        lemma_found_of_contains(Map::empty(), hits_spec(ks, t, 0, n), k);
        let q = choose|q: int| 0 <= q < hits_spec(ks, t, 0, n).len() && hits_spec(ks, t, 0, n)[q].0
            == k;
        assert(t.contains_key(hits_spec(ks, t, 0, n)[q].0));
    }
    assert(found.dom().subset_of(t.dom()));
    vstd::set_lib::lemma_len_subset(found.dom(), t.dom());
    vstd::set_lib::lemma_subset_equality(found.dom(), t.dom());
    lemma_hits_split(ks, t, 0, n, total);
    lemma_found_of_concat(Map::empty(), hits_spec(ks, t, 0, n), hits_spec(ks, t, n, total));
    lemma_hits_keys(ks, t, n, total);
    assert forall|k: Seq<u8>| t.contains_key(k) implies found.contains_key(k) by {
        assert(found.dom() =~= t.dom());
    }
    lemma_found_of_frozen(found, hits_spec(ks, t, n, total), t);
}

/// Law: the outcome never exceeds the target set — every recovered digest
/// is a target key, so the collection holds at most as many entries as
/// there are targets.
pub proof fn lemma_results_within_targets(ks: Keyspace, t: Map<Seq<u8>, HashType>)
    requires
        t.dom().finite(),
    ensures
        forall|k: Seq<u8>| #[trigger] search_results(ks, t).contains_key(k) ==> t.contains_key(k),
        search_results(ks, t).dom().finite(),
        search_results(ks, t).dom().len() <= t.dom().len(),
{
    let total = pow(ks.spec_alphabet().len() as int, ks.spec_length());
    lemma_hits_keys(ks, t, 0, total);
    assert forall|k: Seq<u8>| search_results(ks, t).contains_key(k) implies t.contains_key(
        k,
    ) by {
        lemma_found_of_contains(Map::empty(), hits_spec(ks, t, 0, total), k);
        let q = choose|q: int|
            0 <= q < hits_spec(ks, t, 0, total).len() && hits_spec(ks, t, 0, total)[q].0 == k;
        assert(t.contains_key(hits_spec(ks, t, 0, total)[q].0));
    }
    assert(search_results(ks, t).dom().subset_of(t.dom()));
    vstd::set_lib::lemma_len_subset(search_results(ks, t).dom(), t.dom());
}

/// Law: engine equivalence — any two outcomes pinned to `search_results`
/// for the same keyspace and target set are the same mapping, whatever
/// worker count produced them.
pub proof fn lemma_engine_equivalence(
    ks: Keyspace,
    t: Map<Seq<u8>, HashType>,
    r1: Map<Seq<u8>, Seq<u8>>,
    r2: Map<Seq<u8>, Seq<u8>>,
)
    requires
        r1 == search_results(ks, t),
        r2 == search_results(ks, t),
    ensures
        r1 == r2,
{
}

/// Law: a target digest that no candidate of the keyspace digests to is
/// absent from the outcome of a full search — exhaustion without full
/// coverage is a legitimate terminal state, not an error.
pub proof fn lemma_unrecoverable_target(ks: Keyspace, t: Map<Seq<u8>, HashType>, d: Seq<u8>)
    requires
        forall|i: int|
            0 <= i < pow(ks.spec_alphabet().len() as int, ks.spec_length()) ==> {
                let cand = #[trigger] decode_spec(ks.spec_alphabet(), ks.spec_length(), i);
                hex_of(md5_of(cand)) != d && hex_of(sha256_of(cand)) != d
            },
    ensures
        !search_results(ks, t).contains_key(d),
{
    let total = pow(ks.spec_alphabet().len() as int, ks.spec_length());
    lemma_hits_avoid(ks, t, 0, total, d);
    lemma_found_of_contains(Map::empty(), hits_spec(ks, t, 0, total), d);
}

/// No hit of `[lo, hi)` carries digest `d` when no candidate of the range
/// digests to `d`.
proof fn lemma_hits_avoid(ks: Keyspace, t: Map<Seq<u8>, HashType>, lo: int, hi: int, d: Seq<u8>)
    requires
        forall|i: int|
            lo <= i < hi ==> {
                let cand = #[trigger] decode_spec(ks.spec_alphabet(), ks.spec_length(), i);
                hex_of(md5_of(cand)) != d && hex_of(sha256_of(cand)) != d
            },
    ensures
        forall|q: int| 0 <= q < hits_spec(ks, t, lo, hi).len() ==> #[trigger] hits_spec(
            ks,
            t,
            lo,
            hi,
        )[q].0 != d,
    decreases hi - lo,
{
    if lo < hi {
        lemma_hits_avoid(ks, t, lo + 1, hi, d);
        assert forall|q: int| 0 <= q < hits_spec(ks, t, lo, hi).len() implies hits_spec(
            ks,
            t,
            lo,
            hi,
        )[q].0 != d by {
            let head = hit_at(ks, t, lo);
            if q < head.len() {
                assert(decode_spec(ks.spec_alphabet(), ks.spec_length(), lo)
                    == decode_spec(ks.spec_alphabet(), ks.spec_length(), lo));
            } else {
                assert(hits_spec(ks, t, lo, hi)[q] == hits_spec(ks, t, lo + 1, hi)[q
                    - head.len()]);
            }
        }
    }
}

/// Sequential reference engine: scans the whole keyspace in enumeration
/// order, records each hit idempotently, and returns early once every
/// target digest has been recovered. The outcome is exactly
/// `search_results`.
pub fn sequential_search(ks: &Keyspace, targets: &TargetSet) -> (r: ResultCollection)
    requires
        ks.wf(),
        targets.wf(),
        targets@.dom().len() >= 1,
    ensures
        r.wf(),
        r@ == search_results(*ks, targets@),
{
    let total = ks.total();
    let target_count = targets.len();
    let mut found = ResultCollection::new();
    let mut i: u64 = 0;
    proof {
        assert(hits_spec(*ks, targets@, 0, 0) =~= Seq::<(Seq<u8>, Seq<u8>)>::empty());
    }
    while i < total
        invariant
            ks.wf(),
            targets.wf(),
            found.wf(),
            i <= total,
            total as int == ks.spec_total(),
            target_count == targets@.dom().len(),
            found@ == found_of(Map::empty(), hits_spec(*ks, targets@, 0, i as int)),
        decreases total - i,
    {
        let cand = ks.decode(i);
        let hit = check_password(&cand, targets);
        proof {
            lemma_hits_snoc(*ks, targets@, 0, i as int);
        }
        match hit {
            Some(e) => {
                let ghost p = (e.digest@, e.plaintext@);
                proof {
                    assert(hit_at(*ks, targets@, i as int) =~= seq![p]);
                    assert(hits_spec(*ks, targets@, 0, i as int) + seq![p] =~= hits_spec(
                        *ks,
                        targets@,
                        0,
                        i as int,
                    ).push(p));
                    lemma_found_of_snoc(Map::empty(), hits_spec(*ks, targets@, 0, i as int), p);
                }
                found.insert_if_absent(e);
                if found.len() == target_count {
                    proof {
                        lemma_map_of_len(target_pairs(targets.entries@));
                        lemma_early_termination(*ks, targets@, i as int + 1, total as int);
                    }
                    return found;
                }
            },
            None => {
                proof {
                    assert(hit_at(*ks, targets@, i as int) =~= Seq::<(Seq<u8>, Seq<u8>)>::empty());
                    assert(hits_spec(*ks, targets@, 0, i as int) + hit_at(*ks, targets@, i as int)
                        =~= hits_spec(*ks, targets@, 0, i as int));
                }
            },
        }
        i += 1;
    }
    found
}

/// Scans the index range `[lo, hi)` and returns every hit, in enumeration
/// order, without deduplication: one worker's share of the parallel scan.
pub fn search_range(ks: &Keyspace, targets: &TargetSet, lo: u64, hi: u64) -> (r: Vec<FoundEntry>)
    requires
        ks.wf(),
        lo <= hi,
        hi as int <= ks.spec_total(),
    ensures
        found_pairs(r@) == hits_spec(*ks, targets@, lo as int, hi as int),
{
    let mut out: Vec<FoundEntry> = Vec::new();
    let mut i: u64 = lo;
    proof {
        assert(found_pairs(out@) =~= Seq::<(Seq<u8>, Seq<u8>)>::empty());
        assert(hits_spec(*ks, targets@, lo as int, lo as int) =~= Seq::<(Seq<u8>, Seq<u8>)>::empty());
    }
    while i < hi
        invariant
            ks.wf(),
            lo <= i <= hi,
            hi as int <= ks.spec_total(),
            found_pairs(out@) == hits_spec(*ks, targets@, lo as int, i as int),
        decreases hi - i,
    {
        let cand = ks.decode(i);
        let hit = check_password(&cand, targets);
        proof {
            lemma_hits_snoc(*ks, targets@, lo as int, i as int);
        }
        match hit {
            Some(e) => {
                let ghost p = (e.digest@, e.plaintext@);
                let ghost before = out@;
                out.push(e);
                proof {
                    assert(hit_at(*ks, targets@, i as int) =~= seq![p]);
                    assert(found_pairs(out@) =~= found_pairs(before).push(p));
                    assert(hits_spec(*ks, targets@, lo as int, i as int) + seq![p] =~= hits_spec(
                        *ks,
                        targets@,
                        lo as int,
                        i as int,
                    ).push(p));
                }
            },
            None => {
                proof {
                    assert(hit_at(*ks, targets@, i as int) =~= Seq::<(Seq<u8>, Seq<u8>)>::empty());
                    assert(hits_spec(*ks, targets@, lo as int, i as int) + hit_at(
                        *ks,
                        targets@,
                        i as int,
                    ) =~= hits_spec(*ks, targets@, lo as int, i as int));
                }
            },
        }
        i += 1;
    }
    out
}

/// Relies on rayon's parallel iterator and thread pool: `par_iter` hands
/// every range to the pool, `map` applies the verified per-range search to
/// each, and `collect` keeps the input order, so slot `q` of the output
/// holds the hits of range `q`. The pool is created for this call and torn
/// down with it; if no pool can be built the ranges are still all searched.
#[verifier::external_body]
fn run_workers(
    ks: &Keyspace,
    targets: &TargetSet,
    worker_count: usize,
    ranges: &Vec<(u64, u64)>,
) -> (r: Vec<Vec<FoundEntry>>)
    requires
        ks.wf(),
        worker_count >= 1,
        forall|q: int|
            0 <= q < ranges@.len() ==> (#[trigger] ranges@[q]).0 <= ranges@[q].1
                && ranges@[q].1 as int <= ks.spec_total(),
    ensures
        r@.len() == ranges@.len(),
        forall|q: int|
            0 <= q < ranges@.len() ==> found_pairs((#[trigger] r@[q])@) == hits_spec(
                *ks,
                targets@,
                ranges@[q].0 as int,
                ranges@[q].1 as int,
            ),
{
    let work = || -> Vec<Vec<FoundEntry>> {
        ranges.par_iter().map(|range| search_range(ks, targets, range.0, range.1)).collect()
    };
    match rayon::ThreadPoolBuilder::new().num_threads(worker_count).build() {
        Ok(pool) => pool.install(work),
        Err(_) => work(),
    }
}

/// Parallel engine: partitions the remaining index range into per-worker
/// chunks, hands each batch to the worker pool, merges the workers' hits
/// in range order through the idempotent insert, and stops between batches
/// once every target digest has been recovered. The outcome is exactly
/// `search_results` — identical to the sequential engine's, independent of
/// the worker count.
pub fn parallel_search(ks: &Keyspace, targets: &TargetSet, worker_count: usize) -> (r:
    ResultCollection)
    requires
        ks.wf(),
        targets.wf(),
        targets@.dom().len() >= 1,
        worker_count >= 1,
    ensures
        r.wf(),
        r@ == search_results(*ks, targets@),
{
    let total = ks.total();
    let target_count = targets.len();
    let mut found = ResultCollection::new();
    let mut covered: u64 = 0;
    proof {
        assert(hits_spec(*ks, targets@, 0, 0) =~= Seq::<(Seq<u8>, Seq<u8>)>::empty());
    }
    while covered < total
        invariant
            ks.wf(),
            targets.wf(),
            found.wf(),
            worker_count >= 1,
            covered <= total,
            total as int == ks.spec_total(),
            target_count == targets@.dom().len(),
            found@ == found_of(Map::empty(), hits_spec(*ks, targets@, 0, covered as int)),
        decreases total - covered,
    {
        if found.len() == target_count {
            proof {
                lemma_map_of_len(target_pairs(targets.entries@));
                lemma_early_termination(*ks, targets@, covered as int, total as int);
            }
            return found;
        }
        let mut ranges: Vec<(u64, u64)> = Vec::new();
        let mut next: u64 = covered;
        let mut w: usize = 0;
        while w < worker_count && next < total
            invariant
                covered <= next <= total,
                w <= worker_count,
                ranges@.len() == w,
                ranges@.len() == 0 ==> next == covered,
                ranges@.len() > 0 ==> ranges@[0].0 == covered,
                ranges@.len() > 0 ==> ranges@.last().1 == next,
                ranges@.len() > 0 ==> next > covered,
                forall|q: int| 0 <= q < ranges@.len() ==> (#[trigger] ranges@[q]).0 < ranges@[q].1,
                forall|q: int| 0 <= q < ranges@.len() ==> (#[trigger] ranges@[q]).1 <= total,
                forall|q: int|
                    0 <= q < ranges@.len() - 1 ==> (#[trigger] ranges@[q]).1 == ranges@[q + 1].0,
            decreases worker_count - w,
        {
            let lo = next;
            let hi = if total - next > BATCH_CHUNK {
                next + BATCH_CHUNK
            } else {
                total
            };
            ranges.push((lo, hi));
            next = hi;
            w += 1;
        }
        let batch = run_workers(ks, targets, worker_count, &ranges);
        let ghost t = targets@;
        let ghost rngs = ranges@;
        let mut k: usize = 0;
        while k < ranges.len()
            invariant
                ks.wf(),
                targets.wf(),
                found.wf(),
                t == targets@,
                rngs == ranges@,
                batch@.len() == rngs.len(),
                k <= rngs.len(),
                rngs.len() > 0,
                covered < next <= total,
                total as int == ks.spec_total(),
                rngs[0].0 == covered,
                rngs.last().1 == next,
                forall|q: int| 0 <= q < rngs.len() ==> (#[trigger] rngs[q]).0 < rngs[q].1,
                forall|q: int| 0 <= q < rngs.len() ==> (#[trigger] rngs[q]).1 <= total,
                forall|q: int| 0 <= q < rngs.len() - 1 ==> (#[trigger] rngs[q]).1 == rngs[q + 1].0,
                forall|q: int|
                    0 <= q < rngs.len() ==> found_pairs((#[trigger] batch@[q])@) == hits_spec(
                        *ks,
                        t,
                        rngs[q].0 as int,
                        rngs[q].1 as int,
                    ),
                found@ == found_of(
                    Map::empty(),
                    hits_spec(
                        *ks,
                        t,
                        0,
                        if k == 0 {
                            covered as int
                        } else {
                            rngs[k - 1].1 as int
                        },
                    ),
                ),
            decreases rngs.len() - k,
        {
            let ghost base = found@;
            let row = &batch[k];
            let ghost rlo = rngs[k as int].0 as int;
            let ghost rhi = rngs[k as int].1 as int;
            proof {
                assert(base == found_of(Map::empty(), hits_spec(*ks, t, 0, rlo)));
                assert(found_pairs(row@).take(0) =~= Seq::<(Seq<u8>, Seq<u8>)>::empty());
            }
            let mut j: usize = 0;
            while j < row.len()
                invariant
                    found.wf(),
                    j <= row@.len(),
                    found_pairs(row@) == hits_spec(*ks, t, rlo, rhi),
                    base == found_of(Map::empty(), hits_spec(*ks, t, 0, rlo)),
                    found@ == found_of(base, found_pairs(row@).take(j as int)),
                decreases row@.len() - j,
            {
                let e = row[j].duplicate();
                let ghost p = (e.digest@, e.plaintext@);
                proof {
                    assert(found_pairs(row@)[j as int] == p);
                    assert(found_pairs(row@).take(j as int + 1) =~= found_pairs(row@).take(
                        j as int,
                    ).push(p));
                    lemma_found_of_snoc(base, found_pairs(row@).take(j as int), p);
                }
                found.insert_if_absent(e);
                j += 1;
            }
            proof {
                assert(found_pairs(row@).take(row@.len() as int) =~= found_pairs(row@));
                lemma_hits_split(*ks, t, 0, rlo, rhi);
                lemma_found_of_concat(
                    Map::empty(),
                    hits_spec(*ks, t, 0, rlo),
                    hits_spec(*ks, t, rlo, rhi),
                );
                assert(found@ == found_of(Map::empty(), hits_spec(*ks, t, 0, rhi)));
            }
            k += 1;
        }
        covered = next;
    }
    found
}

} // verus!
