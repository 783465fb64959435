//! Deterministic index-to-candidate enumeration.
//!
//! A keyspace is the set of all strings of a fixed `length` over a fixed
//! `alphabet` of distinct bytes. `decode` maps a linear index to a candidate
//! by reading the index as a mixed-radix number in base `alphabet.len()`,
//! filling candidate positions from the last to the first; `encode` is its
//! inverse. Both directions are proved to form a bijection over
//! `[0, alphabet.len() ^ length)`.

use vstd::prelude::*;
use vstd::arithmetic::power::pow;

verus! {

/// The full keyspace for one alphabet and candidate length.
///
/// `total` caches `alphabet.len() ^ length`, which is required to fit in
/// `u64` so that every index of the keyspace is addressable.
pub struct Keyspace {
    pub alphabet: Vec<u8>,
    pub length: usize,
    pub total: u64,
}

impl Keyspace {
    /// The alphabet is non-empty, its bytes are distinct, and the cached
    /// keyspace size is exactly `alphabet.len() ^ length`.
    pub open spec fn wf(self) -> bool {
        &&& self.alphabet@.len() >= 1
        &&& (forall|i: int, j: int|
            0 <= i < j < self.alphabet@.len() ==> self.alphabet@[i] != self.alphabet@[j])
        &&& self.total as int == pow(self.alphabet@.len() as int, self.length as nat)
    }

    pub open spec fn spec_alphabet(self) -> Seq<u8> {
        self.alphabet@
    }

    pub open spec fn spec_length(self) -> nat {
        self.length as nat
    }

    pub open spec fn spec_total(self) -> int {
        self.total as int
    }

    /// Builds a keyspace, rejecting an empty alphabet, a repeated alphabet
    /// byte, and a keyspace size that does not fit in `u64`.
    pub fn new(alphabet: Vec<u8>, length: usize) -> (r: Option<Keyspace>)
        ensures
            match r {
                Some(ks) => {
                    &&& ks.wf()
                    &&& ks.spec_alphabet() == alphabet@
                    &&& ks.spec_length() == length as nat
                    &&& alphabet@.len() >= 1
                    &&& forall|i: int, j: int|
                        0 <= i < j < alphabet@.len() ==> alphabet@[i] != alphabet@[j]
                },
                None => {
                    ||| alphabet@.len() == 0
                    ||| exists|i: int, j: int|
                        0 <= i < j < alphabet@.len() && alphabet@[i] == alphabet@[j]
                    ||| pow(alphabet@.len() as int, length as nat) > u64::MAX
                },
            },
    {
        if alphabet.len() == 0 {
            return None;
        }
        if !all_distinct(&alphabet) {
            return None;
        }
        match checked_pow(alphabet.len() as u64, length) {
            Some(total) => Some(Keyspace { alphabet, length, total }),
            None => None,
        }
    }

    /// Decodes a linear index into its candidate, filling positions from
    /// the last to the first: each step takes `alphabet[index % base]` and
    /// then divides the index by the base.
    pub fn decode(&self, index: u64) -> (r: Vec<u8>)
        requires
            self.wf(),
            (index as int) < self.spec_total(),
        ensures
            r@ == decode_spec(self.spec_alphabet(), self.spec_length(), index as int),
            r@.len() == self.spec_length(),
            candidate_in(self.spec_alphabet(), r@),
    {
        let ghost alpha = self.alphabet@;
        let ghost b_int = self.alphabet@.len() as int;
        let b: u64 = self.alphabet.len() as u64;
        let mut out: Vec<u8> = Vec::new();
        while out.len() < self.length
            invariant
                out@.len() <= self.length,
            decreases self.length - out@.len(),
        {
            out.push(0u8);
        }
        let mut idx: u64 = index;
        let mut j: usize = self.length;
        proof {
            vstd::arithmetic::power::lemma_pow0(b_int);
            vstd::arithmetic::div_mod::lemma_div_basics(index as int);
        }
        while j > 0
            invariant
                self.wf(),
                alpha == self.alphabet@,
                b_int == alpha.len() as int,
                b as int == b_int,
                b_int <= usize::MAX,
                j <= self.length,
                out@.len() == self.length,
                idx as int == index as int / pow(b_int, (self.length - j) as nat),
                out@.subrange(j as int, self.length as int) == decode_spec(
                    alpha,
                    (self.length - j) as nat,
                    index as int,
                ),
            decreases j,
        {
            j -= 1;
            let ghost done = (self.length - j - 1) as nat;
            proof {
                vstd::arithmetic::power::lemma_pow_positive(b_int, done);
                vstd::arithmetic::div_mod::lemma_mod_bound(idx as int, b_int);
            }
            assert(idx as int % b_int < b_int && b_int <= usize::MAX);
            let d = (idx % b) as usize;
            let ghost before = out@;
            out[j] = self.alphabet[d];
            idx = idx / b;
            proof {
                lemma_decode_front(alpha, done, index as int);
                let lhs = out@.subrange(j as int, self.length as int);
                let rhs = seq![alpha[(index as int / pow(b_int, done)) % b_int]]
                    + decode_spec(alpha, done, index as int);
                assert(before.subrange(j as int + 1, self.length as int) == decode_spec(
                    alpha,
                    done,
                    index as int,
                ));
                lemma_decode_len(alpha, done, index as int);
                assert forall|t: int| 0 <= t < lhs.len() implies lhs[t] == rhs[t] by {
                    if t == 0 {
                        assert(lhs[0] == alpha[d as int]);
                    } else {
                        assert(lhs[t] == before[j + t]);
                        assert(rhs[t] == before.subrange(j as int + 1, self.length as int)[t
                            - 1]);
                    }
                }
                assert(lhs =~= rhs);
                assert(out@.subrange(j as int, self.length as int) == decode_spec(
                    alpha,
                    (self.length - j) as nat,
                    index as int,
                ));
                vstd::arithmetic::div_mod::lemma_div_denominator(
                    index as int,
                    pow(b_int, done),
                    b_int,
                );
                vstd::arithmetic::power::lemma_pow_adds(b_int, done, 1nat);
                vstd::arithmetic::power::lemma_pow1(b_int);
                assert(idx as int == index as int / pow(b_int, (self.length - j) as nat));
            }
        }
        proof {
            assert(out@ =~= out@.subrange(0, self.length as int));
            lemma_decode_bijective(*self, index as int);
        }
        out
    }

    /// Re-derives the linear index of a candidate made of alphabet bytes:
    /// the inverse mixed-radix reconstruction.
    pub fn encode(&self, candidate: &Vec<u8>) -> (r: u64)
        requires
            self.wf(),
            candidate@.len() == self.spec_length(),
            candidate_in(self.spec_alphabet(), candidate@),
        ensures
            r as int == encode_spec(self.spec_alphabet(), candidate@),
            (r as int) < self.spec_total(),
    {
        let ghost alpha = self.alphabet@;
        let ghost b_int = self.alphabet@.len() as int;
        let b: u64 = self.alphabet.len() as u64;
        let mut acc: u64 = 0;
        let mut j: usize = 0;
        while j < candidate.len()
            invariant
                self.wf(),
                alpha == self.alphabet@,
                b_int == alpha.len() as int,
                b as int == b_int,
                candidate@.len() == self.spec_length(),
                candidate_in(alpha, candidate@),
                j <= candidate@.len(),
                acc as int == encode_spec(alpha, candidate@.take(j as int)),
            decreases candidate@.len() - j,
        {
            let ch = candidate[j];
            assert(alpha.contains(ch));
            let k = find_index(&self.alphabet, ch);
            proof {
                lemma_alpha_index(alpha, k as int);
                let next = candidate@.take(j as int + 1);
                assert(next.drop_last() =~= candidate@.take(j as int));
                assert(next.last() == ch);
                assert(encode_spec(alpha, next) == acc as int * b_int + k as int);
                assert(candidate_in(alpha, next));
                lemma_encode_bound(alpha, next);
                lemma_pow_grows(b_int, (j + 1) as nat, self.spec_length());
            }
            acc = acc * b + (k as u64);
            j += 1;
        }
        proof {
            assert(candidate@.take(candidate@.len() as int) =~= candidate@);
            lemma_encode_bound(alpha, candidate@);
        }
        acc
    }

    /// The number of candidates in the keyspace.
    pub fn total(&self) -> (r: u64)
        ensures
            r as int == self.spec_total(),
    {
        self.total
    }

    /// The candidate length.
    pub fn length(&self) -> (r: usize)
        ensures
            r as nat == self.spec_length(),
    {
        self.length
    }
}

/// The candidate that index `i` decodes to: the last `count` mixed-radix
/// digits of `i` in base `alpha.len()`, the last position taking `i % base`.
pub open spec fn decode_spec(alpha: Seq<u8>, count: nat, i: int) -> Seq<u8>
    decreases count,
{
    if count == 0 {
        Seq::empty()
    } else {
        decode_spec(alpha, (count - 1) as nat, i / alpha.len() as int).push(
            alpha[i % alpha.len() as int],
        )
    }
}

/// Every byte of `s` occurs in `alpha`.
pub open spec fn candidate_in(alpha: Seq<u8>, s: Seq<u8>) -> bool {
    forall|j: int| 0 <= j < s.len() ==> alpha.contains(s[j])
}

/// The position of `ch` in `alpha` (meaningful when `alpha` has distinct
/// bytes and contains `ch`).
pub open spec fn alpha_index(alpha: Seq<u8>, ch: u8) -> int {
    choose|k: int| 0 <= k < alpha.len() && alpha[k] == ch
}

/// The index that candidate `s` encodes to: the inverse mixed-radix
/// reconstruction, reading digit values off the alphabet positions.
pub open spec fn encode_spec(alpha: Seq<u8>, s: Seq<u8>) -> int
    decreases s.len(),
{
    if s.len() == 0 {
        0
    } else {
        encode_spec(alpha, s.drop_last()) * alpha.len() + alpha_index(alpha, s.last())
    }
}

/// A decoded candidate always has exactly `count` positions.
proof fn lemma_decode_len(alpha: Seq<u8>, count: nat, i: int)
    ensures
        decode_spec(alpha, count, i).len() == count,
    decreases count,
{
    if count > 0 {
        lemma_decode_len(alpha, (count - 1) as nat, i / alpha.len() as int);
    }
}

/// Peeling the front digit: the first position of a decoded candidate of
/// `count + 1` positions holds digit `(i / base^count) % base`.
proof fn lemma_decode_front(alpha: Seq<u8>, count: nat, i: int)
    requires
        alpha.len() >= 1,
        i >= 0,
    ensures
        decode_spec(alpha, (count + 1) as nat, i) =~= seq![
            alpha[(i / pow(alpha.len() as int, count)) % alpha.len() as int],
        ] + decode_spec(alpha, count, i),
    decreases count,
{
    let b = alpha.len() as int;
    vstd::arithmetic::power::lemma_pow_positive(b, count);
    if count == 0 {
        vstd::arithmetic::power::lemma_pow0(b);
        vstd::arithmetic::div_mod::lemma_div_basics(i);
        assert(i / pow(b, 0) == i);
        assert(decode_spec(alpha, 1, i) == decode_spec(alpha, 0, i / b).push(alpha[i % b]));
        assert(decode_spec(alpha, 1, i) =~= seq![alpha[i % b]]);
        assert(seq![alpha[i % b]] + decode_spec(alpha, 0, i) =~= seq![alpha[i % b]]);
    } else {
        vstd::arithmetic::div_mod::lemma_div_pos_is_pos(i, b);
        lemma_decode_front(alpha, (count - 1) as nat, i / b);
        vstd::arithmetic::power::lemma_pow_positive(b, (count - 1) as nat);
        assert(pow(b, count) == b * pow(b, (count - 1) as nat)) by {
            vstd::arithmetic::power::lemma_pow_adds(b, 1nat, (count - 1) as nat);
            vstd::arithmetic::power::lemma_pow1(b);
        }
        vstd::arithmetic::div_mod::lemma_div_denominator(i, b, pow(b, (count - 1) as nat));
        assert((i / b) / pow(b, (count - 1) as nat) == i / pow(b, count));
        let x = alpha[(i / pow(b, count)) % b];
        let rest = decode_spec(alpha, (count - 1) as nat, i / b);
        assert(decode_spec(alpha, count, i / b) == seq![x] + rest);
        assert(decode_spec(alpha, (count + 1) as nat, i) == decode_spec(alpha, count, i / b).push(
            alpha[i % b],
        ));
        assert((seq![x] + rest).push(alpha[i % b]) =~= seq![x] + rest.push(alpha[i % b]));
        assert(decode_spec(alpha, count, i) == rest.push(alpha[i % b]));
    }
}

/// With distinct alphabet bytes, `alpha_index` recovers the position of any
/// alphabet byte.
proof fn lemma_alpha_index(alpha: Seq<u8>, k: int)
    requires
        forall|p: int, q: int| 0 <= p < q < alpha.len() ==> alpha[p] != alpha[q],
        0 <= k < alpha.len(),
    ensures
        alpha_index(alpha, alpha[k]) == k,
{
    assert(0 <= k < alpha.len() && alpha[k] == alpha[k]);
    let k2 = alpha_index(alpha, alpha[k]);
    assert(0 <= k2 < alpha.len() && alpha[k2] == alpha[k]);
    if k2 < k {
        assert(alpha[k2] != alpha[k]);
    } else if k < k2 {
        assert(alpha[k] != alpha[k2]);
    }
}

/// A candidate of valid bytes encodes below `base ^ length`.
proof fn lemma_encode_bound(alpha: Seq<u8>, s: Seq<u8>)
    requires
        alpha.len() >= 1,
        candidate_in(alpha, s),
    ensures
        0 <= encode_spec(alpha, s) < pow(alpha.len() as int, s.len()),
    decreases s.len(),
{
    let b = alpha.len() as int;
    if s.len() == 0 {
        vstd::arithmetic::power::lemma_pow0(b);
    } else {
        assert(candidate_in(alpha, s.drop_last()));
        lemma_encode_bound(alpha, s.drop_last());
        let e = encode_spec(alpha, s.drop_last());
        let p = pow(b, (s.len() - 1) as nat);
        let d = alpha_index(alpha, s.last());
        assert(alpha.contains(s.last()));
        assert(0 <= d < b);
        assert(pow(b, s.len()) == b * p) by {
            vstd::arithmetic::power::lemma_pow_adds(b, 1nat, (s.len() - 1) as nat);
            vstd::arithmetic::power::lemma_pow1(b);
        }
        assert(0 <= e * b + d < b * p) by (nonlinear_arith)
            requires
                0 <= e < p,
                0 <= d < b,
                1 <= b,
        {}
    }
}

/// Re-deriving the index of a decoded candidate gives the index back.
proof fn lemma_encode_of_decode(alpha: Seq<u8>, count: nat, i: int)
    requires
        alpha.len() >= 1,
        forall|p: int, q: int| 0 <= p < q < alpha.len() ==> alpha[p] != alpha[q],
        0 <= i < pow(alpha.len() as int, count),
    ensures
        candidate_in(alpha, decode_spec(alpha, count, i)),
        encode_spec(alpha, decode_spec(alpha, count, i)) == i,
    decreases count,
{
    let b = alpha.len() as int;
    if count == 0 {
        vstd::arithmetic::power::lemma_pow0(b);
    } else {
        let p = pow(b, (count - 1) as nat);
        vstd::arithmetic::power::lemma_pow_positive(b, (count - 1) as nat);
        assert(pow(b, count) == b * p) by {
            vstd::arithmetic::power::lemma_pow_adds(b, 1nat, (count - 1) as nat);
            vstd::arithmetic::power::lemma_pow1(b);
        }
        vstd::arithmetic::div_mod::lemma_div_pos_is_pos(i, b);
        vstd::arithmetic::div_mod::lemma_multiply_divide_lt(i, b, p);
        lemma_encode_of_decode(alpha, (count - 1) as nat, i / b);
        let rest = decode_spec(alpha, (count - 1) as nat, i / b);
        let whole = decode_spec(alpha, count, i);
        vstd::arithmetic::div_mod::lemma_mod_bound(i, b);
        assert(alpha.contains(alpha[i % b]));
        assert(whole == rest.push(alpha[i % b]));
        lemma_decode_len(alpha, (count - 1) as nat, i / b);
        assert(whole.drop_last() =~= rest);
        assert(whole.last() == alpha[i % b]);
        assert(candidate_in(alpha, whole));
        lemma_alpha_index(alpha, i % b);
        assert(encode_spec(alpha, whole) == (i / b) * b + i % b);
        vstd::arithmetic::div_mod::lemma_fundamental_div_mod(i, b);
        vstd::arithmetic::mul::lemma_mul_is_commutative(b, i / b);
    }
}

/// Decoding the index of a valid candidate gives the candidate back.
proof fn lemma_decode_of_encode(alpha: Seq<u8>, s: Seq<u8>)
    requires
        alpha.len() >= 1,
        forall|p: int, q: int| 0 <= p < q < alpha.len() ==> alpha[p] != alpha[q],
        candidate_in(alpha, s),
    ensures
        decode_spec(alpha, s.len(), encode_spec(alpha, s)) =~= s,
    decreases s.len(),
{
    let b = alpha.len() as int;
    if s.len() > 0 {
        assert(candidate_in(alpha, s.drop_last()));
        lemma_decode_of_encode(alpha, s.drop_last());
        lemma_encode_bound(alpha, s.drop_last());
        let e2 = encode_spec(alpha, s.drop_last());
        let d = alpha_index(alpha, s.last());
        assert(alpha.contains(s.last()));
        assert(0 <= d < b && alpha[d] == s.last());
        let e = encode_spec(alpha, s);
        assert(e == e2 * b + d);
        vstd::arithmetic::div_mod::lemma_fundamental_div_mod_converse(e, b, e2, d);
        assert(e / b == e2 && e % b == d);
        assert(decode_spec(alpha, s.len(), e) == decode_spec(
            alpha,
            (s.len() - 1) as nat,
            e2,
        ).push(alpha[d]));
    }
}

/// Law: for alphabet size `b` and length `L`, `decode` is injective over
/// `[0, b^L)` — re-deriving the index of the candidate that `i` decodes to
/// returns `i`, and the candidate draws only on alphabet bytes.
pub proof fn lemma_decode_bijective(ks: Keyspace, i: int)
    requires
        ks.wf(),
        0 <= i < ks.spec_total(),
    ensures
        decode_spec(ks.spec_alphabet(), ks.spec_length(), i).len() == ks.spec_length(),
        candidate_in(ks.spec_alphabet(), decode_spec(ks.spec_alphabet(), ks.spec_length(), i)),
        encode_spec(
            ks.spec_alphabet(),
            decode_spec(ks.spec_alphabet(), ks.spec_length(), i),
        ) == i,
{
    lemma_decode_len(ks.spec_alphabet(), ks.spec_length(), i);
    lemma_encode_of_decode(ks.spec_alphabet(), ks.spec_length(), i);
}

/// Law: `decode` is surjective onto the candidates of the keyspace — every
/// candidate of valid bytes is decoded from exactly its own index, which
/// lies in `[0, b^L)`.
pub proof fn lemma_decode_surjective(ks: Keyspace, s: Seq<u8>)
    requires
        ks.wf(),
        s.len() == ks.spec_length(),
        candidate_in(ks.spec_alphabet(), s),
    ensures
        0 <= encode_spec(ks.spec_alphabet(), s) < ks.spec_total(),
        decode_spec(ks.spec_alphabet(), ks.spec_length(), encode_spec(ks.spec_alphabet(), s))
            =~= s,
{
    lemma_encode_bound(ks.spec_alphabet(), s);
    lemma_decode_of_encode(ks.spec_alphabet(), s);
}

/// True when all bytes of `v` are distinct.
fn all_distinct(v: &Vec<u8>) -> (r: bool)
    ensures
        r == forall|i: int, j: int| 0 <= i < j < v@.len() ==> v@[i] != v@[j],
{
    let mut i: usize = 0;
    while i < v.len()
        invariant
            i <= v@.len(),
            forall|p: int, q: int| 0 <= p < q < v@.len() && p < i ==> v@[p] != v@[q],
        decreases v@.len() - i,
    {
        let mut j: usize = i + 1;
        while j < v.len()
            invariant
                i < j,
                j <= v@.len(),
                i < v@.len(),
                forall|q: int| (i as int) < q < j ==> v@[i as int] != v@[q],
            decreases v@.len() - j,
        {
            if v[i] == v[j] {
                return false;
            }
            j += 1;
        }
        i += 1;
    }
    true
}

/// Position of `ch` in `v`, when `v` holds it.
fn find_index(v: &Vec<u8>, ch: u8) -> (r: usize)
    requires
        v@.contains(ch),
    ensures
        r < v@.len(),
        v@[r as int] == ch,
{
    let mut k: usize = 0;
    while k < v.len()
        invariant
            k <= v@.len(),
            v@.contains(ch),
            forall|p: int| 0 <= p < k ==> v@[p] != ch,
        decreases v@.len() - k,
    {
        if v[k] == ch {
            return k;
        }
        k += 1;
    }
    proof {
        let w = choose|p: int| 0 <= p < v@.len() && v@[p] == ch;
        assert(false);
    }
    0
}

/// `base ^ exp` when it fits in `u64`, `None` otherwise.
fn checked_pow(base: u64, exp: usize) -> (r: Option<u64>)
    requires
        base >= 1,
    ensures
        match r {
            Some(v) => v as int == pow(base as int, exp as nat),
            None => pow(base as int, exp as nat) > u64::MAX,
        },
{
    let mut acc: u64 = 1;
    let mut k: usize = 0;
    proof {
        vstd::arithmetic::power::lemma_pow0(base as int);
    }
    while k < exp
        invariant
            k <= exp,
            base >= 1,
            acc as int == pow(base as int, k as nat),
        decreases exp - k,
    {
        proof {
            vstd::arithmetic::power::lemma_pow_adds(base as int, k as nat, 1nat);
            vstd::arithmetic::power::lemma_pow1(base as int);
        }
        match acc.checked_mul(base) {
            Some(next) => {
                acc = next;
            },
            None => {
                proof {
                    lemma_pow_grows(base as int, (k + 1) as nat, exp as nat);
                }
                return None;
            },
        }
        k += 1;
    }
    Some(acc)
}

/// `pow` is monotone in the exponent for a positive base.
proof fn lemma_pow_grows(b: int, e1: nat, e2: nat)
    requires
        b >= 1,
        e1 <= e2,
    ensures
        pow(b, e1) <= pow(b, e2),
{
    vstd::arithmetic::power::lemma_pow_increases(b as nat, e1, e2);
}

} // verus!
