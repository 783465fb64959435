//! The digest matcher.
//!
//! A candidate matches a target set when the lowercase hex encoding of one
//! of its digests is a target key. MD5 is checked before SHA-256 as a fixed
//! tie-break: a candidate whose digests hit under both algorithms is
//! reported once, under MD5.

use vstd::prelude::*;
use crate::digest::{hex_of, md5_of, sha256_of, md5_hex, sha256_hex};
use crate::targets::{TargetSet, HashType};
use crate::results::FoundEntry;
use crate::assoc::clone_bytes;

verus! {

/// The match a candidate produces against a target map: its MD5 hex digest
/// when that is a target key, else its SHA-256 hex digest when that is one,
/// else nothing.
pub open spec fn match_spec(cand: Seq<u8>, targets: Map<Seq<u8>, HashType>) -> Option<
    (Seq<u8>, Seq<u8>),
> {
    if targets.contains_key(hex_of(md5_of(cand))) {
        Some((hex_of(md5_of(cand)), cand))
    } else if targets.contains_key(hex_of(sha256_of(cand))) {
        Some((hex_of(sha256_of(cand)), cand))
    } else {
        None
    }
}

/// Computes the candidate's digests and checks them against the targets,
/// MD5 first, then SHA-256; returns the first hit, or nothing.
pub fn check_password(candidate: &Vec<u8>, targets: &TargetSet) -> (r: Option<FoundEntry>)
    ensures
        match r {
            Some(e) => match_spec(candidate@, targets@) == Some((e.digest@, e.plaintext@)),
            None => match_spec(candidate@, targets@) is None,
        },
{
    let m = md5_hex(candidate);
    if targets.contains(&m) {
        return Some(FoundEntry { digest: m, plaintext: clone_bytes(candidate) });
    }
    let s = sha256_hex(candidate);
    if targets.contains(&s) {
        return Some(FoundEntry { digest: s, plaintext: clone_bytes(candidate) });
    }
    None
}

} // verus!
