use md5::Digest;
use keycrack::engine::{sequential_search, parallel_search};
use keycrack::keyspace::Keyspace;
use keycrack::targets::TargetSet;

const MD5_APPLE: &str = "1f3870be274f6c49b3e31a0c6728957f";

fn az5() -> Keyspace {
    Keyspace::new(b"abcdefghijklmnopqrstuvwxyz".to_vec(), 5).unwrap()
}

fn md5_hex_of(data: &[u8]) -> String {
    hex::encode(md5::Md5::digest(data))
}

fn sha256_hex_of(data: &[u8]) -> String {
    hex::encode(sha2::Sha256::digest(data))
}

fn targets_of(digests: &[String]) -> TargetSet {
    let mut ts = TargetSet::new();
    for d in digests {
        ts.add_target(d).unwrap();
    }
    ts
}

#[test]
fn sequential_finds_md5_apple() {
    let ks = az5();
    let mut ts = TargetSet::new();
    ts.add_target(MD5_APPLE).unwrap();
    let found = sequential_search(&ks, &ts);
    assert_eq!(found.len(), 1);
    assert_eq!(found.get(&MD5_APPLE.as_bytes().to_vec()), Some(&b"apple".to_vec()));
}

#[test]
fn parallel_finds_md5_apple() {
    let ks = az5();
    let mut ts = TargetSet::new();
    ts.add_target(MD5_APPLE).unwrap();
    let found = parallel_search(&ks, &ts, 4);
    assert_eq!(found.len(), 1);
    assert_eq!(found.get(&MD5_APPLE.as_bytes().to_vec()), Some(&b"apple".to_vec()));
}

#[test]
fn sequential_finds_sha256_apple() {
    let ks = az5();
    let digest = sha256_hex_of(b"apple");
    let ts = targets_of(&[digest.clone()]);
    let found = sequential_search(&ks, &ts);
    assert_eq!(found.len(), 1);
    assert_eq!(found.get(&digest.into_bytes()), Some(&b"apple".to_vec()));
}

#[test]
fn parallel_finds_sha256_apple() {
    let ks = az5();
    let digest = sha256_hex_of(b"apple");
    let ts = targets_of(&[digest.clone()]);
    let found = parallel_search(&ks, &ts, 4);
    assert_eq!(found.len(), 1);
    assert_eq!(found.get(&digest.into_bytes()), Some(&b"apple".to_vec()));
}

#[test]
fn engines_agree_for_all_worker_counts() {
    let ks = Keyspace::new(b"abc".to_vec(), 3).unwrap();
    let digests = [
        md5_hex_of(b"aab"),
        sha256_hex_of(b"cba"),
        md5_hex_of(b"ccc"),
    ];
    let ts = targets_of(&digests.to_vec());
    let seq = sequential_search(&ks, &ts);
    assert_eq!(seq.len(), 3);
    for workers in [1usize, 2, 8] {
        let par = parallel_search(&ks, &ts, workers);
        assert_eq!(par.len(), seq.len());
        for d in &digests {
            let key = d.clone().into_bytes();
            assert_eq!(par.get(&key), seq.get(&key));
            assert!(par.get(&key).is_some());
        }
    }
}

// The full keyspace holds 11,881,376 candidates; scanning it all would far
// exceed the harness timeout, so finishing quickly is observable evidence
// that the engines stop early once every target is recovered.
#[test]
fn sequential_stops_early_when_all_targets_found() {
    let ks = az5();
    let ts = targets_of(&[md5_hex_of(b"aaaab")]);
    let found = sequential_search(&ks, &ts);
    assert_eq!(found.len(), 1);
    assert_eq!(found.get(&md5_hex_of(b"aaaab").into_bytes()), Some(&b"aaaab".to_vec()));
}

#[test]
fn parallel_stops_early_when_all_targets_found() {
    let ks = az5();
    let ts = targets_of(&[md5_hex_of(b"aaaaa")]);
    let found = parallel_search(&ks, &ts, 4);
    assert_eq!(found.len(), 1);
    assert_eq!(found.get(&md5_hex_of(b"aaaaa").into_bytes()), Some(&b"aaaaa".to_vec()));
}

#[test]
fn unrecoverable_target_yields_no_entry() {
    let ks = Keyspace::new(b"abc".to_vec(), 2).unwrap();
    let no_preimage = "0".repeat(32);
    let ts = targets_of(&[no_preimage.clone()]);
    let seq = sequential_search(&ks, &ts);
    assert_eq!(seq.len(), 0);
    assert_eq!(seq.get(&no_preimage.clone().into_bytes()), None);
    let par = parallel_search(&ks, &ts, 2);
    assert_eq!(par.len(), 0);
    assert_eq!(par.get(&no_preimage.into_bytes()), None);
}

#[test]
fn partially_recoverable_targets() {
    let ks = Keyspace::new(b"ab".to_vec(), 3).unwrap();
    let inside = md5_hex_of(b"aba");
    let outside = md5_hex_of(b"zzz");
    let ts = targets_of(&[inside.clone(), outside.clone()]);
    let seq = sequential_search(&ks, &ts);
    assert_eq!(seq.len(), 1);
    assert_eq!(seq.get(&inside.clone().into_bytes()), Some(&b"aba".to_vec()));
    assert_eq!(seq.get(&outside.clone().into_bytes()), None);
    let par = parallel_search(&ks, &ts, 8);
    assert_eq!(par.len(), 1);
    assert_eq!(par.get(&inside.into_bytes()), Some(&b"aba".to_vec()));
}
