use keycrack::keyspace::Keyspace;

fn az5() -> Keyspace {
    Keyspace::new(b"abcdefghijklmnopqrstuvwxyz".to_vec(), 5).unwrap()
}

#[test]
fn boundary_candidates() {
    let ks = az5();
    assert_eq!(ks.total(), 11881376);
    assert_eq!(ks.decode(0), b"aaaaa".to_vec());
    assert_eq!(ks.decode(11881375), b"zzzzz".to_vec());
}

#[test]
fn decode_fills_last_position_first() {
    let ks = az5();
    assert_eq!(ks.decode(1), b"aaaab".to_vec());
    assert_eq!(ks.decode(25), b"aaaaz".to_vec());
    assert_eq!(ks.decode(26), b"aaaba".to_vec());
    assert_eq!(ks.decode(274070), b"apple".to_vec());
}

#[test]
fn bijection_small_keyspace() {
    let ks = Keyspace::new(b"abc".to_vec(), 3).unwrap();
    assert_eq!(ks.total(), 27);
    let mut seen: Vec<Vec<u8>> = Vec::new();
    for i in 0..27u64 {
        let cand = ks.decode(i);
        assert_eq!(cand.len(), 3);
        assert_eq!(ks.encode(&cand), i);
        assert!(!seen.contains(&cand));
        seen.push(cand);
    }
}

#[test]
fn bijection_sampled_large_keyspace() {
    let ks = az5();
    for i in [0u64, 1, 25, 26, 675, 12345, 274070, 11881374, 11881375] {
        assert_eq!(ks.encode(&ks.decode(i)), i);
    }
    assert_eq!(ks.encode(&b"apple".to_vec()), 274070);
}

#[test]
fn keyspace_rejects_bad_parameters() {
    assert!(Keyspace::new(Vec::new(), 3).is_none());
    assert!(Keyspace::new(b"aba".to_vec(), 2).is_none());
    assert!(Keyspace::new(b"abcdefghijklmnopqrstuvwxyz".to_vec(), 64).is_none());
    assert!(Keyspace::new(b"ab".to_vec(), 63).is_some());
    assert!(Keyspace::new(b"ab".to_vec(), 64).is_none());
}
