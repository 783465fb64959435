use keycrack::results::{FoundEntry, ResultCollection};

fn entry(digest: &str, plaintext: &str) -> FoundEntry {
    FoundEntry {
        digest: digest.as_bytes().to_vec(),
        plaintext: plaintext.as_bytes().to_vec(),
    }
}

#[test]
fn idempotent_insert() {
    let mut rc = ResultCollection::new();
    assert!(rc.insert_if_absent(entry("d1", "first")));
    assert_eq!(rc.len(), 1);
    assert!(!rc.insert_if_absent(entry("d1", "second")));
    assert_eq!(rc.len(), 1);
    assert_eq!(rc.get(&b"d1".to_vec()), Some(&b"first".to_vec()));
}

#[test]
fn collection_lookup() {
    let mut rc = ResultCollection::new();
    assert_eq!(rc.len(), 0);
    assert!(!rc.contains(&b"d1".to_vec()));
    assert_eq!(rc.get(&b"d1".to_vec()), None);
    rc.insert_if_absent(entry("d1", "p1"));
    rc.insert_if_absent(entry("d2", "p2"));
    assert_eq!(rc.len(), 2);
    assert!(rc.contains(&b"d2".to_vec()));
    assert_eq!(rc.get(&b"d2".to_vec()), Some(&b"p2".to_vec()));
}
