use keycrack::targets::{TargetSet, TargetError, HashType};

const MD5_APPLE: &str = "1f3870be274f6c49b3e31a0c6728957f";

#[test]
fn add_target_normalizes_case_and_whitespace() {
    let mut ts = TargetSet::new();
    let r = ts.add_target("  1F3870BE274F6C49B3E31A0C6728957F\r\n");
    assert_eq!(r, Ok(HashType::Md5));
    assert_eq!(ts.len(), 1);
    assert!(ts.contains(&MD5_APPLE.as_bytes().to_vec()));
}

#[test]
fn add_target_infers_sha256_from_length() {
    let mut ts = TargetSet::new();
    let digest64 = "a".repeat(64);
    assert_eq!(ts.add_target(&digest64), Ok(HashType::Sha256));
    assert_eq!(ts.len(), 1);
    assert!(ts.contains(&digest64.into_bytes()));
}

#[test]
fn add_target_rejects_unsupported_length() {
    let mut ts = TargetSet::new();
    assert_eq!(ts.add_target("abc123"), Err(TargetError::UnsupportedLength));
    assert_eq!(ts.add_target(""), Err(TargetError::UnsupportedLength));
    assert_eq!(ts.add_target(&"a".repeat(40)), Err(TargetError::UnsupportedLength));
    assert_eq!(ts.len(), 0);
}

#[test]
fn add_target_duplicate_keeps_one_entry() {
    let mut ts = TargetSet::new();
    ts.add_target(MD5_APPLE).unwrap();
    ts.add_target(&MD5_APPLE.to_uppercase()).unwrap();
    assert_eq!(ts.len(), 1);
}
