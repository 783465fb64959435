use sha2::Digest;
use keycrack::digest::{md5_hex, sha256_hex};
use keycrack::matcher::check_password;
use keycrack::targets::{TargetSet, HashType};

const MD5_APPLE: &str = "1f3870be274f6c49b3e31a0c6728957f";
const SHA256_APPLE_PREFIX: &str = "3a7bd3e2360a3d29eea436fcfb7e44c735d117c42d1c1835420b6b9942dd4f1";

fn sha256_apple_hex() -> String {
    hex::encode(sha2::Sha256::digest(b"apple"))
}

#[test]
fn md5_known_vector() {
    assert_eq!(md5_hex(&b"apple".to_vec()), MD5_APPLE.as_bytes().to_vec());
}

#[test]
fn sha256_known_vector() {
    let expected = sha256_apple_hex();
    assert!(expected.starts_with(SHA256_APPLE_PREFIX));
    assert_eq!(expected.len(), 64);
    assert_eq!(sha256_hex(&b"apple".to_vec()), expected.into_bytes());
}

#[test]
fn digest_lengths() {
    assert_eq!(md5_hex(&Vec::new()).len(), 32);
    assert_eq!(sha256_hex(&Vec::new()).len(), 64);
}

#[test]
fn check_password_hit_and_miss() {
    let mut ts = TargetSet::new();
    assert_eq!(ts.add_target(MD5_APPLE), Ok(HashType::Md5));
    let hit = check_password(&b"apple".to_vec(), &ts).unwrap();
    assert_eq!(hit.digest, MD5_APPLE.as_bytes().to_vec());
    assert_eq!(hit.plaintext, b"apple".to_vec());
    assert!(check_password(&b"zzzzz".to_vec(), &ts).is_none());
}

#[test]
fn check_password_finds_sha256() {
    let mut ts = TargetSet::new();
    assert_eq!(ts.add_target(&sha256_apple_hex()), Ok(HashType::Sha256));
    let hit = check_password(&b"apple".to_vec(), &ts).unwrap();
    assert_eq!(hit.digest, sha256_apple_hex().into_bytes());
    assert_eq!(hit.plaintext, b"apple".to_vec());
}

#[test]
fn md5_checked_before_sha256() {
    let mut ts = TargetSet::new();
    ts.add_target(MD5_APPLE).unwrap();
    ts.add_target(&sha256_apple_hex()).unwrap();
    let hit = check_password(&b"apple".to_vec(), &ts).unwrap();
    assert_eq!(hit.digest, MD5_APPLE.as_bytes().to_vec());
}
