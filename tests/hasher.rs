use stampffabrik::hasher::{hash_password, hash_with_salt, verify_password, HashingFailure, SALT_LEN};

#[test]
fn hash_verifies_and_wrong_password_does_not() {
    let h = hash_password("password123").unwrap();
    assert!(h.starts_with("$argon2id$v=19$"));
    assert_ne!(h, "password123");
    assert_eq!(verify_password("password123", &h), Ok(true));
    assert_eq!(verify_password("password124", &h), Ok(false));
    assert_eq!(verify_password("", &h), Ok(false));
}

#[test]
fn two_hashes_of_one_password_differ_and_both_verify() {
    let a = hash_password("same password").unwrap();
    let b = hash_password("same password").unwrap();
    assert_ne!(a, b);
    assert_eq!(verify_password("same password", &a), Ok(true));
    assert_eq!(verify_password("same password", &b), Ok(true));
}

#[test]
fn empty_and_long_passwords_hash() {
    let empty = hash_password("").unwrap();
    assert_eq!(verify_password("", &empty), Ok(true));
    let long = "x".repeat(4096);
    let h = hash_password(&long).unwrap();
    assert_eq!(verify_password(&long, &h), Ok(true));
}

#[test]
fn malformed_hash_is_a_failure() {
    assert_eq!(verify_password("pw", ""), Err(HashingFailure));
    assert_eq!(verify_password("pw", "not a hash"), Err(HashingFailure));
}

#[test]
fn hash_with_salt_is_determined_by_password_and_salt() {
    let salt = [7u8; SALT_LEN];
    let a = hash_with_salt("password123", &salt).unwrap();
    let b = hash_with_salt("password123", &salt).unwrap();
    assert_eq!(a, b);
    assert!(a.starts_with("$argon2id$v=19$m=19456,t=2,p=1$"));
    assert_eq!(verify_password("password123", &a), Ok(true));
    assert_ne!(hash_with_salt("password124", &salt).unwrap(), a);
    assert_ne!(hash_with_salt("password123", &[8u8; SALT_LEN]).unwrap(), a);
}

#[test]
fn hash_with_salt_refuses_other_salt_lengths() {
    assert_eq!(hash_with_salt("password123", &[1u8; 15]), Err(HashingFailure));
    assert_eq!(hash_with_salt("password123", &[]), Err(HashingFailure));
}
