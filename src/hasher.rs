//! Password hashing: Argon2id with a fresh random salt, stored as a
//! self-describing PHC string, and verification that reads its parameters
//! back from that string.

use argon2::password_hash::rand_core::{OsRng, RngCore};
use argon2::password_hash::{PasswordHash, PasswordHasher, PasswordVerifier, SaltString};
use argon2::Argon2;
use vstd::prelude::*;
use vstd::utf8::encode_utf8;

verus! {

#[verifier::external_type_specification]
#[verifier::external_body]
pub struct ExPasswordHashError(argon2::password_hash::Error);

/// `phc` parses as a PHC string.
pub uninterp spec fn phc_parses(phc: Seq<char>) -> bool;

/// Argon2 with the algorithm, version, costs and salt written in `phc`
/// gives, for `password`, the digest written in `phc`.
pub uninterp spec fn argon2_accepts(password: Seq<char>, phc: Seq<char>) -> bool;

/// Relies on rand_core's `OsRng::try_fill_bytes`: `n` bytes from the
/// operating system's generator, or an error when it has none to give.
#[verifier::external_body]
pub(crate) fn os_random_bytes(n: usize) -> (r: Option<Vec<u8>>)
    ensures
        r matches Some(b) ==> b@.len() == n,
{
    let mut bytes = vec![0u8; n];
    match OsRng.try_fill_bytes(&mut bytes) {
        Ok(()) => Some(bytes),
        Err(_) => None,
    }
}

/// The PHC string that Argon2id with the crate's default costs writes for
/// `password` under the salt bytes `salt`.
pub uninterp spec fn argon2_phc(password: Seq<char>, salt: Seq<u8>) -> Seq<char>;

/// How every new hash string begins: algorithm, version and cost parameters.
pub open spec fn phc_prefix() -> Seq<char> {
    "$argon2id$v=19$m=19456,t=2,p=1$"@
}

/// Bytes of random salt in each new hash.
pub const SALT_LEN: usize = 16;

/// Longest password, in UTF-8 bytes, that Argon2 accepts.
pub const MAX_PASSWORD_BYTES: usize = 0xFFFF_FFFF;

/// Relies on password-hash's `SaltString::encode_b64` (sixteen bytes make a
/// salt of 22 characters, within its limits) and on `Argon2::hash_password`
/// with `Argon2::default()`: Argon2id, version 19, m=19456, t=2, p=1, written
/// as `$argon2id$v=19$m=19456,t=2,p=1$<salt>$<digest>`. It fails only on a
/// password over `MAX_PASSWORD_BYTES` or a salt out of range, and the string
/// it writes parses and verifies against the password.
#[verifier::external_body]
fn argon2_hash(password: &str, salt: &[u8]) -> (r: Result<String, argon2::password_hash::Error>)
    ensures
        r matches Ok(h) ==> h@ == argon2_phc(password@, salt@),
        r matches Ok(h) ==> phc_parses(h@),
        r matches Ok(h) ==> argon2_accepts(password@, h@),
        r matches Ok(h) ==> phc_prefix().is_prefix_of(h@),
        salt@.len() == SALT_LEN && encode_utf8(password@).len() <= MAX_PASSWORD_BYTES ==> r is Ok,
{
    let salt = SaltString::encode_b64(salt)?;
    match Argon2::default().hash_password(password.as_bytes(), &salt) {
        Ok(h) => Ok(h.to_string()),
        Err(e) => Err(e),
    }
}

/// Relies on `PasswordHash::new`, which parses a PHC string and refuses an
/// empty one, and on `Argon2::verify_password`, which recomputes the digest
/// with the parameters and salt of the parsed string and compares. The cost
/// parameters come from `phc`, so a string with huge ones takes that much
/// time and memory.
#[verifier::external_body]
fn argon2_verify(password: &str, phc: &str) -> (r: Result<bool, argon2::password_hash::Error>)
    ensures
        r is Ok <==> phc_parses(phc@),
        r matches Ok(ok) ==> ok == argon2_accepts(password@, phc@),
        r is Ok ==> phc@.len() > 0,
{
    match PasswordHash::new(phc) {
        Ok(parsed) => Ok(Argon2::default().verify_password(password.as_bytes(), &parsed).is_ok()),
        Err(e) => Err(e),
    }
}

/// No hash could be made (no entropy, no memory), or a stored hash string
/// does not parse.
#[derive(Debug, Clone, Copy, PartialEq, Eq)]
pub struct HashingFailure;

/// What checking `password` against the stored string `phc` gives.
pub open spec fn verification_of(password: Seq<char>, phc: Seq<char>) -> Result<bool, HashingFailure> {
    if phc_parses(phc) {
        Ok(argon2_accepts(password, phc))
    } else {
        Err(HashingFailure)
    }
}

/// Checks `password` against a stored hash string, with the parameters
/// written in that string. A mismatch is `Ok(false)`; a string that does not
/// parse is an error.
pub fn verify_password(password: &str, password_hash: &str) -> (r: Result<bool, HashingFailure>)
    ensures
        r == verification_of(password@, password_hash@),
{
    match argon2_verify(password, password_hash) {
        Ok(ok) => Ok(ok),
        Err(_) => Err(HashingFailure),
    }
}

/// A hash can be made of `password` under `salt`: the salt has
/// `SALT_LEN` bytes and the password is not too long for Argon2.
pub open spec fn hashing_owed(password: Seq<char>, salt: Seq<u8>) -> bool {
    salt.len() == SALT_LEN && encode_utf8(password).len() <= MAX_PASSWORD_BYTES
}

/// What hashing `password` under `salt` gives.
pub open spec fn hash_result(password: Seq<char>, salt: Seq<u8>) -> Result<Seq<char>, HashingFailure> {
    if hashing_owed(password, salt) {
        Ok(argon2_phc(password, salt))
    } else {
        Err(HashingFailure)
    }
}

/// Hashes `password` under the given salt bytes. Each hash it returns
/// starts with the algorithm, version and costs, and verifies against
/// `password`.
pub fn hash_with_salt(password: &str, salt: &[u8]) -> (r: Result<String, HashingFailure>)
    ensures
        match r {
            Ok(h) => hash_result(password@, salt@) == Ok::<Seq<char>, HashingFailure>(h@),
            Err(e) => hash_result(password@, salt@) == Err::<Seq<char>, HashingFailure>(e),
        },
        r matches Ok(h) ==> verification_of(password@, h@) == Ok::<bool, HashingFailure>(true),
        r matches Ok(h) ==> phc_prefix().is_prefix_of(h@) && h@.len() > 0,
{
    if salt.len() != SALT_LEN || password.as_bytes().len() > MAX_PASSWORD_BYTES {
        return Err(HashingFailure);
    }
    assert(hashing_owed(password@, salt@));
    match argon2_hash(password, salt) {
        Ok(h) => {
            proof {
                reveal_strlit("$argon2id$v=19$m=19456,t=2,p=1$");
            }
            Ok(h)
        },
        Err(_) => Err(HashingFailure),
    }
}

/// Hashes `password` under a fresh random salt. It fails only where the
/// operating system gives no random bytes or the password is too long; each
/// hash it returns verifies against `password`, and the salt makes two
/// hashes of one password differ.
pub fn hash_password(password: &str) -> (r: Result<String, HashingFailure>)
    ensures
        r matches Ok(h) ==> verification_of(password@, h@) == Ok::<bool, HashingFailure>(true),
        r matches Ok(h) ==> phc_prefix().is_prefix_of(h@) && h@.len() > 0,
{
    match os_random_bytes(SALT_LEN) {
        Some(salt) => hash_with_salt(password, salt.as_slice()),
        None => Err(HashingFailure),
    }
}

} // verus!
