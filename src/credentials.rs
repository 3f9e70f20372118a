//! Checks on submitted credentials, and the normal form of an email.

use validator::{ValidateEmail, ValidateLength};
use vstd::prelude::*;

verus! {

/// `s` is an email address in the HTML5 form.
pub uninterp spec fn email_valid(s: Seq<char>) -> bool;

/// Relies on validator's `ValidateEmail::validate_email` for `&str`: the
/// HTML5 form of an address, with limits on the length of its two parts.
#[verifier::external_body]
fn check_email(s: &str) -> (r: bool)
    ensures
        r == email_valid(s@),
{
    s.validate_email()
}

/// Relies on validator's `ValidateLength::validate_length` for `&str`,
/// which counts characters.
#[verifier::external_body]
fn has_min_length(s: &str, min: u64) -> (r: bool)
    ensures
        r == (s@.len() >= min),
{
    s.validate_length(Some(min), None, None)
}

pub open spec fn lower_char(c: char) -> char {
    if 'A' <= c && c <= 'Z' {
        ((c as u32) + 32) as char
    } else {
        c
    }
}

/// `s` with `A`..`Z` turned into `a`..`z`.
pub open spec fn ascii_lower(s: Seq<char>) -> Seq<char> {
    s.map_values(|c: char| lower_char(c))
}

/// Relies on std's `str::to_ascii_lowercase`: ASCII upper-case letters
/// become lower-case, every other character stays.
#[verifier::external_body]
fn to_ascii_lower(s: &str) -> (r: String)
    ensures
        r@ == ascii_lower(s@),
{
    s.to_ascii_lowercase()
}

/// Fewest characters a password may have.
pub const MIN_PASSWORD_LEN: u64 = 8;

/// The submitted field that was refused.
#[derive(Debug, Clone, Copy, PartialEq, Eq)]
pub enum Field {
    Email,
    Password,
}

/// The first field of a submission that is refused: an email that is not an
/// address, then a password shorter than eight characters.
pub open spec fn credentials_problem(email: Seq<char>, password: Seq<char>) -> Option<Field> {
    if !email_valid(email) {
        Some(Field::Email)
    } else if password.len() < MIN_PASSWORD_LEN {
        Some(Field::Password)
    } else {
        None
    }
}

/// Checks a submitted email and password before anything else is done.
pub fn check_credentials(email: &str, password: &str) -> (r: Option<Field>)
    ensures
        r == credentials_problem(email@, password@),
{
    if !check_email(email) {
        Some(Field::Email)
    } else if !has_min_length(password, MIN_PASSWORD_LEN) {
        Some(Field::Password)
    } else {
        None
    }
}

/// The form in which emails are stored and looked up: ASCII lower case.
pub fn normalize_email(email: &str) -> (r: String)
    ensures
        r@ == ascii_lower(email@),
{
    to_ascii_lower(email)
}

} // verus!
