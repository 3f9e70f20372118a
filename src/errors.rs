//! Failures of the account flows and the messages shown for them.

use crate::credentials::Field;
use vstd::prelude::*;

verus! {

#[derive(Debug, Clone, Copy, PartialEq, Eq)]
pub enum ResponseError {
    UserNotFound,
    UserUpdateFailure,
    UserCreationFailure,
    UserDeleteFailure,
}

pub type ErrorMessage = String;

/// The text shown to a caller for a [`ResponseError`].
pub open spec fn response_text(e: ResponseError) -> Seq<char> {
    match e {
        ResponseError::UserNotFound => "User not found"@,
        ResponseError::UserUpdateFailure => "failed to update user"@,
        ResponseError::UserCreationFailure => "failed to create user"@,
        ResponseError::UserDeleteFailure => "failed to delete user"@,
    }
}

pub trait ResponseErrorTrait: Sized {
    /// The characters of a message.
    spec fn text(&self) -> Seq<char>;

    fn create(user_error: ResponseError) -> (r: Self)
        ensures
            r.text() == response_text(user_error),
    ;
}

impl ResponseErrorTrait for ErrorMessage {
    open spec fn text(&self) -> Seq<char> {
        self@
    }

    fn create(user_error: ResponseError) -> (r: ErrorMessage) {
        match user_error {
            ResponseError::UserNotFound => String::from_str("User not found"),
            ResponseError::UserUpdateFailure => String::from_str("failed to update user"),
            ResponseError::UserCreationFailure => String::from_str("failed to create user"),
            ResponseError::UserDeleteFailure => String::from_str("failed to delete user"),
        }
    }
}

/// Why an account flow failed.
#[derive(Debug, Clone, Copy, PartialEq, Eq)]
pub enum AuthError {
    /// The named field was refused before the store was touched.
    ValidationFailure(Field),
    /// The email (or the new identifier) is already registered.
    RegistrationFailure,
    /// No account has that email, or the session's account is gone.
    UserNotFound,
    /// The password does not match.
    InvalidCredentials,
    /// Neither a token nor a session cookie was supplied.
    NoSession,
    /// The session token is malformed, wrongly signed or expired.
    InvalidSession,
    /// No account has that identifier.
    NotFound,
    /// The backing store could not be reached.
    StoreUnavailable,
    /// No hash could be made, or a stored hash does not parse.
    HashingFailure,
}

/// What a caller is shown: which field failed validation, and otherwise one
/// text that does not tell which account check failed.
pub open spec fn auth_message(e: AuthError) -> Seq<char> {
    match e {
        AuthError::ValidationFailure(Field::Email) => "Please enter a valid email address"@,
        AuthError::ValidationFailure(Field::Password) => "The password needs at least 8 characters"@,
        _ => "The request could not be completed"@,
    }
}

impl AuthError {
    pub fn message(&self) -> (r: String)
        ensures
            r@ == auth_message(*self),
    {
        match self {
            AuthError::ValidationFailure(Field::Email) => String::from_str("Please enter a valid email address"),
            AuthError::ValidationFailure(Field::Password) => String::from_str("The password needs at least 8 characters"),
            _ => String::from_str("The request could not be completed"),
        }
    }
}

} // verus!
