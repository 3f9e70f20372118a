use stampffabrik::credentials::{check_credentials, normalize_email, Field};
use stampffabrik::errors::{AuthError, ErrorMessage, ResponseError, ResponseErrorTrait};
use stampffabrik::model::{Address, DeleteUserRequest, LoginRequest, RegisterRequest, User};

#[test]
fn user_new_starts_with_empty_names() {
    let u = User::new("id".into(), "a@b.com".into(), "$argon2id$x".into(), "1700000000".into());
    assert_eq!(u.uuid, "id");
    assert_eq!(u.email, "a@b.com");
    assert_eq!(u.password_hash, "$argon2id$x");
    assert_eq!(u.joined_date, "1700000000");
    assert_eq!(u.name, "");
    assert_eq!(u.last_name, "");
}

#[test]
fn request_constructors_keep_fields() {
    let r = RegisterRequest::new("a@b.com".into(), "password123".into());
    assert_eq!((r.email.as_str(), r.password.as_str()), ("a@b.com", "password123"));
    let l = LoginRequest::new("x@y.org".into(), "secret99".into());
    assert_eq!((l.email.as_str(), l.password.as_str()), ("x@y.org", "secret99"));
    assert_eq!(DeleteUserRequest::new("id-7".into()).uuid, "id-7");
    let a = Address::new("DE".into(), "Hauptstr. 1".into(), None, "Berlin".into(), "BE".into(), "10115".into());
    assert_eq!(a.country, "DE");
    assert_eq!(a.line2, None);
    assert_eq!(a.zipcode, "10115");
}

#[test]
fn response_error_messages() {
    assert_eq!(ErrorMessage::create(ResponseError::UserNotFound), "User not found");
    assert_eq!(ErrorMessage::create(ResponseError::UserUpdateFailure), "failed to update user");
    assert_eq!(ErrorMessage::create(ResponseError::UserCreationFailure), "failed to create user");
    assert_eq!(ErrorMessage::create(ResponseError::UserDeleteFailure), "failed to delete user");
}

#[test]
fn auth_messages_name_only_validation_fields() {
    assert_eq!(AuthError::ValidationFailure(Field::Email).message(), "Please enter a valid email address");
    assert_eq!(AuthError::ValidationFailure(Field::Password).message(), "The password needs at least 8 characters");
    assert_eq!(AuthError::UserNotFound.message(), AuthError::InvalidCredentials.message());
    assert_eq!(AuthError::StoreUnavailable.message(), "The request could not be completed");
}

#[test]
fn credentials_are_checked_email_first() {
    assert_eq!(check_credentials("a@b.com", "password123"), None);
    assert_eq!(check_credentials("a@b.com", "12345678"), None);
    assert_eq!(check_credentials("a@b.com", "1234567"), Some(Field::Password));
    assert_eq!(check_credentials("a@b.com", "ääääääää"), None);
    assert_eq!(check_credentials("not-an-email", "password123"), Some(Field::Email));
    assert_eq!(check_credentials("", ""), Some(Field::Email));
    assert_eq!(check_credentials("a@", "password123"), Some(Field::Email));
}

#[test]
fn emails_are_stored_in_lower_case() {
    assert_eq!(normalize_email("A@B.COM"), "a@b.com");
    assert_eq!(normalize_email("Mixed.Case@Example.Org"), "mixed.case@example.org");
    assert_eq!(normalize_email("ÄÖ@x.de"), "ÄÖ@x.de");
}
