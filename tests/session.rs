use stampffabrik::credentials::Field;
use stampffabrik::errors::AuthError;
use stampffabrik::hasher::verify_password;
use stampffabrik::model::{AuthenticateRequest, DeleteUserRequest, LoginRequest, RegisterRequest};
use stampffabrik::session::{
    authenticate, delete_user, login, login_decision, register, register_with, session_cookie, sign_in, sign_up, SameSite,
    COOKIE_MAX_AGE_SECS,
};
use stampffabrik::store::{MemoryStore, UserStore};
use stampffabrik::token::{validate, SigningKey};

const NOW: usize = 1_700_000_000;

fn key() -> SigningKey {
    SigningKey::from_secret(b"test secret".to_vec()).unwrap()
}

fn reg(email: &str, password: &str) -> RegisterRequest {
    RegisterRequest::new(email.into(), password.into())
}

fn log_in(email: &str, password: &str) -> LoginRequest {
    LoginRequest::new(email.into(), password.into())
}

#[test]
fn end_to_end_register_login_resume() {
    let mut store = MemoryStore::new();
    let k = key();
    let s = sign_up(&mut store, &k, reg("a@b.com", "password123"), NOW).unwrap();
    assert_eq!(s.user.email, "a@b.com");
    assert_eq!(s.user.joined_date, "1700000000");
    assert_eq!(s.cookie.name, "auth_token");
    assert_eq!(s.cookie.value, s.token);
    assert!(s.cookie.http_only && s.cookie.secure);
    assert_eq!(s.cookie.same_site, SameSite::Lax);
    assert_eq!(s.cookie.path, "/");
    assert_eq!(s.cookie.max_age_secs, 30 * 24 * 3600);
    assert_eq!(validate(&k, &s.token, NOW).unwrap().sub, s.user.uuid);

    let again = sign_in(&store, &k, log_in("a@b.com", "password123"), NOW + 60).unwrap();
    assert_eq!(again.user, s.user);
    assert_eq!(sign_in(&store, &k, log_in("a@b.com", "wrong"), NOW + 60), Err(AuthError::InvalidCredentials));

    let resumed = authenticate(&store, &k, None, Some(s.cookie.value.as_str()), NOW + 120).unwrap();
    assert_eq!(resumed, s.user);
}

#[test]
fn registration_stores_hash_not_password() {
    let mut store = MemoryStore::new();
    let u = register(&mut store, reg("Someone@Example.COM", "password123"), NOW).unwrap();
    assert_eq!(u.email, "someone@example.com");
    assert_ne!(u.password_hash, "password123");
    assert_eq!(verify_password("password123", &u.password_hash), Ok(true));
    assert_eq!(u.uuid.len(), 36);
    assert_eq!(store.find_by_id(&u.uuid), Ok(Some(u.clone())));
}

#[test]
fn second_registration_of_an_email_fails() {
    let mut store = MemoryStore::new();
    register(&mut store, reg("a@b.com", "password123"), NOW).unwrap();
    assert_eq!(register(&mut store, reg("a@b.com", "otherpass99"), NOW), Err(AuthError::RegistrationFailure));
    assert_eq!(register(&mut store, reg("A@B.com", "otherpass99"), NOW), Err(AuthError::RegistrationFailure));
    assert_eq!(store.len(), 1);
}

#[test]
fn invalid_fields_never_reach_the_store() {
    let mut store = MemoryStore::new();
    let k = key();
    assert_eq!(
        sign_up(&mut store, &k, reg("nope", "password123"), NOW),
        Err(AuthError::ValidationFailure(Field::Email))
    );
    assert_eq!(
        sign_up(&mut store, &k, reg("a@b.com", "short"), NOW),
        Err(AuthError::ValidationFailure(Field::Password))
    );
    assert_eq!(store.len(), 0);
}

#[test]
fn unknown_email_is_user_not_found() {
    let store = MemoryStore::new();
    assert_eq!(sign_in(&store, &key(), log_in("who@b.com", "password123"), NOW), Err(AuthError::UserNotFound));
}

#[test]
fn login_returns_a_token_for_the_account() {
    let mut store = MemoryStore::new();
    let k = key();
    let u = register(&mut store, reg("a@b.com", "password123"), NOW).unwrap();
    let token = login(&store, &k, log_in("A@b.com", "password123"), NOW).unwrap();
    assert_eq!(validate(&k, &token, NOW + 1).unwrap().sub, u.uuid);
}

#[test]
fn resume_prefers_the_token_handed_in() {
    let mut store = MemoryStore::new();
    let k = key();
    let a = sign_up(&mut store, &k, reg("a@b.com", "password123"), NOW).unwrap();
    let b = sign_up(&mut store, &k, reg("b@b.com", "password123"), NOW).unwrap();
    let req = AuthenticateRequest::new(b.token.clone());
    assert_eq!(authenticate(&store, &k, Some(req), Some(a.token.as_str()), NOW), Ok(b.user));
    assert_eq!(authenticate(&store, &k, None, None, NOW), Err(AuthError::NoSession));
    assert_eq!(authenticate(&store, &k, None, Some("garbage"), NOW), Err(AuthError::InvalidSession));
    assert_eq!(authenticate(&store, &k, None, Some(a.token.as_str()), NOW + 3600), Err(AuthError::InvalidSession));
}

#[test]
fn deleted_account_does_not_resume() {
    let mut store = MemoryStore::new();
    let k = key();
    let s = sign_up(&mut store, &k, reg("a@b.com", "password123"), NOW).unwrap();
    let gone = delete_user(&mut store, DeleteUserRequest::new(s.user.uuid.clone())).unwrap();
    assert_eq!(gone, s.user);
    assert_eq!(authenticate(&store, &k, None, Some(s.token.as_str()), NOW + 1), Err(AuthError::UserNotFound));
    assert_eq!(delete_user(&mut store, DeleteUserRequest::new(s.user.uuid.clone())), Err(AuthError::NotFound));
}

#[test]
fn cookie_carries_the_token() {
    let c = session_cookie("abc.def.ghi");
    assert_eq!(c.name, "auth_token");
    assert_eq!(c.value, "abc.def.ghi");
    assert_eq!(c.max_age_secs, COOKIE_MAX_AGE_SECS);
    assert_eq!(c.path, "/");
}

#[test]
fn register_with_given_draws_is_deterministic() {
    let mut a = MemoryStore::new();
    let mut b = MemoryStore::new();
    let id = [0x11u8; 16];
    let salt = [0x22u8; 16];
    let ua = register_with(&mut a, reg("a@b.com", "password123"), NOW, &id, &salt).unwrap();
    let ub = register_with(&mut b, reg("A@B.com", "password123"), NOW, &id, &salt).unwrap();
    assert_eq!(ua, ub);
    assert_eq!(ua.uuid, "11111111-1111-4111-9111-111111111111");
    assert!(ua.password_hash.starts_with("$argon2id$v=19$m=19456,t=2,p=1$"));
    // The same identifier cannot be used twice, whatever the email.
    assert_eq!(
        register_with(&mut a, reg("c@d.com", "password123"), NOW, &id, &salt),
        Err(AuthError::RegistrationFailure)
    );
    // Draws of the wrong length are refused before the store is touched.
    assert_eq!(
        register_with(&mut a, reg("e@f.com", "password123"), NOW, &id[..15], &salt),
        Err(AuthError::HashingFailure)
    );
    assert_eq!(
        register_with(&mut a, reg("e@f.com", "password123"), NOW, &id, &salt[..8]),
        Err(AuthError::HashingFailure)
    );
    assert_eq!(a.len(), 1);
}

#[test]
fn login_decision_follows_the_password_check() {
    let mut store = MemoryStore::new();
    let u = register(&mut store, reg("a@b.com", "password123"), NOW).unwrap();
    assert_eq!(login_decision(None, "password123"), Err(AuthError::UserNotFound));
    assert_eq!(login_decision(Some(u.clone()), "password123"), Ok(u.clone()));
    assert_eq!(login_decision(Some(u.clone()), "password12"), Err(AuthError::InvalidCredentials));
    let mut broken = u.clone();
    broken.password_hash = String::from("not a hash");
    assert_eq!(login_decision(Some(broken), "password123"), Err(AuthError::HashingFailure));
}

#[test]
fn clock_reads_after_2020() {
    assert!(stampffabrik::session::current_timestamp() > 1_577_836_800);
}
