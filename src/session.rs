//! The account flows: opening an account, signing in, resuming a session
//! from its token, and deleting an account. Each is a function of its input,
//! the store's records and the current time.

use crate::claims::{decimal_text, digit_chars};
use crate::credentials::{ascii_lower, check_credentials, credentials_problem, normalize_email};
use crate::errors::AuthError;
use crate::hasher::{argon2_phc, hash_with_salt, hashing_owed, os_random_bytes, verification_of, verify_password, SALT_LEN};
use crate::model::{AuthenticateRequest, DeleteUserRequest, LoginRequest, RegisterRequest, User, UserModel};
use crate::store::{email_taken, records_wf, StoreError, UserStore};
use crate::token::{issue, issued, parts_dot_free, token_text, validate, SigningKey, SESSION_TOKEN_TTL};
use vstd::prelude::*;

verus! {

/// The hyphenated text of the version-4 UUID made from `bytes`.
pub uninterp spec fn uuid_text(bytes: Seq<u8>) -> Seq<char>;

/// Relies on uuid's `Builder::from_random_bytes`, which sets the version-4
/// and RFC 4122 variant bits of sixteen given bytes, and on `Uuid`'s
/// hyphenated `to_string`. Other lengths are refused by the conversion to
/// an array.
#[verifier::external_body]
fn uuid_from_bytes(b: &[u8]) -> (r: Option<String>)
    ensures
        r matches Some(s) ==> s@ == uuid_text(b@),
        r is Some <==> b@.len() == 16,
{
    match <[u8; 16]>::try_from(b) {
        Ok(bytes) => Some(uuid::Builder::from_random_bytes(bytes).into_uuid().to_string()),
        Err(_) => None,
    }
}

/// Relies on std's `SystemTime::now().duration_since(UNIX_EPOCH)`: whole
/// seconds since the epoch, or `None` for a clock set before it. Nothing is
/// promised of the value.
#[verifier::external_body]
fn clock_seconds() -> (r: Option<u64>) {
    match std::time::SystemTime::now().duration_since(std::time::UNIX_EPOCH) {
        Ok(d) => Some(d.as_secs()),
        Err(_) => None,
    }
}

/// The current time in whole seconds since the epoch, to hand to the flows
/// as `now`; a clock set before 1970 reads as zero.
pub fn current_timestamp() -> (r: usize) {
    match clock_seconds() {
        Some(t) => if t > usize::MAX as u64 {
            usize::MAX
        } else {
            t as usize
        },
        None => 0,
    }
}

/// Bytes drawn for a new identifier.
pub const ID_BYTES: usize = 16;

/// A result with each record replaced by its value.
pub open spec fn user_view(r: Result<User, AuthError>) -> Result<UserModel, AuthError> {
    match r {
        Ok(u) => Ok(u@),
        Err(e) => Err(e),
    }
}

/// The record that registration writes: identifier, email in lower case,
/// the Argon2 string of the password under `salt`, the time of creation,
/// empty names.
pub open spec fn new_record(id: Seq<char>, email: Seq<char>, password: Seq<char>, salt: Seq<u8>, now: usize) -> UserModel {
    UserModel {
        uuid: id,
        email: ascii_lower(email),
        password_hash: argon2_phc(password, salt),
        joined_date: digit_chars(now as nat),
        name: Seq::empty(),
        last_name: Seq::empty(),
    }
}

/// What registering gives against the records `m0` when the store answers,
/// with the identifier drawn from `id_bytes` and the password salted with
/// `salt`: a refused field first; then `HashingFailure` when the draws are
/// of the wrong length or the password is too long to hash; then
/// `RegistrationFailure` when the email or the identifier is taken; else
/// the new record.
pub open spec fn registration_result(
    m0: Map<Seq<char>, UserModel>,
    email: Seq<char>,
    password: Seq<char>,
    now: usize,
    id_bytes: Seq<u8>,
    salt: Seq<u8>,
) -> Result<UserModel, AuthError> {
    match credentials_problem(email, password) {
        Some(f) => Err(AuthError::ValidationFailure(f)),
        None => if id_bytes.len() != ID_BYTES || !hashing_owed(password, salt) {
            Err(AuthError::HashingFailure)
        } else {
            let rec = new_record(uuid_text(id_bytes), email, password, salt, now);
            if email_taken(m0, rec.email) || m0.contains_key(rec.uuid) {
                Err(AuthError::RegistrationFailure)
            } else {
                Ok(rec)
            }
        },
    }
}

/// Registering with the given draws turns the records `m0` into `m1` and
/// returns `r`: the registration result, with the new record added on
/// success and nothing changed otherwise; or, only where the store could
/// not be reached when it was written to, `StoreUnavailable` with nothing
/// changed. A new record's hash verifies against the password.
pub open spec fn registration_holds(
    m0: Map<Seq<char>, UserModel>,
    reachable: bool,
    email: Seq<char>,
    password: Seq<char>,
    now: usize,
    id_bytes: Seq<u8>,
    salt: Seq<u8>,
    r: Result<User, AuthError>,
    m1: Map<Seq<char>, UserModel>,
) -> bool {
    let expected = registration_result(m0, email, password, now, id_bytes, salt);
    &&& (user_view(r) == expected || (!reachable && (r matches Err(AuthError::StoreUnavailable)) && (expected is Ok
        || (expected matches Err(AuthError::RegistrationFailure)))))
    &&& (r matches Ok(u) ==> m1 == m0.insert(u@.uuid, u@)
        && verification_of(password, u@.password_hash) == Ok::<bool, crate::hasher::HashingFailure>(true))
    &&& (r is Err ==> m1 == m0)
}

/// Registering with fresh draws: either the draws from the operating system
/// failed (`HashingFailure`, nothing changed, the fields having passed), or
/// the outcome is that of registering with some identifier bytes and salt
/// of the right lengths.
pub open spec fn register_holds(
    m0: Map<Seq<char>, UserModel>,
    reachable: bool,
    email: Seq<char>,
    password: Seq<char>,
    now: usize,
    r: Result<User, AuthError>,
    m1: Map<Seq<char>, UserModel>,
) -> bool {
    ||| ((r matches Err(AuthError::HashingFailure)) && m1 == m0 && credentials_problem(email, password) is None)
    ||| exists|id_bytes: Seq<u8>, salt: Seq<u8>|
        id_bytes.len() == ID_BYTES && salt.len() == SALT_LEN
            && #[trigger] registration_holds(m0, reachable, email, password, now, id_bytes, salt, r, m1)
}

/// Opens an account with an identifier made from `id_bytes` and the
/// password hashed under `salt`: checks the fields, hashes, and stores the
/// record.
pub fn register_with<S: UserStore>(
    store: &mut S,
    request: RegisterRequest,
    now: usize,
    id_bytes: &[u8],
    salt: &[u8],
) -> (r: Result<User, AuthError>)
    requires
        old(store).wf(),
    ensures
        final(store).wf(),
        registration_holds(
            old(store).records(),
            old(store).reachable(),
            request.email@,
            request.password@,
            now,
            id_bytes@,
            salt@,
            r,
            final(store).records(),
        ),
{
    if let Some(field) = check_credentials(request.email.as_str(), request.password.as_str()) {
        return Err(AuthError::ValidationFailure(field));
    }
    let id = match uuid_from_bytes(id_bytes) {
        Some(id) => id,
        None => return Err(AuthError::HashingFailure),
    };
    let password_hash = match hash_with_salt(request.password.as_str(), salt) {
        Ok(h) => h,
        Err(_) => return Err(AuthError::HashingFailure),
    };
    let email = normalize_email(request.email.as_str());
    let user = User::new(id, email, password_hash, decimal_text(now));
    match store.create(user) {
        Ok(created) => Ok(created),
        Err(StoreError::Conflict) => Err(AuthError::RegistrationFailure),
        Err(_) => Err(AuthError::StoreUnavailable),
    }
}

/// Opens an account: checks the fields, then draws the identifier and the
/// salt from the operating system and registers with them.
pub fn register<S: UserStore>(store: &mut S, request: RegisterRequest, now: usize) -> (r: Result<User, AuthError>)
    requires
        old(store).wf(),
    ensures
        final(store).wf(),
        register_holds(old(store).records(), old(store).reachable(), request.email@, request.password@, now, r, final(store).records()),
{
    let ghost m0 = store.records();
    let ghost reachable = store.reachable();
    let ghost email = request.email@;
    let ghost password = request.password@;
    if let Some(field) = check_credentials(request.email.as_str(), request.password.as_str()) {
        let r = Err(AuthError::ValidationFailure(field));
        assert(registration_holds(m0, reachable, email, password, now, Seq::new(16, |i| 0u8), Seq::new(16, |i| 0u8), r, m0));
        return r;
    }
    let id_bytes = match os_random_bytes(ID_BYTES) {
        Some(b) => b,
        None => return Err(AuthError::HashingFailure),
    };
    let salt = match os_random_bytes(SALT_LEN) {
        Some(b) => b,
        None => return Err(AuthError::HashingFailure),
    };
    let r = register_with(store, request, now, id_bytes.as_slice(), salt.as_slice());
    assert(registration_holds(m0, reachable, email, password, now, id_bytes@, salt@, r, store.records()));
    r
}

/// Name of the cookie that carries the session token.
pub const AUTH_COOKIE_NAME: &'static str = "auth_token";

/// Lifetime of the session cookie: thirty days. The token inside lives one
/// hour (`SESSION_TOKEN_TTL`); a browser may keep sending a cookie whose
/// token has expired, and resuming then fails with `InvalidSession` until
/// the user signs in again. The two lifetimes are kept apart on purpose.
pub const COOKIE_MAX_AGE_SECS: usize = 2592000;

#[derive(Debug, Clone, Copy, PartialEq, Eq)]
pub enum SameSite {
    Strict,
    Lax,
}

/// The cookie to set in the response.
#[derive(Debug, Clone, PartialEq, Eq)]
pub struct SessionCookie {
    pub name: String,
    pub value: String,
    pub http_only: bool,
    pub secure: bool,
    pub same_site: SameSite,
    pub path: String,
    pub max_age_secs: usize,
}

/// `c` is the session cookie that carries `token`: named `auth_token`,
/// HttpOnly, Secure, SameSite=Lax, Path=/, Max-Age thirty days.
pub open spec fn session_cookie_for(c: SessionCookie, token: Seq<char>) -> bool {
    &&& c.name@ == AUTH_COOKIE_NAME@
    &&& c.value@ == token
    &&& c.http_only
    &&& c.secure
    &&& c.same_site is Lax
    &&& c.path@ == "/"@
    &&& c.max_age_secs == COOKIE_MAX_AGE_SECS
}

pub fn session_cookie(token: &str) -> (r: SessionCookie)
    ensures
        session_cookie_for(r, token@),
{
    SessionCookie {
        name: String::from_str(AUTH_COOKIE_NAME),
        value: String::from_str(token),
        http_only: true,
        secure: true,
        same_site: SameSite::Lax,
        path: String::from_str("/"),
        max_age_secs: COOKIE_MAX_AGE_SECS,
    }
}

/// A signed-in account, the token for it and the cookie that carries it.
#[derive(Debug, Clone, PartialEq, Eq)]
pub struct Session {
    pub user: User,
    pub token: String,
    pub cookie: SessionCookie,
}

/// The account part of a flow's result.
pub open spec fn user_part(r: Result<Session, AuthError>) -> Result<User, AuthError> {
    match r {
        Ok(s) => Ok(s.user),
        Err(e) => Err(e),
    }
}

/// `s` carries a token issued at `now` for its account, for one hour, and
/// the cookie for that token.
pub open spec fn session_holds(secret: Seq<u8>, now: usize, s: Session) -> bool {
    &&& issued(secret, s.token@, s.user@.uuid, now as nat, SESSION_TOKEN_TTL as nat)
    &&& session_cookie_for(s.cookie, s.token@)
}

fn open_session(key: &SigningKey, user: User, now: usize) -> (r: Session)
    requires
        now + SESSION_TOKEN_TTL <= usize::MAX,
    ensures
        r.user == user,
        session_holds(key@, now, r),
{
    let token = issue(key, user.uuid.as_str(), now, SESSION_TOKEN_TTL);
    let cookie = session_cookie(token.as_str());
    Session { user, token, cookie }
}

/// Registers an account and signs it in.
pub fn sign_up<S: UserStore>(store: &mut S, key: &SigningKey, request: RegisterRequest, now: usize) -> (r: Result<Session, AuthError>)
    requires
        old(store).wf(),
        now + SESSION_TOKEN_TTL <= usize::MAX,
    ensures
        final(store).wf(),
        register_holds(
            old(store).records(),
            old(store).reachable(),
            request.email@,
            request.password@,
            now,
            user_part(r),
            final(store).records(),
        ),
        r matches Ok(s) ==> session_holds(key@, now, s),
{
    match register(store, request, now) {
        Ok(user) => Ok(open_session(key, user, now)),
        Err(e) => Err(e),
    }
}

pub open spec fn option_view(found: Option<User>) -> Option<UserModel> {
    match found {
        Some(u) => Some(u@),
        None => None,
    }
}

/// What signing in gives once the account for the email has been looked
/// up: `UserNotFound` without one; the account when the password verifies
/// against its hash; `InvalidCredentials` when it does not; `HashingFailure`
/// when the stored hash does not parse.
pub open spec fn decision_result(found: Option<UserModel>, password: Seq<char>) -> Result<UserModel, AuthError> {
    match found {
        None => Err(AuthError::UserNotFound),
        Some(u) => match verification_of(password, u.password_hash) {
            Ok(true) => Ok(u),
            Ok(false) => Err(AuthError::InvalidCredentials),
            Err(_) => Err(AuthError::HashingFailure),
        },
    }
}

/// Decides a sign-in from the looked-up account and the password.
pub fn login_decision(found: Option<User>, password: &str) -> (r: Result<User, AuthError>)
    ensures
        user_view(r) == decision_result(option_view(found), password@),
{
    match found {
        None => Err(AuthError::UserNotFound),
        Some(user) => match verify_password(password, user.password_hash.as_str()) {
            Ok(true) => Ok(user),
            Ok(false) => Err(AuthError::InvalidCredentials),
            Err(_) => Err(AuthError::HashingFailure),
        },
    }
}

/// The account in `m` with email `e`, if any.
pub open spec fn account_with_email(m: Map<Seq<char>, UserModel>, e: Seq<char>) -> Option<UserModel> {
    if email_taken(m, e) {
        Some(m[choose|id: Seq<char>| #[trigger] m.contains_key(id) && m[id].email == e])
    } else {
        None
    }
}

/// What signing in with `email` and `password` against the records `m`
/// gives: the decision on the account with the email in lower case.
pub open spec fn login_result(m: Map<Seq<char>, UserModel>, email: Seq<char>, password: Seq<char>) -> Result<UserModel, AuthError> {
    decision_result(account_with_email(m, ascii_lower(email)), password)
}

/// A sign-in returns its result, or `StoreUnavailable` only where the
/// store cannot be reached.
pub open spec fn login_holds(
    m: Map<Seq<char>, UserModel>,
    reachable: bool,
    email: Seq<char>,
    password: Seq<char>,
    r: Result<User, AuthError>,
) -> bool {
    user_view(r) == login_result(m, email, password) || (!reachable && (r matches Err(AuthError::StoreUnavailable)))
}

fn check_login<S: UserStore>(store: &S, email: &str, password: &str) -> (r: Result<User, AuthError>)
    requires
        store.wf(),
    ensures
        login_holds(store.records(), store.reachable(), email@, password@, r),
{
    proof {
        store.lemma_records_wf();
    }
    let ghost m = store.records();
    let email = normalize_email(email);
    let found = match store.find_by_email(email.as_str()) {
        Ok(found) => found,
        Err(_) => return Err(AuthError::StoreUnavailable),
    };
    proof {
        if found is Some {
            let u = found->0;
            let id = choose|id: Seq<char>| #[trigger] m.contains_key(id) && m[id].email == email@;
            assert(m.contains_key(u.uuid@) && m[u.uuid@].email == email@);
            assert(id == u.uuid@);
        }
        assert(option_view(found) == account_with_email(m, email@));
    }
    login_decision(found, password)
}

/// Signs in: looks the account up by email, verifies the password, and
/// issues a session for it.
pub fn sign_in<S: UserStore>(store: &S, key: &SigningKey, request: LoginRequest, now: usize) -> (r: Result<Session, AuthError>)
    requires
        store.wf(),
        now + SESSION_TOKEN_TTL <= usize::MAX,
    ensures
        login_holds(store.records(), store.reachable(), request.email@, request.password@, user_part(r)),
        r matches Ok(s) ==> session_holds(key@, now, s),
{
    match check_login(store, request.email.as_str(), request.password.as_str()) {
        Ok(user) => Ok(open_session(key, user, now)),
        Err(e) => Err(e),
    }
}

/// Signs in and returns only the session token.
pub fn login<S: UserStore>(store: &S, key: &SigningKey, request: LoginRequest, now: usize) -> (r: Result<String, AuthError>)
    requires
        store.wf(),
        now + SESSION_TOKEN_TTL <= usize::MAX,
    ensures
        r matches Ok(t) ==> exists|u: User|
            #[trigger] login_holds(store.records(), store.reachable(), request.email@, request.password@, Ok(u))
                && issued(key@, t@, u@.uuid, now as nat, SESSION_TOKEN_TTL as nat),
        r matches Err(e) ==> login_holds(store.records(), store.reachable(), request.email@, request.password@, Err(e)),
{
    match sign_in(store, key, request, now) {
        Ok(session) => Ok(session.token),
        Err(e) => Err(e),
    }
}

/// The token a resumed session uses: the one handed in, else the cookie's.
pub open spec fn token_choice(request: Option<Seq<char>>, cookie: Option<Seq<char>>) -> Option<Seq<char>> {
    match request {
        Some(t) => Some(t),
        None => cookie,
    }
}

/// `t` is, under `secret`, the token of claims for `sub` that have not
/// expired at `now`.
pub open spec fn live_token_for(secret: Seq<u8>, t: Seq<char>, now: usize, sub: Seq<char>) -> bool {
    exists|exp: usize, iat: usize|
        t == #[trigger] token_text(secret, sub, exp as nat, iat as nat) && parts_dot_free(secret, sub, exp as nat, iat as nat)
            && now < exp
}

/// What resuming a session with token `tok` at `now` against the records `m`
/// returns: `NoSession` without a token; for the token of claims about
/// `sub` under the key, the account filed under `sub` before the claims
/// expire (`UserNotFound` when there is none) and `InvalidSession` from
/// their expiry on; `InvalidSession` for any other text. Only an unreachable
/// store changes that.
pub open spec fn resume_holds(
    m: Map<Seq<char>, UserModel>,
    reachable: bool,
    secret: Seq<u8>,
    tok: Option<Seq<char>>,
    now: usize,
    r: Result<User, AuthError>,
) -> bool {
    match tok {
        None => r matches Err(AuthError::NoSession),
        Some(t) => {
            &&& (r matches Ok(u) ==> live_token_for(secret, t, now, u@.uuid) && m.contains_key(u@.uuid) && m[u@.uuid] == u@)
            &&& (forall|sub: Seq<char>, exp: usize, iat: usize|
                t == #[trigger] token_text(secret, sub, exp as nat, iat as nat) && parts_dot_free(secret, sub, exp as nat, iat as nat) ==> if now >= exp {
                    r matches Err(AuthError::InvalidSession)
                } else if m.contains_key(sub) {
                    (r matches Ok(u) && u@ == m[sub]) || (!reachable && (r matches Err(AuthError::StoreUnavailable)))
                } else {
                    (r matches Err(AuthError::UserNotFound)) || (!reachable && (r matches Err(AuthError::StoreUnavailable)))
                })
            &&& ((forall|sub: Seq<char>, exp: usize, iat: usize|
                !(t == #[trigger] token_text(secret, sub, exp as nat, iat as nat) && parts_dot_free(secret, sub, exp as nat, iat as nat)))
                ==> r matches Err(AuthError::InvalidSession))
        },
    }
}

pub open spec fn request_token(request: Option<AuthenticateRequest>) -> Option<Seq<char>> {
    match request {
        Some(q) => Some(q.token@),
        None => None,
    }
}

pub open spec fn cookie_token(cookie: Option<&str>) -> Option<Seq<char>> {
    match cookie {
        Some(c) => Some(c@),
        None => None,
    }
}

/// Resumes a session: takes the token handed in, else the one from the
/// cookie, validates it, and looks up its subject.
pub fn authenticate<S: UserStore>(
    store: &S,
    key: &SigningKey,
    request: Option<AuthenticateRequest>,
    cookie: Option<&str>,
    now: usize,
) -> (r: Result<User, AuthError>)
    requires
        store.wf(),
    ensures
        resume_holds(store.records(), store.reachable(), key@, token_choice(request_token(request), cookie_token(cookie)), now, r),
{
    let claims = match request {
        Some(q) => validate(key, q.token.as_str(), now),
        None => match cookie {
            Some(c) => validate(key, c, now),
            None => return Err(AuthError::NoSession),
        },
    };
    let ghost t = token_choice(request_token(request), cookie_token(cookie))->0;
    let claims = match claims {
        Ok(claims) => claims,
        Err(_) => return Err(AuthError::InvalidSession),
    };
    proof {
        assert(live_token_for(key@, t, now, claims.sub@));
        store.lemma_records_wf();
    }
    match store.find_by_id(claims.sub.as_str()) {
        Ok(Some(user)) => Ok(user),
        Ok(None) => Err(AuthError::UserNotFound),
        Err(_) => Err(AuthError::StoreUnavailable),
    }
}

/// Deletes the account with the request's identifier and returns it.
pub fn delete_user<S: UserStore>(store: &mut S, request: DeleteUserRequest) -> (r: Result<User, AuthError>)
    requires
        old(store).wf(),
    ensures
        final(store).wf(),
        r matches Ok(u) ==> old(store).records().contains_key(request.uuid@) && old(store).records()[request.uuid@] == u@
            && final(store).records() == old(store).records().remove(request.uuid@),
        r matches Err(e) ==> final(store).records() == old(store).records() && (e is NotFound || e is StoreUnavailable),
        r matches Err(AuthError::NotFound) ==> !old(store).records().contains_key(request.uuid@),
        !old(store).records().contains_key(request.uuid@) ==> r is Err,
        old(store).reachable() ==> !(r matches Err(AuthError::StoreUnavailable)),
{
    match store.delete(request.uuid.as_str()) {
        Ok(user) => Ok(user),
        Err(StoreError::NotFound) => Err(AuthError::NotFound),
        Err(_) => Err(AuthError::StoreUnavailable),
    }
}

/// A successful registration adds the record that the draws describe.
proof fn lemma_registered(
    m0: Map<Seq<char>, UserModel>,
    reachable: bool,
    email: Seq<char>,
    password: Seq<char>,
    now: usize,
    u: User,
    m1: Map<Seq<char>, UserModel>,
)
    requires
        register_holds(m0, reachable, email, password, now, Ok(u), m1),
    ensures
        m1 == m0.insert(u@.uuid, u@),
        u@.email == ascii_lower(email),
        !email_taken(m0, u@.email),
        credentials_problem(email, password) is None,
        verification_of(password, u@.password_hash) == Ok::<bool, crate::hasher::HashingFailure>(true),
{
    let (id_bytes, salt) = choose|id_bytes: Seq<u8>, salt: Seq<u8>|
        id_bytes.len() == ID_BYTES && salt.len() == SALT_LEN
            && #[trigger] registration_holds(m0, reachable, email, password, now, id_bytes, salt, Ok(u), m1);
    assert(user_view(Ok(u)) == registration_result(m0, email, password, now, id_bytes, salt));
}

/// Registering an email that is already registered never succeeds and
/// leaves the records unchanged: after one registration of `email`
/// succeeds, a second one with any password fails. Where its fields pass it
/// fails with `RegistrationFailure`, unless no random bytes could be drawn
/// (`HashingFailure`) or the store could not be reached.
pub proof fn lemma_second_registration_rejected(
    m0: Map<Seq<char>, UserModel>,
    m1: Map<Seq<char>, UserModel>,
    m2: Map<Seq<char>, UserModel>,
    first_reachable: bool,
    second_reachable: bool,
    email: Seq<char>,
    first_password: Seq<char>,
    second_password: Seq<char>,
    first_now: usize,
    second_now: usize,
    first: User,
    second: Result<User, AuthError>,
)
    requires
        register_holds(m0, first_reachable, email, first_password, first_now, Ok(first), m1),
        register_holds(m1, second_reachable, email, second_password, second_now, second, m2),
    ensures
        second is Err,
        m2 == m1,
        credentials_problem(email, second_password) is None ==> ((second matches Err(AuthError::RegistrationFailure))
            || (second matches Err(AuthError::HashingFailure)) || (!second_reachable && (second matches Err(
            AuthError::StoreUnavailable,
        )))),
{
    lemma_registered(m0, first_reachable, email, first_password, first_now, first, m1);
    assert(m1.contains_key(first@.uuid) && m1[first@.uuid].email == ascii_lower(email));
    assert(email_taken(m1, ascii_lower(email)));
    if !((second matches Err(AuthError::HashingFailure)) && m2 == m1) {
        let (id_bytes, salt) = choose|id_bytes: Seq<u8>, salt: Seq<u8>|
            id_bytes.len() == ID_BYTES && salt.len() == SALT_LEN
                && #[trigger] registration_holds(m1, second_reachable, email, second_password, second_now, id_bytes, salt, second, m2);
        let expected = registration_result(m1, email, second_password, second_now, id_bytes, salt);
        assert(expected is Err);
    }
}

/// A token issued for an account that is then deleted no longer resumes a
/// session: before the token expires resuming reports `UserNotFound` (or an
/// unreachable store), afterwards `InvalidSession`; never the stale account.
pub proof fn lemma_deleted_account_not_resumed(
    m0: Map<Seq<char>, UserModel>,
    m1: Map<Seq<char>, UserModel>,
    reachable: bool,
    secret: Seq<u8>,
    id: Seq<char>,
    t: Seq<char>,
    t0: usize,
    now: usize,
    r: Result<User, AuthError>,
)
    requires
        t0 + SESSION_TOKEN_TTL <= usize::MAX,
        issued(secret, t, id, t0 as nat, SESSION_TOKEN_TTL as nat),
        m1 == m0.remove(id),
        resume_holds(m1, reachable, secret, Some(t), now, r),
    ensures
        r is Err,
        now < t0 + SESSION_TOKEN_TTL ==> ((r matches Err(AuthError::UserNotFound)) || (!reachable && (r matches Err(
            AuthError::StoreUnavailable,
        )))),
        now >= t0 + SESSION_TOKEN_TTL ==> r matches Err(AuthError::InvalidSession),
{
    let exp = (t0 + SESSION_TOKEN_TTL) as usize;
    assert(t == token_text(secret, id, exp as nat, t0 as nat));
    assert(!m1.contains_key(id));
}

/// The session that signing up opens resumes to the same account for as
/// long as its token lives, while the store can be reached.
pub proof fn lemma_sign_up_session_resumes(
    m0: Map<Seq<char>, UserModel>,
    m1: Map<Seq<char>, UserModel>,
    first_reachable: bool,
    reachable: bool,
    secret: Seq<u8>,
    email: Seq<char>,
    password: Seq<char>,
    now: usize,
    session: Session,
    later: usize,
    r: Result<User, AuthError>,
)
    requires
        now + SESSION_TOKEN_TTL <= usize::MAX,
        register_holds(m0, first_reachable, email, password, now, Ok(session.user), m1),
        session_holds(secret, now, session),
        later < now + SESSION_TOKEN_TTL,
        resume_holds(m1, reachable, secret, Some(session.cookie.value@), later, r),
    ensures
        reachable ==> (r matches Ok(u) && u@ == session.user@),
        (r matches Ok(u) && u@ == session.user@) || (r matches Err(AuthError::StoreUnavailable)),
{
    lemma_registered(m0, first_reachable, email, password, now, session.user, m1);
    let exp = (now + SESSION_TOKEN_TTL) as usize;
    let id = session.user@.uuid;
    assert(session.cookie.value@ == token_text(secret, id, exp as nat, now as nat));
    assert(m1.contains_key(id) && m1[id] == session.user@);
}

/// Signing in with the password an account was registered with finds that
/// account while the store can be reached; a password that does not verify
/// against the stored hash is refused as `InvalidCredentials`.
pub proof fn lemma_sign_in_after_register(
    m0: Map<Seq<char>, UserModel>,
    m1: Map<Seq<char>, UserModel>,
    first_reachable: bool,
    reachable: bool,
    email: Seq<char>,
    password: Seq<char>,
    attempt: Seq<char>,
    now: usize,
    user: User,
    r: Result<User, AuthError>,
)
    requires
        records_wf(m1),
        register_holds(m0, first_reachable, email, password, now, Ok(user), m1),
        login_holds(m1, reachable, email, attempt, r),
    ensures
        attempt == password && reachable ==> (r matches Ok(u) && u@ == user@),
        verification_of(attempt, user@.password_hash) == Ok::<bool, crate::hasher::HashingFailure>(false) && reachable
            ==> r matches Err(AuthError::InvalidCredentials),
{
    lemma_registered(m0, first_reachable, email, password, now, user, m1);
    let id = user@.uuid;
    let e = ascii_lower(email);
    assert(m1.contains_key(id) && m1[id].email == e);
    let other = choose|x: Seq<char>| #[trigger] m1.contains_key(x) && m1[x].email == e;
    assert(other == id);
    assert(account_with_email(m1, e) == Some(user@));
}

} // verus!
