//! Records and requests that the account flows read and write.

use vstd::prelude::*;

verus! {

/// A stored account.
#[derive(Debug, Clone, PartialEq, Eq)]
pub struct User {
    pub uuid: String,
    pub email: String,
    pub password_hash: String,
    pub joined_date: String,
    pub name: String,
    pub last_name: String,
}

/// The mathematical value of a [`User`]: each text field as its characters.
pub struct UserModel {
    pub uuid: Seq<char>,
    pub email: Seq<char>,
    pub password_hash: Seq<char>,
    pub joined_date: Seq<char>,
    pub name: Seq<char>,
    pub last_name: Seq<char>,
}

impl View for User {
    type V = UserModel;

    open spec fn view(&self) -> UserModel {
        UserModel {
            uuid: self.uuid@,
            email: self.email@,
            password_hash: self.password_hash@,
            joined_date: self.joined_date@,
            name: self.name@,
            last_name: self.last_name@,
        }
    }
}

impl User {
    /// A fresh record: the profile names start empty.
    pub fn new(uuid: String, email: String, password_hash: String, joined_date: String) -> (r: User)
        ensures
            r.uuid@ == uuid@,
            r.email@ == email@,
            r.password_hash@ == password_hash@,
            r.joined_date@ == joined_date@,
            r.name@ == Seq::<char>::empty(),
            r.last_name@ == Seq::<char>::empty(),
    {
        User { uuid, email, password_hash, joined_date, name: String::new(), last_name: String::new() }
    }

    /// A copy of the record with the same field values.
    pub fn duplicate(&self) -> (r: User)
        ensures
            r@ == self@,
    {
        User {
            uuid: self.uuid.clone(),
            email: self.email.clone(),
            password_hash: self.password_hash.clone(),
            joined_date: self.joined_date.clone(),
            name: self.name.clone(),
            last_name: self.last_name.clone(),
        }
    }
}

/// Whether two texts hold the same characters.
pub fn same_text(a: &str, b: &str) -> (r: bool)
    ensures
        r == (a@ == b@),
{
    let n = a.unicode_len();
    if n != b.unicode_len() {
        return false;
    }
    let mut i: usize = 0;
    while i < n
        invariant
            n == a@.len(),
            n == b@.len(),
            i <= n,
            forall|k: int| 0 <= k < i ==> a@[k] == b@[k],
        decreases n - i,
    {
        if a.get_char(i) != b.get_char(i) {
            return false;
        }
        i += 1;
    }
    assert(a@ =~= b@);
    true
}

/// A postal address attached to a profile.
#[derive(Debug, Clone, PartialEq, Eq)]
pub struct Address {
    pub country: String,
    pub line1: String,
    pub line2: Option<String>,
    pub city: String,
    pub state: String,
    pub zipcode: String,
}

impl Address {
    pub fn new(
        country: String,
        line1: String,
        line2: Option<String>,
        city: String,
        state: String,
        zipcode: String,
    ) -> (r: Address)
        ensures
            r.country@ == country@,
            r.line1@ == line1@,
            r.line2 == line2,
            r.city@ == city@,
            r.state@ == state@,
            r.zipcode@ == zipcode@,
    {
        Address { country, line1, line2, city, state, zipcode }
    }
}

/// What a visitor submits to open an account.
#[derive(Debug, Clone, PartialEq, Eq)]
pub struct RegisterRequest {
    pub email: String,
    pub password: String,
}

impl RegisterRequest {
    pub fn new(email: String, password: String) -> (r: RegisterRequest)
        ensures
            r.email@ == email@,
            r.password@ == password@,
    {
        RegisterRequest { email, password }
    }
}

/// What a visitor submits to sign in.
#[derive(Debug, Clone, PartialEq, Eq)]
pub struct LoginRequest {
    pub email: String,
    pub password: String,
}

impl LoginRequest {
    pub fn new(email: String, password: String) -> (r: LoginRequest)
        ensures
            r.email@ == email@,
            r.password@ == password@,
    {
        LoginRequest { email, password }
    }
}

/// Names the account to remove.
#[derive(Debug, Clone, PartialEq, Eq)]
pub struct DeleteUserRequest {
    pub uuid: String,
}

impl DeleteUserRequest {
    pub fn new(uuid: String) -> (r: DeleteUserRequest)
        ensures
            r.uuid@ == uuid@,
    {
        DeleteUserRequest { uuid }
    }
}

/// A session token handed in explicitly instead of through the cookie.
#[derive(Debug, Clone, PartialEq, Eq)]
pub struct AuthenticateRequest {
    pub token: String,
}

impl AuthenticateRequest {
    pub fn new(token: String) -> (r: AuthenticateRequest)
        ensures
            r.token@ == token@,
    {
        AuthenticateRequest { token }
    }
}

} // verus!
