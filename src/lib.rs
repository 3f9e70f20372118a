//! Account and session core of the stampffabrik site: credential hashing,
//! signed session tokens, the user-record store and the flows that tie them
//! together (sign-up, sign-in, resuming a session, deleting an account).

pub mod claims;
pub mod credentials;
pub mod errors;
pub mod hasher;
pub mod model;
pub mod session;
pub mod store;
pub mod token;
