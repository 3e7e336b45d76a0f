use vstd::prelude::*;

use uuid::Uuid;

verus! {

/// A UUID of the uuid crate; the library only carries it.
#[verifier::external_type_specification]
#[verifier::external_body]
pub struct ExUuid(Uuid);

/// A registered user, as stored.
#[derive(Debug)]
pub struct User {
    pub user_id: Uuid,
    pub username: String,
    pub email: String,
    pub bio: String,
    pub url: Option<String>,
    pub password_hash: String,
    /// The stored group level (see `auth::UserGroups::new`).
    pub groups: i16,
    pub disabled: bool,
    /// When the account was created, in microseconds since the Unix epoch (UTC).
    pub created_at: i64,
    /// When the account was last changed, in microseconds since the Unix epoch (UTC).
    pub updated_at: Option<i64>,
}

/// The kinds of account a user may hold.
#[derive(Debug)]
pub enum UserGroups {
    Admin,
    User,
    Visitor,
}

/// The registration form.
#[derive(Debug)]
pub struct CreateUser {
    pub username: String,
    pub email: String,
    pub password: String,
}

/// The sign-in form.
#[derive(Debug)]
pub struct LoginUser {
    pub email: String,
    pub password: String,
}

} // verus!
