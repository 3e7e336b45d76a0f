use vstd::prelude::*;

use uuid::Uuid;

use crate::error::Error;
use crate::models::users::User;

verus! {

/// The access level of a signed-in user.
#[derive(Debug, PartialEq, Eq, Structural)]
pub enum UserGroups {
    Administrator,
    Auditor,
    Contributor,
}

/// The group that a stored level names: 0, 1 and 2 name the three groups, in order.
pub open spec fn group_of_level(level: i16) -> Option<UserGroups> {
    if level == 0 {
        Some(UserGroups::Administrator)
    } else if level == 1 {
        Some(UserGroups::Auditor)
    } else if level == 2 {
        Some(UserGroups::Contributor)
    } else {
        None
    }
}

impl UserGroups {
    /// The group that a stored level names, or an error for any other level.
    pub fn new(level: i16) -> (r: Result<UserGroups, Error>)
        ensures
            match group_of_level(level) {
                Some(g) => r == Ok::<UserGroups, Error>(g),
                None => r == Err::<UserGroups, Error>(Error::InvalidUserGroup(level)),
            },
    {
        match level {
            0 => Ok(UserGroups::Administrator),
            1 => Ok(UserGroups::Auditor),
            2 => Ok(UserGroups::Contributor),
            _ => Err(Error::InvalidUserGroup(level)),
        }
    }
}

/// The name of the cookie that carries the session key.
pub const COOKIE_NAME: &'static str = "session";

/// How long a session lasts, in seconds: one week.
pub const COOKIE_LIFETIME: usize = 7 * 24 * 60 * 60;

/// The signed-in user of a session.
#[derive(Debug)]
pub struct AuthUser {
    pub user_id: Uuid,
    pub username: String,
    pub avatar: Option<String>,
    pub groups: UserGroups,
    /// Seconds until the session expires.
    pub exp: usize,
}

/// The signed-in user of a request, if there is one.
#[derive(Debug)]
pub struct OptionalAuthUser(pub Option<AuthUser>);

impl AuthUser {
    /// The session of a stored user: its id and name, its URL as avatar, the
    /// group its level names, and the full session lifetime. The user's level
    /// must name a group.
    pub fn from_user(user: User) -> (s: AuthUser)
        requires
            group_of_level(user.groups) is Some,
        ensures
            s.user_id == user.user_id,
            s.username == user.username,
            s.avatar == user.url,
            Some(s.groups) == group_of_level(user.groups),
            s.exp == COOKIE_LIFETIME,
    {
        let groups = match UserGroups::new(user.groups) {
            Ok(g) => g,
            // Unreachable: the level names a group.
            Err(_) => UserGroups::Contributor,
        };
        AuthUser {
            user_id: user.user_id,
            username: user.username,
            avatar: user.url,
            groups,
            exp: COOKIE_LIFETIME,
        }
    }
}

} // verus!
