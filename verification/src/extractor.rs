use vstd::prelude::*;

use crate::auth::{AuthUser, OptionalAuthUser};
use crate::error::Error;

verus! {

/// The session key of a request that must be signed in: the value of its
/// session cookie, or `Unauthorized` when it carries none.
pub fn required_session_key<'a>(cookie: Option<&'a str>) -> (r: Result<&'a str, Error>)
    ensures
        match cookie {
            Some(k) => r == Ok::<&str, Error>(k),
            None => r matches Err(Error::Unauthorized),
        },
{
    match cookie {
        Some(k) => Ok(k),
        None => Err(Error::Unauthorized),
    }
}

/// The user of a request that may be anonymous, from the outcome of its
/// session lookup (`None` when it carries no session cookie): a request
/// whose lookup failed is anonymous, never refused.
pub fn optional_auth_user(lookup: Option<Result<AuthUser, Error>>) -> (r: OptionalAuthUser)
    ensures
        r.0 == (match lookup {
            Some(Ok(u)) => Some(u),
            _ => None::<AuthUser>,
        }),
{
    match lookup {
        Some(Ok(u)) => OptionalAuthUser(Some(u)),
        _ => OptionalAuthUser(None),
    }
}

} // verus!
