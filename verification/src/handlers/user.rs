use vstd::prelude::*;

use crate::auth::OptionalAuthUser;

verus! {

/// Whether the profile page of `username` offers editing: only to the
/// signed-in user of that name.
pub fn can_edit_profile(current: &OptionalAuthUser, username: &String) -> (b: bool)
    ensures
        b == (current.0 matches Some(u) && u.username@ == username@),
{
    match &current.0 {
        Some(u) => u.username == *username,
        None => false,
    }
}

/// The session that signing out removes: the key of the session cookie when
/// the request is signed in, none when it is anonymous. A signed-in request
/// carries its session cookie.
pub fn session_to_remove<'a>(current: &OptionalAuthUser, cookie_key: Option<&'a str>) -> (r: Option<&'a str>)
    requires
        current.0 is Some ==> cookie_key is Some,
    ensures
        r == (if current.0 is Some {
            cookie_key
        } else {
            None::<&str>
        }),
{
    match &current.0 {
        Some(_) => cookie_key,
        None => None,
    }
}

} // verus!
