use vstd::prelude::*;

use crate::error::Error;
use crate::models::users::User;
use crate::utils::{answers_verdict, password_verdict, verify_password};

verus! {

/// The answer to a lookup of one record: the record, or `NotFound`.
pub fn row_or_not_found<T>(row: Option<T>) -> (r: Result<T, Error>)
    ensures
        match row {
            Some(x) => r == Ok::<T, Error>(x),
            None => r matches Err(Error::NotFound),
        },
{
    match row {
        Some(x) => Ok(x),
        None => Err(Error::NotFound),
    }
}

/// Whether an error refuses a sign-in form because no user has its email:
/// one entry, field `email`, message `does not exist`.
pub open spec fn is_unknown_email_error(e: Error) -> bool {
    &&& e matches Error::UnprocessableEntity { errors }
    &&& errors@.len() == 1
    &&& errors@[0].0@ == "email"@
    &&& errors@[0].1@ == "does not exist"@
}

/// The user that a sign-in form names by email, or the refusal of the form
/// when no user has that email.
pub fn login_candidate(row: Option<User>) -> (r: Result<User, Error>)
    ensures
        match row {
            Some(u) => r == Ok::<User, Error>(u),
            None => r matches Err(e) && is_unknown_email_error(e),
        },
{
    match row {
        Some(u) => Ok(u),
        None => {
            let field = String::from_str("email");
            let message = String::from_str("does not exist");
            let mut errors: Vec<(String, String)> = Vec::new();
            errors.push((field, message));
            Err(Error::unprocessable_entity(errors))
        },
    }
}

/// Signs in with the user that a sign-in form names by email: the form is
/// refused when no user has that email; otherwise the password is checked
/// against the user's stored hash, and the user is returned only when it
/// matches (a wrong password is `Unauthorized`).
pub fn authenticate(row: Option<User>, password: &str) -> (r: Result<User, Error>)
    ensures
        match row {
            None => r matches Err(e) && is_unknown_email_error(e),
            Some(u) => {
                let check = match r {
                    Ok(_) => Ok::<(), Error>(()),
                    Err(e) => Err::<(), Error>(e),
                };
                &&& answers_verdict(check, password_verdict(password@, u.password_hash@))
                &&& r matches Ok(v) ==> v == u
            },
        },
{
    let user = match login_candidate(row) {
        Ok(u) => u,
        Err(e) => return Err(e),
    };
    match verify_password(password, user.password_hash.as_str()) {
        Ok(()) => Ok(user),
        Err(e) => Err(e),
    }
}

} // verus!
