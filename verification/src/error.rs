use vstd::prelude::*;

use argon2::password_hash::Error as PasswordHashError;

use crate::utils::{int_text, push_i16};

verus! {

/// The reasons for which the service refuses or fails a request.
#[derive(Debug)]
pub enum Error {
    /// No valid session, or a wrong password.
    Unauthorized,
    /// The requested record does not exist.
    NotFound,
    /// The submitted form was refused; each pair names a field and what is wrong with it.
    UnprocessableEntity { errors: Vec<(String, String)> },
    /// A stored user group level that names no group.
    InvalidUserGroup(i16),
    /// The password hasher failed.
    PasswordHashing(PasswordHashError),
    /// No salt for a new password hash: the operating system's random source failed.
    SaltUnavailable,
    /// A stored password hash is no PHC string.
    MalformedPasswordHash(PasswordHashError),
    /// A password could not be checked against its stored hash.
    PasswordVerification(PasswordHashError),
    /// Any other failure (database, session store, templates), described by a message.
    Internal(String),
}

/// The HTTP status with which each error answers a request.
pub open spec fn spec_status_code(e: Error) -> u16 {
    match e {
        Error::Unauthorized => 401,
        Error::NotFound => 404,
        Error::UnprocessableEntity { .. } => 422,
        _ => 500,
    }
}

/// The text of a password-hash error (its `Display`). Nothing is claimed of it.
#[verifier::external_body]
fn password_hash_error_text(e: &PasswordHashError) -> String {
    format!("{}", e)
}

/// The text that describes an error, where it does not come from an outside error.
pub open spec fn spec_error_text(e: Error) -> Seq<char> {
    match e {
        Error::Unauthorized => "authentication required"@,
        Error::NotFound => "request path not found"@,
        Error::UnprocessableEntity { .. } => "error in the request body"@,
        Error::InvalidUserGroup(level) => "Invalid level: "@ + int_text(level as int),
        Error::Internal(message) => message@,
        Error::PasswordHashing(_) => "failed to generate password hash: "@,
        Error::SaltUnavailable => "failed to generate password salt"@,
        Error::MalformedPasswordHash(_) => "invalid password hash: "@,
        Error::PasswordVerification(_) => "failed to verify password hash: "@,
    }
}

/// Law: the status of an error depends on its kind alone: a missing session
/// or wrong password answers 401, a missing record 404, every refused form
/// 422 whatever fields it names, and every other failure 500.
pub proof fn lemma_status_by_kind(e: Error)
    ensures
        e is Unauthorized ==> spec_status_code(e) == 401,
        e is NotFound ==> spec_status_code(e) == 404,
        e is UnprocessableEntity ==> spec_status_code(e) == 422,
        !(e is Unauthorized || e is NotFound || e is UnprocessableEntity) ==> spec_status_code(e)
            == 500,
{
}

impl Error {
    /// Builds the error that refuses a form, from pairs of field name and message.
    pub fn unprocessable_entity(errors: Vec<(String, String)>) -> (e: Error)
        ensures
            e == (Error::UnprocessableEntity { errors }),
    {
        Error::UnprocessableEntity { errors }
    }

    /// The text that describes this error. For a password-hash failure it is
    /// `spec_error_text` followed by the outside error's own text; for every
    /// other error it is exactly `spec_error_text`, e.g. `Invalid level: 3`.
    pub fn to_string(&self) -> (text: String)
        ensures
            match *self {
                Error::PasswordHashing(_) | Error::MalformedPasswordHash(_)
                | Error::PasswordVerification(_) => spec_error_text(*self).is_prefix_of(text@),
                _ => text@ == spec_error_text(*self),
            },
    {
        match self {
            Error::Unauthorized => String::from_str("authentication required"),
            Error::NotFound => String::from_str("request path not found"),
            Error::UnprocessableEntity { .. } => String::from_str("error in the request body"),
            Error::InvalidUserGroup(level) => {
                let mut text = String::from_str("Invalid level: ");
                push_i16(&mut text, *level);
                text
            },
            Error::Internal(message) => message.clone(),
            Error::SaltUnavailable => String::from_str("failed to generate password salt"),
            Error::PasswordHashing(e) => {
                let text = String::from_str("failed to generate password hash: ");
                let text = text.concat(password_hash_error_text(e).as_str());
                text
            },
            Error::MalformedPasswordHash(e) => {
                let text = String::from_str("invalid password hash: ");
                text.concat(password_hash_error_text(e).as_str())
            },
            Error::PasswordVerification(e) => {
                let text = String::from_str("failed to verify password hash: ");
                text.concat(password_hash_error_text(e).as_str())
            },
        }
    }

    /// The HTTP status code of the response that reports this error.
    pub fn status_code(&self) -> (code: u16)
        ensures
            code == spec_status_code(*self),
            *self is Unauthorized ==> code == 401,
            *self is NotFound ==> code == 404,
            *self is UnprocessableEntity ==> code == 422,
            !(*self is Unauthorized || *self is NotFound || *self is UnprocessableEntity) ==> code
                == 500,
    {
        match self {
            Error::Unauthorized => 401,
            Error::NotFound => 404,
            Error::UnprocessableEntity { .. } => 422,
            _ => 500,
        }
    }
}

} // verus!
