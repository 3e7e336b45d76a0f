use blog::error::Error;
use blog::utils::{hash_password, password_check_outcome, slugify, verify_password, PasswordCheckFailure};

#[test]
fn slugify_doc_example() {
    assert_eq!(slugify("Doctests are the Bee's Knees"), "doctests-are-the-bees-knees");
}

#[test]
fn slugify_empty_and_separators_only() {
    assert_eq!(slugify(""), "");
    assert_eq!(slugify("   "), "");
    assert_eq!(slugify("!?-- ,"), "");
}

#[test]
fn slugify_collapses_separator_runs() {
    assert_eq!(slugify("  Hello,   World!  "), "hello-world");
    assert_eq!(slugify("Rust 2021: a--review"), "rust-2021-a-review");
}

#[test]
fn slugify_removes_quotes_inside_words() {
    assert_eq!(slugify("\"Quoted\" Title"), "quoted-title");
    assert_eq!(slugify("Don't Panic"), "dont-panic");
}

#[test]
fn slugify_keeps_quote_only_words_as_empty() {
    // A word made only of quotation marks is kept, and cleans to nothing.
    assert_eq!(slugify("a ' b"), "a--b");
    assert_eq!(slugify("'' start"), "-start");
}

#[test]
fn slugify_lowercases_ascii_only() {
    assert_eq!(slugify("ÜBER Café"), "Über-café");
    assert_eq!(slugify("日本語 Title"), "日本語-title");
}

#[test]
fn slug_characters_law_on_examples() {
    for title in ["Doctests are the Bee's Knees", "A ' B", "ÜBER \"Café\" 42!", "x_y.z"] {
        let slug = slugify(title);
        for c in slug.chars() {
            assert!(c == '-' || (c.is_alphanumeric() && !c.is_ascii_uppercase()), "{c} in {slug}");
        }
    }
}

#[test]
fn hashed_password_verifies() {
    let phc = hash_password("hunter2").unwrap();
    assert!(phc.starts_with("$argon2id$v=19$"));
    assert!(verify_password("hunter2", &phc).is_ok());
    let empty = hash_password("").unwrap();
    assert!(verify_password("", &empty).is_ok());
    assert!(matches!(verify_password("x", &empty), Err(Error::Unauthorized)));
}

#[test]
fn wrong_password_is_unauthorized() {
    let phc = hash_password("hunter2").unwrap();
    assert!(matches!(verify_password("hunter3", &phc), Err(Error::Unauthorized)));
}

#[test]
fn malformed_hash_is_reported() {
    assert!(matches!(verify_password("pw", "not a phc string"), Err(Error::MalformedPasswordHash(_))));
    assert!(matches!(verify_password("pw", ""), Err(Error::MalformedPasswordHash(_))));
}

#[test]
fn password_check_outcomes() {
    assert!(password_check_outcome(Ok(())).is_ok());
    assert!(matches!(password_check_outcome(Err(PasswordCheckFailure::Mismatch)), Err(Error::Unauthorized)));
    let e = argon2::password_hash::Error::Algorithm;
    assert!(matches!(
        password_check_outcome(Err(PasswordCheckFailure::Other(e))),
        Err(Error::PasswordVerification(argon2::password_hash::Error::Algorithm))
    ));
}

#[test]
fn hashes_are_salted() {
    let a = hash_password("same").unwrap();
    let b = hash_password("same").unwrap();
    assert_ne!(a, b);
    assert!(verify_password("same", &a).is_ok() && verify_password("same", &b).is_ok());
}

#[test]
fn unsupported_hash_is_a_verification_error() {
    // A well-formed PHC string whose memory cost Argon2 refuses cannot be checked.
    let phc = hash_password("pw").unwrap().replace("m=19456", "m=1");
    assert!(phc.contains("m=1,"));
    assert!(matches!(verify_password("pw", &phc), Err(Error::PasswordVerification(_))));
}

#[test]
fn slug_ignores_ascii_case() {
    for title in ["Doctests are the Bee's Knees", "ÜBER Café 42", "a ' b"] {
        assert_eq!(slugify(&title.to_ascii_uppercase()), slugify(title));
        assert_eq!(slugify(&title.to_ascii_lowercase()), slugify(title));
    }
}

#[test]
fn slugify_twice_changes_nothing() {
    for title in ["Doctests are the Bee's Knees", "  Hello,   World!  ", "日本語 Title", ""] {
        let slug = slugify(title);
        assert_eq!(slugify(&slug), slug);
    }
    // A word of quotation marks only is the exception.
    assert_eq!(slugify(&slugify("a ' b")), "a-b");
}

#[test]
fn slug_of_titles_joined_by_a_space() {
    let (a, b) = ("Bee's Knees", "Don't Panic!");
    assert_eq!(slugify(&format!("{} {}", a, b)), format!("{}-{}", slugify(a), slugify(b)));
}

#[test]
fn error_texts() {
    assert_eq!(blog::auth::UserGroups::new(3).unwrap_err().to_string(), "Invalid level: 3");
    assert_eq!(blog::auth::UserGroups::new(-1).unwrap_err().to_string(), "Invalid level: -1");
    assert_eq!(
        blog::auth::UserGroups::new(i16::MIN).unwrap_err().to_string(),
        "Invalid level: -32768"
    );
    assert_eq!(Error::Unauthorized.to_string(), "authentication required");
    assert_eq!(Error::NotFound.to_string(), "request path not found");
    assert_eq!(Error::Internal("db down".to_string()).to_string(), "db down");
    let e = verify_password("pw", "").unwrap_err();
    assert!(e.to_string().starts_with("invalid password hash: "));
}

#[test]
fn hash_records_its_salt() {
    let salt = [7u8; 16];
    let phc = blog::utils::hash_password_with_salt("pw", &salt).unwrap();
    assert!(phc.starts_with("$argon2id$v=19$m=19456,t=2,p=1$BwcHBwcHBwcHBwcHBwcHBw$"));
    assert!(verify_password("pw", &phc).is_ok());
    assert!(matches!(verify_password("other", &phc), Err(Error::Unauthorized)));
    // The same password and salt give the same hash.
    assert_eq!(blog::utils::hash_password_with_salt("pw", &salt).unwrap(), phc);
    assert_eq!(Error::SaltUnavailable.to_string(), "failed to generate password salt");
}
