use blog::auth::{AuthUser, OptionalAuthUser, UserGroups, COOKIE_LIFETIME, COOKIE_NAME};
use blog::error::Error;
use blog::extractor::{optional_auth_user, required_session_key};
use blog::models::users::User;
use uuid::Uuid;

fn user(groups: i16) -> User {
    User {
        user_id: Uuid::from_u128(0x1234),
        username: "ada".to_string(),
        email: "ada@example.com".to_string(),
        bio: String::new(),
        url: Some("https://example.com/ada.png".to_string()),
        password_hash: "$argon2id$...".to_string(),
        groups,
        disabled: false,
        created_at: 1_700_000_000_000_000,
        updated_at: None,
    }
}

#[test]
fn user_groups_from_levels() {
    assert_eq!(UserGroups::new(0).unwrap(), UserGroups::Administrator);
    assert_eq!(UserGroups::new(1).unwrap(), UserGroups::Auditor);
    assert_eq!(UserGroups::new(2).unwrap(), UserGroups::Contributor);
    assert!(matches!(UserGroups::new(3), Err(Error::InvalidUserGroup(3))));
    assert!(matches!(UserGroups::new(-1), Err(Error::InvalidUserGroup(-1))));
}

#[test]
fn session_of_a_user() {
    let s = AuthUser::from_user(user(1));
    assert_eq!(s.user_id, Uuid::from_u128(0x1234));
    assert_eq!(s.username, "ada");
    assert_eq!(s.avatar.as_deref(), Some("https://example.com/ada.png"));
    assert_eq!(s.groups, UserGroups::Auditor);
    assert_eq!(s.exp, COOKIE_LIFETIME);
}

#[test]
fn cookie_constants() {
    assert_eq!(COOKIE_NAME, "session");
    assert_eq!(COOKIE_LIFETIME, 604800);
}

#[test]
fn required_session_key_refuses_missing_cookie() {
    assert_eq!(required_session_key(Some("k1")).unwrap(), "k1");
    assert!(matches!(required_session_key(None), Err(Error::Unauthorized)));
}

#[test]
fn optional_user_is_anonymous_on_failure() {
    assert!(optional_auth_user(None).0.is_none());
    assert!(optional_auth_user(Some(Err(Error::Unauthorized))).0.is_none());
    assert!(optional_auth_user(Some(Err(Error::Internal("down".to_string())))).0.is_none());
    let u = optional_auth_user(Some(Ok(AuthUser::from_user(user(2)))));
    let OptionalAuthUser(inner) = u;
    assert_eq!(inner.unwrap().groups, UserGroups::Contributor);
}
