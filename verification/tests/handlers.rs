use blog::auth::{AuthUser, OptionalAuthUser, COOKIE_NAME};
use blog::db::{authenticate, login_candidate, row_or_not_found};
use blog::error::Error;
use blog::handlers::set_cookie_value;
use blog::handlers::user::{can_edit_profile, session_to_remove};
use blog::models::articles::CreateArticle;
use blog::models::comments::CreateComment;
use blog::models::users::User;
use uuid::Uuid;

fn session(name: &str) -> OptionalAuthUser {
    let user = User {
        user_id: Uuid::from_u128(7),
        username: name.to_string(),
        email: format!("{name}@example.com"),
        bio: String::new(),
        url: None,
        password_hash: String::new(),
        groups: 2,
        disabled: false,
        created_at: 0,
        updated_at: Some(5),
    };
    OptionalAuthUser(Some(AuthUser::from_user(user)))
}

#[test]
fn set_cookie_text() {
    assert_eq!(set_cookie_value(COOKIE_NAME, "abc"), "session=abc; Max-Age=604800");
    assert_eq!(set_cookie_value(COOKIE_NAME, ""), "session=; Max-Age=604800");
    assert_eq!(set_cookie_value("k", "v=w"), "k=v=w; Max-Age=604800");
}

#[test]
fn profile_editing_only_for_owner() {
    assert!(can_edit_profile(&session("ada"), &"ada".to_string()));
    assert!(!can_edit_profile(&session("ada"), &"bob".to_string()));
    assert!(!can_edit_profile(&OptionalAuthUser(None), &"ada".to_string()));
}

#[test]
fn logout_removes_only_a_signed_in_session() {
    assert_eq!(session_to_remove(&session("ada"), Some("key")), Some("key"));
    assert_eq!(session_to_remove(&OptionalAuthUser(None), Some("key")), None);
    assert_eq!(session_to_remove(&OptionalAuthUser(None), None), None);
}

#[test]
fn missing_rows() {
    assert_eq!(row_or_not_found(Some(3)).unwrap(), 3);
    assert!(matches!(row_or_not_found::<i32>(None), Err(Error::NotFound)));
    match login_candidate(None) {
        Err(Error::UnprocessableEntity { errors }) => {
            assert_eq!(errors, vec![("email".to_string(), "does not exist".to_string())]);
        }
        _ => panic!("expected the unknown-email refusal"),
    }
    let u = login_candidate(Some(User {
        user_id: Uuid::from_u128(1),
        username: "x".to_string(),
        email: "x@example.com".to_string(),
        bio: String::new(),
        url: None,
        password_hash: String::new(),
        groups: 0,
        disabled: false,
        created_at: 0,
        updated_at: None,
    }))
    .unwrap();
    assert_eq!(u.email, "x@example.com");
}

#[test]
fn status_codes() {
    assert_eq!(Error::Unauthorized.status_code(), 401);
    assert_eq!(Error::NotFound.status_code(), 404);
    assert_eq!(Error::unprocessable_entity(vec![]).status_code(), 422);
    assert_eq!(Error::InvalidUserGroup(9).status_code(), 500);
    assert_eq!(Error::Internal("x".to_string()).status_code(), 500);
}

#[test]
fn forms() {
    let a = CreateArticle::new("T".to_string(), "D".to_string(), "C".to_string());
    assert_eq!((a.title.as_str(), a.description.as_str(), a.content.as_str()), ("T", "D", "C"));
    let c = CreateComment { content: "hi".to_string() };
    assert_eq!(c.content, "hi");
}

#[test]
fn set_cookie_headers() {
    let headers = blog::handlers::set_cookie(COOKIE_NAME, "abc");
    assert_eq!(headers.len(), 1);
    assert_eq!(headers.get("set-cookie").unwrap(), "session=abc; Max-Age=604800");
    let cleared = blog::handlers::set_cookie(COOKIE_NAME, "");
    assert_eq!(cleared.get_all("set-cookie").iter().count(), 1);
    assert_eq!(cleared.get("set-cookie").unwrap(), "session=; Max-Age=604800");
}

fn stored_user(password_hash: String) -> User {
    User {
        user_id: Uuid::from_u128(9),
        username: "eve".to_string(),
        email: "eve@example.com".to_string(),
        bio: String::new(),
        url: None,
        password_hash,
        groups: 2,
        disabled: false,
        created_at: 0,
        updated_at: None,
    }
}

#[test]
fn sign_in() {
    let phc = blog::utils::hash_password("s3cret").unwrap();
    let u = authenticate(Some(stored_user(phc.clone())), "s3cret").unwrap();
    assert_eq!(u.username, "eve");
    assert!(matches!(authenticate(Some(stored_user(phc)), "wrong"), Err(Error::Unauthorized)));
    assert!(matches!(
        authenticate(None, "s3cret"),
        Err(Error::UnprocessableEntity { errors }) if errors == vec![("email".to_string(), "does not exist".to_string())]
    ));
    assert!(matches!(
        authenticate(Some(stored_user("garbage".to_string())), "s3cret"),
        Err(Error::MalformedPasswordHash(_))
    ));
}
