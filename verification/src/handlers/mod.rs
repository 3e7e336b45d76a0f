pub mod user;

use vstd::prelude::*;
use vstd::utf8::encode_utf8;

use axum::http::header::{InvalidHeaderValue, SET_COOKIE};
use axum::http::{HeaderMap, HeaderValue};

use crate::auth::COOKIE_LIFETIME;
use crate::utils::{decimal, push_decimal};

verus! {

/// The text of the `Set-Cookie` header that stores `value` under `key` for
/// the lifetime of a session.
pub open spec fn spec_set_cookie_value(key: Seq<char>, value: Seq<char>) -> Seq<char> {
    key + seq!['='] + value + "; Max-Age="@ + decimal(COOKIE_LIFETIME as nat)
}

/// Law: the cookie text is the key, `=`, the whole value, and
/// `; Max-Age=604800` (one week in seconds), for every key and value.
pub proof fn lemma_cookie_text(key: Seq<char>, value: Seq<char>)
    ensures
        spec_set_cookie_value(key, value) == key + "="@ + value + "; Max-Age=604800"@,
        COOKIE_LIFETIME == 604800,
{
    reveal_strlit("=");
    reveal_strlit("; Max-Age=");
    reveal_strlit("; Max-Age=604800");
    reveal_with_fuel(decimal, 7);
    assert(decimal(604800) =~= seq!['6', '0', '4', '8', '0', '0']);
    assert(spec_set_cookie_value(key, value) =~= key + "="@ + value + "; Max-Age=604800"@);
}

/// The text of the `Set-Cookie` header that stores `value` under `key` for
/// the lifetime of a session: `key=value; Max-Age=604800`.
pub fn set_cookie_value(key: &str, value: &str) -> (text: String)
    ensures
        text@ == spec_set_cookie_value(key@, value@),
        text@ == key@ + "="@ + value@ + "; Max-Age=604800"@,
{
    proof {
        lemma_cookie_text(key@, value@);
    }
    let mut text = String::new();
    text.append(key);
    text.push('=');
    text.append(value);
    text.append("; Max-Age=");
    push_decimal(&mut text, COOKIE_LIFETIME);
    assert(text@ =~= spec_set_cookie_value(key@, value@));
    text
}

/// A header value of the http crate (as re-exported by axum).
#[verifier::external_type_specification]
#[verifier::external_body]
pub struct ExHeaderValue(HeaderValue);

/// The error of the http crate for text that is no valid header value.
#[verifier::external_type_specification]
#[verifier::external_body]
pub struct ExInvalidHeaderValue(InvalidHeaderValue);

/// A header map of the http crate (as re-exported by axum).
#[verifier::external_type_specification]
#[verifier::external_body]
#[verifier::reject_recursive_types(T)]
pub struct ExHeaderMap<T>(HeaderMap<T>);

/// The bytes that a header value holds.
pub uninterp spec fn header_value_bytes(v: HeaderValue) -> Seq<u8>;

/// What a header map holds: for each header name (in lowercase) the bytes of
/// its values, in order.
pub uninterp spec fn header_map_entries(m: HeaderMap<HeaderValue>) -> Map<Seq<char>, Seq<Seq<u8>>>;

/// A character that may stand in a header value: a tab, or anything from the
/// space upwards but DEL. (Non-ASCII characters encode to bytes from 0x80
/// upwards, which header values accept.)
pub open spec fn is_header_value_char(c: char) -> bool {
    c == '\t' || (' ' <= c && c != '\x7f')
}

/// Whether a text may stand as a header value.
pub open spec fn is_header_value_text(s: Seq<char>) -> bool {
    forall|i: int| 0 <= i < s.len() ==> is_header_value_char(#[trigger] s[i])
}

/// `HeaderValue::from_str` of http: succeeds exactly when every byte of the
/// text is a tab or is at least 32 and not 127 (the source's `is_valid`),
/// which is `is_header_value_text` of its characters; the value then holds
/// the text's UTF-8 bytes.
#[verifier::external_body]
fn header_value_from_str(src: &str) -> (r: Result<HeaderValue, InvalidHeaderValue>)
    ensures
        r is Ok <==> is_header_value_text(src@),
        r matches Ok(v) ==> header_value_bytes(v) == encode_utf8(src@),
{
    HeaderValue::from_str(src)
}

/// `HeaderMap::new` of http: an empty map.
#[verifier::external_body]
fn new_header_map() -> (empty: HeaderMap)
    ensures
        header_map_entries(empty).dom().is_empty(),
{
    HeaderMap::new()
}

/// `HeaderMap::insert` of http with the key `SET_COOKIE`: the `set-cookie`
/// entry afterwards holds exactly the given value, every other entry stays;
/// the previous first value is returned when there was one. `insert` panics
/// when the map outgrows its capacity limit, so only an empty map is admitted.
#[verifier::external_body]
fn insert_set_cookie(headers: &mut HeaderMap, value: HeaderValue) -> (previous: Option<HeaderValue>)
    requires
        header_map_entries(*old(headers)).dom().is_empty(),
    ensures
        header_map_entries(*final(headers)) == header_map_entries(*old(headers)).insert(
            "set-cookie"@,
            seq![header_value_bytes(value)],
        ),
        previous is Some <==> header_map_entries(*old(headers)).dom().contains("set-cookie"@),
        previous matches Some(p) ==> header_value_bytes(p) == header_map_entries(
            *old(headers),
        )["set-cookie"@][0],
{
    headers.insert(SET_COOKIE, value)
}

/// The response headers that store `value` under `key` in the client's
/// cookies for the lifetime of a session: a single `set-cookie` header whose
/// value is `set_cookie_value(key, value)`. The text must be a valid header
/// value.
pub fn set_cookie(key: &str, value: &str) -> (headers: HeaderMap)
    requires
        is_header_value_text(spec_set_cookie_value(key@, value@)),
    ensures
        header_map_entries(headers) == Map::<Seq<char>, Seq<Seq<u8>>>::empty().insert(
            "set-cookie"@,
            seq![encode_utf8(spec_set_cookie_value(key@, value@))],
        ),
        header_map_entries(headers) == Map::<Seq<char>, Seq<Seq<u8>>>::empty().insert(
            "set-cookie"@,
            seq![encode_utf8(key@ + "="@ + value@ + "; Max-Age=604800"@)],
        ),
{
    proof {
        lemma_cookie_text(key@, value@);
    }
    let text = set_cookie_value(key, value);
    let mut headers = new_header_map();
    if let Ok(v) = header_value_from_str(text.as_str()) {
        let _ = insert_set_cookie(&mut headers, v);
    }
    headers
}

} // verus!
