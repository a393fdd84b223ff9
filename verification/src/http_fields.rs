//! The HTTP headers of `pingora_http`: what the proxy reads off a request and writes on a
//! response.

use crate::text::lowered;
use pingora_http::{RequestHeader, ResponseHeader};
use vstd::prelude::*;
use vstd::utf8::*;

verus! {

/// The request header of `pingora_http`.
#[verifier::external_type_specification]
#[verifier::external_body]
pub struct ExRequestHeader(RequestHeader);

/// The response header of `pingora_http`.
#[verifier::external_type_specification]
#[verifier::external_body]
pub struct ExResponseHeader(ResponseHeader);

/// The path of a request's URI.
pub uninterp spec fn request_path(request: RequestHeader) -> Seq<char>;

/// The method of a request.
pub uninterp spec fn request_method(request: RequestHeader) -> Seq<char>;

/// The bytes of a request's first field of that name.
pub uninterp spec fn request_field(request: RequestHeader, name: Seq<char>) -> Option<Seq<u8>>;

/// The status code of a response.
pub uninterp spec fn response_status(response: ResponseHeader) -> int;

/// The fields of a response: for each name, in small letters, its values in order.
pub uninterp spec fn response_fields(response: ResponseHeader) -> Map<Seq<char>, Seq<Seq<u8>>>;

/// The number of field names that a response has.
pub uninterp spec fn response_field_count(response: ResponseHeader) -> nat;

/// The number of field names up to which one more always fits into a header map, however their
/// hashes collide.
pub const FIELD_LIMIT: usize = 6553;

/// Whether a byte is a visible ASCII character, a blank or a tab.
pub open spec fn is_visible(b: u8) -> bool {
    32 <= b < 127 || b == 9
}

/// The text of a field value, where all its bytes are visible.
pub open spec fn visible_text(value: Option<Seq<u8>>) -> Option<Seq<char>> {
    match value {
        Some(bytes) => if forall|i: int| 0 <= i < bytes.len() ==> is_visible(#[trigger] bytes[i]) {
            Some(decode_utf8(bytes))
        } else {
            None
        },
        None => None,
    }
}

/// Whether bytes can be the value of a field.
pub open spec fn is_field_value(bytes: Seq<u8>) -> bool {
    forall|i: int|
        0 <= i < bytes.len() ==> (#[trigger] bytes[i] >= 32 && bytes[i] != 127 || bytes[i] == 9)
}

/// Whether a text is made of ASCII letters, digits and hyphens.
pub open spec fn is_plain_name(name: Seq<char>) -> bool {
    &&& 0 < name.len() <= 64
    &&& forall|i: int|
        0 <= i < name.len() ==> ('a' <= #[trigger] name[i] <= 'z' || 'A' <= name[i] <= 'Z' || '0'
            <= name[i] <= '9' || name[i] == '-')
}

/// The path of a request.
///
/// Calls `path` of the request's URI. Claims only that the path is a function of the request.
#[verifier::external_body]
pub(crate) fn path_of(request: &RequestHeader) -> (r: String)
    ensures
        r@ == request_path(*request),
{
    request.uri.path().to_string()
}

/// The method of a request.
///
/// Calls `as_str` of the request's method. Claims only that the method is a function of the
/// request.
#[verifier::external_body]
pub(crate) fn method_of(request: &RequestHeader) -> (r: String)
    ensures
        r@ == request_method(*request),
{
    request.method.as_str().to_string()
}

/// The text of a request's field.
///
/// Calls `get` of the request's header map and `to_str` of the value. Claims that the first field
/// of that name is taken and that it gives a text exactly where all its bytes are visible.
#[verifier::external_body]
pub(crate) fn field_of(request: &RequestHeader, name: &str) -> (r: Option<String>)
    ensures
        match visible_text(request_field(*request, name@)) {
            Some(text) => r is Some && r->0@ == text,
            None => r is None,
        },
{
    request.headers.get(name).and_then(|v| v.to_str().ok()).map(|s| s.to_string())
}

/// Starts a response.
///
/// Calls `pingora_http::ResponseHeader::build`. Claims that it takes every status code of three
/// digits and no other, and that the response has that status and no fields.
#[verifier::external_body]
pub(crate) fn build_response(status: u16) -> (r: Option<ResponseHeader>)
    ensures
        r is Some <==> 100 <= status <= 999,
        r is Some ==> response_status(r->0) == status,
        r is Some ==> (response_fields(r->0) == Map::<Seq<char>, Seq<Seq<u8>>>::empty()),
        r is Some ==> response_field_count(r->0) == 0,
{
    ResponseHeader::build(status, None).ok()
}

/// Sets a field of a response.
///
/// Calls `pingora_http::ResponseHeader::insert_header`. Claims, for a plain name, that it
/// succeeds exactly on a valid value, that the value then takes the place of all earlier
/// values of that name, in any case, and that nothing else changes.
#[verifier::external_body]
pub(crate) fn set_field(response: &mut ResponseHeader, name: &'static str, value: &str) -> (ok: bool)
    requires
        is_plain_name(name@),
        response_field_count(*old(response)) <= FIELD_LIMIT,
    ensures
        ok <==> is_field_value(encode_utf8(value@)),
        response_status(*final(response)) == response_status(*old(response)),
        response_fields(*final(response)) == if ok {
            response_fields(*old(response)).insert(lowered(name@), seq![encode_utf8(value@)])
        } else {
            response_fields(*old(response))
        },
        response_field_count(*final(response)) <= response_field_count(*old(response)) + 1,
{
    response.insert_header(name, value).is_ok()
}

/// The number of field names that a response has.
///
/// Calls `keys_len` of the response's header map. Claims that it is that number.
#[verifier::external_body]
pub(crate) fn count_fields(response: &ResponseHeader) -> (r: usize)
    ensures
        r == response_field_count(*response),
{
    response.headers.keys_len()
}

} // verus!
