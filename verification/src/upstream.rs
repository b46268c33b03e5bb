//! What the engine takes from `reqwest`: the text of a status, and the header
//! map that goes out with a forwarded request.
//!
//! Nothing of `reqwest` is verified here. Each item below states what the
//! engine relies on.

use reqwest::header::HeaderMap;
use reqwest::header::HeaderName;
use reqwest::header::HeaderValue;
use reqwest::StatusCode;
use std::str::FromStr;
use vstd::prelude::*;
use vstd::string::*;

verus! {

/// `reqwest::header::HeaderValue`, taken as it is: the value type of the
/// header map below.
#[verifier::external_type_specification]
#[verifier::external_body]
pub struct ExHeaderValue(reqwest::header::HeaderValue);

/// `reqwest::header::HeaderMap`, taken as it is: a value of it is filled
/// through the functions below and handed to the outbound call.
#[verifier::external_type_specification]
#[verifier::external_body]
#[verifier::reject_recursive_types(T)]
pub struct ExHeaderMap<T>(reqwest::header::HeaderMap<T>);

/// The text that `StatusCode` prints for the status `code`: the number and
/// the reason phrase on record for it, such as `200 OK`.
pub uninterp spec fn status_text(code: u16) -> Seq<char>;

/// The name under which `HeaderName` files a header named `name`, or nothing
/// where it refuses `name` as a header name.
pub uninterp spec fn header_key(name: Seq<char>) -> Option<Seq<char>>;

/// The headers that a map holds: for each name on file, the bytes of its value.
pub uninterp spec fn header_content(headers: HeaderMap<HeaderValue>) -> Map<Seq<char>, Seq<u8>>;

/// A number of names that a `HeaderMap` always has room for. The map turns an
/// insert down for size only where its table of 32768 slots would have to
/// grow, and a table that full or that crowded holds more names than this.
pub const HEADER_ROOM: usize = 3276;

/// Whether `HeaderValue` takes `value` as a header's value: every byte is a
/// tab or a byte from 32 up that is not 127.
pub open spec fn value_accepted(value: Seq<u8>) -> bool {
    forall|i: int| 0 <= i < value.len() ==> {
        let b = #[trigger] value[i];
        b == 9 || (b >= 32 && b != 127)
    }
}

/// `StatusCode::from_u16`, then the status printed with `to_string`. Codes
/// from 100 to 999 are statuses; no other number is.
#[verifier::external_body]
pub(crate) fn status_line(code: u16) -> (line: Option<String>)
    ensures
        line is Some <==> 100 <= code <= 999,
        line matches Some(text) ==> text@ == status_text(code),
{
    match StatusCode::from_u16(code) {
        Ok(status) => Some(status.to_string()),
        Err(_) => None,
    }
}

/// `HeaderMap::new`: a map that holds no header.
#[verifier::external_body]
pub(crate) fn empty_header_map() -> (headers: HeaderMap<HeaderValue>)
    ensures
        header_content(headers).dom() == Set::<Seq<char>>::empty(),
{
    HeaderMap::new()
}

/// `HeaderMap::try_insert` of a name and a value made with
/// `HeaderName::from_str` and `HeaderValue::from_str`. Where it returns
/// `true`, name and value were accepted and the value is now the only one on
/// file for the name. Where it returns `false`, the map holds what it held: the
/// name or the value was refused, or the map is full. It does return `true`
/// for an accepted name and value while no more than `HEADER_ROOM` names are
/// on file.
#[verifier::external_body]
pub(crate) fn header_map_put(
    headers: &mut HeaderMap<HeaderValue>,
    name: &str,
    value: &str,
) -> (done: bool)
    ensures
        done ==> header_key(name@) is Some && value_accepted(value.spec_bytes()),
        done ==> header_content(*final(headers)) == header_content(*old(headers)).insert(
            header_key(name@).unwrap(),
            value.spec_bytes(),
        ),
        !done ==> header_content(*final(headers)) == header_content(*old(headers)),
        header_key(name@) is Some && value_accepted(value.spec_bytes()) && header_content(
            *old(headers),
        ).dom().finite() && header_content(*old(headers)).dom().len() <= HEADER_ROOM ==> done,
{
    match (HeaderName::from_str(name), HeaderValue::from_str(value)) {
        (Ok(name), Ok(value)) => headers.try_insert(name, value).is_ok(),
        _ => false,
    }
}

} // verus!
