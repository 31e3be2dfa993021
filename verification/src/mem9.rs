//! What is sent to the Mem9 service and how its answers are read.
use vstd::prelude::*;
use vstd::string::StringSliceAdditionalSpecFns;
use crate::text::{
    chars_of, push_all, string_from_chars, strip_all_suffixes, strip_all_suffixes_len, trim_end_len,
    trim_spec, trim_start_index,
};

verus! {

/// The path, under the service's base URL, at which memories are stored.
pub const STORE_PATH: &'static str = "/v1alpha2/mem9s/memories";

/// One memory sent to the service.
pub struct StorePayload {
    pub content: String,
    pub tags: Vec<String>,
    pub source: String,
}

/// The URL to which memories are posted: the base URL without its
/// trailing slashes, then `STORE_PATH`.
pub open spec fn store_endpoint_spec(api_url: Seq<char>) -> Seq<char> {
    strip_all_suffixes(api_url, "/"@) + STORE_PATH@
}

/// The URL to which memories are posted.
pub fn store_endpoint(api_url: &str) -> (res: String)
    ensures
        res@ == store_endpoint_spec(api_url@),
{
    let url = chars_of(api_url);
    let n = strip_all_suffixes_len(url.as_slice(), chars_of("/").as_slice());
    let mut out: Vec<char> = Vec::new();
    push_all(&mut out, &url.as_slice()[0..n]);
    push_all(&mut out, chars_of(STORE_PATH).as_slice());
    string_from_chars(out.as_slice())
}

/// A status in `200..=299` (`StatusCode::is_success`).
pub open spec fn is_success_status_spec(status: u16) -> bool {
    200 <= status <= 299
}

/// Whether the service accepted a store request with this HTTP status.
pub fn is_success_status(status: u16) -> (res: bool)
    ensures
        res == is_success_status_spec(status),
{
    200 <= status && status <= 299
}

/// What a rejection reports of the response body: the trimmed body, or
/// nothing when the body is blank.
pub open spec fn rejection_detail_spec(body: Seq<char>) -> Option<Seq<char>> {
    if trim_spec(body).len() == 0 {
        None
    } else {
        Some(trim_spec(body))
    }
}

/// What a rejection reports of the response body.
pub fn rejection_detail(body: &str) -> (res: Option<String>)
    ensures
        match res {
            Some(d) => rejection_detail_spec(body@) == Some(d@),
            None => rejection_detail_spec(body@) is None,
        },
{
    let b = chars_of(body);
    let end = trim_end_len(b.as_slice());
    let start = trim_start_index(b.as_slice(), 0, end);
    if start == end {
        assert(trim_spec(body@).len() == 0);
        return None;
    }
    let mut out: Vec<char> = Vec::new();
    push_all(&mut out, &b.as_slice()[start..end]);
    Some(string_from_chars(out.as_slice()))
}

/// The error text of a rejected store: the HTTP status as displayed,
/// then the trimmed response body when it is not blank.
pub open spec fn rejection_message_spec(status: Seq<char>, body: Seq<char>) -> Seq<char> {
    let head = "Mem9 store returned a non-success status: HTTP status "@ + status;
    match rejection_detail_spec(body) {
        Some(d) => head + "; response body: "@ + d,
        None => head,
    }
}

/// The error text of a rejected store, given the HTTP status as displayed
/// (such as `403 Forbidden`) and the response body.
pub fn rejection_message(status: &str, body: &str) -> (res: String)
    ensures
        res@ == rejection_message_spec(status@, body@),
{
    let mut out = chars_of("Mem9 store returned a non-success status: HTTP status ");
    push_all(&mut out, chars_of(status).as_slice());
    match rejection_detail(body) {
        Some(d) => {
            push_all(&mut out, chars_of("; response body: ").as_slice());
            push_all(&mut out, chars_of(d.as_str()).as_slice());
        },
        None => {},
    }
    string_from_chars(out.as_slice())
}

/// A byte that an HTTP header value may hold: a visible or blank byte
/// other than DEL, or a tab.
pub open spec fn is_header_value_byte(b: u8) -> bool {
    (b >= 32 && b != 127) || b == 9
}

/// The text can stand as an HTTP header value: each of its UTF-8 bytes
/// may.
pub open spec fn is_header_value_text(text: &str) -> bool {
    forall|i: int| 0 <= i < text.spec_bytes().len() ==> is_header_value_byte(#[trigger] text.spec_bytes()[i])
}

/// `reqwest::header::HeaderValue::from_str` (from the `http` crate),
/// telling only whether it accepts `text`. The contract restates the
/// crate's check: every byte must be a visible byte other than DEL, a
/// space or a tab.
#[verifier::external_body]
fn header_value_accepted(text: &str) -> (res: bool)
    ensures
        res == is_header_value_text(text),
{
    reqwest::header::HeaderValue::from_str(text).is_ok()
}

/// What the user is told when the API key cannot be sent as a header.
pub const INVALID_API_KEY_MESSAGE: &'static str = "invalid MEM9 API key";

/// Why the API key cannot be sent, or `None` when it can: it goes out as
/// the `X-API-Key` header, whose value admits only visible bytes, spaces
/// and tabs.
pub fn api_key_header_error(api_key: &str) -> (res: Option<String>)
    ensures
        res is None <==> is_header_value_text(api_key),
        res matches Some(m) ==> m@ == INVALID_API_KEY_MESSAGE@,
{
    if header_value_accepted(api_key) {
        None
    } else {
        Some(INVALID_API_KEY_MESSAGE.to_string())
    }
}

} // verus!
