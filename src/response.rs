//! Responses, built step by step and checked before they are sent.
use vstd::prelude::*;
use vstd::string::StringSliceAdditionalSpecFns;
use vstd::utf8::{encode_utf8, is_ascii_chars, is_ascii_chars_encode_utf8};

use crate::error::ServerError;

verus! {

/// The status a response has until one is set.
pub const STATUS_OK: u16 = 200;

/// The status of a response to a request that no route matches.
pub const STATUS_NOT_FOUND: u16 = 404;

/// The status of a response to a request whose handling failed.
pub const STATUS_INTERNAL_ERROR: u16 = 500;

/// Whether `status` is a code that a response line can carry.
pub open spec fn valid_status(status: u16) -> bool {
    100 <= status <= 999
}

/// Whether `b` may stand in a header value: a tab, or any byte from space
/// up but DEL.
pub open spec fn header_value_byte(b: u8) -> bool {
    (b >= 32 && b != 127) || b == 9
}

/// Whether every byte of `v` may stand in a header value.
pub open spec fn valid_header_value(v: Seq<u8>) -> bool {
    forall|i: int| 0 <= i < v.len() ==> header_value_byte(#[trigger] v[i])
}

/// The bytes of an ASCII text.
pub open spec fn ascii_bytes(s: Seq<char>) -> Seq<u8> {
    s.map_values(|c: char| c as u8)
}

/// A character that a JSON string holds as it is: printable ASCII other
/// than a quote or a backslash.
pub open spec fn plain_json_char(c: char) -> bool {
    ' ' <= c <= '~' && c != '"' && c != '\\'
}

/// Whether every character of `s` is held in JSON as it is.
pub open spec fn plain_json_text(s: Seq<char>) -> bool {
    forall|i: int| 0 <= i < s.len() ==> plain_json_char(#[trigger] s[i])
}

/// The JSON object with the one string field `key: value`, written
/// compactly, for texts that need no escapes.
pub open spec fn plain_json_field(key: Seq<char>, value: Seq<char>) -> Seq<u8> {
    seq![0x7bu8, 0x22u8] + ascii_bytes(key) + seq![0x22u8, 0x3au8, 0x22u8] + ascii_bytes(value)
        + seq![0x22u8, 0x7du8]
}

/// The lowercase hexadecimal digit for `d`, below 16, as a byte.
pub open spec fn hex_digit(d: u8) -> u8 {
    if d < 10 {
        (48 + d) as u8
    } else {
        (87 + d) as u8
    }
}

/// How byte `b` of a text is written inside a JSON string: a quote, a
/// backslash and control bytes are escaped (control bytes without a short
/// form as `\u00XX`); every other byte stands as it is.
pub open spec fn escape_byte(b: u8) -> Seq<u8> {
    if b == 0x22 {
        seq![0x5cu8, 0x22u8]
    } else if b == 0x5c {
        seq![0x5cu8, 0x5cu8]
    } else if b == 0x08 {
        seq![0x5cu8, 0x62u8]
    } else if b == 0x09 {
        seq![0x5cu8, 0x74u8]
    } else if b == 0x0a {
        seq![0x5cu8, 0x6eu8]
    } else if b == 0x0c {
        seq![0x5cu8, 0x66u8]
    } else if b == 0x0d {
        seq![0x5cu8, 0x72u8]
    } else if b < 0x20 {
        seq![0x5cu8, 0x75u8, 0x30u8, 0x30u8, hex_digit(b / 16), hex_digit(b % 16)]
    } else {
        seq![b]
    }
}

/// The bytes `bs` escaped for a JSON string.
pub open spec fn escape_bytes(bs: Seq<u8>) -> Seq<u8>
    decreases bs.len(),
{
    if bs.len() == 0 {
        Seq::empty()
    } else {
        escape_bytes(bs.drop_last()) + escape_byte(bs.last())
    }
}

/// The JSON string for the text `s`: its UTF-8 bytes, escaped, in quotes.
pub open spec fn json_string_bytes(s: Seq<char>) -> Seq<u8> {
    seq![0x22u8] + escape_bytes(encode_utf8(s)) + seq![0x22u8]
}

/// The compact JSON text of the object with the one string field
/// `key: value`.
pub open spec fn json_object_text(key: Seq<char>, value: Seq<char>) -> Seq<u8> {
    seq![0x7bu8] + json_string_bytes(key) + seq![0x3au8] + json_string_bytes(value) + seq![0x7du8]
}

/// Bytes of printable ASCII other than a quote and a backslash need no
/// escape.
proof fn lemma_escape_plain(bs: Seq<u8>)
    requires
        forall|i: int|
            0 <= i < bs.len() ==> 0x20 <= #[trigger] bs[i] <= 0x7e && bs[i] != 0x22 && bs[i] != 0x5c,
    ensures
        escape_bytes(bs) == bs,
    decreases bs.len(),
{
    if bs.len() > 0 {
        lemma_escape_plain(bs.drop_last());
        assert(bs.drop_last().push(bs.last()) =~= bs);
        assert(escape_byte(bs.last()) =~= seq![bs.last()]);
    }
}

/// A text that needs no escapes is written as its ASCII bytes in quotes.
proof fn lemma_plain_json_string(s: Seq<char>)
    requires
        plain_json_text(s),
    ensures
        json_string_bytes(s) == seq![0x22u8] + ascii_bytes(s) + seq![0x22u8],
{
    assert(is_ascii_chars(s));
    is_ascii_chars_encode_utf8(s);
    let e = encode_utf8(s);
    assert(e =~= ascii_bytes(s));
    assert forall|i: int| 0 <= i < e.len() implies 0x20 <= #[trigger] e[i] <= 0x7e && e[i] != 0x22
        && e[i] != 0x5c by {
        assert(plain_json_char(s[i]));
        assert(e[i] == s[i] as u8);
    }
    lemma_escape_plain(e);
}

/// For texts that need no escapes the JSON object is written plainly.
proof fn lemma_plain_json_field(key: Seq<char>, value: Seq<char>)
    requires
        plain_json_text(key),
        plain_json_text(value),
    ensures
        json_object_text(key, value) == plain_json_field(key, value),
{
    lemma_plain_json_string(key);
    lemma_plain_json_string(value);
    assert(json_object_text(key, value) =~= plain_json_field(key, value));
}

/// Relies on serde_json::to_vec of an object with one string field: it
/// writes `{"key":"value"}` compactly (ser.rs, CompactFormatter), each
/// string's UTF-8 bytes escaped by the table ESCAPE and write_char_escape.
#[verifier::external_body]
fn json_object_bytes(key: &str, value: &str) -> (r: Vec<u8>)
    ensures
        r@ == json_object_text(key@, value@),
{
    let mut map = serde_json::Map::new();
    map.insert(key.to_owned(), serde_json::Value::String(value.to_owned()));
    match serde_json::to_vec(&serde_json::Value::Object(map)) {
        Ok(bytes) => bytes,
        Err(_) => Vec::new(),
    }
}

/// Relies on http::StatusCode::from_u16, which accepts exactly the codes
/// from 100 to 999.
#[verifier::external_body]
fn status_code_valid(status: u16) -> (r: bool)
    ensures
        r == valid_status(status),
{
    http::StatusCode::from_u16(status).is_ok()
}

/// Relies on http::HeaderValue::from_str, which accepts a text exactly when
/// each of its bytes is a tab or from space up but DEL.
#[verifier::external_body]
fn header_value_valid(value: &str) -> (r: bool)
    ensures
        r == valid_header_value(value.spec_bytes()),
{
    http::HeaderValue::from_str(value).is_ok()
}

/// A response as values: its status, its headers in the order they were
/// set, and its payload.
pub struct ResponseView {
    pub status: u16,
    pub headers: Seq<(Seq<char>, Seq<char>)>,
    pub body: Seq<u8>,
}

/// The head of a checked response: a valid status and valid headers.
pub struct ResponseHead {
    pub status: u16,
    pub headers: Vec<(String, String)>,
}

/// A response under construction: a status, headers and a payload.
pub struct Response {
    status: u16,
    headers: Vec<(String, String)>,
    data: Vec<u8>,
}

/// The header name under which the payload's media type is sent.
pub open spec fn content_type_name() -> Seq<char> {
    "Content-Type"@
}

/// The media type of every response that the framework writes itself.
pub open spec fn json_media_type() -> Seq<char> {
    "application/json"@
}

/// The views of a list of header pairs.
pub open spec fn header_views(h: Seq<(String, String)>) -> Seq<(Seq<char>, Seq<char>)> {
    h.map_values(|p: (String, String)| (p.0@, p.1@))
}

impl View for Response {
    type V = ResponseView;

    closed spec fn view(&self) -> ResponseView {
        ResponseView { status: self.status, headers: header_views(self.headers@), body: self.data@ }
    }
}

impl Response {
    /// An empty response: status 200, no header, no payload.
    pub fn new() -> (r: Response)
        ensures
            r@ == (ResponseView { status: STATUS_OK, headers: Seq::empty(), body: Seq::empty() }),
    {
        let r = Response { status: STATUS_OK, headers: Vec::new(), data: Vec::new() };
        assert(r@.headers =~= Seq::<(Seq<char>, Seq<char>)>::empty());
        r
    }

    /// The response with its status set to `status`.
    pub fn status(self, status: u16) -> (r: Response)
        ensures
            r@ == (ResponseView { status, ..self@ }),
    {
        Response { status, ..self }
    }

    /// The response with a `Content-Type` header of `content_ty` added.
    pub fn content_type(self, content_ty: &str) -> (r: Response)
        ensures
            r@ == (ResponseView {
                headers: self@.headers.push((content_type_name(), content_ty@)),
                ..self@
            }),
    {
        let mut headers = self.headers;
        let ghost before = headers@;
        headers.push(("Content-Type".to_owned(), content_ty.to_owned()));
        assert(header_views(headers@) =~= header_views(before).push(
            (content_type_name(), content_ty@),
        ));
        Response { headers, ..self }
    }

    /// The response with its payload set to `body`.
    pub fn body(self, body: Vec<u8>) -> (r: Response)
        ensures
            r@ == (ResponseView { body: body@, ..self@ }),
    {
        Response { data: body, ..self }
    }

    /// The checked head and the payload, ready to be written out; an error
    /// where the status or a header value cannot be sent.
    pub fn into_inner(self) -> (r: Result<(ResponseHead, Vec<u8>), ServerError>)
        ensures
            r is Ok == (valid_status(self@.status) && forall|i: int|
                0 <= i < self@.headers.len() ==> valid_header_value(
                    encode_utf8(#[trigger] self@.headers[i].1),
                )),
            !valid_status(self@.status) ==> (r matches Err(ServerError::InvalidStatus(s)) && s
                == self@.status),
            valid_status(self@.status) && r is Err ==> (r matches Err(ServerError::InvalidHeader(v))
                && exists|i: int|
                0 <= i < self@.headers.len() && #[trigger] self@.headers[i].1 == v@
                    && !valid_header_value(encode_utf8(v@))),
            r matches Ok((head, data)) ==> head.status == self@.status && header_views(
                head.headers@,
            ) == self@.headers && data@ == self@.body,
    {
        if !status_code_valid(self.status) {
            return Err(ServerError::InvalidStatus(self.status));
        }
        let mut i: usize = 0;
        while i < self.headers.len()
            invariant
                i <= self.headers@.len(),
                valid_status(self@.status),
                forall|j: int|
                    0 <= j < i ==> valid_header_value(encode_utf8(#[trigger] self@.headers[j].1)),
            decreases self.headers@.len() - i,
        {
            assert(self@.headers[i as int].1 == self.headers@[i as int].1@);
            if !header_value_valid(self.headers[i].1.as_str()) {
                return Err(ServerError::InvalidHeader(self.headers[i].1.clone()));
            }
            i = i + 1;
        }
        Ok((ResponseHead { status: self.status, headers: self.headers }, self.data))
    }
}

/// A JSON response with status `status` whose payload is the object with
/// the one string field `key: value`.
pub fn json_response(status: u16, key: &str, value: &str) -> (r: Response)
    ensures
        r@ == (ResponseView {
            status,
            headers: seq![(content_type_name(), json_media_type())],
            body: json_object_text(key@, value@),
        }),
        plain_json_text(key@) && plain_json_text(value@) ==> r@.body == plain_json_field(key@, value@),
{
    let r = Response::new().status(status).content_type("application/json").body(
        json_object_bytes(key, value),
    );
    assert(r@.headers =~= seq![(content_type_name(), json_media_type())]);
    proof {
        if plain_json_text(key@) && plain_json_text(value@) {
            lemma_plain_json_field(key@, value@);
        }
    }
    r
}

/// The response to a request that no route matches: status 404 and
/// `{"error_message":"not found"}`.
pub fn not_found() -> (r: Response)
    ensures
        r@ == (ResponseView {
            status: STATUS_NOT_FOUND,
            headers: seq![(content_type_name(), json_media_type())],
            body: plain_json_field("error_message"@, "not found"@),
        }),
{
    proof {
        reveal_strlit("error_message");
        reveal_strlit("not found");
    }
    json_response(STATUS_NOT_FOUND, "error_message", "not found")
}

/// The response to a request whose handling failed with `message`: status
/// 500 and `{"error": message}`.
pub fn error_response(message: &str) -> (r: Response)
    ensures
        r@ == (ResponseView {
            status: STATUS_INTERNAL_ERROR,
            headers: seq![(content_type_name(), json_media_type())],
            body: json_object_text("error"@, message@),
        }),
{
    json_response(STATUS_INTERNAL_ERROR, "error", message)
}

} // verus!
