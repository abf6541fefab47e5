//! Request bodies: how a drained payload becomes a typed value.
use vstd::prelude::*;
use vstd::utf8::{decode_utf8, valid_utf8};

use crate::error::ServerError;

verus! {

#[verifier::external_type_specification]
#[verifier::external_body]
pub struct ExJsonValue(serde_json::Value);

/// A type that a request body is read as. A payload is parsed into it for
/// methods that carry one; every other request gets its default value,
/// without its payload being read.
pub trait Body: Sized + View {
    /// What `payload` reads as, or `None` where it cannot be read as a
    /// value of this type.
    spec fn reads(payload: Seq<u8>) -> Option<Self::V>;

    /// The view of the value of a request whose payload is not read.
    spec fn default_view() -> Self::V;

    /// Whether `e` is the kind of error this type's parsing fails with.
    spec fn parse_error(e: ServerError) -> bool;

    /// The payload read as a value of this type.
    fn parse(payload: Vec<u8>) -> (r: Result<Self, ServerError>)
        ensures
            r is Ok == Self::reads(payload@) is Some,
            r matches Ok(v) ==> v@ == Self::reads(payload@)->0,
            r matches Err(e) ==> Self::parse_error(e),
    ;

    /// The value of a request whose payload is not read.
    fn default() -> (r: Self)
        ensures
            r@ == Self::default_view(),
    ;
}

/// Whether serde_json reads `payload` as a JSON value.
pub uninterp spec fn json_accepts(payload: Seq<u8>) -> bool;

/// Relies on serde_json::from_slice into a `serde_json::Value`: it succeeds
/// exactly on the payloads that are one well-formed JSON text.
#[verifier::external_body]
fn json_from_slice(payload: &[u8]) -> (r: Result<serde_json::Value, serde_json::Error>)
    ensures
        r is Ok == json_accepts(payload@),
{
    serde_json::from_slice(payload)
}

/// Relies on serde_json::Map::new: the empty JSON object `{}`.
#[verifier::external_body]
fn empty_json_object() -> serde_json::Value {
    serde_json::Value::Object(serde_json::Map::new())
}

/// Relies on String::from_utf8: it succeeds exactly on valid UTF-8, and
/// then holds the decoded characters.
#[verifier::external_body]
fn string_from_utf8(payload: Vec<u8>) -> (r: Result<String, std::string::FromUtf8Error>)
    ensures
        r is Ok == valid_utf8(payload@),
        r matches Ok(s) ==> s@ == decode_utf8(payload@),
{
    String::from_utf8(payload)
}

/// A body read as a JSON value; `{}` where the payload is not read.
pub struct Json(serde_json::Value);

/// A JSON value is opaque to contracts: its view records nothing.
impl View for Json {
    type V = ();

    open spec fn view(&self) -> () {
        ()
    }
}

impl Json {
    /// The JSON value.
    pub fn inner(&self) -> &serde_json::Value {
        &self.0
    }
}

impl Body for Json {
    open spec fn reads(payload: Seq<u8>) -> Option<()> {
        if json_accepts(payload) {
            Some(())
        } else {
            None
        }
    }

    open spec fn default_view() -> () {
        ()
    }

    open spec fn parse_error(e: ServerError) -> bool {
        e is SerdeJson
    }

    fn parse(payload: Vec<u8>) -> (r: Result<Json, ServerError>) {
        match json_from_slice(payload.as_slice()) {
            Ok(value) => Ok(Json(value)),
            Err(e) => Err(ServerError::SerdeJson(e)),
        }
    }

    fn default() -> Json {
        Json(empty_json_object())
    }
}

/// A body read as UTF-8 text; empty where the payload is not read.
pub struct PlainText(String);

impl View for PlainText {
    type V = Seq<char>;

    closed spec fn view(&self) -> Seq<char> {
        self.0@
    }
}

impl PlainText {
    /// The text.
    pub fn inner(&self) -> (r: &str)
        ensures
            r@ == self@,
    {
        self.0.as_str()
    }

    /// The payload read as text: its characters where it is valid UTF-8,
    /// else an error.
    pub fn from_payload(payload: Vec<u8>) -> (r: Result<PlainText, ServerError>)
        ensures
            r is Ok == valid_utf8(payload@),
            r matches Ok(t) ==> t@ == decode_utf8(payload@),
            r matches Err(e) ==> e is FromUtf8,
    {
        match string_from_utf8(payload) {
            Ok(s) => Ok(PlainText(s)),
            Err(e) => Err(ServerError::FromUtf8(e)),
        }
    }

    /// The empty text.
    pub fn empty() -> (r: PlainText)
        ensures
            r@ == Seq::<char>::empty(),
    {
        PlainText(String::new())
    }
}

impl Body for PlainText {
    open spec fn reads(payload: Seq<u8>) -> Option<Seq<char>> {
        if valid_utf8(payload) {
            Some(decode_utf8(payload))
        } else {
            None
        }
    }

    open spec fn default_view() -> Seq<char> {
        Seq::empty()
    }

    open spec fn parse_error(e: ServerError) -> bool {
        e is FromUtf8
    }

    fn parse(payload: Vec<u8>) -> (r: Result<PlainText, ServerError>) {
        PlainText::from_payload(payload)
    }

    fn default() -> PlainText {
        PlainText::empty()
    }
}

} // verus!
