//! Errors of the framework.
use vstd::prelude::*;

verus! {

#[verifier::external_type_specification]
#[verifier::external_body]
pub struct ExJsonError(serde_json::Error);

#[verifier::external_type_specification]
#[verifier::external_body]
pub struct ExFromUtf8Error(std::string::FromUtf8Error);

/// Everything that can go wrong while registering routes, reading a request
/// body or assembling a response.
#[derive(Debug)]
pub enum ServerError {
    /// A payload that is not well-formed JSON.
    SerdeJson(serde_json::Error),
    /// A payload that is not UTF-8 text.
    FromUtf8(std::string::FromUtf8Error),
    /// A response status outside `100..=999`.
    InvalidStatus(u16),
    /// A response header value with a byte that a header may not hold.
    InvalidHeader(String),
    /// A route was registered for a path with no segment, such as `/`.
    IllegalPath,
    /// Any other failure, described in words.
    Str(String),
}

/// Relies on serde_json::Error's `Display`: a description of the error.
#[verifier::external_body]
fn json_error_text(e: &serde_json::Error) -> String {
    e.to_string()
}

/// Relies on FromUtf8Error's `Display`: a description of the error.
#[verifier::external_body]
fn utf8_error_text(e: &std::string::FromUtf8Error) -> String {
    e.to_string()
}

/// The description of an error of the framework's own; `None` for the
/// errors whose text comes from the crate that raised them.
pub open spec fn error_text(e: ServerError) -> Option<Seq<char>> {
    match e {
        ServerError::Str(s) => Some(s@),
        ServerError::IllegalPath => Some("illegal path"@),
        ServerError::InvalidStatus(_) => Some("invalid status code"@),
        ServerError::InvalidHeader(_) => Some("invalid header value"@),
        ServerError::SerdeJson(_) => None,
        ServerError::FromUtf8(_) => None,
    }
}

impl ServerError {
    /// A description of the error in words.
    pub fn message(&self) -> (r: String)
        ensures
            error_text(*self) matches Some(t) ==> r@ == t,
    {
        match self {
            ServerError::SerdeJson(e) => json_error_text(e),
            ServerError::FromUtf8(e) => utf8_error_text(e),
            ServerError::InvalidStatus(_) => "invalid status code".to_owned(),
            ServerError::InvalidHeader(_) => "invalid header value".to_owned(),
            ServerError::IllegalPath => "illegal path".to_owned(),
            ServerError::Str(s) => s.clone(),
        }
    }
}

} // verus!
