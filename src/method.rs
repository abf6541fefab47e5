//! HTTP request methods and which of them carry a payload.
use vstd::prelude::*;

verus! {

/// The standard HTTP request methods.
#[derive(Clone, Copy, Debug, PartialEq, Eq, Structural, Hash)]
pub enum Method {
    Get,
    Post,
    Put,
    Patch,
    Delete,
    Head,
    Options,
    Connect,
    Trace,
}

/// Methods that conventionally carry a request payload.
pub open spec fn carries_payload(m: Method) -> bool {
    m == Method::Post || m == Method::Put || m == Method::Patch
}

impl Method {
    /// Whether a request with this method has its body drained and parsed;
    /// for every other method the body type's default value is used.
    pub fn carries_body(&self) -> (r: bool)
        ensures
            r == carries_payload(*self),
    {
        match self {
            Method::Post | Method::Put | Method::Patch => true,
            _ => false,
        }
    }
}

} // verus!
