//! Requests: protocol metadata together with a materialized body.
use vstd::prelude::*;

use crate::body::Body;
use crate::error::ServerError;
use crate::method::{carries_payload, Method};

verus! {

/// The metadata of a request: its method, path and headers.
pub struct RequestParts {
    pub method: Method,
    pub path: String,
    pub headers: Vec<(String, String)>,
}

/// A request whose body has been read as a value of type `T`.
pub struct Request<T> {
    parts: RequestParts,
    body: T,
}

impl<T> Request<T> {
    /// The request's metadata.
    pub closed spec fn spec_parts(&self) -> RequestParts {
        self.parts
    }

    /// The request's body.
    pub closed spec fn spec_body(&self) -> T {
        self.body
    }

    /// The request's metadata.
    pub fn parts(&self) -> (r: &RequestParts)
        ensures
            *r == self.spec_parts(),
    {
        &self.parts
    }

    /// The request's body.
    pub fn body(&self) -> (r: &T)
        ensures
            *r == self.spec_body(),
    {
        &self.body
    }
}

impl<T: Body> Request<T> {
    /// The request with metadata `parts` whose body is read from `payload`
    /// where its method carries one (POST, PUT, PATCH). For any other
    /// method `payload` is not looked at: the body is the type's default,
    /// so that such a request never waits on its stream.
    pub fn parse(parts: RequestParts, payload: Vec<u8>) -> (r: Result<Request<T>, ServerError>)
        ensures
            r is Ok == (!carries_payload(parts.method) || T::reads(payload@) is Some),
            r matches Ok(req) ==> req.spec_parts() == parts,
            r matches Err(e) ==> carries_payload(parts.method) && T::parse_error(e),
            r matches Ok(req) ==> req.spec_body()@ == if carries_payload(parts.method) {
                T::reads(payload@)->0
            } else {
                T::default_view()
            },
    {
        if parts.method.carries_body() {
            match T::parse(payload) {
                Ok(body) => Ok(Request { parts, body }),
                Err(e) => Err(e),
            }
        } else {
            Ok(Request { parts, body: T::default() })
        }
    }
}

} // verus!
