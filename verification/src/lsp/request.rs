//! Requests: the envelope of a call, and the id by which its answer is
//! found again.

use super::utils::Version;
use vstd::prelude::*;

verus! {

/// `rand::random::<i32>()`: an integer of which nothing is known.
#[verifier::external_body]
fn random_i32() -> i32 {
    rand::random::<i32>()
}

/// The id that is made of a random integer: its absolute value, and the
/// greatest integer for the least one, whose absolute value is no `i32`.
pub open spec fn spec_request_id(raw: i32) -> i32 {
    if raw == i32::MIN {
        i32::MAX
    } else if raw < 0 {
        (-raw) as i32
    } else {
        raw
    }
}

/// The id that is made of the random integer `raw`.
pub fn request_id(raw: i32) -> (id: i32)
    ensures
        id == spec_request_id(raw),
        id >= 0,
{
    if raw == i32::MIN {
        i32::MAX
    } else if raw < 0 {
        -raw
    } else {
        raw
    }
}

/// The envelope of a request, with parameters of type `P`.
#[derive(Debug, Clone, PartialEq, Eq)]
pub struct LSPRequest<P> {
    pub jsonrpc: Version,
    pub method: String,
    pub params: Option<P>,
    pub id: i32,
}

impl<P> LSPRequest<P> {
    /// A request for `method` with a random id, which is not negative.
    pub fn new(method: &str, body: Option<P>) -> (request: LSPRequest<P>)
        ensures
            request.jsonrpc == Version::V2,
            request.method@ == method@,
            request.params == body,
            request.id >= 0,
    {
        Self::with_id(method, body, random_i32())
    }

    /// A request for `method` whose id is made of the integer `raw`.
    pub fn with_id(method: &str, body: Option<P>, raw: i32) -> (request: LSPRequest<P>)
        ensures
            request.jsonrpc == Version::V2,
            request.method@ == method@,
            request.params == body,
            request.id == spec_request_id(raw),
    {
        LSPRequest {
            jsonrpc: Version::V2,
            method: method.to_string(),
            params: body,
            id: request_id(raw),
        }
    }

    /// The id of the request.
    pub fn get_id(&self) -> (id: i32)
        ensures
            id == self.id,
    {
        self.id
    }
}

} // verus!
