//! What comes back from a server: the probe that tells a response from a
//! notification, and the response itself.

use super::utils::{LSPError, Version};
use vstd::prelude::*;

verus! {

/// The answer to a request: its result or the server's error.
#[derive(Debug, PartialEq, Eq)]
pub struct LSPResponse<R> {
    pub result: Result<R, LSPError>,
    pub id: Option<i32>,
}

/// What the first look at an incoming frame shows: enough to tell what
/// kind of message it is, before anything is decoded in full.
#[derive(Debug, Clone, PartialEq, Eq)]
pub struct LSPMessage {
    pub jsonrpc: Version,
    pub method: Option<String>,
    pub id: Option<i32>,
}

impl<R> LSPResponse<R> {
    /// Puts a response together from the members of its envelope.
    ///
    /// A result makes it a success, whatever else there is. Without a
    /// result, an error makes it a failure. An envelope with neither is no
    /// response.
    pub fn new(result: Option<R>, error: Option<LSPError>, id: Option<i32>) -> (response: Option<
        LSPResponse<R>,
    >)
        ensures
            response == match (result, error) {
                (Some(r), _) => Some(LSPResponse { result: Ok(r), id }),
                (None, Some(e)) => Some(LSPResponse { result: Err(e), id }),
                (None, None) => None,
            },
    {
        let result = match result {
            Some(result) => Ok(result),
            None => match error {
                Some(err) => Err(err),
                None => return None,
            },
        };
        Some(LSPResponse { result, id })
    }
}

impl LSPMessage {
    /// Whether the frame answers a request: it does if it carries an id.
    pub fn is_response(&self) -> (answer: bool)
        ensures
            answer == self.id is Some,
    {
        self.id.is_some()
    }

    /// The id that the frame carries.
    pub fn get_id(&self) -> (id: Option<i32>)
        ensures
            id == self.id,
    {
        self.id
    }
}

} // verus!
