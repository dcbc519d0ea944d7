//! Notifications: messages without an id, which nobody answers.

use super::utils::Version;
use vstd::prelude::*;

verus! {

/// The envelope of a notification, with parameters of type `P`.
#[derive(Debug, Clone, PartialEq, Eq)]
pub struct LSPNotification<P> {
    pub jsonrpc: Version,
    pub method: String,
    pub params: Option<P>,
}

/// A notification as it came in: its method, and its parameters as the
/// JSON text that they were sent in. Who reacts to the method chooses the
/// type to read them as.
#[derive(Debug, Clone, PartialEq, Eq)]
pub struct RawLSPNotification {
    pub jsonrpc: Version,
    pub method: String,
    pub params: String,
}

impl<P> LSPNotification<P> {
    /// A notification of `method`.
    pub fn new(method: &str, body: Option<P>) -> (notification: LSPNotification<P>)
        ensures
            notification.jsonrpc == Version::V2,
            notification.method@ == method@,
            notification.params == body,
    {
        LSPNotification { jsonrpc: Version::V2, method: method.to_string(), params: body }
    }
}

impl RawLSPNotification {
    /// A notification from the members of an incoming envelope: `method`
    /// is there where the envelope's method is a string, and is taken as
    /// empty where it is not; `params` is the text of the parameters.
    pub fn new(method: Option<String>, params: String) -> (notification: RawLSPNotification)
        ensures
            notification.jsonrpc == Version::V2,
            notification.method@ == match method {
                Some(m) => m@,
                None => Seq::empty(),
            },
            notification.params == params,
    {
        let method = match method {
            Some(method) => method,
            None => String::new(),
        };
        RawLSPNotification { jsonrpc: Version::V2, method, params }
    }

    /// The notification read with parameters of type `P`, which `params`
    /// holds: the typed form of this notification.
    pub fn parse<P>(&self, params: P) -> (notification: LSPNotification<P>)
        ensures
            notification.jsonrpc == self.jsonrpc,
            notification.method@ == self.method@,
            notification.params == Some(params),
    {
        LSPNotification { jsonrpc: self.jsonrpc, method: self.method.clone(), params: Some(params) }
    }
}

} // verus!
