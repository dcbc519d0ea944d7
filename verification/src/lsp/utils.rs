//! Protocol constants shared by every envelope: the version tag and the
//! error codes of JSON-RPC.

use crate::text::str_eq;
use vstd::prelude::*;

verus! {

/// The error code of a failed request.
#[derive(Debug, PartialEq, Clone, Copy, Eq, Structural)]
pub enum ErrorCode {
    /// Invalid JSON was received by the server.
    ParseError,
    /// The JSON sent is not a valid request object.
    InvalidRequest,
    /// The method does not exist or is not available.
    MethodNotFound,
    /// Invalid method parameters.
    InvalidParams,
    /// Internal JSON-RPC error.
    InternalError,
    /// Any other code: defined by the server, carried as it came.
    ServerError(i64),
}

/// The kind that a wire code stands for.
pub open spec fn spec_from_code(code: int) -> ErrorCode
    recommends
        i64::MIN <= code <= i64::MAX,
{
    if code == -32700 {
        ErrorCode::ParseError
    } else if code == -32600 {
        ErrorCode::InvalidRequest
    } else if code == -32601 {
        ErrorCode::MethodNotFound
    } else if code == -32602 {
        ErrorCode::InvalidParams
    } else if code == -32603 {
        ErrorCode::InternalError
    } else {
        ErrorCode::ServerError(code as i64)
    }
}

impl ErrorCode {
    /// The wire code of this kind.
    pub open spec fn spec_code(self) -> int {
        match self {
            ErrorCode::ParseError => -32700,
            ErrorCode::InvalidRequest => -32600,
            ErrorCode::MethodNotFound => -32601,
            ErrorCode::InvalidParams => -32602,
            ErrorCode::InternalError => -32603,
            ErrorCode::ServerError(code) => code as int,
        }
    }

    /// Maps a wire code onto its kind: the five well-known negative codes
    /// onto their names, every other integer onto `ServerError`.
    pub fn from_code(code: i64) -> (kind: Self)
        ensures
            kind == spec_from_code(code as int),
            kind.spec_code() == code,
    {
        match code {
            -32700 => ErrorCode::ParseError,
            -32600 => ErrorCode::InvalidRequest,
            -32601 => ErrorCode::MethodNotFound,
            -32602 => ErrorCode::InvalidParams,
            -32603 => ErrorCode::InternalError,
            code => ErrorCode::ServerError(code),
        }
    }
}

/// The error that a server returned in place of a result.
#[derive(Debug, Clone, PartialEq, Eq)]
pub struct LSPError {
    pub code: ErrorCode,
    pub message: String,
}

/// The version tag of an envelope.
#[derive(Debug, Clone, Copy, PartialEq, Eq, Structural)]
pub enum Version {
    /// JSON-RPC 2.0, written `"2.0"` on the wire.
    V2,
}

impl Version {
    /// The tag as it is written on the wire.
    pub fn as_str(&self) -> (tag: &'static str)
        ensures
            tag@ == "2.0"@,
    {
        "2.0"
    }

    /// Reads a tag from the wire: `"2.0"` is the one tag there is, any
    /// other text is none.
    pub fn parse(tag: &str) -> (version: Option<Version>)
        ensures
            version == if tag@ == "2.0"@ {
                Some(Version::V2)
            } else {
                None
            },
    {
        if str_eq(tag, "2.0") {
            Some(Version::V2)
        } else {
            None
        }
    }
}

} // verus!
