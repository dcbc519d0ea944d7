//! Talking to language servers: framing, envelopes, correlation and routing.

pub mod builder;
pub mod client;
pub mod framing;
pub mod info;
pub mod manager;
pub mod notification;
pub mod request;
pub mod response;
pub mod semantic;
pub mod utils;
