use codeforge::lsp::client::{CorrelationError, Delivery, LSPClient};
use codeforge::lsp::notification::{LSPNotification, RawLSPNotification};
use codeforge::lsp::request::{request_id, LSPRequest};
use codeforge::lsp::response::{LSPMessage, LSPResponse};
use codeforge::lsp::utils::{ErrorCode, LSPError, Version};

#[test]
fn well_known_error_codes() {
    assert_eq!(ErrorCode::from_code(-32700), ErrorCode::ParseError);
    assert_eq!(ErrorCode::from_code(-32600), ErrorCode::InvalidRequest);
    assert_eq!(ErrorCode::from_code(-32601), ErrorCode::MethodNotFound);
    assert_eq!(ErrorCode::from_code(-32602), ErrorCode::InvalidParams);
    assert_eq!(ErrorCode::from_code(-32603), ErrorCode::InternalError);
}

#[test]
fn other_error_codes_are_server_errors() {
    for code in [0, 1, -1, -32000, -32099, -32604, -32699, 32700, i64::MIN, i64::MAX] {
        assert_eq!(ErrorCode::from_code(code), ErrorCode::ServerError(code));
    }
}

#[test]
fn version_tag() {
    assert_eq!(Version::V2.as_str(), "2.0");
    assert_eq!(Version::parse("2.0"), Some(Version::V2));
    assert_eq!(Version::parse("2"), None);
    assert_eq!(Version::parse("1.0"), None);
    assert_eq!(Version::parse(""), None);
}

#[test]
fn request_ids_are_absolute_values() {
    assert_eq!(request_id(0), 0);
    assert_eq!(request_id(17), 17);
    assert_eq!(request_id(-17), 17);
    assert_eq!(request_id(i32::MAX), i32::MAX);
    assert_eq!(request_id(i32::MIN + 1), i32::MAX);
    assert_eq!(request_id(i32::MIN), i32::MAX);
}

#[test]
fn new_requests_have_ids_that_are_not_negative() {
    for _ in 0..200 {
        let request: LSPRequest<u8> = LSPRequest::new("initialize", Some(3));
        assert!(request.get_id() >= 0);
        assert_eq!(request.method, "initialize");
        assert_eq!(request.params, Some(3));
        assert_eq!(request.jsonrpc, Version::V2);
    }
    let a: LSPRequest<()> = LSPRequest::new("m", None);
    let differs = (0..50).any(|_| LSPRequest::<()>::new("m", None).get_id() != a.get_id());
    assert!(differs);
}

#[test]
fn request_with_a_given_id() {
    let request = LSPRequest::with_id("shutdown", None::<String>, -5);
    assert_eq!(
        request,
        LSPRequest { jsonrpc: Version::V2, method: "shutdown".to_string(), params: None, id: 5 }
    );
    assert_eq!(request.get_id(), 5);
}

#[test]
fn notifications() {
    assert_eq!(
        LSPNotification::new("initialized", Some(1u8)),
        LSPNotification { jsonrpc: Version::V2, method: "initialized".to_string(), params: Some(1u8) }
    );
    let raw = RawLSPNotification::new(Some("$/progress".to_string()), "{\"a\":1}".to_string());
    assert_eq!(raw.method, "$/progress");
    assert_eq!(raw.params, "{\"a\":1}");
    assert_eq!(
        raw.parse(7u32),
        LSPNotification { jsonrpc: Version::V2, method: "$/progress".to_string(), params: Some(7u32) }
    );
    let nameless = RawLSPNotification::new(None, "null".to_string());
    assert_eq!(nameless.method, "");
}

#[test]
fn response_is_result_or_error_or_nothing() {
    let error = LSPError { code: ErrorCode::MethodNotFound, message: "?".to_string() };
    assert_eq!(
        LSPResponse::new(Some(5u8), None, Some(1)),
        Some(LSPResponse { result: Ok(5u8), id: Some(1) })
    );
    assert_eq!(
        LSPResponse::new(Some(5u8), Some(error.clone()), None),
        Some(LSPResponse { result: Ok(5u8), id: None })
    );
    assert_eq!(
        LSPResponse::<u8>::new(None, Some(error.clone()), Some(2)),
        Some(LSPResponse { result: Err(error), id: Some(2) })
    );
    assert_eq!(LSPResponse::<u8>::new(None, None, Some(3)), None);
}

#[test]
fn probe_tells_responses_by_their_id() {
    let response = LSPMessage { jsonrpc: Version::V2, method: None, id: Some(4) };
    let notification = LSPMessage { jsonrpc: Version::V2, method: Some("x".to_string()), id: None };
    let server_request = LSPMessage { jsonrpc: Version::V2, method: Some("x".to_string()), id: Some(0) };
    assert!(response.is_response());
    assert_eq!(response.get_id(), Some(4));
    assert!(!notification.is_response());
    assert_eq!(notification.get_id(), None);
    assert!(server_request.is_response());
}

#[test]
fn each_caller_receives_its_own_response() {
    let ids = [11, 3, 7, 42, 0];
    let orders: [[usize; 5]; 4] = [[0, 1, 2, 3, 4], [4, 3, 2, 1, 0], [2, 0, 4, 1, 3], [1, 4, 0, 3, 2]];
    for order in orders {
        let mut client = LSPClient::new();
        for id in ids {
            assert_eq!(client.register(id), Ok(()));
        }
        for k in order {
            assert!(client.resolve_pending(ids[k], format!("answer to {}", ids[k])));
        }
        for id in ids {
            assert_eq!(client.take_response(id), Some(format!("answer to {}", id)));
            assert!(!client.is_pending(id));
        }
    }
}

#[test]
fn an_id_in_use_is_refused() {
    let mut client = LSPClient::new();
    assert_eq!(client.register(5), Ok(()));
    assert_eq!(client.register(5), Err(CorrelationError::IdInUse));
    assert!(client.resolve_pending(5, "a".to_string()));
    assert_eq!(client.register(5), Err(CorrelationError::IdInUse));
    assert_eq!(client.take_response(5), Some("a".to_string()));
    assert_eq!(client.register(5), Ok(()));
}

#[test]
fn late_and_duplicate_responses_are_dropped() {
    let mut client = LSPClient::new();
    assert!(!client.resolve_pending(1, "nobody waits".to_string()));
    assert_eq!(client.take_response(1), None);
    client.register(1).unwrap();
    assert_eq!(client.take_response(1), None);
    assert!(client.is_pending(1));
    assert!(client.resolve_pending(1, "first".to_string()));
    assert!(!client.resolve_pending(1, "second".to_string()));
    assert_eq!(client.take_response(1), Some("first".to_string()));
    assert!(!client.resolve_pending(1, "third".to_string()));
    assert_eq!(client.take_response(1), None);
}

#[test]
fn a_request_that_was_not_sent_is_forgotten() {
    let mut client = LSPClient::new();
    client.register(4).unwrap();
    client.register(5).unwrap();
    client.forget(4);
    assert!(!client.is_pending(4));
    assert!(client.is_pending(5));
    assert!(!client.resolve_pending(4, "late".to_string()));
    assert_eq!(client.take_response(4), None);
    assert_eq!(client.register(4), Ok(()));
    assert!(client.resolve_pending(5, "five".to_string()));
    client.forget(5);
    assert_eq!(client.take_response(5), None);
    client.forget(77);
    assert!(client.is_pending(4));
}

#[test]
fn read_loop_decisions() {
    let mut client = LSPClient::new();
    client.register(9).unwrap();
    let answer = LSPMessage { jsonrpc: Version::V2, method: None, id: Some(9) };
    let stray = LSPMessage { jsonrpc: Version::V2, method: None, id: Some(8) };
    let note = LSPMessage { jsonrpc: Version::V2, method: Some("m".to_string()), id: None };
    assert_eq!(client.on_message(None, "garbage".to_string()), Delivery::Skipped);
    assert_eq!(client.on_message(Some(&stray), "{}".to_string()), Delivery::Dropped);
    assert_eq!(client.on_message(Some(&note), "{}".to_string()), Delivery::Notification);
    assert_eq!(client.take_response(9), None);
    assert_eq!(client.on_message(Some(&answer), "{\"id\":9}".to_string()), Delivery::Resolved(9));
    assert_eq!(client.on_message(Some(&answer), "again".to_string()), Delivery::Dropped);
    assert_eq!(client.take_response(9), Some("{\"id\":9}".to_string()));
}
