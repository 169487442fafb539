use websocket::handshake::split_off_marked;
use websocket::{
    calculate_response_key, get_header_value, handshake_response, header_lines_are_well_formed,
    switching_protocols_response,
};

const REQUEST: &str = "GET /chat HTTP/1.1\r\nHost: server.example.com\r\nUpgrade: websocket\r\nConnection: Upgrade\r\nSec-WebSocket-Key: dGhlIHNhbXBsZSBub25jZQ==\r\nOrigin: http://example.com\r\nSec-WebSocket-Protocol: chat, superchat\r\nSec-WebSocket-Version: 13";

#[test]
fn response_key_of_the_protocol_example() {
    assert_eq!(calculate_response_key("dGhlIHNhbXBsZSBub25jZQ=="), "s3pPLMBiTxaQ9kYGzzhZRbK+xOo=");
}

#[test]
fn response_key_of_an_empty_key() {
    // SHA-1 of the GUID alone, in Base64.
    assert_eq!(calculate_response_key(""), "Kfh9QIsMVZcl6xEPYxPHzW8SZ8w=");
}

#[test]
fn switching_protocols_response_text() {
    assert_eq!(
        switching_protocols_response("abc="),
        "HTTP/1.1 101 Switching Protocols\r\nUpgrade: websocket\r\nConnection: Upgrade\r\nSec-WebSocket-Accept: abc=\r\n\r\n"
    );
}

#[test]
fn handshake_answers_the_client_request() {
    assert_eq!(
        handshake_response(REQUEST).unwrap(),
        "HTTP/1.1 101 Switching Protocols\r\nUpgrade: websocket\r\nConnection: Upgrade\r\nSec-WebSocket-Accept: s3pPLMBiTxaQ9kYGzzhZRbK+xOo=\r\n\r\n"
    );
}

#[test]
fn handshake_in_a_zero_filled_buffer() {
    let mut buffer = REQUEST.as_bytes().to_vec();
    buffer.resize(2048, 0);
    let text = std::str::from_utf8(&buffer).unwrap();
    assert!(header_lines_are_well_formed(text, "Sec-WebSocket-Key"));
    assert!(handshake_response(text).unwrap().contains("s3pPLMBiTxaQ9kYGzzhZRbK+xOo="));
}

#[test]
fn handshake_without_key_is_refused() {
    assert_eq!(
        handshake_response("GET / HTTP/1.1\r\nHost: x\r\n\r\n"),
        Err("No WebSocket key found".to_string())
    );
}

#[test]
fn split_off_marked_takes_from_the_end() {
    let mut items = vec![10, 11, 12, 13, 14];
    let removed = split_off_marked(&mut items, &[true, false, true, false, true]);
    assert_eq!(removed, vec![14, 12, 10]);
    assert_eq!(items, vec![11, 13]);
}

#[test]
fn split_off_marked_none_and_all() {
    let mut items = vec!["a", "b"];
    assert!(split_off_marked(&mut items, &[false, false]).is_empty());
    assert_eq!(items, vec!["a", "b"]);
    let removed = split_off_marked(&mut items, &[true, true]);
    assert_eq!(removed, vec!["b", "a"]);
    assert!(items.is_empty());
    let mut nothing: Vec<u8> = Vec::new();
    assert!(split_off_marked(&mut nothing, &[]).is_empty());
}

#[test]
fn split_off_marked_conserves_items() {
    let original = vec![1, 2, 3, 4, 5, 6, 7];
    let marks = [false, true, true, false, true, false, false];
    let mut items = original.clone();
    let removed = split_off_marked(&mut items, &marks);
    let mut all: Vec<i32> = removed.into_iter().chain(items).collect();
    all.sort();
    assert_eq!(all, original);
}

#[test]
fn header_value_is_found() {
    assert_eq!(get_header_value(REQUEST, "Host"), Ok("server.example.com".to_string()));
    assert_eq!(get_header_value(REQUEST, "Sec-WebSocket-Key"), Ok("dGhlIHNhbXBsZSBub25jZQ==".to_string()));
}
