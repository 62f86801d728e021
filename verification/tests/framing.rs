//! Patterns, decimal rendering and response framing, checked byte for byte.

use haws::handlers::{buffer_matches, make_pattern};
use haws::response::{decimal_string, frame_response};
use haws::types::RequestBuffer;

fn request(first_bytes: &str) -> RequestBuffer {
    let mut buffer: RequestBuffer = [0; 1024];
    for (i, b) in first_bytes.bytes().enumerate() {
        buffer[i] = b;
    }
    buffer
}

#[test]
fn patterns_wrap_the_path_in_the_get_line() {
    assert_eq!(make_pattern("/foo"), "GET /foo HTTP/1.1\r\n");
    assert_eq!(make_pattern("/"), "GET / HTTP/1.1\r\n");
    assert_eq!(make_pattern(""), "GET  HTTP/1.1\r\n");
}

#[test]
fn decimal_rendering_is_exact() {
    assert_eq!(decimal_string(0), "0");
    assert_eq!(decimal_string(7), "7");
    assert_eq!(decimal_string(10), "10");
    assert_eq!(decimal_string(120), "120");
    assert_eq!(decimal_string(906), "906");
    assert_eq!(decimal_string(usize::MAX), format!("{}", usize::MAX));
}

#[test]
fn framing_is_byte_exact() {
    assert_eq!(frame_response(""), "HTTP/1.1 200 OK\r\nContent-Length: 0\r\n\r\n");
    assert_eq!(frame_response("abc"), "HTTP/1.1 200 OK\r\nContent-Length: 3\r\n\r\nabc");
    assert_eq!(
        frame_response("<h1>Hello world</h1>"),
        "HTTP/1.1 200 OK\r\nContent-Length: 20\r\n\r\n<h1>Hello world</h1>"
    );
}

#[test]
fn content_length_counts_bytes_not_characters() {
    // A two-byte character must be declared as two bytes.
    assert_eq!(
        frame_response("\u{00e9}"),
        "HTTP/1.1 200 OK\r\nContent-Length: 2\r\n\r\n\u{00e9}"
    );
}

#[test]
fn buffer_match_requires_the_full_pattern_prefix() {
    assert!(buffer_matches(&request("GET /x HTTP/1.1\r\nHost: h\r\n"), "/x"));
    assert!(!buffer_matches(&request("GET /x HTTP/1.0\r\n"), "/x"));
    assert!(!buffer_matches(&request("GET /xy HTTP/1.1\r\n"), "/x"));
    assert!(!buffer_matches(&request("get /x HTTP/1.1\r\n"), "/x"));
}
