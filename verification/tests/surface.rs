//! The HTTP surface.

use rinha_gpu_bruteforce::http::{
    find_header_end, http_response, method_path_matches, parse_content_length, receive, reply,
    route_request, ReadError, Route, RouteError, MAX_REQUEST_BYTES,
};
use rinha_gpu_bruteforce::text::{append_decimal, append_tenths};

#[test]
fn headers_end_at_the_first_empty_line() {
    assert_eq!(find_header_end(b"a\r\n\r\nb\r\n\r\n"), Some(1));
    assert_eq!(find_header_end(b"\r\n\r\n"), Some(0));
    assert_eq!(find_header_end(b"\r\r\n\r\n"), Some(1));
    assert_eq!(find_header_end(b"a\r\n\r"), None);
    assert_eq!(find_header_end(b""), None);
}

#[test]
fn content_lengths_are_found_and_read() {
    assert_eq!(parse_content_length(b"POST / HTTP/1.1\r\nContent-Length: 12\r\nx: y"), Some(12));
    assert_eq!(parse_content_length(b"a\ncontent-length:+7 \nb"), Some(7));
    assert_eq!(parse_content_length(b"CONTENT-LENGTH:\t 0\r"), Some(0));
    assert_eq!(parse_content_length("content-length:\u{3000}5\u{a0}".as_bytes()), Some(5));
    assert_eq!(parse_content_length(b"content-length: 18446744073709551615"), Some(usize::MAX));
}

#[test]
fn other_content_lengths_count_for_nothing() {
    assert_eq!(parse_content_length(b""), None);
    assert_eq!(parse_content_length(b"content-length 12"), None);
    assert_eq!(parse_content_length(b"content-length:"), None);
    assert_eq!(parse_content_length(b"content-length: -1"), None);
    assert_eq!(parse_content_length(b"content-length: ++1"), None);
    assert_eq!(parse_content_length(b"content-length: 1 2"), None);
    assert_eq!(parse_content_length(b"content-length: 18446744073709551616"), None);
    assert_eq!(parse_content_length(b"content-length: \xff"), None);
    assert_eq!(parse_content_length(b"content-length: x\r\ncontent-length: 3"), None);
    assert_eq!(parse_content_length(b" content-length: 3"), None);
}

#[test]
fn request_lines_match_by_method_and_path() {
    assert!(method_path_matches(b"GET /ready HTTP/1.1", b"GET", b"/ready"));
    assert!(method_path_matches(b"GET /ready?x=1 HTTP/1.1", b"GET", b"/ready"));
    assert!(!method_path_matches(b"GET /readyz HTTP/1.1", b"GET", b"/ready"));
    assert!(!method_path_matches(b"GET /ready", b"GET", b"/ready"));
    assert!(!method_path_matches(b"GETS /ready HTTP/1.1", b"GET", b"/ready"));
    assert!(!method_path_matches(b"POST /ready HTTP/1.1", b"GET", b"/ready"));
    assert!(!method_path_matches(b"GET", b"GET", b"/ready"));
    assert!(!method_path_matches(b"", b"GET", b"/ready"));
}

#[test]
fn requests_are_routed_by_their_first_line() {
    assert_eq!(route_request(b"GET /ready HTTP/1.1\r\nhost: a\r\n\r\n"), Ok(Route::Ready));
    assert_eq!(
        route_request(b"POST /fraud-score HTTP/1.1\r\ncontent-length: 2\r\n\r\n{}"),
        Ok(Route::FraudScore { body_start: 49 })
    );
    assert_eq!(route_request(b"GET /fraud-score HTTP/1.1\r\na: b\r\n\r\n"), Ok(Route::NotFound));
    assert_eq!(route_request(b"GET /ready HTTP/1.1\r\n"), Err(RouteError::MissingHeaderEnd));
    assert_eq!(route_request(b"GET /ready HTTP/1.1\r\n\r\n"), Ok(Route::Ready));
    assert_eq!(route_request(b"GET / HTTP/1.1\r\n\r\n"), Ok(Route::NotFound));
    assert_eq!(route_request(b"\r\n\r\n"), Err(RouteError::MissingRequestLine));
}

#[test]
fn replies_are_assembled_to_the_byte() {
    assert_eq!(
        reply(Route::Ready, None),
        b"HTTP/1.1 200 OK\r\ncontent-type: text/plain\r\ncontent-length: 6\r\nconnection: close\r\n\r\nready\n"
            .to_vec()
    );
    let scored = reply(
        Route::FraudScore { body_start: 10 },
        Some("{\"approved\":true,\"fraud_score\":0.2}".to_string()),
    );
    assert_eq!(
        scored,
        b"HTTP/1.1 200 OK\r\ncontent-type: application/json\r\ncontent-length: 35\r\nconnection: close\r\n\r\n{\"approved\":true,\"fraud_score\":0.2}"
            .to_vec()
    );
    assert_eq!(
        reply(Route::FraudScore { body_start: 10 }, None),
        b"HTTP/1.1 400 Bad Request\r\ncontent-type: text/plain\r\ncontent-length: 12\r\nconnection: close\r\n\r\nbad request\n"
            .to_vec()
    );
    assert_eq!(
        reply(Route::NotFound, None),
        b"HTTP/1.1 404 Not Found\r\ncontent-type: text/plain\r\ncontent-length: 10\r\nconnection: close\r\n\r\nnot found\n"
            .to_vec()
    );
    let empty = http_response("204 No Content", "x/y", b"");
    assert!(empty.ends_with(b"content-length: 0\r\nconnection: close\r\n\r\n"));
}

#[test]
fn a_request_is_complete_with_its_body() {
    let mut request: Vec<u8> = Vec::new();
    assert_eq!(receive(&mut request, b"POST / HTTP/1.1\r\ncontent-le"), Ok(false));
    assert_eq!(receive(&mut request, b"ngth: 4\r\n\r\nab"), Ok(false));
    assert_eq!(receive(&mut request, b"cdef"), Ok(true));
    assert_eq!(request, b"POST / HTTP/1.1\r\ncontent-length: 4\r\n\r\nabcd".to_vec());
}

#[test]
fn how_a_request_is_cut_into_chunks_does_not_matter() {
    let whole = b"POST /fraud-score HTTP/1.1\r\ncontent-length: 3\r\n\r\nxyz";
    for cut in 1..whole.len() {
        let mut request: Vec<u8> = Vec::new();
        assert_eq!(receive(&mut request, &whole[..cut]), Ok(false));
        assert_eq!(receive(&mut request, &whole[cut..]), Ok(true));
        assert_eq!(request, whole.to_vec());
    }
}

#[test]
fn bytes_behind_a_request_are_cut() {
    let mut request: Vec<u8> = Vec::new();
    assert_eq!(receive(&mut request, b"GET / HTTP/1.1\r\n\r\nrest"), Ok(true));
    assert_eq!(request, b"GET / HTTP/1.1\r\n\r\n".to_vec());
}

#[test]
fn reading_fails_in_three_ways() {
    let mut request: Vec<u8> = b"GET".to_vec();
    assert_eq!(receive(&mut request, b""), Err(ReadError::Closed));
    assert_eq!(request, b"GET".to_vec());
    let long = vec![0x61u8; MAX_REQUEST_BYTES + 1];
    let mut request: Vec<u8> = Vec::new();
    assert_eq!(receive(&mut request, &long), Err(ReadError::TooLarge));
    let mut request: Vec<u8> = Vec::new();
    assert_eq!(receive(&mut request, &long[1..]), Ok(false));
    let mut request: Vec<u8> = Vec::new();
    assert_eq!(
        receive(&mut request, b"a\r\ncontent-length: 18446744073709551615\r\n\r\n"),
        Err(ReadError::LengthOverflow)
    );
}

#[test]
fn numbers_are_written_in_decimal() {
    for n in [0u64, 7, 10, 4_294_967_295, u64::MAX] {
        let mut out = String::from("n=");
        append_decimal(&mut out, n);
        assert_eq!(out, format!("n={n}"));
    }
    let mut out = String::new();
    append_tenths(&mut out, 4);
    append_tenths(&mut out, 10);
    assert_eq!(out, "0.41.0");
}

#[test]
fn readiness_needs_no_header_field() {
    let mut request: Vec<u8> = Vec::new();
    assert_eq!(receive(&mut request, b"GET /ready HTTP/1.1\r\n\r\n"), Ok(true));
    let route = route_request(&request).unwrap();
    assert!(reply(route, None).starts_with(b"HTTP/1.1 200 OK\r\n"));
}
