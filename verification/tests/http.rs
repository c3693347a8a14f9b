use workpool::http::build_response;
use workpool::http::dec_string;
use workpool::http::route;

#[test]
fn route_serves_greeting_for_root_request() {
    let (path, status) = route("GET / HTTP/1.1");
    assert_eq!("hello.html", path);
    assert_eq!("200 OK", status);
}

#[test]
fn route_serves_not_found_for_other_requests() {
    let (path, status) = route("GET /missing HTTP/1.1");
    assert_eq!("404.html", path);
    assert_eq!("404 NOT FOUND", status);
}

#[test]
fn response_carries_status_length_and_body() {
    let response = build_response("200 OK", "hello");
    assert_eq!("HTTP/1.1200 OK\r\nContent-Length: 5\r\n\r\nhello", response);
}

#[test]
fn content_length_counts_bytes() {
    let response = build_response("200 OK", "héllo");
    assert_eq!("HTTP/1.1200 OK\r\nContent-Length: 6\r\n\r\nhéllo", response);
}

#[test]
fn decimal_numerals() {
    assert_eq!("0", dec_string(0));
    assert_eq!("7", dec_string(7));
    assert_eq!("10", dec_string(10));
    assert_eq!("12345", dec_string(12345));
}
