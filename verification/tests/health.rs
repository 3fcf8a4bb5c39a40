use hive_tracker::health::health_response_is_ok;

#[test]
fn given_http_health_response_when_checked_then_only_success_status_is_accepted() {
    assert!(health_response_is_ok(
        b"HTTP/1.1 200 OK\r\ncontent-length: 2\r\n\r\nok"
    ));
    assert!(!health_response_is_ok(
        b"HTTP/1.1 503 Service Unavailable\r\n\r\n"
    ));
    assert!(!health_response_is_ok(b"not HTTP"));
}

#[test]
fn only_the_first_line_counts() {
    assert!(health_response_is_ok(b"HTTP/1.1 200 OK"));
    assert!(!health_response_is_ok(b""));
    assert!(!health_response_is_ok(b"HTTP/1.1 404 Not Found\nX 200 OK\n"));
}
