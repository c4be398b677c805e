use httpserver::httprequest::{HttpRequest, Method, ParseError, Resource, Version};

#[test]
fn test_method_into() {
    let m: Method = Method::from("GET");
    assert_eq!(m, Method::Get);
}

#[test]
fn test_version_into() {
    let m: Version = Version::from("HTTP/1.1");
    assert_eq!(m, Version::V1_1);
}

#[test]
fn test_parse_http() {
    let s = String::from("GET /test HTTP/1.1\r\nHost: localhost");
    let req: HttpRequest = HttpRequest::from(s);
    assert_eq!(Method::Get, req.method);
    assert_eq!(Version::V1_1, req.version);
    assert_eq!(Resource::Path("/test".to_string()), req.resource);
    assert_eq!(Some(&"localhost".to_string()), req.headers.get("Host"));
    assert!(!req.headers.contains_name("Accept"));
}

#[test]
fn method_literals() {
    assert_eq!(Method::from("GET"), Method::Get);
    assert_eq!(Method::from("Post"), Method::Post);
    assert_eq!(Method::from("POST"), Method::UnInit);
    assert_eq!(Method::from("DELETE"), Method::UnInit);
    assert_eq!(Method::from(""), Method::UnInit);
}

#[test]
fn version_literals() {
    assert_eq!(Version::from("HTTP/1.1"), Version::V1_1);
    assert_eq!(Version::from("HTTP/2.0"), Version::V2_0);
    assert_eq!(Version::from("HTTP/1.0"), Version::UnInit);
    assert_eq!(Version::from("http/1.1"), Version::UnInit);
}

#[test]
fn version_defaults_without_request_line() {
    let req = HttpRequest::from(String::from("Host: localhost\n\nsome body"));
    assert_eq!(req.method, Method::UnInit);
    assert_eq!(req.version, Version::V1_1);
    assert_eq!(req.resource, Resource::Path(String::new()));
    assert_eq!(req.msg_body, "some body");
}

#[test]
fn empty_input_gives_defaults() {
    let req = HttpRequest::from(String::new());
    assert_eq!(req.method, Method::UnInit);
    assert_eq!(req.version, Version::V1_1);
    assert_eq!(req.resource, Resource::Path(String::new()));
    assert_eq!(req.headers.get("Host"), None);
    assert_eq!(req.msg_body, "");
}

#[test]
fn header_sides_are_trimmed() {
    let req = HttpRequest::from(String::from("GET / HTTP/1.1\r\nKey:   Value  \r\n"));
    assert_eq!(Some(&"Value".to_string()), req.headers.get("Key"));
}

#[test]
fn header_without_colon_in_value() {
    let req = HttpRequest::from(String::from("GET / HTTP/1.1\nHost: localhost:8080\n"));
    assert_eq!(Some(&"localhost:8080".to_string()), req.headers.get("Host"));
}

#[test]
fn header_repeated_name_keeps_last_value() {
    let req = HttpRequest::from(String::from("GET / HTTP/1.1\nA: one\nA: two\n"));
    assert_eq!(Some(&"two".to_string()), req.headers.get("A"));
}

#[test]
fn body_keeps_only_last_candidate_line() {
    let req = HttpRequest::from(String::from("GET / HTTP/1.1\n\nfirst body\n\nsecond body\n"));
    assert_eq!(req.msg_body, "second body");
}

#[test]
fn blank_lines_are_skipped() {
    let req = HttpRequest::from(String::from("\n\nGET / HTTP/1.1\n\n"));
    assert_eq!(req.method, Method::Get);
    assert_eq!(req.msg_body, "");
}

#[test]
fn last_request_line_wins() {
    let req = HttpRequest::from(String::from("GET /a HTTP/1.1\nPost /b HTTP/2.0\n"));
    assert_eq!(req.method, Method::Post);
    assert_eq!(req.version, Version::V2_0);
    assert_eq!(req.resource, Resource::Path("/b".to_string()));
}

#[test]
fn parsing_twice_is_idempotent() {
    let raw = "GET /test HTTP/1.1\r\nHost: localhost\r\n\r\nhello";
    let a = HttpRequest::from(String::from(raw));
    let b = HttpRequest::from(String::from(raw));
    assert_eq!(a, b);
}

#[test]
fn malformed_request_line_is_reported() {
    let r = HttpRequest::parse("GET HTTP/1.1\n");
    assert_eq!(r, Err(ParseError::MalformedRequestLine));
    let r = HttpRequest::parse("HTTP\n");
    assert_eq!(r, Err(ParseError::MalformedRequestLine));
}

#[test]
fn extra_request_line_tokens_are_ignored() {
    let req = HttpRequest::from(String::from("GET /test HTTP/1.1 extra\n"));
    assert_eq!(req.method, Method::Get);
    assert_eq!(req.version, Version::V1_1);
    assert_eq!(req.resource, Resource::Path("/test".to_string()));
}
