use httpserver::headers::Headers;
use httpserver::httprequest::{HttpRequest, Method, Resource, Version};
use httpserver::router::{HandlerKind, Router};

fn get_request(path: &str) -> HttpRequest {
    HttpRequest {
        method: Method::Get,
        version: Version::V1_1,
        resource: Resource::Path(path.to_string()),
        headers: Headers::new(),
        msg_body: String::new(),
    }
}

#[test]
fn get_api_path_goes_to_web_service() {
    let req = get_request("/api/users");
    assert_eq!(Router::route(req), HandlerKind::WebService);
}

#[test]
fn get_root_path_goes_to_static_page() {
    let req = get_request("/");
    assert_eq!(Router::route(req), HandlerKind::StaticPage);
}

#[test]
fn get_other_path_goes_to_static_page() {
    let req = get_request("/about");
    assert_eq!(Router::route(req), HandlerKind::StaticPage);
}

#[test]
fn non_get_method_goes_to_not_found() {
    let mut req = get_request("/api/users");
    req.method = Method::from("DELETE");
    assert_eq!(req.method, Method::UnInit);
    assert_eq!(Router::route(req), HandlerKind::NotFound);

    let mut req = get_request("/about");
    req.method = Method::Post;
    assert_eq!(Router::route(req), HandlerKind::NotFound);
}

#[test]
fn end_to_end_api_request() {
    let raw = "GET /api/shows HTTP/1.1\r\nHost: localhost\r\n";
    let req = HttpRequest::from(String::from(raw));
    assert_eq!(req.method, Method::Get);
    assert_eq!(req.version, Version::V1_1);
    assert_eq!(req.resource, Resource::Path("/api/shows".to_string()));
    assert_eq!(Some(&"localhost".to_string()), req.headers.get("Host"));
    assert_eq!(req.msg_body, "");
    assert_eq!(Router::route(req), HandlerKind::WebService);
}
