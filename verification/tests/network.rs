use saba_core::error::Error;
use saba_core::http::{Header, HttpResponse, Navigation};
use saba_core::url::Url;

fn parsed(url: &str) -> Url {
    Url::new(url.to_string()).parse().unwrap()
}

fn parts(url: &str) -> (String, String, String, String) {
    let u = parsed(url);
    (u.host(), u.port(), u.path(), u.searchpart())
}

fn strings(a: &str, b: &str, c: &str, d: &str) -> (String, String, String, String) {
    (a.to_string(), b.to_string(), c.to_string(), d.to_string())
}

#[test]
fn test_url_host() {
    assert_eq!(parts("http://example.com"), strings("example.com", "80", "", ""));
}

#[test]
fn test_url_host_port() {
    assert_eq!(parts("http://example.com:8888"), strings("example.com", "8888", "", ""));
}

#[test]
fn test_url_host_port_path() {
    assert_eq!(
        parts("http://example.com:8888/index.html"),
        strings("example.com", "8888", "index.html", "")
    );
}

#[test]
fn test_url_host_path() {
    assert_eq!(
        parts("http://example.com/index.html"),
        strings("example.com", "80", "index.html", "")
    );
}

#[test]
fn test_url_host_port_path_searchpart() {
    assert_eq!(
        parts("http://example.com:8888/index.html?a=123&b=456"),
        strings("example.com", "8888", "index.html", "a=123&b=456")
    );
}

#[test]
fn test_url_edges() {
    assert_eq!(parts("http://"), strings("", "80", "", ""));
    assert_eq!(parts("http://h/"), strings("h", "80", "", ""));
    assert_eq!(parts("http://h:/a/b:c?d?e/f"), strings("h", "", "a/b:c", "d?e/f"));
    assert_eq!(parts("http://h?x=1"), strings("h?x=1", "80", "", ""));
    assert_eq!(parts("http://h/?"), strings("h", "80", "", ""));
}

#[test]
fn test_url_parse_sets_the_address_itself() {
    let mut url = Url::new("http://a:1/b?c".to_string());
    assert_eq!(url.host(), "");
    let result = url.parse().unwrap();
    assert_eq!(result, url);
    assert_eq!(url.host(), "a");
    assert_eq!(url.duplicate(), url);
}

#[test]
fn test_url_without_http_scheme() {
    let expected = Err("Only HTTP scheme is supported.".to_string());
    assert_eq!(Url::new("example.com".to_string()).parse(), expected);
    assert_eq!(Url::new("https://example.com:8888/index.html".to_string()).parse(), expected);
    assert_eq!(Url::new("http:/example.com".to_string()).parse(), expected);
    assert_eq!(Url::new("".to_string()).parse(), expected);
    let mut url = Url::new("ftp://x/y".to_string());
    assert!(url.parse().is_err());
    assert_eq!(url, Url::new("ftp://x/y".to_string()));
}

#[test]
fn test_response_status_line_only() {
    let response = HttpResponse::new("HTTP/1.1 200 OK\n\n".to_string()).unwrap();
    assert_eq!(response.version(), "HTTP/1.1");
    assert_eq!(response.status_code(), 200);
    assert_eq!(response.reason(), "OK");
    assert_eq!(response.body(), "\n");
    assert_eq!(
        response.header_value("Date"),
        Err("failed to find Date in headers".to_string())
    );
}

#[test]
fn test_response_one_header() {
    let response = HttpResponse::new("HTTP/1.1 200 OK\nDate:xx xx xx\n\n".to_string()).unwrap();
    assert_eq!(response.version(), "HTTP/1.1");
    assert_eq!(response.status_code(), 200);
    assert_eq!(response.reason(), "OK");
    assert_eq!(response.header_value("Date"), Ok("xx xx xx".to_string()));
    assert_eq!(response.body(), "");
}

#[test]
fn test_response_two_headers_with_white_space() {
    let response = HttpResponse::new(
        "HTTP/1.1 200 OK\nDate: xx xx xx\nContent-Length : 42\n\n".to_string(),
    )
    .unwrap();
    assert_eq!(response.header_value("Date"), Ok("xx xx xx".to_string()));
    assert_eq!(response.header_value("Content-Length"), Ok("42".to_string()));
    assert_eq!(
        response.header_value("content-length"),
        Err("failed to find content-length in headers".to_string())
    );
}

#[test]
fn test_response_body() {
    let response =
        HttpResponse::new("HTTP/1.1 200 OK\nDate: xx xx xx\n\nbody message\n\nmore".to_string())
            .unwrap();
    assert_eq!(response.header_value("Date"), Ok("xx xx xx".to_string()));
    assert_eq!(response.body(), "body message\n\nmore");
}

#[test]
fn test_response_without_empty_line_has_no_headers() {
    let response = HttpResponse::new("HTTP/1.1 200 OK\nDate: x\nbody".to_string()).unwrap();
    assert!(response.header_value("Date").is_err());
    assert_eq!(response.body(), "Date: x\nbody");
}

#[test]
fn test_response_invalid() {
    let expected = Err("invalid http response".to_string());
    assert_eq!(HttpResponse::new("HTTP/1.1 200 OK".to_string()), expected);
    assert_eq!(HttpResponse::new("".to_string()), expected);
    assert_eq!(HttpResponse::new(" \n\t ".to_string()), expected);
}

#[test]
fn test_response_line_ends_and_leading_blanks() {
    let raw = "\r\n \tHTTP/1.0 302 Found\r\nLocation: http://example.com/next\r\nX: a:b\r\nNoColon\r\n\r\n<p>\r\nx\ry</p>";
    let response = HttpResponse::new(raw.to_string()).unwrap();
    assert_eq!(response.version(), "HTTP/1.0");
    assert_eq!(response.status_code(), 302);
    assert_eq!(response.reason(), "Found");
    assert_eq!(
        response.header_value("Location"),
        Ok("http://example.com/next".to_string())
    );
    assert_eq!(response.header_value("X"), Ok("a:b".to_string()));
    assert_eq!(response.header_value("NoColon"), Ok("".to_string()));
    assert_eq!(response.body(), "<p>\nx\ry</p>");
}

#[test]
fn test_response_status() {
    let status = |line: &str| {
        HttpResponse::new(format!("{}\n\n", line)).unwrap().status_code()
    };
    assert_eq!(status("HTTP/1.1 200 OK"), 200);
    assert_eq!(status("HTTP/1.1 0042 OK"), 42);
    assert_eq!(status("HTTP/1.1 4294967295 OK"), 4294967295);
    assert_eq!(status("HTTP/1.1 4294967296 OK"), 404);
    assert_eq!(status("HTTP/1.1 99999999999999999999999 OK"), 404);
    assert_eq!(status("HTTP/1.1 2x0 OK"), 404);
    assert_eq!(status("HTTP/1.1 -1 OK"), 404);
    assert_eq!(status("HTTP/1.1  200 OK"), 404);
    assert_eq!(status("HTTP/1.1"), 404);
    let response = HttpResponse::new("HTTP/1.1 404 Not Found\n\n".to_string()).unwrap();
    assert_eq!(response.reason(), "Not");
    let response = HttpResponse::new("HTTP/1.1 204\n\n".to_string()).unwrap();
    assert_eq!(response.reason(), "");
}

#[test]
fn test_navigation_follows_one_redirect() {
    let redirect = HttpResponse::new(
        "HTTP/1.1 302 Found\nLocation: http://example.com/next\n\n".to_string(),
    )
    .unwrap();
    assert_eq!(
        redirect.navigation(false),
        Navigation::Follow("http://example.com/next".to_string())
    );
    assert_eq!(redirect.navigation(true), Navigation::Show);
    let lost = HttpResponse::new("HTTP/1.1 302 Found\nServer: x\n\n".to_string()).unwrap();
    assert_eq!(lost.navigation(false), Navigation::Show);
    let page = HttpResponse::new("HTTP/1.1 200 OK\nLocation: http://x/\n\n".to_string()).unwrap();
    assert_eq!(page.navigation(false), Navigation::Show);
}

#[test]
fn test_header_and_error_values() {
    let header = Header::new("a".to_string(), "b".to_string());
    assert_eq!(header.name(), "a");
    assert_eq!(header.value(), "b");
    assert_ne!(Error::Network("x".to_string()), Error::Other("x".to_string()));
    assert_eq!(
        Error::UnexpectedInput("x".to_string()),
        Error::UnexpectedInput("x".to_string())
    );
    assert_ne!(Error::InvalidUI("x".to_string()), Error::InvalidUI("y".to_string()));
}
