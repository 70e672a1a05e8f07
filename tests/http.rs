use netspatch::http::{
    headers_unique, HTTPMethod, HTTPRequest, HTTPResponse, HTTPResponseCode, RequestLine,
};

fn lines(v: &[&str]) -> Vec<String> {
    v.iter().map(|s| s.to_string()).collect()
}

#[test]
fn request_line_parts() {
    let l = RequestLine::parse(&"GET / HTTP/1.1".to_string()).unwrap();
    assert_eq!(l.method, HTTPMethod::GET);
    assert_eq!(l.path, "");
    assert_eq!(l.version, "HTTP/1.1");
    let l = RequestLine::parse(&"POST /1/2/3 HTTP/1.1".to_string()).unwrap();
    assert_eq!(l.method, HTTPMethod::POST);
    assert_eq!(l.path, "1/2/3");
}

#[test]
fn request_line_errors() {
    let bad = |s: &str| RequestLine::parse(&s.to_string()).err();
    assert_eq!(bad("GET"), Some(HTTPResponseCode::BadRequest));
    assert_eq!(bad("PUT / HTTP/1.1"), Some(HTTPResponseCode::MethodNotAllowed));
    assert_eq!(bad("GET /"), Some(HTTPResponseCode::BadRequest));
    assert_eq!(bad("GET x HTTP/1.1"), Some(HTTPResponseCode::BadRequest));
    assert_eq!(bad("GET  HTTP/1.1"), Some(HTTPResponseCode::BadRequest));
}

#[test]
fn request_headers_parse() {
    let r = HTTPRequest::parse(lines(&["POST /0 HTTP/1.1", "Content-Length: 4", "X: a: b"])).unwrap();
    assert_eq!(r.method, HTTPMethod::POST);
    assert_eq!(r.uri, "0");
    assert_eq!(r.headers.len(), 2);
    assert_eq!(r.headers[1], ("X".to_string(), "a: b".to_string()));
    assert_eq!(r.expected_body_length(), Some(4));
    assert_eq!(r.body, "");
}

#[test]
fn request_parse_errors() {
    assert_eq!(HTTPRequest::parse(vec![]).err(), Some(HTTPResponseCode::BadRequest));
    assert_eq!(
        HTTPRequest::parse(lines(&["GET / HTTP/1.1", "A: 1", "A: 2"])).err(),
        Some(HTTPResponseCode::BadRequest)
    );
    assert_eq!(
        HTTPRequest::parse(lines(&["GET / HTTP/1.1", "no colon"])).err(),
        Some(HTTPResponseCode::BadRequest)
    );
    assert_eq!(
        HTTPRequest::parse(lines(&["DELETE / HTTP/1.1"])).err(),
        Some(HTTPResponseCode::MethodNotAllowed)
    );
}

#[test]
fn body_length_of_headers() {
    let r = HTTPRequest::parse(lines(&["GET / HTTP/1.1"])).unwrap();
    assert_eq!(r.expected_body_length(), Some(0));
    let r = HTTPRequest::parse(lines(&["GET / HTTP/1.1", "Content-Length: x"])).unwrap();
    assert_eq!(r.expected_body_length(), None);
}

#[test]
fn request_written_out() {
    let get = HTTPRequest::new(HTTPMethod::GET, "".to_string());
    assert_eq!(get.to_string(), "GET / HTTP/1.1\r\n\r\n\r\n");
    let mut post = HTTPRequest::new(HTTPMethod::POST, "1/2/3".to_string());
    post.body = "done".to_string();
    assert_eq!(post.to_string(), "POST /1/2/3 HTTP/1.1\r\nContent-Length: 4\r\n\r\ndone\r\n");
    post.body = "é".to_string();
    assert_eq!(post.to_string(), "POST /1/2/3 HTTP/1.1\r\nContent-Length: 2\r\n\r\né\r\n");
}

#[test]
fn response_written_out() {
    let r = HTTPResponse::new(HTTPResponseCode::NoContent);
    assert_eq!(r.as_string(), "HTTP/1.1 204 No Content\r\nContent-Length: 0\r\n\r\n");
    let mut ok = HTTPResponse::new(HTTPResponseCode::OK);
    ok.content = "1/2\r\n2/3\r\n3/4\r\n".to_string();
    ok.headers.push(("Content-Length".to_string(), "99".to_string()));
    assert_eq!(
        ok.as_string(),
        "HTTP/1.1 200 OK\r\nContent-Length: 15\r\n\r\n1/2\r\n2/3\r\n3/4\r\n\r\n"
    );
}

#[test]
fn response_parse_reads_status_and_headers() {
    let r = HTTPResponse::parse(lines(&["HTTP/1.1 200 OK", "Content-Length: 5", "Content-Length: 15"]))
        .unwrap();
    assert_eq!(r.status, HTTPResponseCode::OK);
    assert_eq!(r.version, "HTTP/1.1");
    assert_eq!(r.headers.len(), 1);
    assert_eq!(r.expected_body_length(), Some(15));
    assert!(HTTPResponse::parse(lines(&["HTTP/1.1 299 Odd"])).is_none());
    assert!(HTTPResponse::parse(lines(&["HTTP/1.1 200"])).is_none());
    assert!(HTTPResponse::parse(vec![]).is_none());
}

#[test]
fn status_codes_both_ways() {
    let all = [
        (HTTPResponseCode::OK, 200, "OK"),
        (HTTPResponseCode::NoContent, 204, "No Content"),
        (HTTPResponseCode::BadRequest, 400, "Bad Request"),
        (HTTPResponseCode::NotFound, 404, "Not Found"),
        (HTTPResponseCode::MethodNotAllowed, 405, "Method Not Allowed"),
        (HTTPResponseCode::Conflict, 409, "Conflict"),
        (HTTPResponseCode::InternalServerError, 500, "Internal Server Error"),
        (HTTPResponseCode::HTTPVersionNotSupported, 505, "HTTP Version Not Supported"),
    ];
    for (c, n, text) in all.iter() {
        assert_eq!(c.to_code(), *n);
        assert_eq!(HTTPResponseCode::from_code(*n as u32), Some(*c));
        assert_eq!(HTTPResponseCode::from_string(n.to_string()), Some(*c));
        assert_eq!(c.to_string(), *text);
    }
    assert_eq!(HTTPResponseCode::from_code(201), None);
    assert_eq!(HTTPResponseCode::from_string("abc".to_string()), None);
    assert_eq!(HTTPMethod::GET.to_string(), "GET");
    assert_eq!(HTTPMethod::POST.to_string(), "POST");
}

#[test]
fn content_length_written_once() {
    let mut r = HTTPResponse::new(HTTPResponseCode::OK);
    r.headers.push(("Content-Length".to_string(), "7".to_string()));
    r.headers.push(("X".to_string(), "1".to_string()));
    assert_eq!(r.as_string(), "HTTP/1.1 200 OK\r\nX: 1\r\nContent-Length: 0\r\n\r\n");
    let back = HTTPResponse::parse(lines(&["HTTP/1.1 200 OK", "X: 1", "Content-Length: 0"])).unwrap();
    assert_eq!(back.headers, vec![
        ("X".to_string(), "1".to_string()),
        ("Content-Length".to_string(), "0".to_string()),
    ]);
}

#[test]
fn header_names_unique() {
    let mut hs = vec![("A".to_string(), "1".to_string()), ("B".to_string(), "2".to_string())];
    assert!(headers_unique(&hs));
    hs.push(("A".to_string(), "3".to_string()));
    assert!(!headers_unique(&hs));
    assert!(headers_unique(&vec![]));
}
