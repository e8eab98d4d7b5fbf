use auto_water::server::{
    admit_ota, classify, dispatch, parse_content_length, refusal_reply, render_response, upload_reply,
    Dispatch, HeaderField, OtaAdmission, RequestHead, Response, Server, BAD_REQUEST_REPLY,
    MISSING_LENGTH_REPLY, OTA_FAILURE_REPLY, OTA_SUCCESS_REPLY, UNAUTHORIZED_REPLY,
};
use auto_water::types::Handler;

#[test]
fn dispatch_plain_get() {
    match dispatch(b"GET /status HTTP/1.1\r\nHost: x\r\n\r\n") {
        Dispatch::Handle { method, path } => {
            assert_eq!(method, "GET");
            assert_eq!(path, "/status");
        }
        _ => panic!("expected a handler dispatch"),
    }
}

#[test]
fn dispatch_upload() {
    let req = b"POST /ota HTTP/1.1\r\nauthorization: Bearer auto-water-ota\r\nCONTENT-LENGTH: 42\r\n\r\nBODY";
    match dispatch(req) {
        Dispatch::Ota { auth, content_length, body_start } => {
            assert_eq!(auth.as_deref(), Some(&b"Bearer auto-water-ota"[..]));
            assert_eq!(content_length, Some(42));
            assert_eq!(&req[body_start..], b"BODY");
        }
        _ => panic!("expected an upload"),
    }
}

#[test]
fn dispatch_incomplete_or_invalid() {
    assert!(matches!(dispatch(b"GET / HTTP/1.1\r\nHost: x\r\n"), Dispatch::BadRequest));
    assert!(matches!(dispatch(b"\x01\x02 nonsense\r\n\r\n"), Dispatch::BadRequest));
}

#[test]
fn classify_defaults() {
    let head = RequestHead { header_len: 3, method: None, path: None, headers: vec![] };
    match classify(Some(head)) {
        Dispatch::Handle { method, path } => {
            assert_eq!(method, "GET");
            assert_eq!(path, "/");
        }
        _ => panic!("expected a handler dispatch"),
    }
    let head = RequestHead {
        header_len: 9,
        method: Some("POST".to_string()),
        path: Some("/ota".to_string()),
        headers: vec![
            HeaderField { name: "Content-Length".to_string(), value: b"abc".to_vec() },
            HeaderField { name: "Content-Length".to_string(), value: b"5".to_vec() },
        ],
    };
    match classify(Some(head)) {
        Dispatch::Ota { auth, content_length, body_start } => {
            assert_eq!(auth, None);
            assert_eq!(content_length, None);
            assert_eq!(body_start, 9);
        }
        _ => panic!("expected an upload"),
    }
    assert!(matches!(classify(None), Dispatch::BadRequest));
}

#[test]
fn content_length_values() {
    assert_eq!(parse_content_length(b"123"), Some(123));
    assert_eq!(parse_content_length(b"+7"), Some(7));
    assert_eq!(parse_content_length(b"+"), None);
    assert_eq!(parse_content_length(b""), None);
    assert_eq!(parse_content_length(b"-1"), None);
    assert_eq!(parse_content_length(b" 1"), None);
    assert_eq!(parse_content_length(b"99999999999999999999999"), None);
}

#[test]
fn upload_admission() {
    let good: &[u8] = b"Bearer auto-water-ota";
    let pw = "auto-water-ota";
    assert!(matches!(admit_ota(None, pw, Some(5)), OtaAdmission::Unauthorized));
    assert!(matches!(admit_ota(Some(b"Bearer nope"), pw, Some(5)), OtaAdmission::Unauthorized));
    assert!(matches!(admit_ota(Some(good), pw, None), OtaAdmission::MissingLength));
    assert!(matches!(admit_ota(Some(good), pw, Some(0)), OtaAdmission::MissingLength));
    assert!(matches!(admit_ota(Some(good), pw, Some(5)), OtaAdmission::Accept(5)));
    assert!(matches!(admit_ota(Some(good), "other", Some(5)), OtaAdmission::Unauthorized));
    assert!(matches!(admit_ota(Some(b"Bearer other"), "other", Some(5)), OtaAdmission::Accept(5)));
    assert_eq!(refusal_reply(&OtaAdmission::Unauthorized), Some(UNAUTHORIZED_REPLY));
    assert_eq!(refusal_reply(&OtaAdmission::MissingLength), Some(MISSING_LENGTH_REPLY));
    assert_eq!(refusal_reply(&OtaAdmission::Accept(5)), None);
    assert_eq!(upload_reply(true), OTA_SUCCESS_REPLY);
    assert_eq!(upload_reply(false), OTA_FAILURE_REPLY);
    assert!(UNAUTHORIZED_REPLY.ends_with("\r\n\r\nInvalid password"));
    assert_eq!(BAD_REQUEST_REPLY, "HTTP/1.1 400 Bad Request\r\n\r\n");
}

#[test]
fn rendered_reply() {
    let r = Response::ok("text/plain", b"Hello");
    assert_eq!(
        render_response(&r),
        b"HTTP/1.1 200 OK\r\nContent-Type: text/plain\r\nContent-Length: 5\r\n\r\nHello".to_vec()
    );
    let nf = render_response(&Response::not_found());
    assert_eq!(
        nf,
        b"HTTP/1.1 404 Not Found\r\nContent-Type: text/plain\r\nContent-Length: 9\r\n\r\nNot Found".to_vec()
    );
    let empty = render_response(&Response::ok("text/html", b""));
    assert!(empty.ends_with(b"Content-Length: 0\r\n\r\n"));
}

struct Echo;

impl Handler for Echo {
    fn handle(&self, _method: &str, path: &str) -> Response<'static> {
        if path == "/" {
            Response::ok("text/plain", b"root")
        } else {
            Response::not_found()
        }
    }
}

#[test]
fn server_holds_handler() {
    let s = Server::new(Echo);
    assert_eq!(s.handler_ref().handle("GET", "/").body, b"root");
    assert_eq!(s.handler_ref().handle("GET", "/x").status, "404 Not Found");
}
