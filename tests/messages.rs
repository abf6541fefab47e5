use catalyst::body::{Body, Json, PlainText};
use catalyst::dispatch::{finish, route_request, step, ConnectionAction, ConnectionEvent, ConnectionState};
use catalyst::error::ServerError;
use catalyst::method::Method;
use catalyst::request::{Request, RequestParts};
use catalyst::response::{error_response, json_response, not_found, Response};
use catalyst::router::Routes;
use catalyst::routing_table::RoutingTable;

fn parts(method: Method, path: &str) -> RequestParts {
    RequestParts { method, path: path.to_string(), headers: Vec::new() }
}

fn sent(r: Response) -> (u16, Vec<(String, String)>, String) {
    let (head, data) = r.into_inner().ok().unwrap();
    (head.status, head.headers, String::from_utf8(data).unwrap())
}

fn json_headers() -> Vec<(String, String)> {
    vec![("Content-Type".to_string(), "application/json".to_string())]
}

#[test]
fn get_request_uses_the_default_body() {
    let req = Request::<PlainText>::parse(parts(Method::Get, "/t"), b"payload".to_vec()).ok().unwrap();
    assert_eq!(req.body().inner(), "");
    let req = Request::<PlainText>::parse(parts(Method::Delete, "/t"), vec![0xff]).ok().unwrap();
    assert_eq!(req.body().inner(), "");
    let req = Request::<Json>::parse(parts(Method::Get, "/t"), b"not json".to_vec()).ok().unwrap();
    assert_eq!(req.body().inner(), &serde_json::Value::Object(serde_json::Map::new()));
}

#[test]
fn post_request_parses_the_payload() {
    let req = Request::<PlainText>::parse(parts(Method::Post, "/t"), "héllo".as_bytes().to_vec()).ok().unwrap();
    assert_eq!(req.body().inner(), "héllo");
    assert_eq!(req.parts().path, "/t");
    let req = Request::<Json>::parse(parts(Method::Put, "/t"), br#"{"a":[1,2]}"#.to_vec()).ok().unwrap();
    let expected: serde_json::Value = serde_json::from_str(r#"{"a":[1,2]}"#).unwrap();
    assert_eq!(req.body().inner(), &expected);
}

#[test]
fn malformed_payload_gives_an_error_response() {
    let err = Request::<Json>::parse(parts(Method::Post, "/t"), b"{oops".to_vec()).err().unwrap();
    assert!(matches!(err, ServerError::SerdeJson(_)));
    let (status, headers, body) = sent(finish(Err(err)));
    assert_eq!(status, 500);
    assert_eq!(headers, json_headers());
    let value: serde_json::Value = serde_json::from_str(&body).unwrap();
    assert!(value.get("error").unwrap().is_string());

    let err = Request::<PlainText>::parse(parts(Method::Patch, "/t"), vec![0xc3, 0x28]).err().unwrap();
    assert!(matches!(err, ServerError::FromUtf8(_)));
    let (status, _, body) = sent(finish(Err(err)));
    assert_eq!(status, 500);
    assert!(body.starts_with("{\"error\":"));
}

#[test]
fn body_parsing_follows_the_method() {
    assert!(Method::Post.carries_body());
    assert!(Method::Put.carries_body());
    assert!(Method::Patch.carries_body());
    assert!(!Method::Get.carries_body());
    assert!(!Method::Delete.carries_body());
    assert!(!Method::Head.carries_body());
    assert!(PlainText::parse(vec![0xff]).is_err());
    assert_eq!(PlainText::default().inner(), "");
}

fn ok_handler() -> Response {
    json_response(200, "message", "ok")
}

#[test]
fn end_to_end_root_and_missing() {
    let mut routes: Routes<fn() -> Response> = Routes::new();
    routes.add("/", Method::Get, ok_handler);
    let handler = routes.get("/", Method::Get).unwrap();
    let (status, headers, body) = sent(finish(Ok(handler())));
    assert_eq!(status, 200);
    assert_eq!(headers, json_headers());
    assert_eq!(body, r#"{"message":"ok"}"#);
    assert!(routes.get("/missing", Method::Get).is_none());
    let (status, headers, body) = sent(not_found());
    assert_eq!(status, 404);
    assert_eq!(headers, json_headers());
    assert_eq!(body, r#"{"error_message":"not found"}"#);
}

#[test]
fn flat_routes_replace_and_tell_methods_apart() {
    let mut routes: Routes<u32> = Routes::new();
    routes.add("/a", Method::Get, 1);
    routes.add("/a", Method::Post, 2);
    routes.add("/a", Method::Get, 3);
    assert_eq!(routes.get("/a", Method::Get), Some(&3));
    assert_eq!(routes.get("/a", Method::Post), Some(&2));
    assert_eq!(routes.get("/a/", Method::Get), None);
}

#[test]
fn route_request_resolves_or_answers_not_found() {
    let mut table: RoutingTable<u32> = RoutingTable::new();
    assert!(table.at("/items/{id}", Method::Get, 4).is_ok());
    assert_eq!(route_request(&table, &parts(Method::Get, "/items/12")).ok(), Some(&4));
    let resp = route_request(&table, &parts(Method::Get, "/missing")).err().unwrap();
    let (status, headers, body) = sent(resp);
    assert_eq!(status, 404);
    assert_eq!(headers, json_headers());
    assert_eq!(body, r#"{"error_message":"not found"}"#);
}

#[test]
fn response_builder_sets_each_part() {
    let r = Response::new().status(201).content_type("text/plain").body(b"made".to_vec());
    let (status, headers, body) = sent(r);
    assert_eq!(status, 201);
    assert_eq!(headers, vec![("Content-Type".to_string(), "text/plain".to_string())]);
    assert_eq!(body, "made");
    let (status, headers, body) = sent(Response::new());
    assert_eq!((status, headers.len(), body.len()), (200, 0, 0));
}

#[test]
fn invalid_response_parts_are_refused() {
    assert!(matches!(Response::new().status(42).into_inner(), Err(ServerError::InvalidStatus(42))));
    assert!(matches!(Response::new().status(1000).into_inner(), Err(ServerError::InvalidStatus(1000))));
    assert!(Response::new().status(100).into_inner().is_ok());
    assert!(Response::new().status(999).into_inner().is_ok());
    let bad = Response::new().content_type("text/plain\nx").into_inner();
    assert!(matches!(bad, Err(ServerError::InvalidHeader(_))));
    assert!(Response::new().content_type("a\tb").into_inner().is_ok());
}

#[test]
fn json_bodies_are_escaped_by_serde_json() {
    let (_, _, body) = sent(error_response("bad \"quote\""));
    assert_eq!(body, r#"{"error":"bad \"quote\""}"#);
    let (status, _, body) = sent(json_response(418, "k", "v"));
    assert_eq!((status, body.as_str()), (418, r#"{"k":"v"}"#));
}

#[test]
fn error_messages_describe_the_error() {
    assert_eq!(ServerError::Str("boom".to_string()).message(), "boom");
    assert_eq!(ServerError::IllegalPath.message(), "illegal path");
    let (_, _, body) = sent(finish(Err(ServerError::Str("boom".to_string()))));
    assert_eq!(body, r#"{"error":"boom"}"#);
}

#[test]
fn connection_moves_through_its_states() {
    let (s, a) = step(ConnectionState::Accepted, ConnectionEvent::HandshakeDone);
    assert_eq!((s, a), (ConnectionState::Secured, ConnectionAction::StartSession));
    let (s, a) = step(s, ConnectionEvent::HandshakeDone);
    assert_eq!((s, a), (ConnectionState::Serving, ConnectionAction::AcceptStreams));
    let (s, a) = step(s, ConnectionEvent::RequestArrived);
    assert_eq!((s, a), (ConnectionState::Serving, ConnectionAction::SpawnRequest));
    let (s, a) = step(s, ConnectionEvent::RequestArrived);
    assert_eq!((s, a), (ConnectionState::Serving, ConnectionAction::SpawnRequest));
    let (s, a) = step(s, ConnectionEvent::SessionEnded);
    assert_eq!((s, a), (ConnectionState::Closed, ConnectionAction::Release));
    assert_eq!(step(s, ConnectionEvent::RequestArrived), (ConnectionState::Closed, ConnectionAction::Ignore));
    assert_eq!(
        step(ConnectionState::Accepted, ConnectionEvent::HandshakeFailed),
        (ConnectionState::Closed, ConnectionAction::Drop)
    );
    assert_eq!(
        step(ConnectionState::Secured, ConnectionEvent::HandshakeFailed),
        (ConnectionState::Closed, ConnectionAction::Drop)
    );
}

#[test]
fn parse_errors_carry_a_description() {
    let err = Request::<Json>::parse(parts(Method::Post, "/t"), b"[1,".to_vec()).err().unwrap();
    assert!(!err.message().is_empty());
    let err = Request::<PlainText>::parse(parts(Method::Post, "/t"), vec![0xff, 0xfe]).err().unwrap();
    assert!(!err.message().is_empty());
    assert_eq!(ServerError::InvalidStatus(7).message(), "invalid status code");
}

#[test]
fn failure_response_describes_the_error() {
    let (status, _, body) = sent(finish(Err(ServerError::IllegalPath)));
    assert_eq!((status, body.as_str()), (500, r#"{"error":"illegal path"}"#));
    let (_, _, body) = sent(finish(Err(ServerError::InvalidHeader("x".to_string()))));
    assert_eq!(body, r#"{"error":"invalid header value"}"#);
    assert_eq!(ServerError::InvalidHeader("x".to_string()).message(), "invalid header value");
}

#[test]
fn control_characters_are_escaped() {
    let (_, _, body) = sent(error_response("a\nb\u{1}\\é\t"));
    assert_eq!(body, "{\"error\":\"a\\nb\\u0001\\\\é\\t\"}");
}
