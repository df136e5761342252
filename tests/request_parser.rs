use sozu_lib::answers::{answer_bytes, answer_for_request, answer_for_response, answer_for_route, DefaultAnswer};
use sozu_lib::parser::{ResponseParser, Version};
use sozu_lib::request::RequestParser;
use sozu_lib::response::BodyLength;
use sozu_lib::routing::{Backend, ConfigState, HttpFront, RouteDecision};

fn run_request(input: &[u8]) -> RequestParser {
    let mut state = RequestParser::Initial;
    loop {
        let previous_position = state.position();
        state = state.parse(input);
        if state.is_error() || state.position() == previous_position || state.is_finished() {
            break;
        }
    }
    state
}

#[test]
fn request_is_parsed_and_routed() {
    let input: &[u8] = b"GET / HTTP/1.1\r\nHost: lolcatho.st:8080\r\n\r\n";
    let state = run_request(input);
    assert!(state.is_finished() && !state.is_error());
    let req = state.validate(input).unwrap();
    assert_eq!(req.request_line.method, b"GET");
    assert_eq!(req.request_line.uri, b"/");
    assert_eq!(req.request_line.version, Version::V11);
    assert_eq!(req.host, Some(&b"lolcatho.st:8080"[..]));
    assert_eq!(req.header_end, input.len());
    assert_eq!(req.length(), Some(BodyLength::Length(0)));

    let mut config = ConfigState::new();
    config
        .add_http_front(HttpFront::new(b"app_1".to_vec(), b"lolcatho.st".to_vec(), b"/".to_vec(), 8080))
        .unwrap();
    config.add_backend(b"app_1".to_vec(), Backend::new(b"127.0.0.1".to_vec(), 1026)).unwrap();
    match config.route(req.host.unwrap(), req.request_line.uri, 8080) {
        RouteDecision::Forward(app, b) => {
            assert_eq!(app, b"app_1".to_vec());
            assert_eq!(b.address, b"127.0.0.1".to_vec());
            assert_eq!(b.port, 1026);
        },
        _ => panic!("request was not forwarded"),
    }
}

#[test]
fn request_without_backend_gets_503() {
    let input: &[u8] = b"GET / HTTP/1.1\r\nHost: lolcatho.st:8080\r\n\r\n";
    let state = run_request(input);
    let req = state.validate(input).unwrap();
    let mut config = ConfigState::new();
    config
        .add_http_front(HttpFront::new(b"app_1".to_vec(), b"lolcatho.st".to_vec(), b"/".to_vec(), 8080))
        .unwrap();
    let d = config.route(req.host.unwrap(), req.request_line.uri, 8080);
    let answer = answer_bytes(answer_for_route(&d).unwrap());
    assert!(answer.starts_with(b"HTTP/1.1 503 Service Unavailable"));
}

#[test]
fn duplicate_content_length_gets_400() {
    let input: &[u8] = b"POST /x HTTP/1.1\r\nHost: h\r\nContent-Length: 3\r\nContent-Length: 4\r\n\r\nabc";
    let state = run_request(input);
    assert!(state.is_error());
    assert!(state.validate(input).is_none());
    assert_eq!(answer_for_request(&state), Some(DefaultAnswer::BadRequest));
    assert!(answer_bytes(DefaultAnswer::BadRequest).starts_with(b"HTTP/1.1 400 Bad Request"));
}

#[test]
fn tls_client_hello_on_http_listener_gets_400() {
    let hello: &[u8] = &[0x16, 0x03, 0x01, 0x00, 0xa5, 0x01, 0x00, 0x00, 0xa1, 0x03, 0x03, 0x47];
    let state = RequestParser::Initial.parse(hello);
    assert!(state.is_error());
    assert_eq!(answer_for_request(&state), Some(DefaultAnswer::BadRequest));
}

#[test]
fn host_is_required_for_http_1_1_only() {
    let input: &[u8] = b"GET /a HTTP/1.1\r\nAccept: */*\r\n\r\n";
    let state = run_request(input);
    assert!(state.is_finished() && !state.is_error());
    assert!(state.validate(input).is_none());
    let input: &[u8] = b"GET /a HTTP/1.0\r\nAccept: */*\r\n\r\n";
    let state = run_request(input);
    let req = state.validate(input).unwrap();
    assert_eq!(req.host, None);
    assert_eq!(req.request_line.version, Version::V10);
}

#[test]
fn request_split_across_reads() {
    let input: &[u8] = b"PUT /up HTTP/1.1\r\nhost: h\r\ntransfer-encoding: chunked\r\nConnection: close\r\n\r\n";
    for cut in 0..input.len() {
        let mut state = run_request(&input[..cut]);
        loop {
            let previous_position = state.position();
            state = state.parse(input);
            if state.is_error() || state.position() == previous_position || state.is_finished() {
                break;
            }
        }
        let req = state.validate(input).unwrap();
        assert_eq!(req.header_end, input.len());
        assert_eq!(req.length(), Some(BodyLength::Chunked));
        assert!(req.connection.close);
        assert_eq!(req.host, Some(&b"h"[..]));
    }
}

#[test]
fn malformed_request_lines() {
    assert!(RequestParser::Initial.parse(b"GET  / HTTP/1.1\r\n").is_error());
    assert!(RequestParser::Initial.parse(b"GET / HTTP/2.0\r\n").is_error());
    assert!(RequestParser::Initial.parse(b"GET / HTTP/1.1\n").is_error());
    assert!(!RequestParser::Initial.parse(b"GET / HTTP/1.").is_error());
    assert_eq!(RequestParser::Initial.parse(b"GET / HTTP/1.").position(), 0);
}

#[test]
fn response_parse_error_gets_502() {
    let state = ResponseParser::Initial.parse(b"garbage\r\n");
    assert_eq!(answer_for_response(&state), Some(DefaultAnswer::BadGateway));
    let state = ResponseParser::Initial.parse(b"HTTP/1.1 200 OK\r\n");
    assert_eq!(answer_for_response(&state), None);
}
