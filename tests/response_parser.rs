use sozu_lib::parser::{parse_and_validate, ResponseParser, Version};
use sozu_lib::response::{BodyLength, Connection, ParsedHeaderName};
use sozu_lib::tokens::ValueIterator;
use std::cmp::Ordering;

fn run_parser(input: &[u8]) -> ResponseParser {
    let mut state = ResponseParser::Initial;
    loop {
        let previous_position = state.position();
        state = state.parse(input);
        if state.is_error() || state.position() == previous_position || state.is_finished() {
            break;
        }
    }
    state
}

#[test]
fn req() {
    let mut state = ResponseParser::Initial;
    let input = b"HTTP/1.1 200 OK\r\n\
          Content-Length: 200\r\n\
          \r\n";

    loop {
        let previous_position = state.position();

        state = state.parse(&input[..]);

        println!("state is now: {:?}", state);
        if state.is_error() {
            println!("got an error");
            break;
        }

        if state.position() == previous_position {
            println!("position did not change, failed advancing");
            break;
        }

        if state.is_finished() {
            println!("done");
            break;
        }
    }

    assert!(state.is_finished());
    assert!(!state.is_error());
    assert_eq!(state.position(), input.len());
    let req = state.validate(&input[..]).unwrap();
    assert_eq!(req.status(), b"200");
    assert_eq!(req.reason(), b"OK");
    assert_eq!(req.headers.len(), 1);
    assert_eq!(req.headers[0].0.as_slice(), b"Content-Length");
    assert_eq!(req.headers[0].1.as_slice(), b"200");
    // the head has no Host header, in any case
    assert_eq!(req.get(b"hOsT"), None);
    assert_eq!(req.host(), None);
}

#[test]
fn split_input_reaches_the_same_state() {
    let input: &[u8] = b"HTTP/1.1 200 OK\r\nContent-Length: 12\r\nConnection: keep-alive\r\n\r\nhello world!";
    let whole = run_parser(input);
    for cut in 0..input.len() {
        let first = run_parser(&input[..cut]);
        let mut state = first;
        loop {
            let previous_position = state.position();
            state = state.parse(input);
            if state.is_error() || state.position() == previous_position || state.is_finished() {
                break;
            }
        }
        assert_eq!(state.position(), whole.position());
        assert_eq!(state.is_finished(), whole.is_finished());
        let a = state.validate(input).unwrap();
        let b = whole.validate(input).unwrap();
        assert_eq!(a.headers.len(), b.headers.len());
        assert_eq!(a.header_end, b.header_end);
    }
    assert_eq!(whole.position(), input.len() - 12);
}

#[test]
fn incomplete_input_waits() {
    let state = ResponseParser::Initial.parse(b"HTTP/1.1 200");
    assert!(!state.is_finished());
    assert_eq!(state.position(), 0);
    let state = ResponseParser::Initial.parse(b"HTTP/1.1 200 OK\r\nContent-Le");
    assert_eq!(state.position(), 17);
    let state = state.parse(b"HTTP/1.1 200 OK\r\nContent-Le");
    assert_eq!(state.position(), 17);
    assert!(!state.is_finished());
}

#[test]
fn header_lookup_ignores_case() {
    let input: &[u8] = b"HTTP/1.0 404 Not Found\r\nHost: example.com\r\nX-Thing:  a b \r\n\r\n";
    let resp = parse_and_validate(input).unwrap();
    assert_eq!(resp.version(), Version::V10);
    assert_eq!(resp.status(), b"404");
    assert_eq!(resp.reason(), b"Not Found");
    assert_eq!(resp.host(), Some(&b"example.com"[..]));
    assert_eq!(resp.get(b"HOST"), resp.get(b"host"));
    assert_eq!(resp.get(b"x-thing"), Some(&b"a b"[..]));
    assert_eq!(resp.get(b"X-THING"), Some(&b"a b"[..]));
    assert_eq!(resp.header_end, input.len());
    assert!(ParsedHeaderName::Ref(b"Content-Type") == ParsedHeaderName::Allocated(b"content-type".to_vec()));
    assert!(ParsedHeaderName::Ref(b"Content-Type") != ParsedHeaderName::Ref(b"Content-Typf"));
}

#[test]
fn duplicate_content_length_is_an_error() {
    let input: &[u8] = b"HTTP/1.1 200 OK\r\nContent-Length: 10\r\ncontent-length: 20\r\n\r\n";
    let state = run_parser(input);
    assert!(state.is_error());
    assert_eq!(state.position(), 37);
    assert!(state.validate(input).is_none());
    assert!(parse_and_validate(input).is_none());
}

#[test]
fn set_cookie_may_repeat() {
    let input: &[u8] = b"HTTP/1.1 200 OK\r\nSet-Cookie: a=1\r\nset-cookie: b=2\r\n\r\n";
    let resp = parse_and_validate(input).unwrap();
    assert_eq!(resp.headers.len(), 2);
    assert_eq!(resp.get(b"Set-Cookie"), Some(&b"a=1"[..]));
    assert_eq!(resp.headers[1].1.as_slice(), b"b=2");
}

#[test]
fn tls_client_hello_is_refused() {
    let hello: &[u8] = &[0x16, 0x03, 0x01, 0x02, 0x00, 0x01, 0x00, 0x01, 0xfc, 0x03, 0x03];
    let state = ResponseParser::Initial.parse(hello);
    assert!(state.is_error());
    assert_eq!(state.position(), 0);
}

#[test]
fn malformed_lines_are_errors() {
    assert!(ResponseParser::Initial.parse(b"HTTP/2.0 200 OK\r\n").is_error());
    assert!(ResponseParser::Initial.parse(b"HTTP/1.1 2x0 OK\r\n").is_error());
    assert!(ResponseParser::Initial.parse(b"HTTP/1.1 200 OK\rX").is_error());
    let state = ResponseParser::Initial.parse(b"HTTP/1.1 200 OK\r\nBad Header: x\r\n\r\n");
    let state = state.parse(b"HTTP/1.1 200 OK\r\nBad Header: x\r\n\r\n");
    assert!(state.is_error());
    assert_eq!(state.position(), 17);
    let again = state.parse(b"HTTP/1.1 200 OK\r\nBad Header: x\r\n\r\n");
    assert!(again.is_error());
    assert_eq!(again.position(), 17);
}

#[test]
fn connection_directives() {
    let input: &[u8] = b"HTTP/1.1 101 Switching Protocols\r\nConnection: Keep-Alive , UPGRADE\r\n\r\n";
    let resp = parse_and_validate(input).unwrap();
    assert_eq!(*resp.connection(), Connection { close: false, keep_alive: true, upgrade: true });
    let input: &[u8] = b"HTTP/1.1 200 OK\r\n\r\n";
    let resp = parse_and_validate(input).unwrap();
    assert_eq!(*resp.connection(), Connection { close: false, keep_alive: false, upgrade: false });
    let input: &[u8] = b"HTTP/1.1 200 OK\r\nconnection: close\r\n\r\n";
    assert!(parse_and_validate(input).unwrap().connection().close);
}

#[test]
fn body_framing() {
    let chunked: &[u8] = b"HTTP/1.1 200 OK\r\nContent-Length: 5\r\nTransfer-Encoding: gzip, chunked\r\n\r\n";
    assert_eq!(parse_and_validate(chunked).unwrap().length(), Some(BodyLength::Chunked));
    let sized: &[u8] = b"HTTP/1.1 200 OK\r\nContent-Length: 1234\r\n\r\n";
    assert_eq!(parse_and_validate(sized).unwrap().length(), Some(BodyLength::Length(1234)));
    let open: &[u8] = b"HTTP/1.1 200 OK\r\n\r\n";
    assert_eq!(parse_and_validate(open).unwrap().length(), Some(BodyLength::UntilClose));
    let bad: &[u8] = b"HTTP/1.1 200 OK\r\nContent-Length: 12a\r\n\r\n";
    assert_eq!(parse_and_validate(bad).unwrap().length(), None);
    let huge: &[u8] = b"HTTP/1.1 200 OK\r\nContent-Length: 99999999999999999999999\r\n\r\n";
    assert_eq!(parse_and_validate(huge).unwrap().length(), None);
}

#[test]
fn value_tokens() {
    let mut it = ValueIterator::new(b" a ,b,, c\t,");
    assert_eq!(it.next(), Some(&b"a"[..]));
    assert_eq!(it.next(), Some(&b"b"[..]));
    assert_eq!(it.next(), Some(&b"c"[..]));
    assert_eq!(it.next(), None);
    assert_eq!(it.next(), None);
    let mut empty = ValueIterator::new(b"");
    assert_eq!(empty.next(), None);
}

#[test]
fn header_names_order_without_case() {
    let a = ParsedHeaderName::Ref(b"Content-Length");
    let b = ParsedHeaderName::Allocated(b"content-type".to_vec());
    assert_eq!(a.partial_cmp(&b), Some(Ordering::Less));
    assert_eq!(b.partial_cmp(&a), Some(Ordering::Greater));
    let c = ParsedHeaderName::Ref(b"HOST");
    let d = ParsedHeaderName::Ref(b"host");
    assert_eq!(c.partial_cmp(&d), Some(Ordering::Equal));
    let e = ParsedHeaderName::Ref(b"Host-X");
    assert_eq!(d.partial_cmp(&e), Some(Ordering::Less));
    // letters compare case-folded against any byte, so both cases sort alike
    let f = ParsedHeaderName::Ref(b"A");
    let g = ParsedHeaderName::Ref(b"_");
    let h = ParsedHeaderName::Ref(b"a");
    assert_eq!(f.partial_cmp(&g), Some(Ordering::Greater));
    assert_eq!(h.partial_cmp(&g), Some(Ordering::Greater));
    assert_eq!(f.partial_cmp(&h), Some(Ordering::Equal));
    let l = ParsedHeaderName::Ref(b"[");
    assert_eq!(f.partial_cmp(&l), Some(Ordering::Greater));
}
