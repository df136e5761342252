use sozu_lib::answers::{answer_bytes, answer_for_route, DefaultAnswer};
use sozu_lib::routing::{strip_port, Backend, ConfigError, ConfigState, HttpFront, RouteDecision};

fn front(app: &str, host: &str, path: &str, port: u16) -> HttpFront {
    HttpFront::new(app.as_bytes().to_vec(), host.as_bytes().to_vec(), path.as_bytes().to_vec(), port)
}

fn forwarded_to(d: &RouteDecision) -> Option<(String, String, u16)> {
    match d {
        RouteDecision::Forward(app, b) => Some((
            String::from_utf8(app.clone()).unwrap(),
            String::from_utf8(b.address.clone()).unwrap(),
            b.port,
        )),
        _ => None,
    }
}

#[test]
fn basic_http_routing() {
    let mut state = ConfigState::new();
    assert_eq!(state.add_http_front(front("app_1", "lolcatho.st", "/", 8080)), Ok(()));
    assert_eq!(state.add_backend(b"app_1".to_vec(), Backend::new(b"127.0.0.1".to_vec(), 1026)), Ok(()));
    let d = state.route(b"lolcatho.st:8080", b"/", 8080);
    assert_eq!(forwarded_to(&d), Some(("app_1".to_string(), "127.0.0.1".to_string(), 1026)));
    assert!(answer_for_route(&d).is_none());
}

#[test]
fn no_backend_gives_503() {
    let mut state = ConfigState::new();
    state.add_http_front(front("app_1", "lolcatho.st", "/", 8080)).unwrap();
    let d = state.route(b"lolcatho.st:8080", b"/", 8080);
    assert!(matches!(d, RouteDecision::Unavailable));
    let answer = answer_for_route(&d).unwrap();
    assert_eq!(answer, DefaultAnswer::ServiceUnavailable);
    assert!(answer_bytes(answer).starts_with(b"HTTP/1.1 503 Service Unavailable\r\n"));
}

#[test]
fn dead_backends_give_503() {
    let mut state = ConfigState::new();
    state.add_http_front(front("app_1", "h", "/", 80)).unwrap();
    state.add_backend(b"app_1".to_vec(), Backend::new(b"10.0.0.1".to_vec(), 80)).unwrap();
    state.set_backend_alive(b"app_1", b"10.0.0.1", 80, false);
    assert!(matches!(state.route(b"h", b"/", 80), RouteDecision::Unavailable));
    state.set_backend_alive(b"app_1", b"10.0.0.1", 80, true);
    assert!(forwarded_to(&state.route(b"h", b"/", 80)).is_some());
}

#[test]
fn unknown_host_gives_404() {
    let mut state = ConfigState::new();
    state.add_http_front(front("app_1", "lolcatho.st", "/", 8080)).unwrap();
    let d = state.route(b"other.host", b"/", 8080);
    assert!(matches!(d, RouteDecision::NotFound));
    assert_eq!(answer_for_route(&d), Some(DefaultAnswer::NotFound));
    assert!(answer_bytes(DefaultAnswer::NotFound).starts_with(b"HTTP/1.1 404 Not Found\r\n"));
    assert!(matches!(state.route(b"lolcatho.st", b"/", 8081), RouteDecision::NotFound));
}

#[test]
fn longest_path_prefix_wins() {
    let mut state = ConfigState::new();
    state.add_http_front(front("A", "h", "/", 80)).unwrap();
    state.add_http_front(front("B", "h", "/api", 80)).unwrap();
    assert_eq!(state.lookup(b"h", b"/api/x", 80), Some(1));
    assert_eq!(state.lookup(b"h", b"/other", 80), Some(0));
    state.add_backend(b"A".to_vec(), Backend::new(b"10.0.0.1".to_vec(), 80)).unwrap();
    state.add_backend(b"B".to_vec(), Backend::new(b"10.0.0.2".to_vec(), 80)).unwrap();
    assert_eq!(forwarded_to(&state.route(b"h", b"/api/x", 80)).unwrap().0, "B");
    assert_eq!(forwarded_to(&state.route(b"h", b"/other", 80)).unwrap().0, "A");
}

#[test]
fn nested_prefixes_resolve_to_the_longest() {
    let mut state = ConfigState::new();
    state.add_http_front(front("short", "h", "/a", 80)).unwrap();
    state.add_http_front(front("long", "h", "/a/b", 80)).unwrap();
    assert_eq!(state.lookup(b"h", b"/a/b/c", 80), Some(1));
    assert_eq!(state.lookup(b"h", b"/a/c", 80), Some(0));
    assert_eq!(state.lookup(b"h", b"/b", 80), None);
}

#[test]
fn add_front_twice_is_a_no_op() {
    let mut state = ConfigState::new();
    state.add_http_front(front("A", "h", "/", 80)).unwrap();
    assert_eq!(state.add_http_front(front("A", "h", "/", 80)), Ok(()));
    assert_eq!(state.http_fronts.len(), 1);
    assert_eq!(state.add_http_front(front("B", "h", "/", 80)), Err(ConfigError::ConflictingFront));
    assert_eq!(state.http_fronts.len(), 1);
}

#[test]
fn remove_absent_front_is_ok() {
    let mut state = ConfigState::new();
    state.add_http_front(front("A", "h", "/", 80)).unwrap();
    assert_eq!(state.remove_http_front(&front("A", "h", "/x", 80)), Ok(()));
    assert_eq!(state.http_fronts.len(), 1);
    assert_eq!(state.remove_http_front(&front("A", "h", "/", 80)), Ok(()));
    assert_eq!(state.http_fronts.len(), 0);
    assert_eq!(state.remove_http_front(&front("A", "h", "/", 80)), Ok(()));
}

#[test]
fn round_robin_is_fair() {
    let mut state = ConfigState::new();
    for p in 1..=3u16 {
        state.add_backend(b"app".to_vec(), Backend::new(b"10.0.0.1".to_vec(), p)).unwrap();
    }
    state.add_backend(b"app".to_vec(), Backend::new(b"10.0.0.1".to_vec(), 1)).unwrap();
    let mut counts = [0usize; 4];
    for _ in 0..10 {
        let b = state.pick_backend(b"app").unwrap();
        counts[b.port as usize] += 1;
    }
    assert_eq!(&counts[1..], &[4, 3, 3]);
    assert!(state.pick_backend(b"other").is_none());
}

#[test]
fn picker_skips_dead_backends() {
    let mut state = ConfigState::new();
    for p in 1..=3u16 {
        state.add_backend(b"app".to_vec(), Backend::new(b"10.0.0.1".to_vec(), p)).unwrap();
    }
    state.set_backend_alive(b"app", b"10.0.0.1", 2, false);
    let ports: Vec<u16> = (0..4).map(|_| state.pick_backend(b"app").unwrap().port).collect();
    assert_eq!(ports, vec![1, 3, 1, 3]);
    state.remove_backend(b"app", b"10.0.0.1", 1).unwrap();
    assert_eq!(state.pick_backend(b"app").unwrap().port, 3);
    assert_eq!(state.remove_backend(b"app", b"10.9.9.9", 1), Ok(()));
}

#[test]
fn host_port_is_stripped() {
    assert_eq!(strip_port(b"lolcatho.st:8080"), b"lolcatho.st");
    assert_eq!(strip_port(b"lolcatho.st"), b"lolcatho.st");
    assert_eq!(strip_port(b"a:b"), b"a:b");
    assert_eq!(strip_port(b"h:"), b"h");
}

#[test]
fn default_answers() {
    assert!(answer_bytes(DefaultAnswer::BadRequest).starts_with(b"HTTP/1.1 400 Bad Request\r\n"));
    assert!(answer_bytes(DefaultAnswer::BadGateway).starts_with(b"HTTP/1.1 502 Bad Gateway\r\n"));
    assert!(answer_bytes(DefaultAnswer::ServiceUnavailable).ends_with(b"\r\n\r\n"));
}
