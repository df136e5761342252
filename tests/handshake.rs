use sozu_lib::tls::{
    classify_errors, metric_name, HandshakeCall, HandshakeErrorKind, HandshakeOutcome, ProtocolResult,
    SessionResult, TlsHandshake, TlsState,
};

#[test]
fn plain_http_to_tls_port_is_counted() {
    let mut h = TlsHandshake::new();
    assert_eq!(h.next_call(), Some(HandshakeCall::Accept));
    let step = h.readable(Some(HandshakeOutcome::Failure(vec![0x1407609C])));
    assert_eq!(step.protocol, ProtocolResult::Continue);
    assert_eq!(step.session, SessionResult::CloseSession);
    assert_eq!(step.failure, Some(HandshakeErrorKind::HttpRequest));
    assert_eq!(metric_name(HandshakeErrorKind::HttpRequest), Some("openssl.http_request.error"));
    assert_eq!(h.state, TlsState::Error);
    assert_eq!(h.next_call(), None);
    let again = h.readable(None);
    assert_eq!(again.session, SessionResult::CloseSession);
}

#[test]
fn error_codes_are_classified() {
    assert_eq!(classify_errors(&[0x140A1175]), HandshakeErrorKind::InappropriateFallback);
    assert_eq!(classify_errors(&[0x1408A10B]), HandshakeErrorKind::WrongVersionNumber);
    assert_eq!(classify_errors(&[0x140760FC]), HandshakeErrorKind::UnknownProtocol);
    assert_eq!(classify_errors(&[0x1422E0EA]), HandshakeErrorKind::UnknownServerName);
    assert_eq!(classify_errors(&[0x1412E0E2, 0x1408A0E3]), HandshakeErrorKind::Sni);
    assert_eq!(classify_errors(&[0x1408A0E3, 0x1412E0E2]), HandshakeErrorKind::Other);
    assert_eq!(classify_errors(&[]), HandshakeErrorKind::Other);
    assert_eq!(classify_errors(&[1]), HandshakeErrorKind::Other);
    assert_eq!(metric_name(HandshakeErrorKind::Sni), Some("openssl.sni.error"));
    assert_eq!(metric_name(HandshakeErrorKind::UnknownServerName), None);
}

#[test]
fn handshake_that_blocks_then_succeeds() {
    let mut h = TlsHandshake::new();
    h.readiness.event.readable = true;
    let step = h.readable(Some(HandshakeOutcome::WouldBlock));
    assert_eq!((step.protocol, step.session), (ProtocolResult::Continue, SessionResult::Continue));
    assert!(!h.readiness.event.readable);
    assert!(h.readiness.interest.readable);
    assert_eq!(h.next_call(), Some(HandshakeCall::Resume));
    let step = h.readable(Some(HandshakeOutcome::Failure(vec![0x1407609C])));
    assert_eq!(step.failure, None);
    assert_eq!(h.state, TlsState::Error);

    let mut h = TlsHandshake::new();
    let step = h.readable(Some(HandshakeOutcome::Established));
    assert_eq!(step.protocol, ProtocolResult::Upgrade);
    assert_eq!(h.state, TlsState::Established);
    assert_eq!(h.readable(None).protocol, ProtocolResult::Upgrade);

    let mut h = TlsHandshake::new();
    assert_eq!(h.readable(Some(HandshakeOutcome::SetupFailure)).session, SessionResult::CloseSession);
}
