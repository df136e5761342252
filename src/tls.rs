//! Decisions of the TLS handshake phase of a session. The TLS library's calls are made by the
//! caller, who hands their outcome to `TlsHandshake::readable`.
use vstd::prelude::*;

verus! {

#[derive(Clone, Copy, PartialEq, Eq, Debug)]
pub enum ProtocolResult {
    Continue,
    /// The phase is over: the session moves to the next protocol.
    Upgrade,
}

#[derive(Clone, Copy, PartialEq, Eq, Debug)]
pub enum SessionResult {
    Continue,
    CloseSession,
    CloseBackend,
    ReconnectBackend,
    ConnectBackend,
}

#[derive(Clone, Copy, PartialEq, Eq, Debug)]
pub enum TlsState {
    Initial,
    Handshake,
    Established,
    Error,
}

/// Readiness bits of a socket.
#[derive(Clone, Copy, PartialEq, Eq, Debug)]
pub struct Ready {
    pub readable: bool,
    pub writable: bool,
    pub hup: bool,
    pub error: bool,
}

/// What a session waits for, and what the poller reported.
#[derive(Clone, Copy, PartialEq, Eq, Debug)]
pub struct Readiness {
    pub interest: Ready,
    pub event: Ready,
}

/// The TLS call the handshake needs next.
#[derive(Clone, Copy, PartialEq, Eq, Debug)]
pub enum HandshakeCall {
    /// Start the handshake on the accepted socket.
    Accept,
    /// Resume the handshake left midway.
    Resume,
}

/// What the TLS layer answered.
#[derive(Debug)]
pub enum HandshakeOutcome {
    Established,
    SetupFailure,
    /// The handshake failed, with the library's error codes (empty when it gave none).
    Failure(Vec<u64>),
    /// The socket would block midway.
    WouldBlock,
}

/// The kinds of handshake failure that are counted apart.
#[derive(Clone, Copy, PartialEq, Eq, Debug)]
pub enum HandshakeErrorKind {
    InappropriateFallback,
    WrongVersionNumber,
    UnknownProtocol,
    /// A client spoke plain HTTP to the TLS listener.
    HttpRequest,
    /// The client asked for a server name that no certificate serves.
    UnknownServerName,
    Sni,
    Other,
}

pub const INAPPROPRIATE_FALLBACK: u64 = 0x140A1175;

pub const WRONG_VERSION_NUMBER: u64 = 0x1408A10B;

pub const UNKNOWN_PROTOCOL: u64 = 0x140760FC;

pub const HTTP_REQUEST: u64 = 0x1407609C;

pub const UNKNOWN_SERVER_NAME: u64 = 0x1422E0EA;

pub const SNI_CALLBACK_FAILED: u64 = 0x1412E0E2;

pub const SNI_ALERT: u64 = 0x1408A0E3;

/// The kind of a failure with error codes `codes`.
pub open spec fn kind_of(codes: Seq<u64>) -> HandshakeErrorKind {
    if codes.len() == 1 {
        if codes[0] == INAPPROPRIATE_FALLBACK {
            HandshakeErrorKind::InappropriateFallback
        } else if codes[0] == WRONG_VERSION_NUMBER {
            HandshakeErrorKind::WrongVersionNumber
        } else if codes[0] == UNKNOWN_PROTOCOL {
            HandshakeErrorKind::UnknownProtocol
        } else if codes[0] == HTTP_REQUEST {
            HandshakeErrorKind::HttpRequest
        } else if codes[0] == UNKNOWN_SERVER_NAME {
            HandshakeErrorKind::UnknownServerName
        } else {
            HandshakeErrorKind::Other
        }
    } else if codes.len() == 2 && codes[0] == SNI_CALLBACK_FAILED && codes[1] == SNI_ALERT {
        HandshakeErrorKind::Sni
    } else {
        HandshakeErrorKind::Other
    }
}

pub fn classify_errors(codes: &[u64]) -> (r: HandshakeErrorKind)
    ensures
        r == kind_of(codes@),
{
    if codes.len() == 1 {
        let c = codes[0];
        if c == INAPPROPRIATE_FALLBACK {
            HandshakeErrorKind::InappropriateFallback
        } else if c == WRONG_VERSION_NUMBER {
            HandshakeErrorKind::WrongVersionNumber
        } else if c == UNKNOWN_PROTOCOL {
            HandshakeErrorKind::UnknownProtocol
        } else if c == HTTP_REQUEST {
            HandshakeErrorKind::HttpRequest
        } else if c == UNKNOWN_SERVER_NAME {
            HandshakeErrorKind::UnknownServerName
        } else {
            HandshakeErrorKind::Other
        }
    } else if codes.len() == 2 && codes[0] == SNI_CALLBACK_FAILED && codes[1] == SNI_ALERT {
        HandshakeErrorKind::Sni
    } else {
        HandshakeErrorKind::Other
    }
}

/// The counter a kind of failure increments; none for the kinds that are logged instead.
pub open spec fn metric_of(kind: HandshakeErrorKind) -> Option<&'static str> {
    match kind {
        HandshakeErrorKind::InappropriateFallback => Some("openssl.inappropriate_fallback.error"),
        HandshakeErrorKind::WrongVersionNumber => Some("openssl.wrong_version_number.error"),
        HandshakeErrorKind::UnknownProtocol => Some("openssl.unknown_protocol.error"),
        HandshakeErrorKind::HttpRequest => Some("openssl.http_request.error"),
        HandshakeErrorKind::Sni => Some("openssl.sni.error"),
        _ => None,
    }
}

pub fn metric_name(kind: HandshakeErrorKind) -> (r: Option<&'static str>)
    ensures
        r == metric_of(kind),
{
    match kind {
        HandshakeErrorKind::InappropriateFallback => Some("openssl.inappropriate_fallback.error"),
        HandshakeErrorKind::WrongVersionNumber => Some("openssl.wrong_version_number.error"),
        HandshakeErrorKind::UnknownProtocol => Some("openssl.unknown_protocol.error"),
        HandshakeErrorKind::HttpRequest => Some("openssl.http_request.error"),
        HandshakeErrorKind::Sni => Some("openssl.sni.error"),
        _ => None,
    }
}

/// What one readable event did: the results for the session, and the kind of failure when the
/// first handshake attempt failed.
#[derive(Clone, Copy, PartialEq, Eq, Debug)]
pub struct TlsStep {
    pub protocol: ProtocolResult,
    pub session: SessionResult,
    pub failure: Option<HandshakeErrorKind>,
}

/// The handshake phase of a session.
#[derive(Clone, Copy, PartialEq, Eq, Debug)]
pub struct TlsHandshake {
    pub state: TlsState,
    pub readiness: Readiness,
}

/// The step that a readable event takes in state `s`, given what the TLS call answered
/// (`None` when no call was due; a call is due in the initial and handshake states).
pub open spec fn readable_spec(s: TlsState, outcome: Option<HandshakeOutcome>) -> (TlsState, TlsStep) {
    let close = TlsStep { protocol: ProtocolResult::Continue, session: SessionResult::CloseSession, failure: None };
    let up = TlsStep { protocol: ProtocolResult::Upgrade, session: SessionResult::Continue, failure: None };
    let wait = TlsStep { protocol: ProtocolResult::Continue, session: SessionResult::Continue, failure: None };
    match s {
        TlsState::Error => (TlsState::Error, close),
        TlsState::Established => (TlsState::Established, up),
        _ => match outcome {
            Some(HandshakeOutcome::Established) => (TlsState::Established, up),
            Some(HandshakeOutcome::SetupFailure) => (TlsState::Error, close),
            Some(HandshakeOutcome::Failure(codes)) => (
                TlsState::Error,
                if s == TlsState::Initial {
                    TlsStep { failure: Some(kind_of(codes@)), ..close }
                } else {
                    close
                },
            ),
            Some(HandshakeOutcome::WouldBlock) => (TlsState::Handshake, wait),
            None => (s, wait),
        },
    }
}

impl TlsHandshake {
    pub fn new() -> (r: Self)
        ensures
            r.state == TlsState::Initial,
            r.readiness.interest == (Ready { readable: true, writable: false, hup: true, error: true }),
            r.readiness.event == (Ready { readable: false, writable: false, hup: false, error: false }),
    {
        TlsHandshake {
            state: TlsState::Initial,
            readiness: Readiness {
                interest: Ready { readable: true, writable: false, hup: true, error: true },
                event: Ready { readable: false, writable: false, hup: false, error: false },
            },
        }
    }

    /// The TLS call a readable event needs in the current state, if any.
    pub fn next_call(&self) -> (r: Option<HandshakeCall>)
        ensures
            self.state == TlsState::Initial ==> r == Some(HandshakeCall::Accept),
            self.state == TlsState::Handshake ==> r == Some(HandshakeCall::Resume),
            (self.state == TlsState::Established || self.state == TlsState::Error) ==> r is None,
    {
        match self.state {
            TlsState::Initial => Some(HandshakeCall::Accept),
            TlsState::Handshake => Some(HandshakeCall::Resume),
            _ => None,
        }
    }

    /// Takes the outcome of the call that `next_call` asked for and decides what follows. When
    /// the socket would block, readable is cleared from the events until the next one.
    pub fn readable(&mut self, outcome: Option<HandshakeOutcome>) -> (r: TlsStep)
        requires
            (old(self).state == TlsState::Initial || old(self).state == TlsState::Handshake) ==> outcome is Some,
        ensures
            (final(self).state, r) == readable_spec(old(self).state, outcome),
            final(self).readiness.interest == old(self).readiness.interest,
            final(self).readiness.event == (if outcome is Some && outcome->Some_0 is WouldBlock
                && (old(self).state == TlsState::Initial || old(self).state == TlsState::Handshake) {
                Ready { readable: false, ..old(self).readiness.event }
            } else {
                old(self).readiness.event
            }),
    {
        let close = TlsStep { protocol: ProtocolResult::Continue, session: SessionResult::CloseSession, failure: None };
        let up = TlsStep { protocol: ProtocolResult::Upgrade, session: SessionResult::Continue, failure: None };
        let wait = TlsStep { protocol: ProtocolResult::Continue, session: SessionResult::Continue, failure: None };
        match self.state {
            TlsState::Error => close,
            TlsState::Established => up,
            _ => match outcome {
                Some(HandshakeOutcome::Established) => {
                    self.state = TlsState::Established;
                    up
                },
                Some(HandshakeOutcome::SetupFailure) => {
                    self.state = TlsState::Error;
                    close
                },
                Some(HandshakeOutcome::Failure(codes)) => {
                    let first = matches!(self.state, TlsState::Initial);
                    self.state = TlsState::Error;
                    if first {
                        TlsStep { protocol: ProtocolResult::Continue, session: SessionResult::CloseSession, failure: Some(classify_errors(codes.as_slice())) }
                    } else {
                        close
                    }
                },
                Some(HandshakeOutcome::WouldBlock) => {
                    self.state = TlsState::Handshake;
                    self.readiness.event.readable = false;
                    wait
                },
                None => wait,
            },
        }
    }
}

} // verus!
