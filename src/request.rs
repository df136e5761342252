//! Restartable parser for HTTP/1.x request heads, the mirror of the response parser.
use vstd::prelude::*;
use vstd::array::array_as_slice;
use crate::grammar::{request_line, scan_request_line, lemma_request_line_bounds, lemma_request_line_stable, RequestLineScan};
use crate::parser::{
    BufferSlice, HeaderValueParser, Version, HeaderStep, header_step, next_header, borrow_headers,
    span_bytes, headers_within, lemma_header_step_stable, lemma_header_step_facts,
    lemma_header_step_added, names_distinct,
};
use crate::response::{
    ParsedHeaderName, ParsedHeaderValue, Connection, BodyLength, lookup, host_name, headers_model,
    connection_of, connection_directives, connection_name, names_repeat_only_cookies, framing,
    framing_of, header_value,
};

verus! {

/// Ranges of the request line: the whole line with its CRLF, the method, the target.
#[derive(Clone, Copy, PartialEq, Eq, Debug)]
pub struct RequestLineParser {
    pub span: BufferSlice,
    pub method: BufferSlice,
    pub uri: BufferSlice,
    pub version: Version,
}

#[derive(Debug)]
pub enum RequestParser {
    Initial,
    ParsingHeaders(usize, RequestLineParser, Vec<HeaderValueParser>),
    HeadersParsed(usize, RequestLineParser, Vec<HeaderValueParser>),
    Error(usize, Option<RequestLineParser>, Option<Vec<HeaderValueParser>>),
}

pub enum RequestState {
    Initial,
    ParsingHeaders(usize, RequestLineParser, Seq<HeaderValueParser>),
    HeadersParsed(usize, RequestLineParser, Seq<HeaderValueParser>),
    Error(usize, Option<RequestLineParser>, Option<Seq<HeaderValueParser>>),
}

impl View for RequestParser {
    type V = RequestState;

    open spec fn view(&self) -> RequestState {
        match self {
            RequestParser::Initial => RequestState::Initial,
            RequestParser::ParsingHeaders(p, rl, hs) => RequestState::ParsingHeaders(*p, *rl, hs@),
            RequestParser::HeadersParsed(p, rl, hs) => RequestState::HeadersParsed(*p, *rl, hs@),
            RequestParser::Error(p, rl, hs) => RequestState::Error(
                *p,
                *rl,
                match hs {
                    Some(v) => Some(v@),
                    None => None,
                },
            ),
        }
    }
}

pub open spec fn request_line_within(rl: RequestLineParser, len: int) -> bool {
    rl.span.within(len) && rl.method.within(len) && rl.uri.within(len)
}

impl RequestState {
    pub open spec fn position(self) -> int {
        match self {
            RequestState::Initial => 0,
            RequestState::ParsingHeaders(p, _, _) => p as int,
            RequestState::HeadersParsed(p, _, _) => p as int,
            RequestState::Error(p, _, _) => p as int,
        }
    }

    pub open spec fn is_error(self) -> bool {
        self is Error
    }

    pub open spec fn is_finished(self) -> bool {
        self is HeadersParsed || self is Error
    }

    /// The headers recorded on buffer `b` are distinct by name, `set-cookie` aside.
    pub open spec fn names_ok(self, b: Seq<u8>) -> bool {
        match self {
            RequestState::ParsingHeaders(_, _, hs) => names_distinct(b, hs),
            RequestState::HeadersParsed(_, _, hs) => names_distinct(b, hs),
            _ => true,
        }
    }

    pub open spec fn valid_for(self, len: int) -> bool {
        &&& self.position() <= len
        &&& match self {
            RequestState::ParsingHeaders(_, rl, hs) => request_line_within(rl, len) && headers_within(hs, len),
            RequestState::HeadersParsed(_, rl, hs) => request_line_within(rl, len) && headers_within(hs, len),
            RequestState::Error(_, rl, hs) => (match rl {
                Some(rl) => request_line_within(rl, len),
                None => true,
            }) && (match hs {
                Some(hs) => headers_within(hs, len),
                None => true,
            }),
            RequestState::Initial => true,
        }
    }
}

/// The ranges of a request line whose method ends at `m` and target at `t`.
pub open spec fn request_line_of(b: Seq<u8>, m: int, t: int) -> RequestLineParser {
    RequestLineParser {
        span: BufferSlice { start: 0, length: (t + 11) as usize },
        method: BufferSlice { start: 0, length: m as usize },
        uri: BufferSlice { start: (m + 1) as usize, length: (t - m - 1) as usize },
        version: if b[t + 8] == 48 { Version::V10 } else { Version::V11 },
    }
}

/// One parsing step on buffer `b`, as for responses.
pub open spec fn request_step(s: RequestState, b: Seq<u8>) -> RequestState {
    match s {
        RequestState::Initial => match request_line(b) {
            RequestLineScan::Incomplete => RequestState::Initial,
            RequestLineScan::Invalid => RequestState::Error(0, None, None),
            RequestLineScan::Complete(m, t) => RequestState::ParsingHeaders(
                (t + 11) as usize,
                request_line_of(b, m as int, t as int),
                Seq::empty(),
            ),
        },
        RequestState::ParsingHeaders(pos, rl, hs) => match header_step(b, pos as int, hs) {
            HeaderStep::Wait => s,
            HeaderStep::Fail => RequestState::Error(pos, Some(rl), Some(hs)),
            HeaderStep::Done(e) => RequestState::HeadersParsed(e, rl, hs),
            HeaderStep::Added(e, h) => RequestState::ParsingHeaders(e, rl, hs.push(h)),
        },
        _ => s,
    }
}

impl RequestParser {
    /// Advances the parser as far as one line of `buffer` allows.
    pub fn parse(self, buffer: &[u8]) -> (r: RequestParser)
        requires
            self@.valid_for(buffer@.len() as int),
            self@.names_ok(buffer@),
        ensures
            r@ == request_step(self@, buffer@),
            r@.valid_for(buffer@.len() as int),
            r@.names_ok(buffer@),
    {
        let ghost old_state = self@;
        proof {
            assert(buffer@.len() == buffer.len());
        }
        match self {
            RequestParser::Initial => match scan_request_line(buffer) {
                RequestLineScan::Incomplete => RequestParser::Initial,
                RequestLineScan::Invalid => RequestParser::Error(0, None, None),
                RequestLineScan::Complete(m, t) => {
                    proof {
                        lemma_request_line_bounds(buffer@);
                    }
                    let version = if buffer[t + 8] == 48 { Version::V10 } else { Version::V11 };
                    let rl = RequestLineParser {
                        span: BufferSlice { start: 0, length: t + 11 },
                        method: BufferSlice { start: 0, length: m },
                        uri: BufferSlice { start: m + 1, length: t - m - 1 },
                        version,
                    };
                    let r = RequestParser::ParsingHeaders(t + 11, rl, Vec::new());
                    assert(r@ == request_step(old_state, buffer@)) by {
                        assert(r@->ParsingHeaders_2 =~= Seq::<HeaderValueParser>::empty());
                    }
                    r
                },
            },
            RequestParser::ParsingHeaders(position, rl, mut headers) => match next_header(buffer, position, &headers) {
                HeaderStep::Wait => RequestParser::ParsingHeaders(position, rl, headers),
                HeaderStep::Fail => RequestParser::Error(position, Some(rl), Some(headers)),
                HeaderStep::Done(e) => RequestParser::HeadersParsed(e, rl, headers),
                HeaderStep::Added(e, h) => {
                    proof {
                        lemma_header_step_added(buffer@, position as int, headers@);
                    }
                    let ghost hs0 = headers@;
                    headers.push(h);
                    assert(headers_within(headers@, buffer@.len() as int)) by {
                        assert forall|i: int| 0 <= i < headers@.len() implies crate::parser::header_within(#[trigger] headers@[i], buffer@.len() as int) by {
                            if i < hs0.len() {
                                assert(headers@[i] == hs0[i]);
                            }
                        }
                    }
                    RequestParser::ParsingHeaders(e, rl, headers)
                },
            },
            other => other,
        }
    }

    pub fn position(&self) -> (r: usize)
        ensures
            r as int == self@.position(),
    {
        match self {
            RequestParser::Initial => 0,
            RequestParser::ParsingHeaders(p, _, _) => *p,
            RequestParser::HeadersParsed(p, _, _) => *p,
            RequestParser::Error(p, _, _) => *p,
        }
    }

    pub fn is_error(&self) -> (r: bool)
        ensures
            r == self@.is_error(),
    {
        match self {
            RequestParser::Error(_, _, _) => true,
            _ => false,
        }
    }

    pub fn is_finished(&self) -> (r: bool)
        ensures
            r == self@.is_finished(),
    {
        match self {
            RequestParser::HeadersParsed(_, _, _) => true,
            RequestParser::Error(_, _, _) => true,
            _ => false,
        }
    }
}

pub struct ParsedRequestLine<'a> {
    pub span: &'a [u8],
    pub method: &'a [u8],
    pub uri: &'a [u8],
    pub version: Version,
}

pub struct ParsedRequest<'a> {
    pub request_line: ParsedRequestLine<'a>,
    /// Headers in the order they came; names repeat only for `set-cookie`.
    pub headers: Vec<(ParsedHeaderName<'a>, ParsedHeaderValue<'a>)>,
    /// Where the body starts in the buffer.
    pub header_end: usize,
    pub connection: Connection,
    /// The virtual host that the `Host` header names.
    pub host: Option<&'a [u8]>,
}

impl<'a> ParsedRequest<'a> {
    pub open spec fn headers_view(&self) -> Seq<(Seq<u8>, Seq<u8>)> {
        headers_model(self.headers@)
    }

    /// How the end of the body is found; `None` when `Content-Length` is malformed.
    pub fn length(&self) -> (r: Option<BodyLength>)
        ensures
            r == request_body_length_of(self.headers_view()),
    {
        framing(&self.headers, BodyLength::Length(0))
    }

    /// The value of the first header named `name`, ignoring ASCII case.
    pub fn get(&self, name: &[u8]) -> (r: Option<&'a [u8]>)
        ensures
            match r {
                Some(v) => lookup(self.headers_view(), name@) == Some(v@),
                None => lookup(self.headers_view(), name@) == Option::<Seq<u8>>::None,
            },
    {
        header_value(&self.headers, name)
    }
}

/// Body framing of a request: without a declared length there is no body.
pub open spec fn request_body_length_of(hs: Seq<(Seq<u8>, Seq<u8>)>) -> Option<BodyLength> {
    framing_of(hs, BodyLength::Length(0))
}

/// The ranges of a finished head, read from `b`, with the directives and host it gives.
pub open spec fn request_validated<'b>(
    r: ParsedRequest<'b>,
    pos: usize,
    rl: RequestLineParser,
    hs: Seq<HeaderValueParser>,
    b: Seq<u8>,
) -> bool {
    &&& r.request_line.span@ == span_bytes(b, rl.span)
    &&& r.request_line.method@ == span_bytes(b, rl.method)
    &&& r.request_line.uri@ == span_bytes(b, rl.uri)
    &&& r.request_line.version == rl.version
    &&& r.header_end == pos
    &&& r.headers@.len() == hs.len()
    &&& forall|i: int|
        0 <= i < hs.len() ==> {
            &&& (#[trigger] r.headers@[i]).0@ == span_bytes(b, hs[i].name)
            &&& r.headers@[i].1.value@ == span_bytes(b, hs[i].value)
            &&& r.headers@[i].1.span@ == span_bytes(b, hs[i].span)
        }
    &&& r.connection == connection_of(r.headers_view())
    &&& names_repeat_only_cookies(r.headers_view())
    &&& match r.host {
        Some(h) => lookup(r.headers_view(), host_name()) == Some(h@),
        None => lookup(r.headers_view(), host_name()) is None,
    }
}

/// The names and values of recorded headers read from `b`.
pub open spec fn header_pairs(b: Seq<u8>, hs: Seq<HeaderValueParser>) -> Seq<(Seq<u8>, Seq<u8>)> {
    hs.map_values(|h: HeaderValueParser| (span_bytes(b, h.name), span_bytes(b, h.value)))
}

/// The outcome of `validate`: a view when the head is parsed, and, for HTTP/1.1, names a host.
pub open spec fn request_validate_result<'b>(s: RequestState, b: Seq<u8>, r: Option<ParsedRequest<'b>>) -> bool {
    match r {
        Some(p) => s is HeadersParsed
            && (s->HeadersParsed_1.version == Version::V10 || lookup(header_pairs(b, s->HeadersParsed_2), host_name()) is Some)
            && request_validated(p, s->HeadersParsed_0, s->HeadersParsed_1, s->HeadersParsed_2, b),
        None => !(s is HeadersParsed)
            || (s->HeadersParsed_1.version == Version::V11 && lookup(header_pairs(b, s->HeadersParsed_2), host_name()) is None),
    }
}

impl RequestParser {
    /// Builds the borrowed view of a finished head. An HTTP/1.1 request must name its host;
    /// an HTTP/1.0 request may leave it out.
    pub fn validate<'b>(&self, buffer: &'b [u8]) -> (r: Option<ParsedRequest<'b>>)
        requires
            self@.valid_for(buffer@.len() as int),
            self@.names_ok(buffer@),
        ensures
            request_validate_result(self@, buffer@, r),
    {
        match self {
            RequestParser::HeadersParsed(position, rl, headers) => {
                let request_line = ParsedRequestLine {
                    span: rl.span.to_slice(buffer),
                    method: rl.method.to_slice(buffer),
                    uri: rl.uri.to_slice(buffer),
                    version: rl.version,
                };
                let parsed = borrow_headers(buffer, headers);
                let mut request = ParsedRequest {
                    request_line,
                    headers: parsed,
                    header_end: *position,
                    connection: Connection { close: false, keep_alive: false, upgrade: false },
                    host: None,
                };
                assert(request.headers_view() =~= header_pairs(buffer@, headers@));
                let lit: [u8; 10] = [99, 111, 110, 110, 101, 99, 116, 105, 111, 110];
                let name = array_as_slice(&lit);
                assert(name@ =~= connection_name());
                let connection = match request.get(name) {
                    Some(v) => connection_directives(v),
                    None => Connection { close: false, keep_alive: false, upgrade: false },
                };
                let host_lit: [u8; 4] = [104, 111, 115, 116];
                let host_name_slice = array_as_slice(&host_lit);
                assert(host_name_slice@ =~= host_name());
                let host = request.get(host_name_slice);
                let missing = match host {
                    None => match rl.version {
                        Version::V11 => true,
                        Version::V10 => false,
                    },
                    Some(_) => false,
                };
                if missing {
                    return None;
                }
                request.connection = connection;
                request.host = host;
                Some(request)
            },
            _ => None,
        }
    }
}

/// Steps on `b` until the state is finished or stops advancing.
pub open spec fn request_run(s: RequestState, b: Seq<u8>) -> RequestState
    decreases b.len() - s.position(),
{
    let t = request_step(s, b);
    if t.is_error() || t.is_finished() || t.position() <= s.position() || t.position() > b.len() {
        t
    } else {
        request_run(t, b)
    }
}

pub proof fn lemma_request_step_facts(s: RequestState, b: Seq<u8>)
    requires
        s.valid_for(b.len() as int),
        b.len() <= usize::MAX,
    ensures
        request_step(s, b).valid_for(b.len() as int),
        request_step(s, b) != s && !request_step(s, b).is_error() ==> request_step(s, b).position() > s.position(),
        s.is_finished() ==> request_step(s, b) == s,
{
    match s {
        RequestState::Initial => {
            lemma_request_line_bounds(b);
        },
        RequestState::ParsingHeaders(pos, rl, hs) => {
            lemma_header_step_facts(b, pos as int, hs);
        },
        _ => {},
    }
}

pub proof fn lemma_request_step_stable(s: RequestState, b: Seq<u8>, m: Seq<u8>)
    requires
        s.valid_for(b.len() as int),
        b.len() <= m.len() <= usize::MAX,
        m.subrange(0, b.len() as int) == b,
    ensures
        request_step(s, b) == s || request_step(s, b) == request_step(s, m),
{
    match s {
        RequestState::Initial => {
            lemma_request_line_stable(b, m);
            lemma_request_line_bounds(b);
            if let RequestLineScan::Complete(me, t) = request_line(b) {
                assert(m[t + 8] == m.subrange(0, b.len() as int)[t + 8]);
            }
        },
        RequestState::ParsingHeaders(pos, rl, hs) => {
            lemma_header_step_stable(b, m, pos as int, hs);
        },
        _ => {},
    }
}

proof fn lemma_request_run_resumes(s: RequestState, b: Seq<u8>, m: Seq<u8>)
    requires
        s.valid_for(b.len() as int),
        b.len() <= m.len() <= usize::MAX,
        m.subrange(0, b.len() as int) == b,
    ensures
        request_run(request_run(s, b), m) == request_run(s, m),
    decreases b.len() - s.position(),
{
    lemma_request_step_facts(s, b);
    lemma_request_step_stable(s, b, m);
    let t = request_step(s, b);
    if t != s {
        assert(t == request_step(s, m));
        lemma_request_step_facts(t, m);
        if t.is_error() || t.is_finished() || t.position() <= s.position() || t.position() > b.len() {
            assert(request_step(t, m) == t);
        } else {
            lemma_request_run_resumes(t, b, m);
        }
    }
}

/// Feeding a prefix of a request and then the whole of it reaches the state that feeding the
/// whole at once reaches.
pub proof fn lemma_request_parse_incremental(p: Seq<u8>, m: Seq<u8>)
    requires
        p.len() <= m.len() <= usize::MAX,
        m.subrange(0, p.len() as int) == p,
    ensures
        request_run(request_run(RequestState::Initial, p), m) == request_run(RequestState::Initial, m),
{
    lemma_request_run_resumes(RequestState::Initial, p, m);
}

} // verus!
