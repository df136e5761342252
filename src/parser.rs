//! Restartable parser for HTTP/1.x response heads.
//!
//! The parser records byte ranges into the caller's buffer and never copies header bytes while
//! it runs; `validate` builds the borrowed view of a finished head.
use vstd::prelude::*;
use vstd::slice::slice_subrange;
use crate::grammar::{
    eq_no_case, first_not, trim_end, status_line, header_line, scan, scan_status_line,
    scan_header_line, trim_end_at, compare_no_case, lemma_first_not_bounds,
    lemma_header_line_bounds, lemma_status_line_bounds, lemma_trim_end_bounds, lemma_status_line_stable,
    lemma_header_line_stable, lemma_trim_end_stable, lemma_first_not_stable, is_ows,
    Class, LineScan, HeaderScan,
};
use crate::response::{
    ParsedResponse, ParsedStatusLine, ParsedHeaderName, ParsedHeaderValue, Connection,
    connection_of, connection_directives, connection_name, names_repeat_only_cookies,
};

verus! {

/// A byte range of the parsed buffer.
#[derive(Clone, Copy, PartialEq, Eq, Debug)]
pub struct BufferSlice {
    pub start: usize,
    pub length: usize,
}

impl BufferSlice {
    pub open spec fn end(self) -> int {
        self.start + self.length
    }

    pub open spec fn within(self, len: int) -> bool {
        self.start + self.length <= len
    }

    /// The bytes of `buffer` that this range covers.
    pub fn to_slice<'b>(&self, buffer: &'b [u8]) -> (r: &'b [u8])
        requires
            self.within(buffer@.len() as int),
        ensures
            r@ == span_bytes(buffer@, *self),
    {
        proof {
            assert(buffer@.len() == buffer.len());
        }
        slice_subrange(buffer, self.start, self.start + self.length)
    }
}

pub open spec fn span_bytes(b: Seq<u8>, sp: BufferSlice) -> Seq<u8> {
    b.subrange(sp.start as int, sp.start + sp.length)
}

#[derive(Clone, Copy, PartialEq, Eq, Debug)]
pub enum Version {
    V10,
    V11,
}

/// Ranges of the status line: the whole line with its CRLF, the status code, the reason phrase.
#[derive(Clone, Copy, PartialEq, Eq, Debug)]
pub struct StatusLineParser {
    pub span: BufferSlice,
    pub version: Version,
    pub status: BufferSlice,
    pub reason: BufferSlice,
}

/// Ranges of one header line: its name, the whole line with its CRLF, the trimmed value.
#[derive(Clone, Copy, PartialEq, Eq, Debug)]
pub struct HeaderValueParser {
    pub name: BufferSlice,
    pub span: BufferSlice,
    pub value: BufferSlice,
}

#[derive(Debug)]
pub enum ResponseParser {
    Initial,
    /// The position is where the next header line starts.
    ParsingHeaders(usize, StatusLineParser, Vec<HeaderValueParser>),
    /// The position is where the body starts.
    HeadersParsed(usize, StatusLineParser, Vec<HeaderValueParser>),
    /// The position is where the offending line starts.
    Error(usize, Option<StatusLineParser>, Option<Vec<HeaderValueParser>>),
}

/// The value of a `ResponseParser`, with its header list as a sequence.
pub enum ParserState {
    Initial,
    ParsingHeaders(usize, StatusLineParser, Seq<HeaderValueParser>),
    HeadersParsed(usize, StatusLineParser, Seq<HeaderValueParser>),
    Error(usize, Option<StatusLineParser>, Option<Seq<HeaderValueParser>>),
}

impl View for ResponseParser {
    type V = ParserState;

    open spec fn view(&self) -> ParserState {
        match self {
            ResponseParser::Initial => ParserState::Initial,
            ResponseParser::ParsingHeaders(p, rl, hs) => ParserState::ParsingHeaders(*p, *rl, hs@),
            ResponseParser::HeadersParsed(p, rl, hs) => ParserState::HeadersParsed(*p, *rl, hs@),
            ResponseParser::Error(p, rl, hs) => ParserState::Error(
                *p,
                *rl,
                match hs {
                    Some(v) => Some(v@),
                    None => None,
                },
            ),
        }
    }
}

impl ParserState {
    pub open spec fn position(self) -> int {
        match self {
            ParserState::Initial => 0,
            ParserState::ParsingHeaders(p, _, _) => p as int,
            ParserState::HeadersParsed(p, _, _) => p as int,
            ParserState::Error(p, _, _) => p as int,
        }
    }

    pub open spec fn is_error(self) -> bool {
        self is Error
    }

    pub open spec fn is_finished(self) -> bool {
        self is HeadersParsed || self is Error
    }

    /// The headers recorded on buffer `b` are distinct by name, `set-cookie` aside.
    pub open spec fn names_ok(self, b: Seq<u8>) -> bool {
        match self {
            ParserState::ParsingHeaders(_, _, hs) => names_distinct(b, hs),
            ParserState::HeadersParsed(_, _, hs) => names_distinct(b, hs),
            _ => true,
        }
    }

    /// The position and every recorded range lie within a buffer of length `len`.
    pub open spec fn valid_for(self, len: int) -> bool {
        &&& self.position() <= len
        &&& match self {
            ParserState::ParsingHeaders(_, rl, hs) => status_within(rl, len) && headers_within(hs, len),
            ParserState::HeadersParsed(_, rl, hs) => status_within(rl, len) && headers_within(hs, len),
            ParserState::Error(_, rl, hs) => (match rl {
                Some(rl) => status_within(rl, len),
                None => true,
            }) && (match hs {
                Some(hs) => headers_within(hs, len),
                None => true,
            }),
            ParserState::Initial => true,
        }
    }
}

pub open spec fn status_within(rl: StatusLineParser, len: int) -> bool {
    rl.span.within(len) && rl.status.within(len) && rl.reason.within(len)
}

pub open spec fn header_within(h: HeaderValueParser, len: int) -> bool {
    h.name.within(len) && h.span.within(len) && h.value.within(len)
}

pub open spec fn headers_within(hs: Seq<HeaderValueParser>, len: int) -> bool {
    forall|i: int| 0 <= i < hs.len() ==> header_within(#[trigger] hs[i], len)
}

/// `set-cookie`, the one header name that may repeat.
pub open spec fn set_cookie_name() -> Seq<u8> {
    seq![115u8, 101, 116, 45, 99, 111, 111, 107, 105, 101]
}

/// The ranges of a status line whose reason phrase ends at `k`.
pub open spec fn status_of(b: Seq<u8>, k: int) -> StatusLineParser {
    StatusLineParser {
        span: BufferSlice { start: 0, length: (k + 2) as usize },
        version: if b[7] == 48 { Version::V10 } else { Version::V11 },
        status: BufferSlice { start: 9, length: 3 },
        reason: BufferSlice { start: 13, length: (k - 13) as usize },
    }
}

/// The ranges of a header line at `pos` whose name ends at `n` and whose text ends at `v`.
pub open spec fn header_of(b: Seq<u8>, pos: int, n: int, v: int) -> HeaderValueParser {
    let lo = first_not(b, n + 1, Class::Ows);
    let hi = trim_end(b, lo, v);
    HeaderValueParser {
        name: BufferSlice { start: pos as usize, length: (n - pos) as usize },
        span: BufferSlice { start: pos as usize, length: (v + 2 - pos) as usize },
        value: BufferSlice { start: lo as usize, length: (hi - lo) as usize },
    }
}

/// A header named `name` repeats one of `hs`, and is not `set-cookie`.
pub open spec fn is_duplicate(b: Seq<u8>, hs: Seq<HeaderValueParser>, name: BufferSlice) -> bool {
    &&& !eq_no_case(span_bytes(b, name), set_cookie_name())
    &&& exists|i: int| 0 <= i < hs.len() && eq_no_case(span_bytes(b, #[trigger] hs[i].name), span_bytes(b, name))
}

/// Recorded header names differ up to ASCII case, but for `set-cookie`, which may repeat.
pub open spec fn names_distinct(b: Seq<u8>, hs: Seq<HeaderValueParser>) -> bool {
    forall|i: int, j: int|
        0 <= i < j < hs.len() && eq_no_case(span_bytes(b, #[trigger] hs[i].name), span_bytes(b, #[trigger] hs[j].name))
            ==> eq_no_case(span_bytes(b, hs[i].name), set_cookie_name())
}

proof fn lemma_push_names_distinct(b: Seq<u8>, hs: Seq<HeaderValueParser>, h: HeaderValueParser)
    requires
        names_distinct(b, hs),
        !is_duplicate(b, hs, h.name),
    ensures
        names_distinct(b, hs.push(h)),
{
    let hs2 = hs.push(h);
    assert forall|i: int, j: int|
        0 <= i < j < hs2.len() && eq_no_case(span_bytes(b, #[trigger] hs2[i].name), span_bytes(b, #[trigger] hs2[j].name))
        implies eq_no_case(span_bytes(b, hs2[i].name), set_cookie_name()) by {
        assert(hs2[i] == hs[i]);
        if j < hs.len() {
            assert(hs2[j] == hs[j]);
        } else {
            assert(hs2[j] == h);
            assert(0 <= i < hs.len() && eq_no_case(span_bytes(b, hs[i].name), span_bytes(b, h.name)));
        }
    }
}

/// One parsing step on buffer `b`. A state that cannot advance yet comes back unchanged;
/// a finished state never changes.
pub open spec fn step(s: ParserState, b: Seq<u8>) -> ParserState {
    match s {
        ParserState::Initial => match status_line(b) {
            LineScan::Incomplete => ParserState::Initial,
            LineScan::Invalid => ParserState::Error(0, None, None),
            LineScan::Complete(k) => ParserState::ParsingHeaders(
                (k + 2) as usize,
                status_of(b, k as int),
                Seq::empty(),
            ),
        },
        ParserState::ParsingHeaders(pos, rl, hs) => match header_step(b, pos as int, hs) {
            HeaderStep::Wait => s,
            HeaderStep::Fail => ParserState::Error(pos, Some(rl), Some(hs)),
            HeaderStep::Done(e) => ParserState::HeadersParsed(e, rl, hs),
            HeaderStep::Added(e, h) => ParserState::ParsingHeaders(e, rl, hs.push(h)),
        },
        _ => s,
    }
}

/// Steps on `b` until the state is finished or stops advancing.
pub open spec fn run(s: ParserState, b: Seq<u8>) -> ParserState
    decreases b.len() - s.position(),
{
    let t = step(s, b);
    if t.is_error() || t.is_finished() || t.position() <= s.position() || t.position() > b.len() {
        t
    } else {
        run(t, b)
    }
}

/// Whether the bytes of `name` in `b` spell `set-cookie` in any case.
fn is_set_cookie(buffer: &[u8], name: BufferSlice) -> (r: bool)
    requires
        name.within(buffer@.len() as int),
    ensures
        r == eq_no_case(span_bytes(buffer@, name), set_cookie_name()),
{
    let lit: [u8; 10] = [115, 101, 116, 45, 99, 111, 111, 107, 105, 101];
    let lit_slice = vstd::array::array_as_slice(&lit);
    assert(lit_slice@ =~= set_cookie_name());
    compare_no_case(name.to_slice(buffer), lit_slice)
}

/// Whether a header named by `name` would repeat one of `headers`.
fn find_duplicate(buffer: &[u8], headers: &Vec<HeaderValueParser>, name: BufferSlice) -> (r: bool)
    requires
        name.within(buffer@.len() as int),
        headers_within(headers@, buffer@.len() as int),
    ensures
        r == is_duplicate(buffer@, headers@, name),
{
    if is_set_cookie(buffer, name) {
        return false;
    }
    let name_bytes = name.to_slice(buffer);
    let mut i: usize = 0;
    while i < headers.len()
        invariant
            i <= headers@.len(),
            name.within(buffer@.len() as int),
            headers_within(headers@, buffer@.len() as int),
            name_bytes@ == span_bytes(buffer@, name),
            !eq_no_case(span_bytes(buffer@, name), set_cookie_name()),
            forall|j: int| 0 <= j < i ==> !eq_no_case(span_bytes(buffer@, #[trigger] headers@[j].name), span_bytes(buffer@, name)),
        decreases headers@.len() - i,
    {
        let h = headers[i];
        assert(header_within(headers@[i as int], buffer@.len() as int));
        if compare_no_case(h.name.to_slice(buffer), name_bytes) {
            assert(eq_no_case(span_bytes(buffer@, headers@[i as int].name), span_bytes(buffer@, name)));
            return true;
        }
        i = i + 1;
    }
    false
}

impl ResponseParser {
    /// Advances the parser as far as one line of `buffer` allows. `buffer` holds every byte
    /// received so far, from the start of the response.
    pub fn parse(self, buffer: &[u8]) -> (r: ResponseParser)
        requires
            self@.valid_for(buffer@.len() as int),
            self@.names_ok(buffer@),
        ensures
            r@ == step(self@, buffer@),
            r@.valid_for(buffer@.len() as int),
            r@.names_ok(buffer@),
    {
        let ghost old_state = self@;
        proof {
            assert(buffer@.len() == buffer.len());
        }
        match self {
            ResponseParser::Initial => match scan_status_line(buffer) {
                LineScan::Incomplete => ResponseParser::Initial,
                LineScan::Invalid => ResponseParser::Error(0, None, None),
                LineScan::Complete(k) => {
                    proof {
                        lemma_status_line_bounds(buffer@);
                    }
                    let version = if buffer[7] == 48 { Version::V10 } else { Version::V11 };
                    let rl = StatusLineParser {
                        span: BufferSlice { start: 0, length: k + 2 },
                        version,
                        status: BufferSlice { start: 9, length: 3 },
                        reason: BufferSlice { start: 13, length: k - 13 },
                    };
                    let r = ResponseParser::ParsingHeaders(k + 2, rl, Vec::new());
                    assert(r@ == step(old_state, buffer@)) by {
                        assert(r@->ParsingHeaders_2 =~= Seq::<HeaderValueParser>::empty());
                    }
                    r
                },
            },
            ResponseParser::ParsingHeaders(position, rl, mut headers) => match next_header(buffer, position, &headers) {
                HeaderStep::Wait => ResponseParser::ParsingHeaders(position, rl, headers),
                HeaderStep::Fail => ResponseParser::Error(position, Some(rl), Some(headers)),
                HeaderStep::Done(e) => ResponseParser::HeadersParsed(e, rl, headers),
                HeaderStep::Added(e, h) => {
                    proof {
                        lemma_header_step_facts(buffer@, position as int, headers@);
                        lemma_header_step_added(buffer@, position as int, headers@);
                    }
                    headers.push(h);
                    ResponseParser::ParsingHeaders(e, rl, headers)
                },
            },
            other => other,
        }
    }

    pub fn position(&self) -> (r: usize)
        ensures
            r as int == self@.position(),
    {
        match self {
            ResponseParser::Initial => 0,
            ResponseParser::ParsingHeaders(p, _, _) => *p,
            ResponseParser::HeadersParsed(p, _, _) => *p,
            ResponseParser::Error(p, _, _) => *p,
        }
    }

    pub fn is_error(&self) -> (r: bool)
        ensures
            r == self@.is_error(),
    {
        match self {
            ResponseParser::Error(_, _, _) => true,
            _ => false,
        }
    }

    pub fn is_finished(&self) -> (r: bool)
        ensures
            r == self@.is_finished(),
    {
        match self {
            ResponseParser::HeadersParsed(_, _, _) => true,
            ResponseParser::Error(_, _, _) => true,
            _ => false,
        }
    }
}

proof fn lemma_span_bytes_stable(b: Seq<u8>, m: Seq<u8>, sp: BufferSlice)
    requires
        b.len() <= m.len(),
        m.subrange(0, b.len() as int) == b,
        sp.within(b.len() as int),
    ensures
        span_bytes(b, sp) == span_bytes(m, sp),
{
    assert(span_bytes(b, sp) =~= span_bytes(m, sp)) by {
        assert forall|i: int| 0 <= i < sp.length implies span_bytes(m, sp)[i] == span_bytes(b, sp)[i] by {
            assert(m[sp.start + i] == m.subrange(0, b.len() as int)[sp.start + i]);
        }
    }
}

/// What one step keeps: the recorded ranges stay within the buffer, the position never moves
/// back, a step that changes an unfinished state moves it forward, a finished state stays.
pub proof fn lemma_step_facts(s: ParserState, b: Seq<u8>)
    requires
        s.valid_for(b.len() as int),
        b.len() <= usize::MAX,
    ensures
        step(s, b).valid_for(b.len() as int),
        step(s, b).position() >= s.position(),
        step(s, b) != s && !step(s, b).is_error() ==> step(s, b).position() > s.position(),
        s.is_finished() ==> step(s, b) == s,
{
    match s {
        ParserState::Initial => {
            lemma_status_line_bounds(b);
        },
        ParserState::ParsingHeaders(pos, rl, hs) => {
            lemma_header_step_facts(b, pos as int, hs);
        },
        _ => {},
    }
}

/// A step on a buffer either waits for more bytes, or does what it does on any longer buffer
/// that begins with it.
pub proof fn lemma_step_stable(s: ParserState, b: Seq<u8>, m: Seq<u8>)
    requires
        s.valid_for(b.len() as int),
        b.len() <= m.len() <= usize::MAX,
        m.subrange(0, b.len() as int) == b,
    ensures
        step(s, b) == s || step(s, b) == step(s, m),
{
    match s {
        ParserState::Initial => {
            lemma_status_line_stable(b, m);
            lemma_status_line_bounds(b);
            if let LineScan::Complete(k) = status_line(b) {
                assert(m[7] == m.subrange(0, b.len() as int)[7]);
            }
        },
        ParserState::ParsingHeaders(pos, rl, hs) => {
            lemma_header_step_stable(b, m, pos as int, hs);
        },
        _ => {},
    }
}

proof fn lemma_run_resumes(s: ParserState, b: Seq<u8>, m: Seq<u8>)
    requires
        s.valid_for(b.len() as int),
        b.len() <= m.len() <= usize::MAX,
        m.subrange(0, b.len() as int) == b,
    ensures
        run(run(s, b), m) == run(s, m),
    decreases b.len() - s.position(),
{
    lemma_step_facts(s, b);
    lemma_step_stable(s, b, m);
    let t = step(s, b);
    if t == s {
    } else {
        assert(t == step(s, m));
        lemma_step_facts(t, m);
        if t.is_error() || t.is_finished() || t.position() <= s.position() || t.position() > b.len() {
            assert(step(t, m) == t);
        } else {
            lemma_run_resumes(t, b, m);
        }
    }
}

/// Feeding a prefix of the input and then the whole input reaches the state that feeding
/// the whole input at once reaches.
pub proof fn lemma_parse_incremental(p: Seq<u8>, m: Seq<u8>)
    requires
        p.len() <= m.len() <= usize::MAX,
        m.subrange(0, p.len() as int) == p,
    ensures
        run(run(ParserState::Initial, p), m) == run(ParserState::Initial, m),
{
    lemma_run_resumes(ParserState::Initial, p, m);
}

/// `r` is the view of a finished head `HeadersParsed(pos, rl, hs)` on buffer `b`.
pub open spec fn validated<'b>(
    r: ParsedResponse<'b>,
    pos: usize,
    rl: StatusLineParser,
    hs: Seq<HeaderValueParser>,
    b: Seq<u8>,
) -> bool {
    &&& r.status_line.span@ == span_bytes(b, rl.span)
    &&& r.status_line.status@ == span_bytes(b, rl.status)
    &&& r.status_line.reason@ == span_bytes(b, rl.reason)
    &&& r.status_line.version == rl.version
    &&& r.header_end == pos
    &&& r.headers@.len() == hs.len()
    &&& forall|i: int|
        0 <= i < hs.len() ==> {
            &&& (#[trigger] r.headers@[i]).0@ == span_bytes(b, hs[i].name)
            &&& r.headers@[i].1.value@ == span_bytes(b, hs[i].value)
            &&& r.headers@[i].1.span@ == span_bytes(b, hs[i].span)
        }
    &&& r.connection == connection_of(r.headers_view())
    &&& names_repeat_only_cookies(r.headers_view())
}

/// The outcome of `validate` on state `s` and buffer `b`.
pub open spec fn validate_result<'b>(s: ParserState, b: Seq<u8>, r: Option<ParsedResponse<'b>>) -> bool {
    match r {
        Some(p) => s is HeadersParsed && validated(p, s->HeadersParsed_0, s->HeadersParsed_1, s->HeadersParsed_2, b),
        None => !(s is HeadersParsed),
    }
}

impl ResponseParser {
    /// Builds the borrowed view of a finished head; `None` unless the head was parsed whole.
    pub fn validate<'b>(&self, buffer: &'b [u8]) -> (r: Option<ParsedResponse<'b>>)
        requires
            self@.valid_for(buffer@.len() as int),
            self@.names_ok(buffer@),
        ensures
            validate_result(self@, buffer@, r),
    {
        match self {
            ResponseParser::HeadersParsed(position, rl, headers) => {
                let status_line = ParsedStatusLine {
                    span: rl.span.to_slice(buffer),
                    status: rl.status.to_slice(buffer),
                    reason: rl.reason.to_slice(buffer),
                    version: rl.version,
                };
                let parsed = borrow_headers(buffer, headers);
                let mut response = ParsedResponse {
                    status_line,
                    headers: parsed,
                    header_end: *position,
                    connection: Connection { close: false, keep_alive: false, upgrade: false },
                };
                let lit: [u8; 10] = [99, 111, 110, 110, 101, 99, 116, 105, 111, 110];
                let name = vstd::array::array_as_slice(&lit);
                assert(name@ =~= connection_name());
                let connection = match response.get(name) {
                    Some(v) => connection_directives(v),
                    None => Connection { close: false, keep_alive: false, upgrade: false },
                };
                response.connection = connection;
                Some(response)
            },
            _ => None,
        }
    }
}

/// Runs the parser over `input` until the head is parsed, an error is found, or no progress is
/// made, then validates the result.
pub fn parse_and_validate(input: &[u8]) -> (r: Option<ParsedResponse>)
    ensures
        validate_result(run(ParserState::Initial, input@), input@, r),
{
    let mut state = ResponseParser::Initial;
    proof {
        assert(input@.len() == input.len());
    }
    loop
        invariant
            input@.len() <= usize::MAX,
            state@.valid_for(input@.len() as int),
            state@.names_ok(input@),
            run(state@, input@) == run(ParserState::Initial, input@),
        ensures
            state@ == run(ParserState::Initial, input@),
            state@.valid_for(input@.len() as int),
            state@.names_ok(input@),
        decreases input@.len() - state@.position(),
    {
        let previous_position = state.position();
        let ghost before = state@;
        proof {
            lemma_step_facts(before, input@);
        }
        state = state.parse(input);
        if state.is_error() {
            break;
        }
        if state.position() == previous_position {
            break;
        }
        if state.is_finished() {
            break;
        }
    }
    state.validate(input)
}

/// One header step at `pos` with the headers `hs` recorded so far.
pub enum HeaderStep {
    /// More bytes are needed.
    Wait,
    /// The line is malformed or repeats a header.
    Fail,
    /// The head ends; the body starts at this index.
    Done(usize),
    /// One more header; the next line starts at this index.
    Added(usize, HeaderValueParser),
}

pub open spec fn header_step(b: Seq<u8>, pos: int, hs: Seq<HeaderValueParser>) -> HeaderStep {
    match header_line(b, pos) {
        HeaderScan::Incomplete => HeaderStep::Wait,
        HeaderScan::Invalid => HeaderStep::Fail,
        HeaderScan::End => HeaderStep::Done((pos + 2) as usize),
        HeaderScan::Header(n, v) => {
            let h = header_of(b, pos, n as int, v as int);
            if is_duplicate(b, hs, h.name) {
                HeaderStep::Fail
            } else {
                HeaderStep::Added((v + 2) as usize, h)
            }
        },
    }
}

/// Takes one header step.
pub fn next_header(buffer: &[u8], position: usize, headers: &Vec<HeaderValueParser>) -> (r: HeaderStep)
    requires
        position <= buffer@.len(),
        headers_within(headers@, buffer@.len() as int),
    ensures
        r == header_step(buffer@, position as int, headers@),
        match r {
            HeaderStep::Done(e) => position < e <= buffer@.len(),
            HeaderStep::Added(e, h) => position < e <= buffer@.len() && header_within(h, buffer@.len() as int),
            _ => true,
        },
{
    proof {
        assert(buffer@.len() == buffer.len());
        lemma_header_line_bounds(buffer@, position as int);
    }
    match scan_header_line(buffer, position) {
        HeaderScan::Incomplete => HeaderStep::Wait,
        HeaderScan::Invalid => HeaderStep::Fail,
        HeaderScan::End => HeaderStep::Done(position + 2),
        HeaderScan::Header(n, v) => {
            let lo = scan(buffer, n + 1, Class::Ows);
            proof {
                lemma_first_not_bounds(buffer@, n + 1, Class::Ows);
                if lo > v {
                    assert(is_ows(buffer@[v as int]));
                }
            }
            let hi = trim_end_at(buffer, lo, v);
            let h = HeaderValueParser {
                name: BufferSlice { start: position, length: n - position },
                span: BufferSlice { start: position, length: v + 2 - position },
                value: BufferSlice { start: lo, length: hi - lo },
            };
            assert(h == header_of(buffer@, position as int, n as int, v as int));
            if find_duplicate(buffer, headers, h.name) {
                HeaderStep::Fail
            } else {
                HeaderStep::Added(v + 2, h)
            }
        },
    }
}

/// The borrowed names and values of recorded headers.
pub fn borrow_headers<'b>(buffer: &'b [u8], headers: &Vec<HeaderValueParser>) -> (r: Vec<(ParsedHeaderName<'b>, ParsedHeaderValue<'b>)>)
    requires
        headers_within(headers@, buffer@.len() as int),
    ensures
        r@.len() == headers@.len(),
        forall|j: int|
            0 <= j < headers@.len() ==> {
                &&& (#[trigger] r@[j]).0@ == span_bytes(buffer@, headers@[j].name)
                &&& r@[j].1.value@ == span_bytes(buffer@, headers@[j].value)
                &&& r@[j].1.span@ == span_bytes(buffer@, headers@[j].span)
            },
{
    let mut parsed: Vec<(ParsedHeaderName<'b>, ParsedHeaderValue<'b>)> = Vec::new();
    let mut i: usize = 0;
    while i < headers.len()
        invariant
            i <= headers@.len(),
            headers_within(headers@, buffer@.len() as int),
            parsed@.len() == i,
            forall|j: int|
                0 <= j < i ==> {
                    &&& (#[trigger] parsed@[j]).0@ == span_bytes(buffer@, headers@[j].name)
                    &&& parsed@[j].1.value@ == span_bytes(buffer@, headers@[j].value)
                    &&& parsed@[j].1.span@ == span_bytes(buffer@, headers@[j].span)
                },
        decreases headers@.len() - i,
    {
        let h = headers[i];
        assert(header_within(headers@[i as int], buffer@.len() as int));
        let name = ParsedHeaderName::Ref(h.name.to_slice(buffer));
        let value = ParsedHeaderValue { span: h.span.to_slice(buffer), value: h.value.to_slice(buffer) };
        parsed.push((name, value));
        i = i + 1;
    }
    parsed
}

/// A header step that does not wait does on any longer buffer what it does on this one.
pub proof fn lemma_header_step_stable(b: Seq<u8>, m: Seq<u8>, pos: int, hs: Seq<HeaderValueParser>)
    requires
        0 <= pos <= b.len() <= m.len() <= usize::MAX,
        m.subrange(0, b.len() as int) == b,
        headers_within(hs, b.len() as int),
    ensures
        header_step(b, pos, hs) is Wait || header_step(b, pos, hs) == header_step(m, pos, hs),
{
    lemma_header_line_stable(b, m, pos);
    lemma_header_line_bounds(b, pos);
    if let HeaderScan::Header(n, v) = header_line(b, pos) {
        lemma_first_not_bounds(b, n + 1, Class::Ows);
        lemma_first_not_stable(b, m, n + 1, Class::Ows);
        let lo = first_not(b, n + 1, Class::Ows);
        if lo > v {
            assert(is_ows(b[v as int]));
        }
        lemma_trim_end_stable(b, m, lo, v as int);
        let h = header_of(b, pos, n as int, v as int);
        assert(h == header_of(m, pos, n as int, v as int));
        lemma_span_bytes_stable(b, m, h.name);
        assert forall|i: int| 0 <= i < hs.len() implies span_bytes(b, #[trigger] hs[i].name) == span_bytes(m, hs[i].name) by {
            assert(header_within(hs[i], b.len() as int));
            lemma_span_bytes_stable(b, m, hs[i].name);
        }
        assert(is_duplicate(b, hs, h.name) == is_duplicate(m, hs, h.name));
    }
}

/// A header that a step adds repeats no recorded name, `set-cookie` aside.
pub proof fn lemma_header_step_added(b: Seq<u8>, pos: int, hs: Seq<HeaderValueParser>)
    requires
        names_distinct(b, hs),
    ensures
        match header_step(b, pos, hs) {
            HeaderStep::Added(_, h) => names_distinct(b, hs.push(h)),
            _ => true,
        },
{
    if let HeaderScan::Header(n, v) = header_line(b, pos) {
        let h = header_of(b, pos, n as int, v as int);
        if !is_duplicate(b, hs, h.name) {
            lemma_push_names_distinct(b, hs, h);
        }
    }
}

/// A header step keeps the recorded ranges within the buffer and moves forward when it adds
/// a header or ends the head.
pub proof fn lemma_header_step_facts(b: Seq<u8>, pos: int, hs: Seq<HeaderValueParser>)
    requires
        0 <= pos <= b.len() <= usize::MAX,
        headers_within(hs, b.len() as int),
    ensures
        match header_step(b, pos, hs) {
            HeaderStep::Done(e) => pos < e <= b.len(),
            HeaderStep::Added(e, h) => pos < e <= b.len() && headers_within(hs.push(h), b.len() as int),
            _ => true,
        },
{
    lemma_header_line_bounds(b, pos);
    if let HeaderScan::Header(n, v) = header_line(b, pos) {
        let h = header_of(b, pos, n as int, v as int);
        lemma_first_not_bounds(b, n + 1, Class::Ows);
        let lo = first_not(b, n + 1, Class::Ows);
        if lo > v {
            assert(is_ows(b[v as int]));
        }
        lemma_trim_end_bounds(b, lo, v as int);
        let hs2 = hs.push(h);
        assert forall|i: int| 0 <= i < hs2.len() implies header_within(#[trigger] hs2[i], b.len() as int) by {
            if i < hs.len() {
                assert(hs2[i] == hs[i]);
            }
        }
    }
}

} // verus!
