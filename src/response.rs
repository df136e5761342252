//! The validated view of a parsed response head, borrowing the parsed buffer.
use vstd::prelude::*;
use vstd::array::array_as_slice;
use crate::grammar::{eq_no_case, compare_no_case, fold, fold_seq, fold_byte};
use core::cmp::Ordering;
use crate::tokens::{tokens, has_token, ValueIterator};
use crate::parser::Version;

verus! {

pub struct ParsedStatusLine<'a> {
    pub span: &'a [u8],
    pub status: &'a [u8],
    pub reason: &'a [u8],
    pub version: Version,
}

/// A header name; equality ignores ASCII case.
#[derive(Debug)]
pub enum ParsedHeaderName<'a> {
    Ref(&'a [u8]),
    Allocated(Vec<u8>),
}

impl<'a> View for ParsedHeaderName<'a> {
    type V = Seq<u8>;

    open spec fn view(&self) -> Seq<u8> {
        match self {
            ParsedHeaderName::Ref(s) => s@,
            ParsedHeaderName::Allocated(v) => v@,
        }
    }
}

impl<'a> ParsedHeaderName<'a> {
    pub fn as_slice(&self) -> (r: &[u8])
        ensures
            r@ == self@,
    {
        match self {
            ParsedHeaderName::Ref(s) => s,
            ParsedHeaderName::Allocated(v) => v.as_slice(),
        }
    }
}

impl<'a> PartialEq for ParsedHeaderName<'a> {
    fn eq(&self, other: &Self) -> (r: bool) {
        compare_no_case(self.as_slice(), other.as_slice())
    }
}

impl<'a> vstd::std_specs::cmp::PartialEqSpecImpl for ParsedHeaderName<'a> {
    open spec fn obeys_eq_spec() -> bool {
        true
    }

    open spec fn eq_spec(&self, other: &Self) -> bool {
        eq_no_case(self@, other@)
    }
}

/// Order of two bytes of header names: their case foldings compared.
pub open spec fn byte_order(x: u8, y: u8) -> Ordering {
    let (a, b) = (fold(x), fold(y));
    if a < b {
        Ordering::Less
    } else if a > b {
        Ordering::Greater
    } else {
        Ordering::Equal
    }
}

/// Order of header names: byte by byte as `byte_order` says, then the shorter first.
pub open spec fn name_order(a: Seq<u8>, b: Seq<u8>) -> Ordering
    decreases a.len(),
{
    if a.len() == 0 || b.len() == 0 {
        if a.len() < b.len() {
            Ordering::Less
        } else if a.len() > b.len() {
            Ordering::Greater
        } else {
            Ordering::Equal
        }
    } else if byte_order(a[0], b[0]) != Ordering::Equal {
        byte_order(a[0], b[0])
    } else {
        name_order(a.drop_first(), b.drop_first())
    }
}

/// Two header names are in order `Equal` exactly when they are the same name up to ASCII case.
pub proof fn lemma_name_order_equal(a: Seq<u8>, b: Seq<u8>)
    ensures
        (name_order(a, b) == Ordering::Equal) == eq_no_case(a, b),
    decreases a.len(),
{
    if a.len() == 0 || b.len() == 0 {
        if a.len() != b.len() {
            assert(fold_seq(a).len() != fold_seq(b).len());
        } else {
            assert(fold_seq(a) =~= fold_seq(b));
        }
    } else {
        lemma_name_order_equal(a.drop_first(), b.drop_first());
        assert(fold_seq(a.drop_first()) =~= fold_seq(a).drop_first());
        assert(fold_seq(b.drop_first()) =~= fold_seq(b).drop_first());
        if fold(a[0]) != fold(b[0]) {
            assert(fold_seq(a)[0] != fold_seq(b)[0]);
        } else if eq_no_case(a.drop_first(), b.drop_first()) {
            assert(fold_seq(a) =~= fold_seq(b)) by {
                assert forall|i: int| 0 <= i < fold_seq(a).len() implies fold_seq(a)[i] == fold_seq(b)[i] by {
                    if i > 0 {
                        assert(fold_seq(a)[i] == fold_seq(a.drop_first())[i - 1]);
                        assert(fold_seq(b)[i] == fold_seq(b.drop_first())[i - 1]);
                    }
                }
            }
        } else if eq_no_case(a, b) {
            assert(fold_seq(a).drop_first() == fold_seq(b).drop_first());
        }
    }
}

impl<'a> PartialOrd for ParsedHeaderName<'a> {
    fn partial_cmp(&self, other: &Self) -> (r: Option<Ordering>) {
        let s1 = self.as_slice();
        let s2 = other.as_slice();
        let l = if s1.len() < s2.len() { s1.len() } else { s2.len() };
        let mut i: usize = 0;
        assert(s1@.subrange(0, s1@.len() as int) =~= s1@);
        assert(s2@.subrange(0, s2@.len() as int) =~= s2@);
        while i < l
            invariant
                l <= s1@.len(),
                l <= s2@.len(),
                l == s1@.len() || l == s2@.len(),
                i <= l,
                s1@ == self@,
                s2@ == other@,
                name_order(self@, other@) == name_order(s1@.subrange(i as int, s1@.len() as int), s2@.subrange(i as int, s2@.len() as int)),
            decreases l - i,
        {
            let x = s1[i];
            let y = s2[i];
            let a = fold_byte(x);
            let b = fold_byte(y);
            let ghost t1 = s1@.subrange(i as int, s1@.len() as int);
            let ghost t2 = s2@.subrange(i as int, s2@.len() as int);
            assert(t1[0] == x && t2[0] == y);
            if a < b {
                return Some(Ordering::Less);
            } else if a > b {
                return Some(Ordering::Greater);
            }
            assert(t1.drop_first() =~= s1@.subrange(i + 1, s1@.len() as int));
            assert(t2.drop_first() =~= s2@.subrange(i + 1, s2@.len() as int));
            i = i + 1;
        }
        if s1.len() < s2.len() {
            Some(Ordering::Less)
        } else if s1.len() > s2.len() {
            Some(Ordering::Greater)
        } else {
            Some(Ordering::Equal)
        }
    }
}

impl<'a> vstd::std_specs::cmp::PartialOrdSpecImpl for ParsedHeaderName<'a> {
    open spec fn obeys_partial_cmp_spec() -> bool {
        true
    }

    open spec fn partial_cmp_spec(&self, other: &Self) -> Option<Ordering> {
        Some(name_order(self@, other@))
    }
}

pub struct ParsedHeaderValue<'a> {
    /// The whole header line, CRLF included.
    pub span: &'a [u8],
    /// The value with surrounding white space cut.
    pub value: &'a [u8],
}

impl<'a> ParsedHeaderValue<'a> {
    pub fn as_slice(&self) -> (r: &[u8])
        ensures
            r@ == self.value@,
    {
        self.value
    }
}

/// Directives found in the `Connection` header.
#[derive(Clone, Copy, PartialEq, Eq, Debug)]
pub struct Connection {
    pub close: bool,
    pub keep_alive: bool,
    pub upgrade: bool,
}

/// How the end of the body is found.
#[derive(Clone, Copy, PartialEq, Eq, Debug)]
pub enum BodyLength {
    /// No length is declared: the body runs until the connection closes.
    UntilClose,
    Length(usize),
    Chunked,
}

pub struct ParsedResponse<'a> {
    pub status_line: ParsedStatusLine<'a>,
    /// Headers in the order they came; names repeat only for `set-cookie`.
    pub headers: Vec<(ParsedHeaderName<'a>, ParsedHeaderValue<'a>)>,
    /// Where the body starts in the buffer.
    pub header_end: usize,
    pub connection: Connection,
}

/// Names and values of a header list.
pub open spec fn headers_model<'a>(hs: Seq<(ParsedHeaderName<'a>, ParsedHeaderValue<'a>)>) -> Seq<(Seq<u8>, Seq<u8>)> {
    hs.map_values(|p: (ParsedHeaderName<'a>, ParsedHeaderValue<'a>)| (p.0@, p.1.value@))
}

/// The value of the first header at or after `i` whose name equals `name` up to ASCII case.
pub open spec fn lookup_from(hs: Seq<(Seq<u8>, Seq<u8>)>, name: Seq<u8>, i: int) -> Option<Seq<u8>>
    decreases hs.len() - i,
{
    if i < 0 || i >= hs.len() {
        None
    } else if eq_no_case(hs[i].0, name) {
        Some(hs[i].1)
    } else {
        lookup_from(hs, name, i + 1)
    }
}

pub open spec fn lookup(hs: Seq<(Seq<u8>, Seq<u8>)>, name: Seq<u8>) -> Option<Seq<u8>> {
    lookup_from(hs, name, 0)
}

proof fn lemma_lookup_no_case(hs: Seq<(Seq<u8>, Seq<u8>)>, a: Seq<u8>, b: Seq<u8>, i: int)
    requires
        eq_no_case(a, b),
    ensures
        lookup_from(hs, a, i) == lookup_from(hs, b, i),
    decreases hs.len() - i,
{
    if 0 <= i < hs.len() {
        lemma_lookup_no_case(hs, a, b, i + 1);
    }
}

/// Header lookup ignores ASCII case: two names that differ only in case find the same value.
pub proof fn lemma_lookup_case_insensitive(hs: Seq<(Seq<u8>, Seq<u8>)>, a: Seq<u8>, b: Seq<u8>)
    requires
        eq_no_case(a, b),
    ensures
        lookup(hs, a) == lookup(hs, b),
{
    lemma_lookup_no_case(hs, a, b, 0);
}

/// Names in a header list repeat, up to ASCII case, only for `set-cookie`.
pub open spec fn names_repeat_only_cookies(hs: Seq<(Seq<u8>, Seq<u8>)>) -> bool {
    forall|i: int, j: int|
        0 <= i < j < hs.len() && eq_no_case((#[trigger] hs[i]).0, (#[trigger] hs[j]).0)
            ==> eq_no_case(hs[i].0, crate::parser::set_cookie_name())
}

pub open spec fn host_name() -> Seq<u8> {
    seq![104u8, 111, 115, 116]
}

pub open spec fn connection_name() -> Seq<u8> {
    seq![99u8, 111, 110, 110, 101, 99, 116, 105, 111, 110]
}

pub open spec fn close_word() -> Seq<u8> {
    seq![99u8, 108, 111, 115, 101]
}

pub open spec fn keep_alive_word() -> Seq<u8> {
    seq![107u8, 101, 101, 112, 45, 97, 108, 105, 118, 101]
}

pub open spec fn upgrade_word() -> Seq<u8> {
    seq![117u8, 112, 103, 114, 97, 100, 101]
}

/// The directives of a `Connection` value.
pub open spec fn directives(v: Seq<u8>) -> Connection {
    Connection {
        close: has_token(v, close_word()),
        keep_alive: has_token(v, keep_alive_word()),
        upgrade: has_token(v, upgrade_word()),
    }
}

/// The directives of a header list: none when it has no `Connection` header.
pub open spec fn connection_of(hs: Seq<(Seq<u8>, Seq<u8>)>) -> Connection {
    match lookup(hs, connection_name()) {
        Some(v) => directives(v),
        None => Connection { close: false, keep_alive: false, upgrade: false },
    }
}

/// Reads the directives of a `Connection` value.
pub fn connection_directives(value: &[u8]) -> (r: Connection)
    ensures
        r == directives(value@),
{
    let close_lit: [u8; 5] = [99, 108, 111, 115, 101];
    let keep_lit: [u8; 10] = [107, 101, 101, 112, 45, 97, 108, 105, 118, 101];
    let upgrade_lit: [u8; 7] = [117, 112, 103, 114, 97, 100, 101];
    let close_s = array_as_slice(&close_lit);
    let keep_s = array_as_slice(&keep_lit);
    let upgrade_s = array_as_slice(&upgrade_lit);
    assert(close_s@ =~= close_word());
    assert(keep_s@ =~= keep_alive_word());
    assert(upgrade_s@ =~= upgrade_word());
    let mut r = Connection { close: false, keep_alive: false, upgrade: false };
    let mut it = ValueIterator::new(value);
    let ghost mut seen: Seq<Seq<u8>> = Seq::empty();
    loop
        invariant
            tokens(value@) == seen + tokens(it@),
            close_s@ == close_word(),
            keep_s@ == keep_alive_word(),
            upgrade_s@ == upgrade_word(),
            r.close == exists|i: int| 0 <= i < seen.len() && eq_no_case(#[trigger] seen[i], close_word()),
            r.keep_alive == exists|i: int| 0 <= i < seen.len() && eq_no_case(#[trigger] seen[i], keep_alive_word()),
            r.upgrade == exists|i: int| 0 <= i < seen.len() && eq_no_case(#[trigger] seen[i], upgrade_word()),
        ensures
            tokens(value@) == seen,
            r.close == exists|i: int| 0 <= i < seen.len() && eq_no_case(#[trigger] seen[i], close_word()),
            r.keep_alive == exists|i: int| 0 <= i < seen.len() && eq_no_case(#[trigger] seen[i], keep_alive_word()),
            r.upgrade == exists|i: int| 0 <= i < seen.len() && eq_no_case(#[trigger] seen[i], upgrade_word()),
        decreases it@.len(),
    {
        match it.next() {
            None => {
                assert(tokens(value@) =~= seen);
                break;
            },
            Some(t) => {
                let ghost seen0 = seen;
                proof {
                    seen = seen.push(t@);
                    assert(seen + tokens(it@) =~= seen0 + (seq![t@] + tokens(it@)));
                    assert(seen[seen0.len() as int] == t@);
                    assert forall|i: int| 0 <= i < seen0.len() implies seen[i] == seen0[i] by {}
                }
                if compare_no_case(t, close_s) {
                    r.close = true;
                }
                if compare_no_case(t, keep_s) {
                    r.keep_alive = true;
                }
                if compare_no_case(t, upgrade_s) {
                    r.upgrade = true;
                }
            },
        }
    }
    r
}

impl<'a> ParsedResponse<'a> {
    pub open spec fn headers_view(&self) -> Seq<(Seq<u8>, Seq<u8>)> {
        headers_model(self.headers@)
    }

    pub fn status(&self) -> (r: &[u8])
        ensures
            r@ == self.status_line.status@,
    {
        self.status_line.status
    }

    pub fn reason(&self) -> (r: &[u8])
        ensures
            r@ == self.status_line.reason@,
    {
        self.status_line.reason
    }

    pub fn version(&self) -> (r: Version)
        ensures
            r == self.status_line.version,
    {
        self.status_line.version
    }

    /// The value of the first header named `name`, ignoring ASCII case.
    pub fn get(&self, name: &[u8]) -> (r: Option<&'a [u8]>)
        ensures
            match r {
                Some(v) => lookup(self.headers_view(), name@) == Some(v@),
                None => lookup(self.headers_view(), name@) == Option::<Seq<u8>>::None,
            },
    {
        header_value(&self.headers, name)
    }

    /// The `Host` header's value.
    pub fn host(&self) -> (r: Option<&[u8]>)
        ensures
            match r {
                Some(v) => lookup(self.headers_view(), host_name()) == Some(v@),
                None => lookup(self.headers_view(), host_name()) == Option::<Seq<u8>>::None,
            },
    {
        let lit: [u8; 4] = [104, 111, 115, 116];
        let name = array_as_slice(&lit);
        assert(name@ =~= host_name());
        self.get(name)
    }

    pub fn connection(&self) -> (r: &Connection)
        ensures
            *r == self.connection,
    {
        &self.connection
    }
}

pub open spec fn is_digit(b: u8) -> bool {
    48 <= b && b <= 57
}

/// The number that a string of decimal digits spells.
pub open spec fn decimal(s: Seq<u8>) -> nat
    decreases s.len(),
{
    if s.len() == 0 {
        0
    } else {
        decimal(s.drop_last()) * 10 + (s.last() - 48) as nat
    }
}

/// A non-empty string of digits whose number fits a `usize`.
pub open spec fn valid_length(s: Seq<u8>) -> bool {
    &&& s.len() > 0
    &&& forall|i: int| 0 <= i < s.len() ==> is_digit(#[trigger] s[i])
    &&& decimal(s) <= usize::MAX
}

proof fn lemma_decimal_grows(s: Seq<u8>, i: int)
    requires
        0 <= i <= s.len(),
        forall|j: int| 0 <= j < s.len() ==> is_digit(#[trigger] s[j]),
    ensures
        decimal(s.subrange(0, i)) <= decimal(s),
    decreases s.len() - i,
{
    if i < s.len() {
        lemma_decimal_grows(s, i + 1);
        assert(s.subrange(0, i + 1).drop_last() =~= s.subrange(0, i));
    } else {
        assert(s.subrange(0, i) =~= s);
    }
}

/// Reads a `Content-Length` value.
pub fn parse_length(s: &[u8]) -> (r: Option<usize>)
    ensures
        match r {
            Some(n) => valid_length(s@) && n == decimal(s@),
            None => !valid_length(s@),
        },
{
    if s.len() == 0 {
        return None;
    }
    let mut i: usize = 0;
    while i < s.len()
        invariant
            i <= s@.len(),
            forall|j: int| 0 <= j < i ==> is_digit(#[trigger] s@[j]),
        decreases s@.len() - i,
    {
        if !(48 <= s[i] && s[i] <= 57) {
            return None;
        }
        i = i + 1;
    }
    let mut acc: usize = 0;
    let mut i: usize = 0;
    while i < s.len()
        invariant
            i <= s@.len(),
            forall|j: int| 0 <= j < s@.len() ==> is_digit(#[trigger] s@[j]),
            acc == decimal(s@.subrange(0, i as int)),
        decreases s@.len() - i,
    {
        proof {
            assert(s@.subrange(0, i + 1).drop_last() =~= s@.subrange(0, i as int));
            lemma_decimal_grows(s@, i + 1);
        }
        let d = (s[i] - 48) as usize;
        match acc.checked_mul(10) {
            Some(m) => match m.checked_add(d) {
                Some(a) => {
                    acc = a;
                },
                None => {
                    return None;
                },
            },
            None => {
                proof {
                    assert(decimal(s@.subrange(0, i + 1)) >= acc * 10);
                }
                return None;
            },
        }
        i = i + 1;
    }
    assert(s@.subrange(0, s@.len() as int) =~= s@);
    Some(acc)
}

pub open spec fn content_length_name() -> Seq<u8> {
    seq![99u8, 111, 110, 116, 101, 110, 116, 45, 108, 101, 110, 103, 116, 104]
}

pub open spec fn transfer_encoding_name() -> Seq<u8> {
    seq![116u8, 114, 97, 110, 115, 102, 101, 114, 45, 101, 110, 99, 111, 100, 105, 110, 103]
}

pub open spec fn chunked_word() -> Seq<u8> {
    seq![99u8, 104, 117, 110, 107, 101, 100]
}

/// Body framing: chunked transfer wins over a declared length; with neither, `absent`;
/// `None` when the declared length is malformed.
pub open spec fn framing_of(hs: Seq<(Seq<u8>, Seq<u8>)>, absent: BodyLength) -> Option<BodyLength> {
    let te = lookup(hs, transfer_encoding_name());
    if te is Some && has_token(te->Some_0, chunked_word()) {
        Some(BodyLength::Chunked)
    } else {
        match lookup(hs, content_length_name()) {
            Some(v) => if valid_length(v) {
                Some(BodyLength::Length(decimal(v) as usize))
            } else {
                None
            },
            None => Some(absent),
        }
    }
}

/// Body framing of a response: without a declared length the body runs until close.
pub open spec fn body_length_of(hs: Seq<(Seq<u8>, Seq<u8>)>) -> Option<BodyLength> {
    framing_of(hs, BodyLength::UntilClose)
}

/// The value of the first header of `headers` named `name`, ignoring ASCII case.
pub fn header_value<'a>(headers: &Vec<(ParsedHeaderName<'a>, ParsedHeaderValue<'a>)>, name: &[u8]) -> (r: Option<&'a [u8]>)
    ensures
        match r {
            Some(v) => lookup(headers_model(headers@), name@) == Some(v@),
            None => lookup(headers_model(headers@), name@) == Option::<Seq<u8>>::None,
        },
{
    let ghost hv = headers_model(headers@);
    let mut i: usize = 0;
    while i < headers.len()
        invariant
            i <= headers@.len(),
            hv == headers_model(headers@),
            lookup_from(hv, name@, i as int) == lookup(hv, name@),
        decreases headers@.len() - i,
    {
        let entry = &headers[i];
        assert(hv[i as int] == (entry.0@, entry.1.value@));
        if compare_no_case(entry.0.as_slice(), name) {
            return Some(entry.1.value);
        }
        i = i + 1;
    }
    None
}

/// How the end of the body of a head with `headers` is found, `absent` standing for no
/// declared length.
pub fn framing<'a>(headers: &Vec<(ParsedHeaderName<'a>, ParsedHeaderValue<'a>)>, absent: BodyLength) -> (r: Option<BodyLength>)
    ensures
        r == framing_of(headers_model(headers@), absent),
{
    let te_lit: [u8; 17] = [116, 114, 97, 110, 115, 102, 101, 114, 45, 101, 110, 99, 111, 100, 105, 110, 103];
    let cl_lit: [u8; 14] = [99, 111, 110, 116, 101, 110, 116, 45, 108, 101, 110, 103, 116, 104];
    let te_name = array_as_slice(&te_lit);
    let cl_name = array_as_slice(&cl_lit);
    assert(te_name@ =~= transfer_encoding_name());
    assert(cl_name@ =~= content_length_name());
    if let Some(te) = header_value(headers, te_name) {
        if is_chunked(te) {
            return Some(BodyLength::Chunked);
        }
    }
    match header_value(headers, cl_name) {
        Some(v) => match parse_length(v) {
            Some(n) => Some(BodyLength::Length(n)),
            None => None,
        },
        None => Some(absent),
    }
}

/// Whether a `Transfer-Encoding` value names the chunked coding.
pub fn is_chunked(value: &[u8]) -> (r: bool)
    ensures
        r == has_token(value@, chunked_word()),
{
    let lit: [u8; 7] = [99, 104, 117, 110, 107, 101, 100];
    let word = array_as_slice(&lit);
    assert(word@ =~= chunked_word());
    let mut it = ValueIterator::new(value);
    let ghost mut seen: Seq<Seq<u8>> = Seq::empty();
    loop
        invariant
            tokens(value@) == seen + tokens(it@),
            word@ == chunked_word(),
            forall|i: int| 0 <= i < seen.len() ==> !eq_no_case(#[trigger] seen[i], chunked_word()),
        decreases it@.len(),
    {
        match it.next() {
            None => {
                assert(tokens(value@) =~= seen);
                return false;
            },
            Some(t) => {
                let ghost seen0 = seen;
                proof {
                    seen = seen.push(t@);
                    assert(seen + tokens(it@) =~= seen0 + (seq![t@] + tokens(it@)));
                    assert(seen[seen0.len() as int] == t@);
                    assert forall|i: int| 0 <= i < seen0.len() implies seen[i] == seen0[i] by {}
                }
                if compare_no_case(t, word) {
                    assert(tokens(value@)[seen0.len() as int] == t@);
                    return true;
                }
            },
        }
    }
}

impl<'a> ParsedResponse<'a> {
    /// How the end of the body is found; `None` when `Content-Length` is malformed.
    pub fn length(&self) -> (r: Option<BodyLength>)
        ensures
            r == body_length_of(self.headers_view()),
    {
        framing(&self.headers, BodyLength::UntilClose)
    }
}

} // verus!
