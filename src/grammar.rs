//! Byte classes and line grammar of HTTP/1.x response heads.
use vstd::prelude::*;

verus! {

pub const CR: u8 = 13;

pub const LF: u8 = 10;

pub const COLON: u8 = 58;

pub const COMMA: u8 = 44;

/// ASCII letters, upper or lower case.
pub open spec fn is_letter(b: u8) -> bool {
    (65 <= b && b <= 90) || (97 <= b && b <= 122)
}

/// Case folding of one byte: letters get the 0x20 bit, other bytes stay as they are.
pub open spec fn fold(b: u8) -> u8 {
    if 65 <= b && b <= 90 {
        (b + 32) as u8
    } else {
        b
    }
}

pub open spec fn fold_seq(s: Seq<u8>) -> Seq<u8> {
    s.map_values(|b: u8| fold(b))
}

/// Two names are the same header name when they agree after case folding.
pub open spec fn eq_no_case(a: Seq<u8>, b: Seq<u8>) -> bool {
    fold_seq(a) == fold_seq(b)
}

/// The folding of a letter is its bit-or with 0x20.
pub proof fn lemma_fold_is_bit_or(b: u8)
    ensures
        is_letter(b) ==> fold(b) == b | 0x20u8,
        !is_letter(b) ==> fold(b) == b,
{
    assert(65 <= b && b <= 90 ==> (b + 32) as u8 == b | 0x20u8) by (bit_vector);
    assert(97 <= b && b <= 122 ==> b == b | 0x20u8) by (bit_vector);
}

pub fn fold_byte(b: u8) -> (r: u8)
    ensures
        r == fold(b),
{
    if 65 <= b && b <= 90 {
        b + 32
    } else {
        b
    }
}

/// Case-insensitive comparison of two byte strings over ASCII letters.
pub fn compare_no_case(left: &[u8], right: &[u8]) -> (r: bool)
    ensures
        r == eq_no_case(left@, right@),
{
    if left.len() != right.len() {
        assert(fold_seq(left@).len() != fold_seq(right@).len());
        return false;
    }
    let mut i: usize = 0;
    while i < left.len()
        invariant
            left@.len() == right@.len(),
            i <= left@.len(),
            forall|j: int| 0 <= j < i ==> fold(left@[j]) == fold(right@[j]),
        decreases left@.len() - i,
    {
        if fold_byte(left[i]) != fold_byte(right[i]) {
            assert(fold_seq(left@)[i as int] != fold_seq(right@)[i as int]);
            return false;
        }
        i = i + 1;
    }
    assert(fold_seq(left@) =~= fold_seq(right@));
    true
}

/// The byte classes the grammar scans over.
#[derive(Clone, Copy, PartialEq, Eq, Debug)]
pub enum Class {
    /// Bytes of a header name (`tchar`).
    Token,
    /// Bytes of a reason phrase or a header value: tab, space, visible ASCII, and bytes above 0x7f.
    Text,
    /// Optional white space: space and tab.
    Ows,
    /// Any byte but a comma.
    NotComma,
    /// Bytes of a request target: visible ASCII.
    Target,
}

pub open spec fn is_tchar(b: u8) -> bool {
    is_letter(b) || (48 <= b && b <= 57) || b == 33 || b == 35 || b == 36 || b == 37 || b == 38
        || b == 39 || b == 42 || b == 43 || b == 45 || b == 46 || b == 94 || b == 95 || b == 96
        || b == 124 || b == 126
}

pub open spec fn is_text(b: u8) -> bool {
    b == 9 || b == 32 || (33 <= b && b <= 126) || b >= 128
}

pub open spec fn is_ows(b: u8) -> bool {
    b == 9 || b == 32
}

pub open spec fn in_class(c: Class, b: u8) -> bool {
    match c {
        Class::Token => is_tchar(b),
        Class::Text => is_text(b),
        Class::Ows => is_ows(b),
        Class::NotComma => b != COMMA,
        Class::Target => 33 <= b && b <= 126,
    }
}

pub fn byte_in_class(c: Class, b: u8) -> (r: bool)
    ensures
        r == in_class(c, b),
{
    match c {
        Class::Token => (65 <= b && b <= 90) || (97 <= b && b <= 122) || (48 <= b && b <= 57) || b
            == 33 || b == 35 || b == 36 || b == 37 || b == 38 || b == 39 || b == 42 || b == 43 || b
            == 45 || b == 46 || b == 94 || b == 95 || b == 96 || b == 124 || b == 126,
        Class::Text => b == 9 || b == 32 || (33 <= b && b <= 126) || b >= 128,
        Class::Ows => b == 9 || b == 32,
        Class::NotComma => b != COMMA,
        Class::Target => 33 <= b && b <= 126,
    }
}

/// The first index at or after `i` whose byte is not in class `c`, or the length if there is none.
pub open spec fn first_not(s: Seq<u8>, i: int, c: Class) -> int
    decreases s.len() - i,
{
    if i >= s.len() || i < 0 {
        if i < 0 { 0 } else { s.len() as int }
    } else if !in_class(c, s[i]) {
        i
    } else {
        first_not(s, i + 1, c)
    }
}

pub proof fn lemma_first_not_bounds(s: Seq<u8>, i: int, c: Class)
    requires
        0 <= i <= s.len(),
    ensures
        i <= first_not(s, i, c) <= s.len(),
        forall|j: int| i <= j < first_not(s, i, c) ==> in_class(c, #[trigger] s[j]),
        first_not(s, i, c) < s.len() ==> !in_class(c, s[first_not(s, i, c)]),
    decreases s.len() - i,
{
    if i < s.len() && in_class(c, s[i]) {
        lemma_first_not_bounds(s, i + 1, c);
    }
}

/// What a scan found in a buffer stays found in any longer buffer that begins with it.
pub proof fn lemma_first_not_stable(s: Seq<u8>, m: Seq<u8>, i: int, c: Class)
    requires
        0 <= i <= s.len() <= m.len(),
        m.subrange(0, s.len() as int) == s,
    ensures
        first_not(s, i, c) < s.len() ==> first_not(m, i, c) == first_not(s, i, c),
        first_not(s, i, c) == s.len() ==> first_not(m, i, c) >= s.len(),
    decreases s.len() - i,
{
    if i < s.len() {
        assert(m[i] == m.subrange(0, s.len() as int)[i]);
        if in_class(c, s[i]) {
            lemma_first_not_stable(s, m, i + 1, c);
        }
    } else {
        lemma_first_not_bounds(m, i, c);
    }
}

/// Scans forward from `start` while the bytes are in class `c`.
pub fn scan(buf: &[u8], start: usize, c: Class) -> (r: usize)
    requires
        start <= buf@.len(),
    ensures
        r as int == first_not(buf@, start as int, c),
{
    let mut i: usize = start;
    while i < buf.len() && byte_in_class(c, buf[i])
        invariant
            start <= i <= buf@.len(),
            first_not(buf@, i as int, c) == first_not(buf@, start as int, c),
        decreases buf@.len() - i,
    {
        i = i + 1;
    }
    i
}

/// Outcome of looking for a complete line.
#[derive(Clone, Copy, PartialEq, Eq, Debug)]
pub enum LineScan {
    /// More bytes are needed to decide.
    Incomplete,
    /// The bytes seen can be no prefix of a valid line.
    Invalid,
    /// The line's content ends at this index, and CRLF follows it.
    Complete(usize),
}

/// Outcome of looking for a header line, or for the empty line that ends the head.
#[derive(Clone, Copy, PartialEq, Eq, Debug)]
pub enum HeaderScan {
    Incomplete,
    Invalid,
    /// The empty line: the head ends two bytes further.
    End,
    /// A header: the name ends at the first index (where the colon stands), the value's text at
    /// the second (where CRLF starts).
    Header(usize, usize),
}

/// After a run of line bytes that stops at `k`: is a CRLF there?
pub open spec fn line_end(s: Seq<u8>, k: int) -> LineScan {
    if k >= s.len() {
        LineScan::Incomplete
    } else if s[k] != CR {
        LineScan::Invalid
    } else if k + 1 >= s.len() {
        LineScan::Incomplete
    } else if s[k + 1] != LF {
        LineScan::Invalid
    } else {
        LineScan::Complete(k as usize)
    }
}

/// The fixed part of a status line, `HTTP/1.x DDD `, byte by byte.
pub open spec fn status_fixed_ok(i: int, b: u8) -> bool {
    if i == 0 {
        b == 72
    } else if i == 1 || i == 2 {
        b == 84
    } else if i == 3 {
        b == 80
    } else if i == 4 {
        b == 47
    } else if i == 5 {
        b == 49
    } else if i == 6 {
        b == 46
    } else if i == 7 {
        b == 48 || b == 49
    } else if i == 8 || i == 12 {
        b == 32
    } else {
        48 <= b && b <= 57
    }
}

pub const STATUS_FIXED_LEN: usize = 13;

/// A status line: `HTTP/1.0` or `HTTP/1.1`, a space, three digits, a space, a reason phrase
/// of text bytes, CRLF. A byte that breaks the fixed part is refused as soon as it is seen.
pub open spec fn status_line(s: Seq<u8>) -> LineScan {
    if exists|i: int| 0 <= i < s.len() && i < 13 && !status_fixed_ok(i, #[trigger] s[i]) {
        LineScan::Invalid
    } else if s.len() <= 13 {
        LineScan::Incomplete
    } else {
        line_end(s, first_not(s, 13, Class::Text))
    }
}

/// A header line starting at `pos`: a token, a colon, text bytes, CRLF; or the empty line.
pub open spec fn header_line(s: Seq<u8>, pos: int) -> HeaderScan {
    if pos >= s.len() {
        HeaderScan::Incomplete
    } else if s[pos] == CR {
        if pos + 1 >= s.len() {
            HeaderScan::Incomplete
        } else if s[pos + 1] == LF {
            HeaderScan::End
        } else {
            HeaderScan::Invalid
        }
    } else {
        let n = first_not(s, pos, Class::Token);
        if n == pos {
            HeaderScan::Invalid
        } else if n >= s.len() {
            HeaderScan::Incomplete
        } else if s[n] != COLON {
            HeaderScan::Invalid
        } else {
            match line_end(s, first_not(s, n + 1, Class::Text)) {
                LineScan::Incomplete => HeaderScan::Incomplete,
                LineScan::Invalid => HeaderScan::Invalid,
                LineScan::Complete(v) => HeaderScan::Header(n as usize, v),
            }
        }
    }
}

/// The end of `s[lo..hi]` once trailing spaces and tabs are cut.
pub open spec fn trim_end(s: Seq<u8>, lo: int, hi: int) -> int
    decreases hi - lo,
{
    if hi > lo && is_ows(s[hi - 1]) {
        trim_end(s, lo, hi - 1)
    } else {
        hi
    }
}

pub proof fn lemma_trim_end_bounds(s: Seq<u8>, lo: int, hi: int)
    requires
        0 <= lo <= hi <= s.len(),
    ensures
        lo <= trim_end(s, lo, hi) <= hi,
    decreases hi - lo,
{
    if hi > lo && is_ows(s[hi - 1]) {
        lemma_trim_end_bounds(s, lo, hi - 1);
    }
}

pub proof fn lemma_trim_end_stable(s: Seq<u8>, m: Seq<u8>, lo: int, hi: int)
    requires
        0 <= lo <= hi <= s.len() <= m.len(),
        m.subrange(0, s.len() as int) == s,
    ensures
        trim_end(s, lo, hi) == trim_end(m, lo, hi),
    decreases hi - lo,
{
    if hi > lo {
        assert(m[hi - 1] == m.subrange(0, s.len() as int)[hi - 1]);
        lemma_trim_end_stable(s, m, lo, hi - 1);
    }
}

pub proof fn lemma_line_end_stable(s: Seq<u8>, m: Seq<u8>, k: int, km: int)
    requires
        0 <= k <= s.len() <= m.len(),
        m.subrange(0, s.len() as int) == s,
        k < s.len() ==> km == k,
        k == s.len() ==> km >= s.len(),
    ensures
        line_end(s, k) != LineScan::Incomplete ==> line_end(m, km) == line_end(s, k),
{
    if k < s.len() {
        assert(m[k] == m.subrange(0, s.len() as int)[k]);
        if k + 1 < s.len() {
            assert(m[k + 1] == m.subrange(0, s.len() as int)[k + 1]);
        }
    }
}

/// A status line decided on a buffer is decided the same way on any longer one.
pub proof fn lemma_status_line_stable(s: Seq<u8>, m: Seq<u8>)
    requires
        s.len() <= m.len(),
        m.subrange(0, s.len() as int) == s,
    ensures
        status_line(s) != LineScan::Incomplete ==> status_line(m) == status_line(s),
{
    assert forall|i: int| 0 <= i < s.len() implies m[i] == s[i] by {
        assert(m[i] == m.subrange(0, s.len() as int)[i]);
    }
    if exists|i: int| 0 <= i < s.len() && i < 13 && !status_fixed_ok(i, #[trigger] s[i]) {
        let i = choose|i: int| 0 <= i < s.len() && i < 13 && !status_fixed_ok(i, #[trigger] s[i]);
        assert(m[i] == s[i]);
    } else if s.len() > 13 {
        assert forall|i: int| 0 <= i < m.len() && i < 13 implies status_fixed_ok(i, #[trigger] m[i]) by {
            assert(m[i] == s[i]);
        }
        lemma_first_not_bounds(s, 13, Class::Text);
        lemma_first_not_stable(s, m, 13, Class::Text);
        lemma_line_end_stable(s, m, first_not(s, 13, Class::Text), first_not(m, 13, Class::Text));
    }
}

/// A header line decided on a buffer is decided the same way on any longer one.
pub proof fn lemma_header_line_stable(s: Seq<u8>, m: Seq<u8>, pos: int)
    requires
        0 <= pos <= s.len() <= m.len(),
        m.subrange(0, s.len() as int) == s,
    ensures
        header_line(s, pos) != HeaderScan::Incomplete ==> header_line(m, pos) == header_line(s, pos),
{
    assert forall|i: int| 0 <= i < s.len() implies m[i] == s[i] by {
        assert(m[i] == m.subrange(0, s.len() as int)[i]);
    }
    if pos < s.len() && s[pos] != CR {
        lemma_first_not_bounds(s, pos, Class::Token);
        lemma_first_not_stable(s, m, pos, Class::Token);
        let n = first_not(s, pos, Class::Token);
        if n != pos && n < s.len() && s[n] == COLON {
            lemma_first_not_bounds(s, n + 1, Class::Text);
            lemma_first_not_stable(s, m, n + 1, Class::Text);
            lemma_line_end_stable(s, m, first_not(s, n + 1, Class::Text), first_not(m, n + 1, Class::Text));
        }
    }
}

pub proof fn lemma_status_line_bounds(s: Seq<u8>)
    requires
        s.len() <= usize::MAX,
    ensures
        match status_line(s) {
            LineScan::Complete(k) => 13 <= k && k + 2 <= s.len(),
            _ => true,
        },
{
    if s.len() > 13 {
        lemma_first_not_bounds(s, 13, Class::Text);
    }
}

pub proof fn lemma_header_line_bounds(s: Seq<u8>, pos: int)
    requires
        0 <= pos <= s.len() <= usize::MAX,
    ensures
        header_line(s, pos) == HeaderScan::End ==> pos + 2 <= s.len(),
        match header_line(s, pos) {
            HeaderScan::Header(n, v) => pos < n && n < v && v + 2 <= s.len() && s[v as int] == CR
                && (forall|j: int| pos <= j < n ==> is_tchar(#[trigger] s[j]))
                && (forall|j: int| n < j < v ==> is_text(#[trigger] s[j])),
            _ => true,
        },
{
    if pos < s.len() && s[pos] != CR {
        lemma_first_not_bounds(s, pos, Class::Token);
        let n = first_not(s, pos, Class::Token);
        if n != pos && n < s.len() && s[n] == COLON {
            lemma_first_not_bounds(s, n + 1, Class::Text);
            let v = first_not(s, n + 1, Class::Text);
            if v + 1 < s.len() && s[v] == CR && s[v + 1] == LF {
                assert(header_line(s, pos) == HeaderScan::Header(n as usize, v as usize));
            }
        }
    }
}

fn find_line_end(buf: &[u8], k: usize) -> (r: LineScan)
    requires
        k <= buf@.len(),
    ensures
        r == line_end(buf@, k as int),
{
    if k >= buf.len() {
        LineScan::Incomplete
    } else if buf[k] != CR {
        LineScan::Invalid
    } else if k + 1 >= buf.len() {
        LineScan::Incomplete
    } else if buf[k + 1] != LF {
        LineScan::Invalid
    } else {
        LineScan::Complete(k)
    }
}

fn fixed_byte_ok(i: usize, b: u8) -> (r: bool)
    ensures
        r == status_fixed_ok(i as int, b),
{
    if i == 0 {
        b == 72
    } else if i == 1 || i == 2 {
        b == 84
    } else if i == 3 {
        b == 80
    } else if i == 4 {
        b == 47
    } else if i == 5 {
        b == 49
    } else if i == 6 {
        b == 46
    } else if i == 7 {
        b == 48 || b == 49
    } else if i == 8 || i == 12 {
        b == 32
    } else {
        48 <= b && b <= 57
    }
}

/// Looks for a status line at the start of `buf`.
pub fn scan_status_line(buf: &[u8]) -> (r: LineScan)
    ensures
        r == status_line(buf@),
{
    let mut i: usize = 0;
    while i < buf.len() && i < STATUS_FIXED_LEN
        invariant
            i <= buf@.len(),
            i <= 13,
            forall|j: int| 0 <= j < i ==> status_fixed_ok(j, #[trigger] buf@[j]),
        decreases 13 - i,
    {
        if !fixed_byte_ok(i, buf[i]) {
            return LineScan::Invalid;
        }
        i = i + 1;
    }
    if buf.len() <= STATUS_FIXED_LEN {
        return LineScan::Incomplete;
    }
    let k = scan(buf, STATUS_FIXED_LEN, Class::Text);
    proof {
        lemma_first_not_bounds(buf@, 13, Class::Text);
    }
    find_line_end(buf, k)
}

/// Looks for a header line, or the empty line, at `pos`.
pub fn scan_header_line(buf: &[u8], pos: usize) -> (r: HeaderScan)
    requires
        pos <= buf@.len(),
    ensures
        r == header_line(buf@, pos as int),
{
    if pos >= buf.len() {
        return HeaderScan::Incomplete;
    }
    if buf[pos] == CR {
        if pos + 1 >= buf.len() {
            return HeaderScan::Incomplete;
        } else if buf[pos + 1] == LF {
            return HeaderScan::End;
        } else {
            return HeaderScan::Invalid;
        }
    }
    let n = scan(buf, pos, Class::Token);
    proof {
        lemma_first_not_bounds(buf@, pos as int, Class::Token);
    }
    if n == pos {
        HeaderScan::Invalid
    } else if n >= buf.len() {
        HeaderScan::Incomplete
    } else if buf[n] != COLON {
        HeaderScan::Invalid
    } else {
        let v = scan(buf, n + 1, Class::Text);
        proof {
            lemma_first_not_bounds(buf@, n + 1, Class::Text);
        }
        match find_line_end(buf, v) {
            LineScan::Incomplete => HeaderScan::Incomplete,
            LineScan::Invalid => HeaderScan::Invalid,
            LineScan::Complete(v) => HeaderScan::Header(n, v),
        }
    }
}

/// The end of `buf[lo..hi]` with trailing spaces and tabs cut.
pub fn trim_end_at(buf: &[u8], lo: usize, hi: usize) -> (r: usize)
    requires
        lo <= hi <= buf@.len(),
    ensures
        r as int == trim_end(buf@, lo as int, hi as int),
        lo <= r <= hi,
{
    let mut h: usize = hi;
    while h > lo && (buf[h - 1] == 32 || buf[h - 1] == 9)
        invariant
            lo <= h <= hi,
            hi <= buf@.len(),
            trim_end(buf@, lo as int, h as int) == trim_end(buf@, lo as int, hi as int),
        decreases h,
    {
        h = h - 1;
    }
    h
}

/// Outcome of looking for a request line.
#[derive(Clone, Copy, PartialEq, Eq, Debug)]
pub enum RequestLineScan {
    Incomplete,
    Invalid,
    /// The method ends at the first index, the target at the second; the version follows.
    Complete(usize, usize),
}

/// The version of a request line, `HTTP/1.0` or `HTTP/1.1`, byte by byte.
pub open spec fn version_ok(i: int, b: u8) -> bool {
    status_fixed_ok(i, b)
}

/// A request line: a token, a space, a target of visible bytes, a space, `HTTP/1.0` or
/// `HTTP/1.1`, CRLF.
pub open spec fn request_line(s: Seq<u8>) -> RequestLineScan {
    let m = first_not(s, 0, Class::Token);
    if s.len() == 0 {
        RequestLineScan::Incomplete
    } else if m == 0 {
        RequestLineScan::Invalid
    } else if m >= s.len() {
        RequestLineScan::Incomplete
    } else if s[m] != 32 {
        RequestLineScan::Invalid
    } else {
        let t = first_not(s, m + 1, Class::Target);
        if t == m + 1 && t < s.len() {
            RequestLineScan::Invalid
        } else if t >= s.len() {
            RequestLineScan::Incomplete
        } else if s[t] != 32 {
            RequestLineScan::Invalid
        } else if exists|i: int| 0 <= i < 8 && t + 1 + i < s.len() && !version_ok(i, #[trigger] s[t + 1 + i]) {
            RequestLineScan::Invalid
        } else {
            match line_end(s, t + 9) {
                LineScan::Incomplete => RequestLineScan::Incomplete,
                LineScan::Invalid => RequestLineScan::Invalid,
                LineScan::Complete(_) => RequestLineScan::Complete(m as usize, t as usize),
            }
        }
    }
}

pub proof fn lemma_request_line_bounds(s: Seq<u8>)
    requires
        s.len() <= usize::MAX,
    ensures
        match request_line(s) {
            RequestLineScan::Complete(m, t) => 0 < m < t && t + 11 <= s.len() && (s[t + 8] == 48 || s[t + 8] == 49),
            _ => true,
        },
{
    if s.len() > 0 {
        lemma_first_not_bounds(s, 0, Class::Token);
        let m = first_not(s, 0, Class::Token);
        if 0 < m < s.len() && s[m] == 32 {
            lemma_first_not_bounds(s, m + 1, Class::Text);
            lemma_first_not_bounds(s, m + 1, Class::Target);
            let t = first_not(s, m + 1, Class::Target);
            if t + 8 < s.len() && s[t] == 32 {
                assert(!(0 <= 7 < 8 && t + 1 + 7 < s.len() && !version_ok(7, s[t + 1 + 7])) || request_line(s) is Invalid);
            }
        }
    }
}

/// A request line decided on a buffer is decided the same way on any longer one.
pub proof fn lemma_request_line_stable(s: Seq<u8>, m: Seq<u8>)
    requires
        s.len() <= m.len(),
        m.subrange(0, s.len() as int) == s,
    ensures
        request_line(s) != RequestLineScan::Incomplete ==> request_line(m) == request_line(s),
{
    assert forall|i: int| 0 <= i < s.len() implies m[i] == s[i] by {
        assert(m[i] == m.subrange(0, s.len() as int)[i]);
    }
    if s.len() > 0 {
        lemma_first_not_bounds(s, 0, Class::Token);
        lemma_first_not_stable(s, m, 0, Class::Token);
        let me = first_not(s, 0, Class::Token);
        if 0 < me < s.len() && s[me] == 32 {
            lemma_first_not_bounds(s, me + 1, Class::Target);
            lemma_first_not_stable(s, m, me + 1, Class::Target);
            let t = first_not(s, me + 1, Class::Target);
            if t < s.len() && s[t] == 32 {
                if exists|i: int| 0 <= i < 8 && t + 1 + i < s.len() && !version_ok(i, #[trigger] s[t + 1 + i]) {
                    let i = choose|i: int| 0 <= i < 8 && t + 1 + i < s.len() && !version_ok(i, #[trigger] s[t + 1 + i]);
                    assert(m[t + 1 + i] == s[t + 1 + i]);
                } else {
                    assert forall|i: int| 0 <= i < 8 && t + 1 + i < m.len() && t + 9 <= s.len() implies version_ok(i, #[trigger] m[t + 1 + i]) by {
                        assert(m[t + 1 + i] == s[t + 1 + i]);
                    }
                    if t + 9 <= s.len() {
                        lemma_line_end_stable(s, m, t + 9, t + 9);
                    }
                }
            }
        }
    }
}

/// Looks for a request line at the start of `buf`.
#[verifier::loop_isolation(false)]
pub fn scan_request_line(buf: &[u8]) -> (r: RequestLineScan)
    ensures
        r == request_line(buf@),
{
    if buf.len() == 0 {
        return RequestLineScan::Incomplete;
    }
    let m = scan(buf, 0, Class::Token);
    proof {
        lemma_first_not_bounds(buf@, 0, Class::Token);
    }
    if m == 0 {
        return RequestLineScan::Invalid;
    }
    if m >= buf.len() {
        return RequestLineScan::Incomplete;
    }
    if buf[m] != 32 {
        return RequestLineScan::Invalid;
    }
    let t = scan(buf, m + 1, Class::Target);
    proof {
        lemma_first_not_bounds(buf@, m + 1, Class::Target);
    }
    if t == m + 1 && t < buf.len() {
        return RequestLineScan::Invalid;
    }
    if t >= buf.len() {
        return RequestLineScan::Incomplete;
    }
    if buf[t] != 32 {
        return RequestLineScan::Invalid;
    }
    let mut i: usize = 0;
    while i < 8 && i < buf.len() - t - 1
        invariant
            t < buf@.len(),
            i <= 8,
            forall|j: int| 0 <= j < i ==> version_ok(j, #[trigger] buf@[t + 1 + j]),
        decreases 8 - i,
    {
        if !fixed_byte_ok(i, buf[t + 1 + i]) {
            assert(0 <= i < 8 && t + 1 + i < buf@.len() && !version_ok(i as int, buf@[t + 1 + i]));
            return RequestLineScan::Invalid;
        }
        i = i + 1;
    }
    assert(!exists|j: int| 0 <= j < 8 && t + 1 + j < buf@.len() && !version_ok(j, #[trigger] buf@[t + 1 + j])) by {
        assert forall|j: int| 0 <= j < 8 && t + 1 + j < buf@.len() implies version_ok(j, #[trigger] buf@[t + 1 + j]) by {
            if j >= i {
                assert(t + 1 + i >= buf@.len() || i == 8);
            }
        }
    }
    if buf.len() - t < 9 {
        return RequestLineScan::Incomplete;
    }
    match find_line_end(buf, t + 9) {
        LineScan::Incomplete => RequestLineScan::Incomplete,
        LineScan::Invalid => RequestLineScan::Invalid,
        LineScan::Complete(_) => RequestLineScan::Complete(m, t),
    }
}

} // verus!
