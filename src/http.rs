//! A strict subset of HTTP/1.1 with plain-text bodies: request and status
//! lines, `Name: Value` headers, and the serialization of both messages.
use vstd::prelude::*;
use vstd::utf8::encode_utf8;

use crate::text::{
    chars_of, decimal, find_from, find_range, parse_decimal, parse_decimal_range, push_char,
    push_decimal, split_once, string_of,
};

verus! {

/// The request methods this protocol knows.
#[derive(Debug, Clone, Copy, PartialEq, Eq, Structural)]
pub enum HTTPMethod {
    GET,
    POST,
}

pub open spec fn method_text(m: HTTPMethod) -> Seq<char> {
    match m {
        HTTPMethod::GET => seq!['G', 'E', 'T'],
        HTTPMethod::POST => seq!['P', 'O', 'S', 'T'],
    }
}

/// The method a request line names, if it is one this protocol knows.
pub open spec fn method_of(s: Seq<char>) -> Option<HTTPMethod> {
    if s == method_text(HTTPMethod::GET) {
        Some(HTTPMethod::GET)
    } else if s == method_text(HTTPMethod::POST) {
        Some(HTTPMethod::POST)
    } else {
        None
    }
}

impl HTTPMethod {
    pub fn to_string(&self) -> (r: String)
        ensures
            r@ == method_text(*self),
    {
        let r = match self {
            HTTPMethod::GET => String::from_str("GET"),
            HTTPMethod::POST => String::from_str("POST"),
        };
        proof {
            reveal_strlit("GET");
            reveal_strlit("POST");
        }
        r
    }
}

/// The status codes of the protocol.
#[derive(Debug, Clone, Copy, PartialEq, Eq, Structural)]
pub enum HTTPResponseCode {
    OK,
    NoContent,
    BadRequest,
    NotFound,
    MethodNotAllowed,
    Conflict,
    InternalServerError,
    HTTPVersionNotSupported,
}

/// Numeric value of each status.
pub open spec fn code_number(c: HTTPResponseCode) -> int {
    match c {
        HTTPResponseCode::OK => 200,
        HTTPResponseCode::NoContent => 204,
        HTTPResponseCode::BadRequest => 400,
        HTTPResponseCode::NotFound => 404,
        HTTPResponseCode::MethodNotAllowed => 405,
        HTTPResponseCode::Conflict => 409,
        HTTPResponseCode::InternalServerError => 500,
        HTTPResponseCode::HTTPVersionNotSupported => 505,
    }
}

/// The status with a given numeric value, if there is one.
pub open spec fn code_from_number(n: int) -> Option<HTTPResponseCode> {
    if n == 200 {
        Some(HTTPResponseCode::OK)
    } else if n == 204 {
        Some(HTTPResponseCode::NoContent)
    } else if n == 400 {
        Some(HTTPResponseCode::BadRequest)
    } else if n == 404 {
        Some(HTTPResponseCode::NotFound)
    } else if n == 405 {
        Some(HTTPResponseCode::MethodNotAllowed)
    } else if n == 409 {
        Some(HTTPResponseCode::Conflict)
    } else if n == 500 {
        Some(HTTPResponseCode::InternalServerError)
    } else if n == 505 {
        Some(HTTPResponseCode::HTTPVersionNotSupported)
    } else {
        None
    }
}

/// The status named by a decimal code in text.
pub open spec fn code_from_text(s: Seq<char>) -> Option<HTTPResponseCode> {
    match parse_decimal(s) {
        Some(n) => code_from_number(n as int),
        None => None,
    }
}

/// The reason phrase of each status.
pub open spec fn reason_text(c: HTTPResponseCode) -> Seq<char> {
    match c {
        HTTPResponseCode::OK => seq!['O', 'K'],
        HTTPResponseCode::NoContent => seq!['N', 'o', ' ', 'C', 'o', 'n', 't', 'e', 'n', 't'],
        HTTPResponseCode::BadRequest => seq![
            'B',
            'a',
            'd',
            ' ',
            'R',
            'e',
            'q',
            'u',
            'e',
            's',
            't',
        ],
        HTTPResponseCode::NotFound => seq!['N', 'o', 't', ' ', 'F', 'o', 'u', 'n', 'd'],
        HTTPResponseCode::MethodNotAllowed => seq![
            'M',
            'e',
            't',
            'h',
            'o',
            'd',
            ' ',
            'N',
            'o',
            't',
            ' ',
            'A',
            'l',
            'l',
            'o',
            'w',
            'e',
            'd',
        ],
        HTTPResponseCode::Conflict => seq!['C', 'o', 'n', 'f', 'l', 'i', 'c', 't'],
        HTTPResponseCode::InternalServerError => seq![
            'I',
            'n',
            't',
            'e',
            'r',
            'n',
            'a',
            'l',
            ' ',
            'S',
            'e',
            'r',
            'v',
            'e',
            'r',
            ' ',
            'E',
            'r',
            'r',
            'o',
            'r',
        ],
        HTTPResponseCode::HTTPVersionNotSupported => seq![
            'H',
            'T',
            'T',
            'P',
            ' ',
            'V',
            'e',
            'r',
            's',
            'i',
            'o',
            'n',
            ' ',
            'N',
            'o',
            't',
            ' ',
            'S',
            'u',
            'p',
            'p',
            'o',
            'r',
            't',
            'e',
            'd',
        ],
    }
}

impl HTTPResponseCode {
    /// The status with numeric value `code`.
    pub fn from_code(code: u32) -> (r: Option<HTTPResponseCode>)
        ensures
            r == code_from_number(code as int),
    {
        match code {
            200 => Some(HTTPResponseCode::OK),
            204 => Some(HTTPResponseCode::NoContent),
            400 => Some(HTTPResponseCode::BadRequest),
            404 => Some(HTTPResponseCode::NotFound),
            405 => Some(HTTPResponseCode::MethodNotAllowed),
            409 => Some(HTTPResponseCode::Conflict),
            500 => Some(HTTPResponseCode::InternalServerError),
            505 => Some(HTTPResponseCode::HTTPVersionNotSupported),
            _ => None,
        }
    }

    /// The status whose numeric value is written in `code`.
    pub fn from_string(code: String) -> (r: Option<HTTPResponseCode>)
        ensures
            r == code_from_text(code@),
    {
        let v = chars_of(code.as_str());
        assert(v@.subrange(0, v.len() as int) =~= v@);
        match parse_decimal_range(&v, 0, v.len()) {
            Some(n) => {
                if n > 1000 {
                    None
                } else {
                    Self::from_code(n as u32)
                }
            },
            None => None,
        }
    }

    /// The reason phrase.
    pub fn to_string(&self) -> (r: String)
        ensures
            r@ == reason_text(*self),
    {
        let r = match self {
            HTTPResponseCode::OK => String::from_str("OK"),
            HTTPResponseCode::NoContent => String::from_str("No Content"),
            HTTPResponseCode::BadRequest => String::from_str("Bad Request"),
            HTTPResponseCode::NotFound => String::from_str("Not Found"),
            HTTPResponseCode::MethodNotAllowed => String::from_str("Method Not Allowed"),
            HTTPResponseCode::Conflict => String::from_str("Conflict"),
            HTTPResponseCode::InternalServerError => String::from_str("Internal Server Error"),
            HTTPResponseCode::HTTPVersionNotSupported => String::from_str(
                "HTTP Version Not Supported",
            ),
        };
        proof {
            reveal_strlit("OK");
            reveal_strlit("No Content");
            reveal_strlit("Bad Request");
            reveal_strlit("Not Found");
            reveal_strlit("Method Not Allowed");
            reveal_strlit("Conflict");
            reveal_strlit("Internal Server Error");
            reveal_strlit("HTTP Version Not Supported");
        }
        r
    }

    /// The numeric value.
    pub fn to_code(&self) -> (r: i32)
        ensures
            r == code_number(*self),
    {
        match self {
            HTTPResponseCode::OK => 200,
            HTTPResponseCode::NoContent => 204,
            HTTPResponseCode::BadRequest => 400,
            HTTPResponseCode::NotFound => 404,
            HTTPResponseCode::MethodNotAllowed => 405,
            HTTPResponseCode::Conflict => 409,
            HTTPResponseCode::InternalServerError => 500,
            HTTPResponseCode::HTTPVersionNotSupported => 505,
        }
    }
}


pub open spec fn space() -> Seq<char> {
    seq![' ']
}

pub open spec fn colon_space() -> Seq<char> {
    seq![':', ' ']
}

pub open spec fn crlf() -> Seq<char> {
    seq!['\r', '\n']
}

pub open spec fn content_length_key() -> Seq<char> {
    seq!['C', 'o', 'n', 't', 'e', 'n', 't', '-', 'L', 'e', 'n', 'g', 't', 'h']
}

pub open spec fn http_version() -> Seq<char> {
    seq!['H', 'T', 'T', 'P', '/', '1', '.', '1']
}

/// Length of a text in bytes, UTF-8 encoded.
pub open spec fn byte_len(t: Seq<char>) -> usize {
    encode_utf8(t).len() as usize
}

/// Reads a request line `METHOD SP "/" path SP version`: a line without a
/// space, or without a second one, or whose target does not start with `/`,
/// is a bad request; a method other than GET and POST is not allowed. The
/// path is the target without its leading `/`; the version is what follows
/// the second space.
pub open spec fn request_line_parse(s: Seq<char>) -> Result<
    (HTTPMethod, Seq<char>, Seq<char>),
    HTTPResponseCode,
> {
    match split_once(s, space()) {
        None => Err(HTTPResponseCode::BadRequest),
        Some((m, rem)) => match method_of(m) {
            None => Err(HTTPResponseCode::MethodNotAllowed),
            Some(method) => match split_once(rem, space()) {
                None => Err(HTTPResponseCode::BadRequest),
                Some((target, version)) => if target.len() > 0 && target[0] == '/' {
                    Ok((method, target.drop_first(), version))
                } else {
                    Err(HTTPResponseCode::BadRequest)
                },
            },
        },
    }
}

/// A header line `Name: Value`, split at its first `": "`.
pub open spec fn header_pair(line: Seq<char>) -> Option<(Seq<char>, Seq<char>)> {
    split_once(line, colon_space())
}

pub open spec fn keys_unique(hs: Seq<(Seq<char>, Seq<char>)>) -> bool {
    forall|i: int, j: int| 0 <= i < j < hs.len() ==> (#[trigger] hs[i]).0 != (#[trigger] hs[j]).0
}

/// Headers of a request: every line must be `Name: Value` and no name may
/// come twice.
pub open spec fn request_headers(lines: Seq<Seq<char>>) -> Option<Seq<(Seq<char>, Seq<char>)>> {
    if forall|k: int| 0 <= k < lines.len() ==> (#[trigger] header_pair(lines[k])) is Some {
        let hs = Seq::new(lines.len(), |k: int| header_pair(lines[k])->0);
        if keys_unique(hs) {
            Some(hs)
        } else {
            None
        }
    } else {
        None
    }
}

/// Position of the last header named `k`, or -1.
pub open spec fn key_index(hs: Seq<(Seq<char>, Seq<char>)>, k: Seq<char>) -> int
    decreases hs.len(),
{
    if hs.len() == 0 {
        -1
    } else if hs.last().0 == k {
        hs.len() - 1
    } else {
        key_index(hs.drop_last(), k)
    }
}

/// The headers without any named `k`, in their order.
pub open spec fn without_key(hs: Seq<(Seq<char>, Seq<char>)>, k: Seq<char>) -> Seq<
    (Seq<char>, Seq<char>),
>
    decreases hs.len(),
{
    if hs.len() == 0 {
        Seq::empty()
    } else if hs.last().0 == k {
        without_key(hs.drop_last(), k)
    } else {
        without_key(hs.drop_last(), k).push(hs.last())
    }
}

/// Sets header `k` to `v`: every header of that name is dropped and `(k, v)`
/// is appended, so the name occurs exactly once.
pub open spec fn set_header(hs: Seq<(Seq<char>, Seq<char>)>, k: Seq<char>, v: Seq<char>) -> Seq<
    (Seq<char>, Seq<char>),
> {
    without_key(hs, k).push((k, v))
}

proof fn lemma_without_key(hs: Seq<(Seq<char>, Seq<char>)>, k: Seq<char>)
    ensures
        forall|j: int| 0 <= j < without_key(hs, k).len() ==> (#[trigger] without_key(hs, k)[j]).0 != k,
        forall|j: int|
            0 <= j < without_key(hs, k).len() ==> exists|i: int|
                0 <= i < hs.len() && hs[i] == #[trigger] without_key(hs, k)[j],
        keys_unique(hs) ==> keys_unique(without_key(hs, k)),
    decreases hs.len(),
{
    if hs.len() > 0 {
        let d = hs.drop_last();
        lemma_without_key(d, k);
        let w = without_key(d, k);
        assert forall|j: int| 0 <= j < w.len() implies exists|i: int|
            0 <= i < hs.len() && hs[i] == #[trigger] w[j] by {
            let i = choose|i: int| 0 <= i < d.len() && d[i] == w[j];
            assert(hs[i] == d[i]);
        }
        if hs.last().0 != k {
            let w2 = w.push(hs.last());
            assert forall|j: int| 0 <= j < w2.len() implies exists|i: int|
                0 <= i < hs.len() && hs[i] == #[trigger] w2[j] by {
                if j < w.len() {
                    assert(w2[j] == w[j]);
                } else {
                    assert(hs[hs.len() - 1] == w2[j]);
                }
            }
            if keys_unique(hs) {
                assert(keys_unique(d)) by {
                    assert forall|a: int, b: int| 0 <= a < b < d.len() implies (#[trigger] d[a]).0
                        != (#[trigger] d[b]).0 by {
                        assert(d[a] == hs[a] && d[b] == hs[b]);
                    }
                }
                assert forall|a: int, b: int| 0 <= a < b < w2.len() implies (#[trigger] w2[a]).0
                    != (#[trigger] w2[b]).0 by {
                    if b < w.len() {
                        assert(w2[a] == w[a] && w2[b] == w[b]);
                    } else {
                        assert(w2[a] == w[a]);
                        let i = choose|i: int| 0 <= i < d.len() && d[i] == w[a];
                        assert(hs[i] == d[i]);
                        assert(hs[i].0 != hs[hs.len() - 1].0);
                    }
                }
            }
        } else if keys_unique(hs) {
            assert forall|a: int, b: int| 0 <= a < b < d.len() implies (#[trigger] d[a]).0 != (
            #[trigger] d[b]).0 by {
                assert(d[a] == hs[a] && d[b] == hs[b]);
            }
        }
    }
}

/// Setting a header leaves exactly one header of that name, the last one,
/// holding the new value; names that were unique stay unique.
pub proof fn lemma_set_header(hs: Seq<(Seq<char>, Seq<char>)>, k: Seq<char>, v: Seq<char>)
    ensures
        set_header(hs, k, v).last() == (k, v),
        forall|j: int| 0 <= j < set_header(hs, k, v).len() - 1 ==> (#[trigger] set_header(hs, k, v)[j]).0 != k,
        keys_unique(hs) ==> keys_unique(set_header(hs, k, v)),
{
    lemma_without_key(hs, k);
    let w = without_key(hs, k);
    let r = set_header(hs, k, v);
    assert forall|j: int| 0 <= j < r.len() - 1 implies (#[trigger] r[j]).0 != k by {
        assert(r[j] == w[j]);
    }
    if keys_unique(hs) {
        assert forall|a: int, b: int| 0 <= a < b < r.len() implies (#[trigger] r[a]).0 != (
        #[trigger] r[b]).0 by {
            assert(r[a] == w[a]);
            if b < w.len() {
                assert(r[b] == w[b]);
            }
        }
    }
}

/// Value of header `k`, if present.
pub open spec fn header_value(hs: Seq<(Seq<char>, Seq<char>)>, k: Seq<char>) -> Option<Seq<char>> {
    if key_index(hs, k) >= 0 {
        Some(hs[key_index(hs, k)].1)
    } else {
        None
    }
}

/// Length of the body a message announces: 0 without `Content-Length`,
/// else its value, which must be a number.
pub open spec fn body_length(hs: Seq<(Seq<char>, Seq<char>)>) -> Option<usize> {
    match header_value(hs, content_length_key()) {
        None => Some(0),
        Some(v) => parse_decimal(v),
    }
}

/// Each header as a line `Name: Value` ended by CRLF.
pub open spec fn header_block(hs: Seq<(Seq<char>, Seq<char>)>) -> Seq<char>
    decreases hs.len(),
{
    if hs.len() == 0 {
        Seq::empty()
    } else {
        header_block(hs.drop_last()) + hs.last().0 + colon_space() + hs.last().1 + crlf()
    }
}

pub open spec fn headers_view(h: Seq<(String, String)>) -> Seq<(Seq<char>, Seq<char>)> {
    Seq::new(h.len(), |k: int| (h[k].0@, h[k].1@))
}

pub open spec fn lines_view(raw: Seq<String>) -> Seq<Seq<char>> {
    Seq::new(raw.len(), |k: int| raw[k]@)
}

/// A parsed request line.
pub struct RequestLine {
    pub method: HTTPMethod,
    pub path: String,
    pub version: String,
}

/// `v[lo .. hi]` is the text `lit`.
fn range_is(v: &Vec<char>, lo: usize, hi: usize, lit: &Vec<char>) -> (r: bool)
    requires
        lo <= hi <= v.len(),
    ensures
        r == (v@.subrange(lo as int, hi as int) == lit@),
{
    if hi - lo != lit.len() {
        return false;
    }
    let mut k: usize = 0;
    while k < lit.len()
        invariant
            lo <= hi <= v.len(),
            hi - lo == lit.len(),
            k <= lit.len(),
            forall|j: int| 0 <= j < k ==> v@[lo + j] == lit@[j],
        decreases lit.len() - k,
    {
        if v[lo + k] != lit[k] {
            assert(v@.subrange(lo as int, hi as int)[k as int] != lit@[k as int]);
            return false;
        }
        k = k + 1;
    }
    assert(v@.subrange(lo as int, hi as int) =~= lit@);
    true
}

/// Position of the first occurrence of `p` in `v[lo .. hi]`, with what
/// `split_once` makes of it.
fn split_at_first(v: &Vec<char>, lo: usize, hi: usize, p: &Vec<char>) -> (r: Option<usize>)
    requires
        lo <= hi <= v.len(),
    ensures
        match split_once(v@.subrange(lo as int, hi as int), p@) {
            None => r is None,
            Some((a, b)) => r matches Some(i) && lo <= i && i + p.len() <= hi && a == v@.subrange(
                lo as int,
                i as int,
            ) && b == v@.subrange(i + p.len(), hi as int),
        },
{
    let r = find_range(v, lo, hi, p);
    proof {
        let s = v@.subrange(lo as int, hi as int);
        crate::text::lemma_find_from_bounds(s, p@, 0);
        if let Some(j) = find_from(s, p@, 0) {
            assert(s.take(j) =~= v@.subrange(lo as int, lo + j));
            assert(s.skip(j + p.len()) =~= v@.subrange(lo + j + p.len(), hi as int));
        }
    }
    r
}

impl RequestLine {
    /// Reads a request line; see `request_line_parse`.
    pub fn parse(input: &String) -> (r: Result<Self, HTTPResponseCode>)
        ensures
            match request_line_parse(input@) {
                Ok((m, p, v)) => r matches Ok(l) && l.method == m && l.path@ == p && l.version@ == v,
                Err(e) => r matches Err(x) && x == e,
            },
    {
        let v = chars_of(input.as_str());
        let n = v.len();
        assert(v@.subrange(0, n as int) =~= v@);
        let sp = chars_of(" ");
        let get = chars_of("GET");
        let post = chars_of("POST");
        proof {
            reveal_strlit(" ");
            reveal_strlit("GET");
            reveal_strlit("POST");
        }
        assert(sp@ == space());
        assert(get@ == method_text(HTTPMethod::GET));
        assert(post@ == method_text(HTTPMethod::POST));
        let i = match split_at_first(&v, 0, n, &sp) {
            Some(i) => i,
            None => {
                return Err(HTTPResponseCode::BadRequest);
            },
        };
        let method = if range_is(&v, 0, i, &get) {
            HTTPMethod::GET
        } else if range_is(&v, 0, i, &post) {
            HTTPMethod::POST
        } else {
            return Err(HTTPResponseCode::MethodNotAllowed);
        };
        let j = match split_at_first(&v, i + 1, n, &sp) {
            Some(j) => j,
            None => {
                return Err(HTTPResponseCode::BadRequest);
            },
        };
        if j == i + 1 || v[i + 1] != '/' {
            assert(j == i + 1 || v@.subrange(i + 1, j as int)[0] == v@[i + 1]);
            return Err(HTTPResponseCode::BadRequest);
        }
        assert(v@.subrange(i + 1, j as int)[0] == v@[i + 1]);
        assert(v@.subrange(i + 1, j as int).drop_first() =~= v@.subrange(i + 2, j as int));
        Ok(RequestLine { method, path: string_of(&v, i + 2, j), version: string_of(&v, j + 1, n) })
    }
}


/// A request written out: request line, headers (with `Content-Length` set
/// to the body's byte length when there is a body), an empty line, the body
/// and a final CRLF.
pub open spec fn request_text(
    method: HTTPMethod,
    uri: Seq<char>,
    version: Seq<char>,
    hs: Seq<(Seq<char>, Seq<char>)>,
    body: Seq<char>,
) -> Seq<char> {
    let headers = if body.len() > 0 {
        set_header(hs, content_length_key(), decimal(byte_len(body) as nat))
    } else {
        hs
    };
    method_text(method) + seq![' ', '/'] + uri + space() + version + crlf() + header_block(headers)
        + crlf() + body + crlf()
}

/// A response written out: status line `version code reason`, headers with
/// `Content-Length` always set to the content's byte length, then, when
/// there is content, an empty line and the content; a final CRLF.
pub open spec fn response_text(
    version: Seq<char>,
    status: HTTPResponseCode,
    hs: Seq<(Seq<char>, Seq<char>)>,
    content: Seq<char>,
) -> Seq<char> {
    version + space() + decimal(code_number(status) as nat) + space() + reason_text(status) + crlf()
        + header_block(set_header(hs, content_length_key(), decimal(byte_len(content) as nat))) + (
    if content.len() > 0 {
        crlf() + content
    } else {
        Seq::empty()
    }) + crlf()
}

/// Reads a whole request head (lines without their CRLF): the request line,
/// then the headers; the body is left empty.
pub open spec fn request_parse(raw: Seq<Seq<char>>) -> Result<
    (HTTPMethod, Seq<char>, Seq<char>, Seq<(Seq<char>, Seq<char>)>),
    HTTPResponseCode,
> {
    if raw.len() == 0 {
        Err(HTTPResponseCode::BadRequest)
    } else {
        match request_line_parse(raw[0]) {
            Err(e) => Err(e),
            Ok((m, p, v)) => match request_headers(raw.drop_first()) {
                None => Err(HTTPResponseCode::BadRequest),
                Some(hs) => Ok((m, p, v, hs)),
            },
        }
    }
}

/// Reads a status line `version SP code SP reason` into its version and code text.
pub open spec fn status_parse(line: Seq<char>) -> Option<(Seq<char>, Seq<char>)> {
    match split_once(line, space()) {
        None => None,
        Some((version, rem)) => match split_once(rem, space()) {
            None => None,
            Some((code, _reason)) => Some((version, code)),
        },
    }
}

/// Headers of a response: every line must be `Name: Value`; a later header
/// replaces an earlier one of the same name.
pub open spec fn response_headers(lines: Seq<Seq<char>>) -> Option<Seq<(Seq<char>, Seq<char>)>>
    decreases lines.len(),
{
    if lines.len() == 0 {
        Some(Seq::empty())
    } else {
        match (response_headers(lines.drop_last()), header_pair(lines.last())) {
            (Some(hs), Some((k, v))) => Some(set_header(hs, k, v)),
            _ => None,
        }
    }
}

/// Reads a whole response head: version, status and headers.
pub open spec fn response_parse(raw: Seq<Seq<char>>) -> Option<
    (Seq<char>, HTTPResponseCode, Seq<(Seq<char>, Seq<char>)>),
> {
    if raw.len() == 0 {
        None
    } else {
        match status_parse(raw[0]) {
            None => None,
            Some((version, code)) => match (
                response_headers(raw.drop_first()),
                code_from_text(code),
            ) {
                (Some(hs), Some(st)) => Some((version, st, hs)),
                _ => None,
            },
        }
    }
}

pub proof fn lemma_response_headers_prefix(t: Seq<Seq<char>>, m: int)
    requires
        0 <= m <= t.len(),
        response_headers(t.take(m)) is None,
    ensures
        response_headers(t) is None,
    decreases t.len() - m,
{
    if m == t.len() {
        assert(t.take(m) =~= t);
    } else {
        assert(t.take(m + 1).drop_last() =~= t.take(m));
        lemma_response_headers_prefix(t, m + 1);
    }
}

/// Reads a header line `Name: Value`.
fn read_header(line: &String) -> (r: Option<(String, String)>)
    ensures
        match header_pair(line@) {
            Some((k, v)) => r matches Some(p) && p.0@ == k && p.1@ == v,
            None => r is None,
        },
{
    let v = chars_of(line.as_str());
    let n = v.len();
    assert(v@.subrange(0, n as int) =~= v@);
    let cs = chars_of(": ");
    proof {
        reveal_strlit(": ");
    }
    assert(cs@ == colon_space());
    match split_at_first(&v, 0, n, &cs) {
        None => None,
        Some(i) => Some((string_of(&v, 0, i), string_of(&v, i + 2, n))),
    }
}

/// Position of the last header named `key`.
fn header_position(hs: &Vec<(String, String)>, key: &String) -> (r: Option<usize>)
    ensures
        key_index(headers_view(hs@), key@) >= 0 ==> r == Some(
            key_index(headers_view(hs@), key@) as usize,
        ),
        key_index(headers_view(hs@), key@) < 0 ==> r is None,
        key_index(headers_view(hs@), key@) < hs.len(),
{
    let ghost h = headers_view(hs@);
    let mut i: usize = hs.len();
    assert(h.take(i as int) =~= h);
    proof {
        lemma_key_index_bound(h, key@);
    }
    while i > 0
        invariant
            i <= hs.len(),
            h == headers_view(hs@),
            key_index(h, key@) == key_index(h.take(i as int), key@),
            key_index(h.take(i as int), key@) < i,
        decreases i,
    {
        let ghost t = h.take(i as int);
        assert(t.drop_last() =~= h.take(i - 1));
        assert(t.last() == h[i - 1]);
        proof {
            lemma_key_index_bound(h.take(i - 1), key@);
        }
        if hs[i - 1].0 == *key {
            return Some(i - 1);
        }
        i = i - 1;
    }
    None
}

pub proof fn lemma_key_index_bound(hs: Seq<(Seq<char>, Seq<char>)>, k: Seq<char>)
    ensures
        -1 <= key_index(hs, k) < hs.len(),
        key_index(hs, k) >= 0 ==> hs[key_index(hs, k)].0 == k,
    decreases hs.len(),
{
    if hs.len() > 0 && hs.last().0 != k {
        lemma_key_index_bound(hs.drop_last(), k);
    }
}

/// Position of a header named `key`.
fn find_key(hs: &Vec<(String, String)>, key: &String) -> (r: Option<usize>)
    ensures
        r matches Some(d) ==> d < hs.len() && hs@[d as int].0@ == key@,
        r is None ==> forall|j: int| 0 <= j < hs.len() ==> (#[trigger] hs@[j]).0@ != key@,
{
    let mut d: usize = 0;
    while d < hs.len()
        invariant
            d <= hs.len(),
            forall|j: int| 0 <= j < d ==> (#[trigger] hs@[j]).0@ != key@,
        decreases hs.len() - d,
    {
        if hs[d].0 == *key {
            return Some(d);
        }
        d = d + 1;
    }
    None
}

/// Sets header `key` to `value`; see `set_header`.
fn put_header(hs: &mut Vec<(String, String)>, key: String, value: String)
    ensures
        headers_view(final(hs)@) == set_header(headers_view(old(hs)@), key@, value@),
{
    let ghost h = headers_view(hs@);
    let mut kept: Vec<(String, String)> = Vec::with_capacity(hs.len());
    let mut i: usize = 0;
    assert(h.take(0) =~= Seq::<(Seq<char>, Seq<char>)>::empty());
    while i < hs.len()
        invariant
            i <= hs.len(),
            h == headers_view(hs@),
            headers_view(kept@) == without_key(h.take(i as int), key@),
        decreases hs.len() - i,
    {
        assert(h.take(i + 1).drop_last() =~= h.take(i as int));
        assert(h.take(i + 1).last() == h[i as int]);
        if hs[i].0 != key {
            let a = hs[i].0.clone();
            let b = hs[i].1.clone();
            let ghost before = kept@;
            kept.push((a, b));
            assert(headers_view(kept@) =~= headers_view(before).push(h[i as int]));
        }
        i = i + 1;
    }
    assert(h.take(i as int) =~= h);
    let ghost before = kept@;
    let ghost k = key@;
    let ghost v = value@;
    kept.push((key, value));
    assert(headers_view(kept@) =~= headers_view(before).push((k, v)));
    *hs = kept;
}

/// No header name occurs twice.
pub fn headers_unique(hs: &Vec<(String, String)>) -> (r: bool)
    ensures
        r == keys_unique(headers_view(hs@)),
{
    let ghost h = headers_view(hs@);
    let mut j: usize = 0;
    while j < hs.len()
        invariant
            j <= hs.len(),
            h == headers_view(hs@),
            forall|a: int, b: int| 0 <= a < b < j ==> (#[trigger] h[a]).0 != (#[trigger] h[b]).0,
        decreases hs.len() - j,
    {
        let mut a: usize = 0;
        while a < j
            invariant
                a <= j < hs.len(),
                h == headers_view(hs@),
                forall|x: int| 0 <= x < a ==> (#[trigger] h[x]).0 != h[j as int].0,
            decreases j - a,
        {
            if hs[a].0 == hs[j].0 {
                assert(h[a as int].0 == h[j as int].0);
                return false;
            }
            a = a + 1;
        }
        j = j + 1;
    }
    true
}

/// The headers a response reads into never name the same header twice.
pub proof fn lemma_response_headers_unique(lines: Seq<Seq<char>>)
    ensures
        response_headers(lines) matches Some(hs) ==> keys_unique(hs),
    decreases lines.len(),
{
    if lines.len() > 0 {
        lemma_response_headers_unique(lines.drop_last());
        if let (Some(hs), Some((k, v))) = (response_headers(lines.drop_last()), header_pair(lines.last())) {
            lemma_set_header(hs, k, v);
        }
    }
}

/// A header written as a line, without its CRLF.
pub open spec fn header_line(h: (Seq<char>, Seq<char>)) -> Seq<char> {
    h.0 + colon_space() + h.1
}

proof fn lemma_find_after_name(name: Seq<char>, value: Seq<char>, i: int)
    requires
        0 <= i <= name.len(),
        forall|j: int| 0 <= j < name.len() ==> name[j] != ':',
    ensures
        find_from(header_line((name, value)), colon_space(), i) == Some(name.len() as int),
    decreases name.len() - i,
{
    let line = header_line((name, value));
    if i == name.len() {
        assert(line.subrange(i, i + 2) =~= colon_space());
    } else {
        assert(line[i] == name[i]);
        assert(line.subrange(i, i + 2)[0] != ':');
        lemma_find_after_name(name, value, i + 1);
    }
}

proof fn lemma_without_absent_key(hs: Seq<(Seq<char>, Seq<char>)>, k: Seq<char>)
    requires
        forall|j: int| 0 <= j < hs.len() ==> (#[trigger] hs[j]).0 != k,
    ensures
        without_key(hs, k) == hs,
    decreases hs.len(),
{
    if hs.len() > 0 {
        let d = hs.drop_last();
        assert forall|j: int| 0 <= j < d.len() implies (#[trigger] d[j]).0 != k by {
            assert(d[j] == hs[j]);
        }
        lemma_without_absent_key(d, k);
        assert(hs.last() == hs[hs.len() - 1]);
        assert(d.push(hs.last()) =~= hs);
    }
}

/// Headers with distinct names free of `:`, written as lines, read back as
/// the same headers in the same order.
pub proof fn lemma_headers_round_trip(hs: Seq<(Seq<char>, Seq<char>)>)
    requires
        keys_unique(hs),
        forall|k: int, j: int| 0 <= k < hs.len() && 0 <= j < hs[k].0.len() ==> hs[k].0[j] != ':',
    ensures
        response_headers(Seq::new(hs.len(), |k: int| header_line(hs[k]))) == Some(hs),
    decreases hs.len(),
{
    let lines = Seq::new(hs.len(), |k: int| header_line(hs[k]));
    if hs.len() == 0 {
        assert(lines =~= Seq::<Seq<char>>::empty());
    } else {
        let d = hs.drop_last();
        assert(keys_unique(d)) by {
            assert forall|a: int, b: int| 0 <= a < b < d.len() implies (#[trigger] d[a]).0 != (
            #[trigger] d[b]).0 by {
                assert(d[a] == hs[a] && d[b] == hs[b]);
            }
        }
        assert forall|k: int, j: int| 0 <= k < d.len() && 0 <= j < d[k].0.len() implies d[k].0[j]
            != ':' by {
            assert(d[k] == hs[k]);
        }
        lemma_headers_round_trip(d);
        assert(lines.drop_last() =~= Seq::new(d.len(), |k: int| header_line(d[k])));
        let last = hs[hs.len() - 1];
        assert(hs.last() == last);
        assert(lines.last() == header_line(last));
        assert forall|j: int| 0 <= j < last.0.len() implies last.0[j] != ':' by {}
        lemma_find_after_name(last.0, last.1, 0);
        let line = header_line(last);
        assert(line.take(last.0.len() as int) =~= last.0);
        assert(line.skip(last.0.len() as int + 2) =~= last.1);
        assert(header_pair(line) == Some((last.0, last.1)));
        assert forall|j: int| 0 <= j < d.len() implies (#[trigger] d[j]).0 != last.0 by {
            assert(d[j] == hs[j]);
        }
        lemma_without_absent_key(d, last.0);
        assert(d.push((last.0, last.1)) =~= hs);
    }
}

/// A copy of a header list.
fn copy_headers(hs: &Vec<(String, String)>) -> (r: Vec<(String, String)>)
    ensures
        headers_view(r@) == headers_view(hs@),
{
    let mut r: Vec<(String, String)> = Vec::with_capacity(hs.len());
    let mut k: usize = 0;
    while k < hs.len()
        invariant
            k <= hs.len(),
            r.len() == k,
            headers_view(r@) == headers_view(hs@).take(k as int),
        decreases hs.len() - k,
    {
        let a = hs[k].0.clone();
        let b = hs[k].1.clone();
        assert(a@ == hs@[k as int].0@ && b@ == hs@[k as int].1@);
        let ghost before = r@;
        r.push((a, b));
        assert forall|j: int| 0 <= j < k + 1 implies #[trigger] headers_view(r@)[j] == headers_view(
            hs@,
        )[j] by {
            if j < k {
                assert(r@[j] == before[j]);
                assert(headers_view(before)[j] == headers_view(hs@).take(k as int)[j]);
            }
        }
        assert(headers_view(r@) =~= headers_view(hs@).take(k + 1));
        k = k + 1;
    }
    assert(headers_view(hs@).take(k as int) =~= headers_view(hs@));
    r
}

/// Appends each header as a line `Name: Value` ended by CRLF.
fn push_headers(out: &mut String, hs: &Vec<(String, String)>)
    ensures
        final(out)@ == old(out)@ + header_block(headers_view(hs@)),
{
    let ghost h = headers_view(hs@);
    let mut k: usize = 0;
    assert(h.take(0) =~= Seq::<(Seq<char>, Seq<char>)>::empty());
    assert(out@ =~= old(out)@ + header_block(h.take(0)));
    while k < hs.len()
        invariant
            k <= hs.len(),
            h == headers_view(hs@),
            out@ == old(out)@ + header_block(h.take(k as int)),
        decreases hs.len() - k,
    {
        assert(h.take(k + 1).drop_last() =~= h.take(k as int));
        out.append(hs[k].0.as_str());
        push_char(out, ':');
        push_char(out, ' ');
        out.append(hs[k].1.as_str());
        push_char(out, '\r');
        push_char(out, '\n');
        assert(out@ =~= old(out)@ + header_block(h.take(k + 1)));
        k = k + 1;
    }
    assert(h.take(k as int) =~= h);
}

/// The `Content-Length` header name.
fn content_length_name() -> (r: String)
    ensures
        r@ == content_length_key(),
{
    let r = String::from_str("Content-Length");
    proof {
        reveal_strlit("Content-Length");
    }
    r
}

/// The byte length of `t` written in decimal.
fn length_text(t: &String) -> (r: String)
    ensures
        r@ == decimal(byte_len(t@) as nat),
{
    let mut r = String::new();
    push_decimal(&mut r, t.as_str().len());
    r
}

/// The body length a header list announces; see `body_length`.
fn body_length_of(hs: &Vec<(String, String)>) -> (r: Option<usize>)
    ensures
        r == body_length(headers_view(hs@)),
{
    let key = content_length_name();
    proof {
        lemma_key_index_bound(headers_view(hs@), key@);
    }
    match header_position(hs, &key) {
        None => Some(0),
        Some(i) => {
            let v = chars_of(hs[i].1.as_str());
            assert(v@.subrange(0, v.len() as int) =~= v@);
            parse_decimal_range(&v, 0, v.len())
        },
    }
}

/// A request: method, target (without its leading `/`), version, headers and body.
pub struct HTTPRequest {
    pub method: HTTPMethod,
    pub uri: String,
    pub version: String,
    pub headers: Vec<(String, String)>,
    pub body: String,
}

impl HTTPRequest {
    /// An HTTP/1.1 request with no header and an empty body.
    pub fn new(method: HTTPMethod, uri: String) -> (r: Self)
        ensures
            r.method == method,
            r.uri@ == uri@,
            r.version@ == http_version(),
            r.headers@.len() == 0,
            r.body@.len() == 0,
    {
        let version = String::from_str("HTTP/1.1");
        proof {
            reveal_strlit("HTTP/1.1");
        }
        HTTPRequest { method, uri, version, headers: Vec::new(), body: String::new() }
    }

    /// The request written out; see `request_text`. A GET carries no body.
    pub fn to_string(&self) -> (r: String)
        requires
            !(self.method == HTTPMethod::GET && self.body@.len() > 0),
            keys_unique(headers_view(self.headers@)),
        ensures
            r@ == request_text(
                self.method,
                self.uri@,
                self.version@,
                headers_view(self.headers@),
                self.body@,
            ),
    {
        let mut result = self.method.to_string();
        push_char(&mut result, ' ');
        push_char(&mut result, '/');
        result.append(self.uri.as_str());
        push_char(&mut result, ' ');
        result.append(self.version.as_str());
        push_char(&mut result, '\r');
        push_char(&mut result, '\n');
        let mut headers = copy_headers(&self.headers);
        if !self.body.as_str().is_empty() {
            put_header(&mut headers, content_length_name(), length_text(&self.body));
        }
        push_headers(&mut result, &headers);
        push_char(&mut result, '\r');
        push_char(&mut result, '\n');
        result.append(self.body.as_str());
        push_char(&mut result, '\r');
        push_char(&mut result, '\n');
        assert(result@ =~= request_text(
            self.method,
            self.uri@,
            self.version@,
            headers_view(self.headers@),
            self.body@,
        ));
        result
    }

    /// Reads a request head given as its lines without CRLF; see `request_parse`.
    pub fn parse(raw: Vec<String>) -> (r: Result<Self, HTTPResponseCode>)
        ensures
            match request_parse(lines_view(raw@)) {
                Ok((m, p, v, hs)) => r matches Ok(q) && q.method == m && q.uri@ == p && q.version@
                    == v && headers_view(q.headers@) == hs && q.body@.len() == 0,
                Err(e) => r matches Err(x) && x == e,
            },
    {
        let ghost lines = lines_view(raw@);
        if raw.len() == 0 {
            return Err(HTTPResponseCode::BadRequest);
        }
        assert(lines[0] == raw@[0]@);
        let line = match RequestLine::parse(&raw[0]) {
            Ok(l) => l,
            Err(e) => {
                return Err(e);
            },
        };
        let ghost rest = lines.drop_first();
        let mut headers: Vec<(String, String)> = Vec::new();
        let mut k: usize = 1;
        while k < raw.len()
            invariant
                1 <= k <= raw.len(),
                lines == lines_view(raw@),
                rest == lines.drop_first(),
                request_line_parse(lines[0]) == Ok::<
                    (HTTPMethod, Seq<char>, Seq<char>),
                    HTTPResponseCode,
                >((line.method, line.path@, line.version@)),
                headers.len() == k - 1,
                forall|j: int| 0 <= j < k - 1 ==> (#[trigger] header_pair(rest[j])) is Some,
                forall|j: int|
                    0 <= j < k - 1 ==> (#[trigger] headers_view(headers@)[j]) == header_pair(
                        rest[j],
                    )->0,
                keys_unique(headers_view(headers@)),
            decreases raw.len() - k,
        {
            assert(rest[k - 1] == raw@[k as int]@);
            let (key, value) = match read_header(&raw[k]) {
                Some(p) => p,
                None => {
                    assert(!(header_pair(rest[k - 1]) is Some));
                    return Err(HTTPResponseCode::BadRequest);
                },
            };
            match find_key(&headers, &key) {
                Some(d) => {
                    proof {
                        if forall|j: int|
                            0 <= j < rest.len() ==> (#[trigger] header_pair(rest[j])) is Some {
                            let hs = Seq::new(rest.len(), |j: int| header_pair(rest[j])->0);
                            assert(headers_view(headers@)[d as int] == header_pair(rest[d as int])->0);
                            assert(hs[d as int].0 == hs[k - 1].0);
                        }
                    }
                    return Err(HTTPResponseCode::BadRequest);
                },
                None => {},
            }
            let ghost before = headers_view(headers@);
            headers.push((key, value));
            assert(headers_view(headers@) =~= before.push(header_pair(rest[k - 1])->0));
            assert(keys_unique(headers_view(headers@))) by {
                assert forall|i: int, j: int| 0 <= i < j < headers_view(headers@).len() implies (
                #[trigger] headers_view(headers@)[i]).0 != (#[trigger] headers_view(headers@)[j]).0 by {
                    if j == k - 1 {
                        assert(headers_view(headers@)[i].0 == headers@[i].0@);
                    } else {
                        assert(headers_view(headers@)[i] == before[i]);
                        assert(headers_view(headers@)[j] == before[j]);
                    }
                }
            }
            k = k + 1;
        }
        let ghost hs = Seq::new(rest.len(), |j: int| header_pair(rest[j])->0);
        assert(headers_view(headers@) =~= hs);
        Ok(HTTPRequest {
            method: line.method,
            uri: line.path,
            version: line.version,
            headers,
            body: String::new(),
        })
    }

    /// The body length the headers announce: 0 without `Content-Length`,
    /// `None` when its value is not a number.
    pub fn expected_body_length(&self) -> (r: Option<usize>)
        ensures
            r == body_length(headers_view(self.headers@)),
    {
        body_length_of(&self.headers)
    }
}

/// A response: version, status, headers and content.
pub struct HTTPResponse {
    pub version: String,
    pub status: HTTPResponseCode,
    pub headers: Vec<(String, String)>,
    pub content: String,
}

impl HTTPResponse {
    /// An HTTP/1.1 response with the given status, no header and no content.
    pub fn new(code: HTTPResponseCode) -> (r: Self)
        ensures
            r.version@ == http_version(),
            r.status == code,
            r.headers@.len() == 0,
            r.content@.len() == 0,
    {
        let version = String::from_str("HTTP/1.1");
        proof {
            reveal_strlit("HTTP/1.1");
        }
        HTTPResponse { version, status: code, headers: Vec::new(), content: String::new() }
    }

    /// Reads a response head given as its lines without CRLF; see `response_parse`.
    pub fn parse(raw: Vec<String>) -> (r: Option<Self>)
        ensures
            match response_parse(lines_view(raw@)) {
                Some((v, st, hs)) => r matches Some(x) && x.version@ == v && x.status == st
                    && headers_view(x.headers@) == hs && x.content@.len() == 0,
                None => r is None,
            },
    {
        let ghost lines = lines_view(raw@);
        if raw.len() == 0 {
            return None;
        }
        assert(lines[0] == raw@[0]@);
        let v = chars_of(raw[0].as_str());
        let n = v.len();
        assert(v@.subrange(0, n as int) =~= v@);
        let sp = chars_of(" ");
        proof {
            reveal_strlit(" ");
        }
        assert(sp@ == space());
        let i = match split_at_first(&v, 0, n, &sp) {
            Some(i) => i,
            None => {
                return None;
            },
        };
        let j = match split_at_first(&v, i + 1, n, &sp) {
            Some(j) => j,
            None => {
                return None;
            },
        };
        let version = string_of(&v, 0, i);
        let code = string_of(&v, i + 1, j);
        let ghost rest = lines.drop_first();
        let mut headers: Vec<(String, String)> = Vec::new();
        let mut k: usize = 1;
        assert(rest.take(0) =~= Seq::<Seq<char>>::empty());
        while k < raw.len()
            invariant
                1 <= k <= raw.len(),
                lines == lines_view(raw@),
                rest == lines.drop_first(),
                response_headers(rest.take(k - 1)) == Some(headers_view(headers@)),
            decreases raw.len() - k,
        {
            assert(rest[k - 1] == raw@[k as int]@);
            assert(rest.take(k as int).drop_last() =~= rest.take(k - 1));
            assert(rest.take(k as int).last() == rest[k - 1]);
            let (key, value) = match read_header(&raw[k]) {
                Some(p) => p,
                None => {
                    proof {
                        lemma_response_headers_prefix(rest, k as int);
                    }
                    return None;
                },
            };
            put_header(&mut headers, key, value);
            k = k + 1;
        }
        assert(rest.take(k - 1) =~= rest);
        let status = match HTTPResponseCode::from_string(code) {
            Some(s) => s,
            None => {
                return None;
            },
        };
        Some(HTTPResponse { version, status, headers, content: String::new() })
    }

    /// The response written out; see `response_text`.
    pub fn as_string(&self) -> (r: String)
        requires
            keys_unique(headers_view(self.headers@)),
        ensures
            r@ == response_text(
                self.version@,
                self.status,
                headers_view(self.headers@),
                self.content@,
            ),
    {
        let mut result = String::new();
        result.append(self.version.as_str());
        push_char(&mut result, ' ');
        let code = self.status.to_code();
        push_decimal(&mut result, code as usize);
        push_char(&mut result, ' ');
        let reason = self.status.to_string();
        result.append(reason.as_str());
        push_char(&mut result, '\r');
        push_char(&mut result, '\n');
        let mut headers = copy_headers(&self.headers);
        put_header(&mut headers, content_length_name(), length_text(&self.content));
        push_headers(&mut result, &headers);
        if !self.content.as_str().is_empty() {
            push_char(&mut result, '\r');
            push_char(&mut result, '\n');
            result.append(self.content.as_str());
        }
        push_char(&mut result, '\r');
        push_char(&mut result, '\n');
        assert(result@ =~= response_text(
            self.version@,
            self.status,
            headers_view(self.headers@),
            self.content@,
        ));
        result
    }

    /// The body length the headers announce: 0 without `Content-Length`,
    /// `None` when its value is not a number.
    pub fn expected_body_length(&self) -> (r: Option<usize>)
        ensures
            r == body_length(headers_view(self.headers@)),
    {
        body_length_of(&self.headers)
    }
}

} // verus!
