//! A minimal HTTP/1.1 server's logic: reading one request from the bytes a
//! client has sent so far, routing it, and serialising the response. The
//! socket work stays with the caller, who feeds bytes in and writes bytes out.
use crate::text::{
    chars_of, from_utf8_lossy, utf8_lossy, dec, eq_ignore_ascii_case, eq_ignore_ascii_case_at, find_char, index_of,
    lemma_find_char, parse_usize, parsed_usize, push_dec, split_once, string_of,
    strip_line_end, strip_line_end_at, trim, trim_at,
};
use vstd::prelude::*;
use vstd::string::StringSliceAdditionalSpecFns;
use vstd::utf8::{decode_utf8, encode_utf8, valid_utf8};

verus! {

// ---------------------------------------------------------------------------
// Responses
// ---------------------------------------------------------------------------

/// Content type of plain-text answers.
pub const TEXT_PLAIN: &'static str = "text/plain; charset=utf-8";

/// Content type of HTML answers.
pub const TEXT_HTML: &'static str = "text/html; charset=utf-8";

/// Body of the 404 answer.
pub const NOT_FOUND_BODY: &'static str = "404 Not Found\n";

/// A response: status line, content type and a text body.
pub struct HttpResponse {
    pub status: u16,
    pub reason: &'static str,
    pub content_type: &'static str,
    pub body: String,
}

/// What a response says: status, reason, content type, body.
pub open spec fn response_view(r: HttpResponse) -> (u16, Seq<char>, Seq<char>, Seq<char>) {
    (r.status, r.reason@, r.content_type@, r.body@)
}

impl HttpResponse {
    /// 200 OK with a plain-text body.
    pub fn ok(body: String) -> (r: Self)
        ensures
            response_view(r) == (200u16, "OK"@, TEXT_PLAIN@, body@),
    {
        HttpResponse { status: 200, reason: "OK", content_type: TEXT_PLAIN, body }
    }

    /// 200 OK with an HTML body.
    pub fn html(body: String) -> (r: Self)
        ensures
            response_view(r) == (200u16, "OK"@, TEXT_HTML@, body@),
    {
        HttpResponse { status: 200, reason: "OK", content_type: TEXT_HTML, body }
    }

    /// 404 Not Found.
    pub fn not_found() -> (r: Self)
        ensures
            response_view(r) == (404u16, "Not Found"@, TEXT_PLAIN@, NOT_FOUND_BODY@),
    {
        HttpResponse {
            status: 404,
            reason: "Not Found",
            content_type: TEXT_PLAIN,
            body: String::from_str(NOT_FOUND_BODY),
        }
    }

    /// The response on the wire: status line, headers, blank line, body.
    pub fn to_bytes(&self) -> (out: Vec<u8>)
        ensures
            out@ == response_bytes(self.status, self.reason@, self.content_type@, self.body@),
    {
        let body_bytes = self.body.as_str().as_bytes();
        let mut head = String::from_str("HTTP/1.1 ");
        push_dec(&mut head, self.status as u64);
        head.append(" ");
        head.append(self.reason);
        head.append("\r\nContent-Type: ");
        head.append(self.content_type);
        head.append("\r\nContent-Length: ");
        push_dec(&mut head, body_bytes.len() as u64);
        head.append("\r\nConnection: close\r\n\r\n");
        let mut out = head.as_str().as_bytes_vec();
        out.extend_from_slice(body_bytes);
        proof {
            assert(head@ =~= response_head(
                self.status,
                self.reason@,
                self.content_type@,
                encode_utf8(self.body@).len(),
            ));
        }
        out
    }
}

/// Status line and headers of a response whose body is `body_len` bytes.
pub open spec fn response_head(status: u16, reason: Seq<char>, ctype: Seq<char>, body_len: nat) -> Seq<
    char,
> {
    "HTTP/1.1 "@ + dec(status as nat) + " "@ + reason + "\r\nContent-Type: "@ + ctype
        + "\r\nContent-Length: "@ + dec(body_len) + "\r\nConnection: close\r\n\r\n"@
}

/// A response's bytes: the head, then the body, both UTF-8.
pub open spec fn response_bytes(status: u16, reason: Seq<char>, ctype: Seq<char>, body: Seq<char>) -> Seq<
    u8,
> {
    encode_utf8(response_head(status, reason, ctype, encode_utf8(body).len())) + encode_utf8(body)
}

// ---------------------------------------------------------------------------
// Requests
// ---------------------------------------------------------------------------

/// A parsed request.
pub struct HttpRequest {
    pub method: String,
    pub path: String,
    pub version: String,
    pub headers: Vec<(String, String)>,
    pub body: Vec<u8>,
}

/// Name-value pairs as text.
pub open spec fn pairs_view(hs: Seq<(String, String)>) -> Seq<(Seq<char>, Seq<char>)> {
    hs.map_values(|p: (String, String)| (p.0@, p.1@))
}

impl View for HttpRequest {
    type V = (Seq<char>, Seq<char>, Seq<char>, Seq<(Seq<char>, Seq<char>)>, Seq<u8>);

    open spec fn view(&self) -> Self::V {
        (self.method@, self.path@, self.version@, pairs_view(self.headers@), self.body@)
    }
}

/// Why a request could not be read.
#[derive(Clone, Copy, Debug, PartialEq, Eq, Structural)]
pub enum RequestErrorKind {
    /// A line is not valid UTF-8.
    InvalidUtf8,
    /// The request line lacks a method, a path or a version.
    BadRequestLine,
    /// The input ended before the body that `Content-Length` announced.
    UnexpectedEof,
}

/// A refused request; `line` is the offending request line (without its
/// line end) for `BadRequestLine`, empty otherwise.
pub struct RequestError {
    pub kind: RequestErrorKind,
    pub line: String,
}

/// Where the line starting at `pos` ends (just past its `\n`, or at the end
/// of the input once it is complete); `Some(None)` when the complete input
/// has no byte left; `None` when more input is needed to tell.
pub open spec fn line_at(buf: Seq<u8>, pos: int, eof: bool) -> Option<Option<int>> {
    let rest = buf.subrange(pos, buf.len() as int);
    match find_char(rest, 10u8) {
        Some(i) => Some(Some(pos + i + 1)),
        None => if !eof {
            None
        } else if rest.len() == 0 {
            Some(None)
        } else {
            Some(Some(buf.len() as int))
        },
    }
}

/// Method, path and version of a request line split at its first two
/// spaces; `None` unless all three are non-empty.
pub open spec fn request_line_parts(t: Seq<char>) -> Option<(Seq<char>, Seq<char>, Seq<char>)> {
    match split_once(t, ' ') {
        None => None,
        Some((m, rest)) => match split_once(rest, ' ') {
            None => None,
            Some((p, v)) => if m.len() > 0 && p.len() > 0 && v.len() > 0 {
                Some((m, p, v))
            } else {
                None
            },
        },
    }
}

/// A header line's name and value, split at the first `:` and trimmed.
pub open spec fn header_of(t: Seq<char>) -> Option<(Seq<char>, Seq<char>)> {
    match split_once(t, ':') {
        Some((k, v)) => Some((trim(k), trim(v))),
        None => None,
    }
}

pub open spec fn prepend_header(
    h: Option<(Seq<char>, Seq<char>)>,
    x: Option<Result<(Seq<(Seq<char>, Seq<char>)>, int), ()>>,
) -> Option<Result<(Seq<(Seq<char>, Seq<char>)>, int), ()>> {
    match x {
        Some(Ok((hs, b))) => Some(
            Ok(
                (
                    match h {
                        Some(hh) => seq![hh] + hs,
                        None => hs,
                    },
                    b,
                ),
            ),
        ),
        other => other,
    }
}

pub open spec fn prepend_headers(
    acc: Seq<(Seq<char>, Seq<char>)>,
    x: Option<Result<(Seq<(Seq<char>, Seq<char>)>, int), ()>>,
) -> Option<Result<(Seq<(Seq<char>, Seq<char>)>, int), ()>> {
    match x {
        Some(Ok((hs, b))) => Some(Ok((acc + hs, b))),
        other => other,
    }
}

/// The header lines from `pos` up to the blank line (or the end of the
/// complete input): the headers they hold and where the body starts;
/// `Some(Err(()))` at a line that is not UTF-8; `None` when more input is
/// needed.
pub open spec fn scan_headers(buf: Seq<u8>, pos: int, eof: bool) -> Option<
    Result<(Seq<(Seq<char>, Seq<char>)>, int), ()>,
>
    decreases buf.len() - pos,
{
    match line_at(buf, pos, eof) {
        None => None,
        Some(None) => Some(Ok((Seq::empty(), pos))),
        Some(Some(next)) => if next <= pos || next > buf.len() {
            None
        } else {
            let bytes = buf.subrange(pos, next);
            if !valid_utf8(bytes) {
                Some(Err(()))
            } else {
                let t = strip_line_end(decode_utf8(bytes));
                if t.len() == 0 {
                    Some(Ok((Seq::empty(), next)))
                } else {
                    prepend_header(header_of(t), scan_headers(buf, next, eof))
                }
            }
        },
    }
}

/// The value of the first header named `Content-Length` (in any case) read
/// as a number, 0 when there is none or it does not parse.
pub open spec fn content_length_of(hs: Seq<(Seq<char>, Seq<char>)>) -> usize
    decreases hs.len(),
{
    if hs.len() == 0 {
        0
    } else if eq_ignore_ascii_case(hs[0].0, "Content-Length"@) {
        match parsed_usize(hs[0].1) {
            Some(n) => n,
            None => 0,
        }
    } else {
        content_length_of(hs.drop_first())
    }
}

/// A request as text and bytes: method, path, version, headers, body.
pub type RequestView = (Seq<char>, Seq<char>, Seq<char>, Seq<(Seq<char>, Seq<char>)>, Seq<u8>);

/// What reading a request from `buf` gives: `None` when more input is
/// needed; `Some(Ok(None))` when the complete input is empty;
/// `Some(Ok(Some(..)))` for a request; `Some(Err(..))` for a refused one.
pub open spec fn request_outcome(buf: Seq<u8>, eof: bool) -> Option<
    Result<Option<RequestView>, (RequestErrorKind, Seq<char>)>,
> {
    match line_at(buf, 0, eof) {
        None => None,
        Some(None) => Some(Ok(None)),
        Some(Some(n)) => {
            let bytes = buf.subrange(0, n);
            if !valid_utf8(bytes) {
                Some(Err((RequestErrorKind::InvalidUtf8, Seq::empty())))
            } else {
                let t = strip_line_end(decode_utf8(bytes));
                match request_line_parts(t) {
                    None => Some(Err((RequestErrorKind::BadRequestLine, t))),
                    Some((m, p, v)) => match scan_headers(buf, n, eof) {
                        None => None,
                        Some(Err(_)) => Some(Err((RequestErrorKind::InvalidUtf8, Seq::empty()))),
                        Some(Ok((hs, b))) => {
                            let cl = content_length_of(hs);
                            if cl == 0 {
                                Some(Ok(Some((m, p, v, hs, Seq::empty()))))
                            } else if buf.len() - b >= cl {
                                Some(Ok(Some((m, p, v, hs, buf.subrange(b, b + cl)))))
                            } else if !eof {
                                None
                            } else {
                                Some(Err((RequestErrorKind::UnexpectedEof, Seq::empty())))
                            }
                        },
                    },
                }
            }
        },
    }
}

/// A parse result as text and bytes.
pub open spec fn outcome_view(r: Option<Result<Option<HttpRequest>, RequestError>>) -> Option<
    Result<Option<RequestView>, (RequestErrorKind, Seq<char>)>,
> {
    match r {
        None => None,
        Some(Ok(None)) => Some(Ok(None)),
        Some(Ok(Some(q))) => Some(Ok(Some(q@))),
        Some(Err(e)) => Some(Err((e.kind, e.line@))),
    }
}

/// Where the line starting at `pos` ends, as `line_at` says.
fn next_line(buf: &[u8], pos: usize, eof: bool) -> (r: Option<Option<usize>>)
    requires
        pos <= buf@.len(),
    ensures
        line_at(buf@, pos as int, eof) == (match r {
            None => None,
            Some(None) => Some(None),
            Some(Some(n)) => Some(Some(n as int)),
        }),
        r matches Some(Some(n)) ==> pos < n <= buf@.len(),
{
    let ghost rest = buf@.subrange(pos as int, buf@.len() as int);
    proof {
        lemma_find_char(rest, 10u8);
    }
    let mut i = pos;
    while i < buf.len()
        invariant
            pos <= i <= buf@.len(),
            rest == buf@.subrange(pos as int, buf@.len() as int),
            forall|k: int| pos <= k < i ==> buf@[k] != 10u8,
            match find_char(rest, 10u8) {
                Some(j) => 0 <= j < rest.len() && rest[j] == 10u8 && forall|k: int|
                    0 <= k < j ==> rest[k] != 10u8,
                None => forall|k: int| 0 <= k < rest.len() ==> rest[k] != 10u8,
            },
        decreases buf@.len() - i,
    {
        if buf[i] == 10u8 {
            proof {
                assert(rest[i - pos] == 10u8);
                if let Some(j) = find_char(rest, 10u8) {
                    assert(!(j < i - pos)) by {
                        if j < i - pos {
                            assert(buf@[pos + j] != 10u8);
                        }
                    }
                }
            }
            return Some(Some(i + 1));
        }
        i = i + 1;
    }
    proof {
        if let Some(j) = find_char(rest, 10u8) {
            assert(buf@[pos + j] == 10u8);
        }
    }
    if !eof {
        None
    } else if pos == buf.len() {
        Some(None)
    } else {
        Some(Some(buf.len()))
    }
}

/// The characters of `buf[from..to]` when those bytes are UTF-8.
fn line_chars(buf: &[u8], from: usize, to: usize) -> (r: Option<Vec<char>>)
    requires
        from <= to <= buf@.len(),
    ensures
        r is Some <==> valid_utf8(buf@.subrange(from as int, to as int)),
        r matches Some(v) ==> v@ == decode_utf8(buf@.subrange(from as int, to as int)),
{
    match crate::text::utf8_str(&buf[from..to]) {
        None => None,
        Some(s) => {
            proof {
                vstd::utf8::encode_utf8_decode_utf8(s@);
            }
            Some(chars_of(s))
        },
    }
}

/// Splits `line[..e]` as `request_line_parts` says.
fn split_request_line(line: &[char], e: usize) -> (r: Option<(String, String, String)>)
    requires
        e <= line@.len(),
    ensures
        match request_line_parts(line@.take(e as int)) {
            Some((m, p, v)) => r matches Some(t) && t.0@ == m && t.1@ == p && t.2@ == v,
            None => r is None,
        },
{
    let ghost t = line@.take(e as int);
    assert(line@.subrange(0, e as int) =~= t);
    proof {
        lemma_find_char(t, ' ');
    }
    match index_of(line, 0, e, ' ') {
        None => None,
        Some(i) => {
            assert(line@.subrange(i + 1, e as int) =~= t.skip(i + 1));
            proof {
                lemma_find_char(t.skip(i + 1), ' ');
            }
            match index_of(line, i + 1, e, ' ') {
                None => None,
                Some(j) => {
                    assert(line@.subrange(0, i as int) =~= t.take(i as int));
                    assert(line@.subrange(i + 1, j as int) =~= t.skip(i + 1).take(j - (i + 1)));
                    assert(line@.subrange(j + 1, e as int) =~= t.skip(i + 1).skip(j - i));
                    if i == 0 || j == i + 1 || j + 1 == e {
                        None
                    } else {
                        Some(
                            (
                                string_of(line, 0, i),
                                string_of(line, i + 1, j),
                                string_of(line, j + 1, e),
                            ),
                        )
                    }
                },
            }
        },
    }
}

/// A header line `line[..e]` split as `header_of` says.
fn split_header_line(line: &[char], e: usize) -> (r: Option<(String, String)>)
    requires
        e <= line@.len(),
    ensures
        match header_of(line@.take(e as int)) {
            Some((k, v)) => r matches Some(h) && h.0@ == k && h.1@ == v,
            None => r is None,
        },
{
    let ghost t = line@.take(e as int);
    assert(line@.subrange(0, e as int) =~= t);
    proof {
        lemma_find_char(t, ':');
    }
    match index_of(line, 0, e, ':') {
        None => None,
        Some(i) => {
            assert(line@.subrange(0, i as int) =~= t.take(i as int));
            assert(line@.subrange(i + 1, e as int) =~= t.skip(i + 1));
            let (a, b) = trim_at(line, 0, i);
            let (c, d) = trim_at(line, i + 1, e);
            Some((string_of(line, a, b), string_of(line, c, d)))
        },
    }
}

/// The announced body length, as `content_length_of` says.
pub fn content_length(headers: &[(String, String)]) -> (n: usize)
    ensures
        n == content_length_of(pairs_view(headers@)),
{
    let name = chars_of("Content-Length");
    let ghost hv = pairs_view(headers@);
    let mut i: usize = 0;
    assert(hv.skip(0) =~= hv);
    while i < headers.len()
        invariant
            i <= headers@.len(),
            hv == pairs_view(headers@),
            name@ == "Content-Length"@,
            content_length_of(hv) == content_length_of(hv.skip(i as int)),
        decreases headers@.len() - i,
    {
        assert(hv.skip(i as int).drop_first() =~= hv.skip(i + 1));
        let key = chars_of(headers[i].0.as_str());
        if eq_ignore_ascii_case_at(&key, 0, key.len(), &name) {
            assert(key@.subrange(0, key@.len() as int) =~= key@);
            return match parse_usize(headers[i].1.as_str()) {
                Ok(n) => n,
                Err(_) => 0,
            };
        }
        assert(key@.subrange(0, key@.len() as int) =~= key@);
        i = i + 1;
    }
    0
}

/// Reads one request from the bytes received so far; `eof` says whether
/// the client has finished sending. Lines end at `\n` (a trailing `\r` is
/// dropped); the request line is split into method, path and version at
/// its first two spaces; header lines follow up to a blank line, each split
/// at its first `:` with both sides trimmed (a line without `:` is
/// skipped); then `Content-Length` bytes of body. Returns `None` while the
/// bytes received cannot decide the outcome yet.
pub fn parse_request(buf: &[u8], eof: bool) -> (r: Option<
    Result<Option<HttpRequest>, RequestError>,
>)
    ensures
        outcome_view(r) == request_outcome(buf@, eof),
{
    let n = match next_line(buf, 0, eof) {
        None => {
            return None;
        },
        Some(None) => {
            return Some(Ok(None));
        },
        Some(Some(n)) => n,
    };
    let line = match line_chars(buf, 0, n) {
        None => {
            return Some(Err(RequestError { kind: RequestErrorKind::InvalidUtf8, line: String::new() }));
        },
        Some(v) => v,
    };
    let e = strip_line_end_at(&line, 0, line.len());
    assert(line@.subrange(0, line@.len() as int) =~= line@);
    assert(line@.subrange(0, e as int) =~= line@.take(e as int));
    let (method, path, version) = match split_request_line(&line, e) {
        None => {
            return Some(
                Err(RequestError { kind: RequestErrorKind::BadRequestLine, line: string_of(&line, 0, e) }),
            );
        },
        Some(t) => t,
    };
    let mut headers: Vec<(String, String)> = Vec::new();
    let mut pos = n;
    loop
        invariant_except_break
            scan_headers(buf@, n as int, eof) == prepend_headers(
                pairs_view(headers@),
                scan_headers(buf@, pos as int, eof),
            ),
        invariant
            n <= pos <= buf@.len(),
            0 < n,
            line_at(buf@, 0, eof) == Some(Some(n as int)),
            valid_utf8(buf@.subrange(0, n as int)),
            request_line_parts(strip_line_end(decode_utf8(buf@.subrange(0, n as int)))) == Some(
                (method@, path@, version@),
            ),
        ensures
            n <= pos <= buf@.len(),
            scan_headers(buf@, n as int, eof) == Some(
                Ok::<_, ()>((pairs_view(headers@), pos as int)),
            ),
        decreases buf@.len() - pos,
    {
        let ghost acc = pairs_view(headers@);
        match next_line(buf, pos, eof) {
            None => {
                return None;
            },
            Some(None) => {
                assert(acc + Seq::empty() =~= acc);
                break ;
            },
            Some(Some(next)) => {
                let l = match line_chars(buf, pos, next) {
                    None => {
                        return Some(
                            Err(RequestError { kind: RequestErrorKind::InvalidUtf8, line: String::new() }),
                        );
                    },
                    Some(v) => v,
                };
                let le = strip_line_end_at(&l, 0, l.len());
                assert(l@.subrange(0, l@.len() as int) =~= l@);
                assert(l@.subrange(0, le as int) =~= l@.take(le as int));
                if le == 0 {
                    assert(acc + Seq::empty() =~= acc);
                    pos = next;
                    break ;
                }
                match split_header_line(&l, le) {
                    Some(h) => {
                        headers.push(h);
                        proof {
                            assert(pairs_view(headers@) =~= acc.push((h.0@, h.1@)));
                            if let Some(Ok((hs, b))) = scan_headers(buf@, next as int, eof) {
                                assert(acc + (seq![(h.0@, h.1@)] + hs) =~= acc.push((h.0@, h.1@))
                                    + hs);
                            }
                        }
                    },
                    None => {},
                }
                pos = next;
            },
        }
    }
    let cl = content_length(headers.as_slice());
    let mut body: Vec<u8> = Vec::new();
    if cl > 0 {
        if buf.len() - pos >= cl {
            body.extend_from_slice(&buf[pos..pos + cl]);
            assert(body@ =~= buf@.subrange(pos as int, pos + cl));
        } else if !eof {
            return None;
        } else {
            return Some(Err(RequestError { kind: RequestErrorKind::UnexpectedEof, line: String::new() }));
        }
    }
    let req = HttpRequest { method, path, version, headers, body };
    assert(cl == 0 ==> req.body@ =~= Seq::<u8>::empty());
    Some(Ok(Some(req)))
}

// ---------------------------------------------------------------------------
// Routing
// ---------------------------------------------------------------------------

/// The start page.
pub const HOME_PAGE: &'static str = "<!doctype html><html><head><meta charset=\"utf-8\"><title>net-02</title></head><body><h1>Hello from net-02!</h1><p>これは Rust で手書きした HTTP サーバーです。</p><ul><li><a href=\"/hello\">/hello</a></li><li><a href=\"/headers\">/headers</a> — 受信したヘッダーを表示</li></ul></body></html>";

/// The form page, which posts to `/submit`.
pub const FORM_PAGE: &'static str = "<!doctype html><html><head><meta charset=\"utf-8\"><title>Form</title></head><body><h1>フォーム</h1><form method=\"POST\" action=\"/submit\"><label>名前: <input type=\"text\" name=\"name\"></label><br><label>年齢: <input type=\"number\" name=\"age\"></label><br><button type=\"submit\">送信</button></form></body></html>";

/// Body of `/hello`.
pub const HELLO_BODY: &'static str = "Hello, world!\n";

/// First line of the `/headers` listing.
pub const HEADERS_TITLE: &'static str = "受信したヘッダー:\n";

/// First line of the `/submit` listing.
pub const FORM_TITLE: &'static str = "受け取ったフォームデータ:\n";

/// Body of the 400 answer to `/echo` without `msg`.
pub const ECHO_MISSING_BODY: &'static str = "400 Bad Request: msg パラメータがありません\n";

/// `s` cut at every `c`, as `str::split` cuts it (always at least one piece).
pub open spec fn split_on(s: Seq<char>, c: char) -> Seq<Seq<char>>
    decreases s.len(),
{
    match find_char(s, c) {
        Some(i) => if 0 <= i < s.len() {
            seq![s.take(i)] + split_on(s.skip(i + 1), c)
        } else {
            seq![s]
        },
        None => seq![s],
    }
}

/// The pieces that hold an `=`, each split at its first `=`.
pub open spec fn pairs_of(pieces: Seq<Seq<char>>) -> Seq<(Seq<char>, Seq<char>)>
    decreases pieces.len(),
{
    if pieces.len() == 0 {
        Seq::empty()
    } else {
        let rest = pairs_of(pieces.drop_first());
        match split_once(pieces[0], '=') {
            Some(kv) => seq![kv] + rest,
            None => rest,
        }
    }
}

/// The `key=value` pairs of a query string or form body: `&`-separated
/// pieces, those without `=` skipped.
pub open spec fn form_pairs_of(s: Seq<char>) -> Seq<(Seq<char>, Seq<char>)> {
    pairs_of(split_on(s, '&'))
}

/// The value of the first pair named `key`.
pub open spec fn value_of(ps: Seq<(Seq<char>, Seq<char>)>, key: Seq<char>) -> Option<Seq<char>>
    decreases ps.len(),
{
    if ps.len() == 0 {
        None
    } else if ps[0].0 == key {
        Some(ps[0].1)
    } else {
        value_of(ps.drop_first(), key)
    }
}

/// One `  name: value` line per pair.
pub open spec fn listing(ps: Seq<(Seq<char>, Seq<char>)>) -> Seq<char>
    decreases ps.len(),
{
    if ps.len() == 0 {
        Seq::empty()
    } else {
        listing(ps.drop_last()) + "  "@ + ps.last().0 + ": "@ + ps.last().1 + "\n"@
    }
}

/// Splits a query string or form body into its `key=value` pairs.
pub fn form_pairs(s: &str) -> (out: Vec<(String, String)>)
    ensures
        pairs_view(out@) == form_pairs_of(s@),
{
    let chars = chars_of(s);
    let mut out: Vec<(String, String)> = Vec::new();
    let mut pos: usize = 0;
    assert(chars@.skip(0) =~= chars@);
    loop
        invariant_except_break
            form_pairs_of(s@) == pairs_view(out@) + pairs_of(split_on(chars@.skip(pos as int), '&')),
        invariant
            pos <= chars@.len(),
            chars@ == s@,
        ensures
            form_pairs_of(s@) == pairs_view(out@),
        decreases chars@.len() - pos,
    {
        let ghost rest = chars@.skip(pos as int);
        let ghost acc = pairs_view(out@);
        assert(chars@.subrange(pos as int, chars@.len() as int) =~= rest);
        proof {
            crate::text::lemma_find_char(rest, '&');
        }
        let found = index_of(&chars, pos, chars.len(), '&');
        let end = match found {
            Some(e) => e,
            None => chars.len(),
        };
        let ghost piece = chars@.subrange(pos as int, end as int);
        let ghost tail: Seq<Seq<char>> = match found {
            Some(e) => split_on(chars@.skip(e + 1), '&'),
            None => Seq::empty(),
        };
        proof {
            if let Some(e) = found {
                assert(rest.take(e - pos) =~= piece);
                assert(rest.skip(e - pos + 1) =~= chars@.skip(e + 1));
            } else {
                assert(rest =~= piece);
            }
            assert(split_on(rest, '&') =~= seq![piece] + tail);
            assert((seq![piece] + tail).drop_first() =~= tail);
        }
        match index_of(&chars, pos, end, '=') {
            Some(q) => {
                proof {
                    crate::text::lemma_find_char(piece, '=');
                    assert(chars@.subrange(pos as int, q as int) =~= piece.take(q - pos));
                    assert(chars@.subrange(q + 1, end as int) =~= piece.skip(q - pos + 1));
                }
                let k = string_of(&chars, pos, q);
                let v = string_of(&chars, q + 1, end);
                out.push((k, v));
                proof {
                    assert(pairs_view(out@) =~= acc.push((k@, v@)));
                    assert(acc + (seq![(k@, v@)] + pairs_of(tail)) =~= acc.push((k@, v@))
                        + pairs_of(tail));
                }
            },
            None => {},
        }
        match found {
            Some(e) => {
                pos = e + 1;
            },
            None => {
                assert(pairs_view(out@) + Seq::empty() =~= pairs_view(out@));
                break ;
            },
        }
    }
    out
}

/// The value of the first pair named `key`.
pub fn find_value(pairs: &[(String, String)], key: &str) -> (r: Option<String>)
    ensures
        match value_of(pairs_view(pairs@), key@) {
            Some(v) => r matches Some(s) && s@ == v,
            None => r is None,
        },
{
    let ghost pv = pairs_view(pairs@);
    let wanted = String::from_str(key);
    let mut i: usize = 0;
    assert(pv.skip(0) =~= pv);
    while i < pairs.len()
        invariant
            i <= pairs@.len(),
            pv == pairs_view(pairs@),
            wanted@ == key@,
            value_of(pv, key@) == value_of(pv.skip(i as int), key@),
        decreases pairs@.len() - i,
    {
        assert(pv.skip(i as int).drop_first() =~= pv.skip(i + 1));
        if pairs[i].0 == wanted {
            return Some(pairs[i].1.clone());
        }
        i = i + 1;
    }
    None
}

/// Appends one `  name: value` line per pair to `out`.
pub fn push_listing(out: &mut String, pairs: &[(String, String)])
    ensures
        final(out)@ == old(out)@ + listing(pairs_view(pairs@)),
{
    let ghost pv = pairs_view(pairs@);
    let mut i: usize = 0;
    assert(pv.take(0) =~= Seq::<(Seq<char>, Seq<char>)>::empty());
    assert(old(out)@ + Seq::empty() =~= old(out)@);
    while i < pairs.len()
        invariant
            i <= pairs@.len(),
            pv == pairs_view(pairs@),
            out@ == old(out)@ + listing(pv.take(i as int)),
        decreases pairs@.len() - i,
    {
        assert(pv.take(i + 1).drop_last() =~= pv.take(i as int));
        out.append("  ");
        out.append(pairs[i].0.as_str());
        out.append(": ");
        out.append(pairs[i].1.as_str());
        out.append("\n");
        i = i + 1;
    }
    assert(pv.take(pairs@.len() as int) =~= pv);
}

/// The answer to a request from `client_ip`, `now` seconds after the Unix
/// epoch: status, reason, content type and body.
pub open spec fn route_view(req: RequestView, client_ip: Seq<char>, now: u64) -> (
    u16,
    Seq<char>,
    Seq<char>,
    Seq<char>,
) {
    let method = req.0;
    let (path, query) = match split_once(req.1, '?') {
        Some(pq) => pq,
        None => (req.1, Seq::empty()),
    };
    let get = method == "GET"@;
    if get && path == "/"@ {
        (200u16, "OK"@, TEXT_HTML@, HOME_PAGE@)
    } else if get && path == "/hello"@ {
        (200u16, "OK"@, TEXT_PLAIN@, HELLO_BODY@)
    } else if get && path == "/headers"@ {
        (200u16, "OK"@, TEXT_PLAIN@, HEADERS_TITLE@ + listing(req.3))
    } else if get && path == "/time"@ {
        (200u16, "OK"@, TEXT_PLAIN@, "UNIX time: "@ + dec(now as nat) + "秒\n"@)
    } else if get && path == "/ip"@ {
        (200u16, "OK"@, TEXT_PLAIN@, "クライアントのIPアドレス: "@ + client_ip + "\n"@)
    } else if get && path == "/echo"@ {
        match value_of(form_pairs_of(query), "msg"@) {
            Some(m) => (200u16, "OK"@, TEXT_PLAIN@, m + "\n"@),
            None => (400u16, "Bad Request"@, TEXT_PLAIN@, ECHO_MISSING_BODY@),
        }
    } else if get && path == "/form"@ {
        (200u16, "OK"@, TEXT_HTML@, FORM_PAGE@)
    } else if method == "POST"@ && path == "/submit"@ {
        (200u16, "OK"@, TEXT_PLAIN@, FORM_TITLE@ + listing(form_pairs_of(utf8_lossy(req.4))))
    } else {
        (404u16, "Not Found"@, TEXT_PLAIN@, NOT_FOUND_BODY@)
    }
}

/// Answers a request. The path is matched without its query string;
/// `/echo` reads `msg` from the query and `/submit` lists the posted form
/// fields (the body read as UTF-8, invalid sequences replaced).
/// `client_ip` and `now` (seconds since the Unix epoch) are what `/ip` and
/// `/time` report.
pub fn route(req: &HttpRequest, client_ip: &str, now: u64) -> (r: HttpResponse)
    ensures
        response_view(r) == route_view(req@, client_ip@, now),
{
    let chars = chars_of(req.path.as_str());
    proof {
        crate::text::lemma_find_char(chars@, '?');
    }
    let (path, query) = match index_of(&chars, 0, chars.len(), '?') {
        Some(i) => {
            assert(chars@.subrange(0, chars@.len() as int) =~= chars@);
            assert(chars@.subrange(0, i as int) =~= chars@.take(i as int));
            assert(chars@.subrange(i + 1, chars@.len() as int) =~= chars@.skip(i + 1));
            (string_of(&chars, 0, i), string_of(&chars, i + 1, chars.len()))
        },
        None => {
            assert(chars@.subrange(0, chars@.len() as int) =~= chars@);
            (string_of(&chars, 0, chars.len()), String::new())
        },
    };
    let get = req.method == String::from_str("GET");
    if get && path == String::from_str("/") {
        return HttpResponse::html(String::from_str(HOME_PAGE));
    }
    if get && path == String::from_str("/hello") {
        return HttpResponse::ok(String::from_str(HELLO_BODY));
    }
    if get && path == String::from_str("/headers") {
        let mut body = String::from_str(HEADERS_TITLE);
        push_listing(&mut body, req.headers.as_slice());
        return HttpResponse::ok(body);
    }
    if get && path == String::from_str("/time") {
        let mut body = String::from_str("UNIX time: ");
        push_dec(&mut body, now);
        body.append("秒\n");
        return HttpResponse::ok(body);
    }
    if get && path == String::from_str("/ip") {
        let mut body = String::from_str("クライアントのIPアドレス: ");
        body.append(client_ip);
        body.append("\n");
        return HttpResponse::ok(body);
    }
    if get && path == String::from_str("/echo") {
        let pairs = form_pairs(query.as_str());
        return match find_value(pairs.as_slice(), "msg") {
            Some(m) => {
                let mut body = m;
                body.append("\n");
                HttpResponse::ok(body)
            },
            None => HttpResponse {
                status: 400,
                reason: "Bad Request",
                content_type: TEXT_PLAIN,
                body: String::from_str(ECHO_MISSING_BODY),
            },
        };
    }
    if get && path == String::from_str("/form") {
        return HttpResponse::html(String::from_str(FORM_PAGE));
    }
    if req.method == String::from_str("POST") && path == String::from_str("/submit") {
        let text = from_utf8_lossy(req.body.as_slice());
        let pairs = form_pairs(text.as_str());
        let mut body = String::from_str(FORM_TITLE);
        push_listing(&mut body, pairs.as_slice());
        return HttpResponse::ok(body);
    }
    HttpResponse::not_found()
}

} // verus!
