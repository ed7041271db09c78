//! Rules of the HTTP file server: URL coding, path safety, content types,
//! request parsing and routing, and the exact response texts.

use vstd::prelude::*;
use crate::text::{
    ascii_lower, before_char, chars_of, decimal, eq_ignore_ascii_case_bytes,
    parse_u64, parse_u64_spec, push_char, push_str, slice_vec, split_pieces, split_vec, string_of,
    str_eq_ignore_ascii_case, to_ascii_lower, to_upper, trim_spec, trim_end_spec, trim_vec,
    u64_decimal, unicode_upper, utf8_string, vec_eq_str, Sep, Trim,
};

verus! {

// ---------------------------------------------------------------------------
// URL coding
// ---------------------------------------------------------------------------

/// The value of a hexadecimal digit byte.
pub open spec fn hex_val_spec(b: u8) -> Option<u8> {
    if 48 <= b && b <= 57 {
        Some((b - 48) as u8)
    } else if 97 <= b && b <= 102 {
        Some((b - 97 + 10) as u8)
    } else if 65 <= b && b <= 70 {
        Some((b - 65 + 10) as u8)
    } else {
        None
    }
}

/// The value of a hexadecimal digit byte.
pub fn hex_val(b: u8) -> (r: Option<u8>)
    ensures
        r == hex_val_spec(b),
{
    if 48 <= b && b <= 57 {
        Some(b - 48)
    } else if 97 <= b && b <= 102 {
        Some(b - 97 + 10)
    } else if 65 <= b && b <= 70 {
        Some(b - 65 + 10)
    } else {
        None
    }
}

/// Percent-decoding of `b[i..]`: `%XY` becomes the byte `0xXY`; a `%`
/// without two hex digits after it fails.
pub open spec fn pct_decode(b: Seq<u8>, i: int) -> Option<Seq<u8>>
    decreases b.len() - i,
    when 0 <= i <= b.len()
{
    if i >= b.len() {
        Some(Seq::empty())
    } else if b[i] == 37 {
        if i + 2 >= b.len() {
            None
        } else {
            match (hex_val_spec(b[i + 1]), hex_val_spec(b[i + 2])) {
                (Some(h), Some(l)) => match pct_decode(b, i + 3) {
                    Some(r) => Some(seq![(h * 16 + l) as u8] + r),
                    None => None,
                },
                _ => None,
            }
        }
    } else {
        match pct_decode(b, i + 1) {
            Some(r) => Some(seq![b[i]] + r),
            None => None,
        }
    }
}

/// The text a URL component decodes to: percent-decoded bytes that must
/// form valid UTF-8.
pub open spec fn url_decode_spec(s: Seq<char>) -> Option<Seq<char>> {
    match pct_decode(vstd::utf8::encode_utf8(s), 0) {
        Some(o) => if vstd::utf8::valid_utf8(o) {
            Some(vstd::utf8::decode_utf8(o))
        } else {
            None
        },
        None => None,
    }
}

/// Percent-decodes a URL component; `None` for a broken escape or text that
/// is not UTF-8.
pub fn url_decode(s: &str) -> (r: Option<String>)
    ensures
        match r {
            Some(t) => url_decode_spec(s@) == Some(t@),
            None => url_decode_spec(s@) is None,
        },
{
    let bytes = s.as_bytes();
    let mut out: Vec<u8> = Vec::new();
    let mut i: usize = 0;
    let ghost goal = pct_decode(bytes@, 0);
    assert(out@ + Seq::<u8>::empty() == out@);
    while i < bytes.len()
        invariant
            i <= bytes@.len(),
            bytes@ == vstd::utf8::encode_utf8(s@),
            goal == pct_decode(bytes@, 0),
            goal == match pct_decode(bytes@, i as int) {
                Some(r) => Some(out@ + r),
                None => None,
            },
        decreases bytes@.len() - i,
    {
        if bytes[i] == 37 {
            if bytes.len() - i <= 2 {
                return None;
            }
            let hi = match hex_val(bytes[i + 1]) {
                Some(h) => h,
                None => return None,
            };
            let lo = match hex_val(bytes[i + 2]) {
                Some(l) => l,
                None => return None,
            };
            proof {
                match pct_decode(bytes@, i + 3) {
                    Some(r) => {
                        assert(out@ + (seq![(hi * 16 + lo) as u8] + r) =~= out@.push(
                            (hi * 16 + lo) as u8,
                        ) + r);
                    },
                    None => {},
                }
            }
            out.push(hi * 16 + lo);
            i = i + 3;
        } else {
            let c = bytes[i];
            proof {
                match pct_decode(bytes@, i + 1) {
                    Some(r) => {
                        assert(out@ + (seq![c] + r) =~= out@.push(c) + r);
                    },
                    None => {},
                }
            }
            out.push(c);
            i = i + 1;
        }
    }
    assert(out@ + Seq::<u8>::empty() =~= out@);
    utf8_string(out)
}

/// Bytes kept as they are by `url_encode`.
pub open spec fn url_safe(b: u8) -> bool {
    (48 <= b && b <= 57) || (65 <= b && b <= 90) || (97 <= b && b <= 122) || b == 45 || b == 95
        || b == 46 || b == 126 || b == 47
}

/// Upper-case hex digit of `d < 16`.
pub open spec fn hex_upper(d: int) -> char {
    if d < 10 {
        (48 + d) as char
    } else {
        (55 + d) as char
    }
}

/// Encoding of one byte: itself when URL-safe, else `%XY`.
pub open spec fn url_encode_byte(b: u8) -> Seq<char> {
    if url_safe(b) {
        seq![b as char]
    } else {
        seq!['%', hex_upper((b / 16) as int), hex_upper((b % 16) as int)]
    }
}

/// Percent-encoding of a byte string.
pub open spec fn url_encode_bytes(b: Seq<u8>) -> Seq<char>
    decreases b.len(),
{
    if b.len() == 0 {
        Seq::empty()
    } else {
        url_encode_bytes(b.drop_last()) + url_encode_byte(b.last())
    }
}

fn hex_digit(d: u8) -> (c: char)
    requires
        d < 16,
    ensures
        c == hex_upper(d as int),
{
    if d < 10 {
        crate::text::char_from_ascii((48 + d) as u32)
    } else {
        crate::text::char_from_ascii((55 + d) as u32)
    }
}

/// Percent-encodes every byte of `s` except ASCII letters, digits and
/// `- _ . ~ /`.
pub fn url_encode(s: &str) -> (out: String)
    ensures
        out@ == url_encode_bytes(vstd::utf8::encode_utf8(s@)),
{
    let bytes = s.as_bytes();
    let mut out = String::new();
    for i in 0..bytes.len()
        invariant
            out@ == url_encode_bytes(bytes@.take(i as int)),
    {
        assert(bytes@.take(i + 1).drop_last() == bytes@.take(i as int));
        let b = bytes[i];
        if (48 <= b && b <= 57) || (65 <= b && b <= 90) || (97 <= b && b <= 122) || b == 45 || b
            == 95 || b == 46 || b == 126 || b == 47 {
            push_char(&mut out, crate::text::char_from_ascii(b as u32));
        } else {
            push_char(&mut out, '%');
            push_char(&mut out, hex_digit(b / 16));
            push_char(&mut out, hex_digit(b % 16));
        }
        assert(out@ =~= url_encode_bytes(bytes@.take(i + 1)));
    }
    assert(bytes@.take(bytes@.len() as int) == bytes@);
    out
}

/// HTML escaping of one character (`&`, `<`, `>`).
pub open spec fn html_escape_char(c: char) -> Seq<char> {
    if c == '&' {
        "&amp;"@
    } else if c == '<' {
        "&lt;"@
    } else if c == '>' {
        "&gt;"@
    } else {
        seq![c]
    }
}

/// HTML escaping of a text.
pub open spec fn html_escape_spec(s: Seq<char>) -> Seq<char>
    decreases s.len(),
{
    if s.len() == 0 {
        Seq::empty()
    } else {
        html_escape_spec(s.drop_last()) + html_escape_char(s.last())
    }
}

/// Escapes `&`, `<` and `>` for HTML text.
pub fn html_escape(s: &str) -> (out: String)
    ensures
        out@ == html_escape_spec(s@),
{
    let v = chars_of(s);
    let mut out = String::new();
    for i in 0..v.len()
        invariant
            out@ == html_escape_spec(v@.take(i as int)),
    {
        assert(v@.take(i + 1).drop_last() == v@.take(i as int));
        let c = v[i];
        if c == '&' {
            push_str(&mut out, "&amp;");
        } else if c == '<' {
            push_str(&mut out, "&lt;");
        } else if c == '>' {
            push_str(&mut out, "&gt;");
        } else {
            push_char(&mut out, c);
        }
        assert(out@ =~= html_escape_spec(v@.take(i + 1)));
    }
    assert(v@.take(v@.len() as int) == v@);
    out
}

// ---------------------------------------------------------------------------
// Response texts
// ---------------------------------------------------------------------------

/// Reason phrase of a status code (unknown codes read `OK`).
pub open spec fn reason_spec(status: int) -> Seq<char> {
    if status == 200 {
        "OK"@
    } else if status == 201 {
        "Created"@
    } else if status == 400 {
        "Bad Request"@
    } else if status == 404 {
        "Not Found"@
    } else if status == 405 {
        "Method Not Allowed"@
    } else if status == 413 {
        "Request Too Large"@
    } else if status == 500 {
        "Internal Server Error"@
    } else {
        "OK"@
    }
}

/// Reason phrase of a status code.
pub fn reason(status: u16) -> (r: &'static str)
    ensures
        r@ == reason_spec(status as int),
{
    match status {
        200 => "OK",
        201 => "Created",
        400 => "Bad Request",
        404 => "Not Found",
        405 => "Method Not Allowed",
        413 => "Request Too Large",
        500 => "Internal Server Error",
        _ => "OK",
    }
}

/// The head of a response with a body of `len` bytes.
pub open spec fn response_head_spec(status: int, ctype: Seq<char>, len: nat) -> Seq<char> {
    "HTTP/1.1 "@ + decimal(status as nat) + " "@ + reason_spec(status) + "\r\nContent-Type: "@
        + ctype + "\r\nContent-Length: "@ + decimal(len) + "\r\nConnection: close\r\n\r\n"@
}

/// The head of a response with a body of `len` bytes.
pub fn response_head(status: u16, ctype: &str, len: u64) -> (s: String)
    ensures
        s@ == response_head_spec(status as int, ctype@, len as nat),
{
    let mut s = "HTTP/1.1 ".to_owned();
    push_str(&mut s, u64_decimal(status as u64).as_str());
    push_str(&mut s, " ");
    push_str(&mut s, reason(status));
    push_str(&mut s, "\r\nContent-Type: ");
    push_str(&mut s, ctype);
    push_str(&mut s, "\r\nContent-Length: ");
    push_str(&mut s, u64_decimal(len).as_str());
    push_str(&mut s, "\r\nConnection: close\r\n\r\n");
    s
}

/// The HTML body of an error response.
pub open spec fn error_body_spec(status: int, message: Seq<char>) -> Seq<char> {
    "<!DOCTYPE html><html><body><h1>"@ + decimal(status as nat) + " "@ + message
        + "</h1></body></html>"@
}

/// The HTML body of an error response.
pub fn error_body(status: u16, message: &str) -> (s: String)
    ensures
        s@ == error_body_spec(status as int, message@),
{
    let mut s = "<!DOCTYPE html><html><body><h1>".to_owned();
    push_str(&mut s, u64_decimal(status as u64).as_str());
    push_str(&mut s, " ");
    push_str(&mut s, message);
    push_str(&mut s, "</h1></body></html>");
    s
}

/// The HTTP port every device's file server listens on.
pub const HTTP_PORT: u16 = 8000;

/// The `GET /info` JSON body.
pub open spec fn device_info_json_spec(hostname: Seq<char>, version: Seq<char>) -> Seq<char> {
    "{\"name\":\""@ + hostname + "\",\"type\":\"pc\",\"port\":"@ + decimal(HTTP_PORT as nat)
        + ",\"version\":\""@ + version + "\"}"@
}

/// JSON body for the `GET /info` endpoint: this device's advertised name,
/// type ("pc"), HTTP server port and app version.
pub fn device_info_json(hostname: &str, version: &str) -> (s: String)
    ensures
        s@ == device_info_json_spec(hostname@, version@),
{
    let mut s = "{\"name\":\"".to_owned();
    push_str(&mut s, hostname);
    push_str(&mut s, "\",\"type\":\"pc\",\"port\":");
    push_str(&mut s, u64_decimal(HTTP_PORT as u64).as_str());
    push_str(&mut s, ",\"version\":\"");
    push_str(&mut s, version);
    push_str(&mut s, "\"}");
    s
}

// ---------------------------------------------------------------------------
// Paths and content types
// ---------------------------------------------------------------------------

/// Index of the last `.` in `s`.
pub open spec fn last_dot(s: Seq<char>) -> Option<int>
    decreases s.len(),
{
    if s.len() == 0 {
        None
    } else if s.last() == '.' {
        Some(s.len() - 1)
    } else {
        last_dot(s.drop_last())
    }
}

proof fn lemma_last_dot(s: Seq<char>)
    ensures
        last_dot(s) matches Some(p) ==> 0 <= p < s.len() && s[p] == '.',
    decreases s.len(),
{
    if s.len() > 0 && s.last() != '.' {
        lemma_last_dot(s.drop_last());
    }
}

/// The extension of a file name (`Path::extension`): the text after the
/// last `.`, unless there is none, the name starts with its only dot, or the
/// name is `..`.
pub open spec fn extension_spec(name: Seq<char>) -> Option<Seq<char>> {
    if name == ".."@ {
        None
    } else {
        match last_dot(name) {
            None => None,
            Some(p) => if p == 0 {
                None
            } else {
                Some(name.subrange(p + 1, name.len() as int))
            },
        }
    }
}

/// The MIME type served for a lower-cased extension.
pub open spec fn mime_for(ext: Option<Seq<char>>) -> Seq<char> {
    match ext {
        Some(e) => if e == "html"@ || e == "htm"@ {
            "text/html; charset=utf-8"@
        } else if e == "txt"@ || e == "md"@ || e == "log"@ || e == "csv"@ || e == "json"@ {
            "text/plain; charset=utf-8"@
        } else if e == "css"@ {
            "text/css; charset=utf-8"@
        } else if e == "js"@ {
            "text/javascript; charset=utf-8"@
        } else if e == "png"@ {
            "image/png"@
        } else if e == "jpg"@ || e == "jpeg"@ {
            "image/jpeg"@
        } else if e == "gif"@ {
            "image/gif"@
        } else if e == "svg"@ {
            "image/svg+xml"@
        } else if e == "pdf"@ {
            "application/pdf"@
        } else if e == "zip"@ {
            "application/zip"@
        } else {
            "application/octet-stream"@
        },
        None => "application/octet-stream"@,
    }
}

/// `s` with its ASCII letters lower-cased.
pub open spec fn ascii_lowered(s: Seq<char>) -> Seq<char> {
    s.map_values(|c: char| ascii_lower(c))
}

/// The MIME type of a file, from its name's extension (ASCII case-insensitive).
pub open spec fn content_type_spec(file_name: Seq<char>) -> Seq<char> {
    mime_for(
        match extension_spec(file_name) {
            Some(e) => Some(ascii_lowered(e)),
            None => None,
        },
    )
}

fn mime_of(e: &Vec<char>) -> (r: &'static str)
    ensures
        r@ == mime_for(Some(e@)),
{
    if vec_eq_str(e, "html") || vec_eq_str(e, "htm") {
        "text/html; charset=utf-8"
    } else if vec_eq_str(e, "txt") || vec_eq_str(e, "md") || vec_eq_str(e, "log") || vec_eq_str(
        e,
        "csv",
    ) || vec_eq_str(e, "json") {
        "text/plain; charset=utf-8"
    } else if vec_eq_str(e, "css") {
        "text/css; charset=utf-8"
    } else if vec_eq_str(e, "js") {
        "text/javascript; charset=utf-8"
    } else if vec_eq_str(e, "png") {
        "image/png"
    } else if vec_eq_str(e, "jpg") || vec_eq_str(e, "jpeg") {
        "image/jpeg"
    } else if vec_eq_str(e, "gif") {
        "image/gif"
    } else if vec_eq_str(e, "svg") {
        "image/svg+xml"
    } else if vec_eq_str(e, "pdf") {
        "application/pdf"
    } else if vec_eq_str(e, "zip") {
        "application/zip"
    } else {
        "application/octet-stream"
    }
}

/// The content type served for a file, from its file name (the last path
/// component; empty when the path has none).
pub fn content_type(file_name: &str) -> (r: &'static str)
    ensures
        r@ == content_type_spec(file_name@),
{
    let v = chars_of(file_name);
    if vec_eq_str(&v, "..") {
        return "application/octet-stream";
    }
    let mut p = v.len();
    assert(v@.take(v@.len() as int) == v@);
    while p > 0 && v[p - 1] != '.'
        invariant
            p <= v@.len(),
            last_dot(v@) == last_dot(v@.take(p as int)),
        decreases p,
    {
        assert(v@.take(p as int).drop_last() == v@.take(p - 1));
        p = p - 1;
    }
    assert(v@.take(v@.len() as int) == v@);
    if p <= 1 {
        if p == 1 {
            assert(v@.take(1).last() == '.');
        }
        return "application/octet-stream";
    }
    assert(v@.take(p as int).last() == '.');
    let mut lower: Vec<char> = Vec::new();
    for k in p..v.len()
        invariant
            p <= v@.len(),
            lower@ == v@.subrange(p as int, k as int).map_values(|c: char| ascii_lower(c)),
    {
        lower.push(to_ascii_lower(v[k]));
        assert(v@.subrange(p as int, k + 1).map_values(|c: char| ascii_lower(c)) =~= v@.subrange(
            p as int,
            k as int,
        ).map_values(|c: char| ascii_lower(c)).push(ascii_lower(v@[k as int])));
    }
    mime_of(&lower)
}

/// The path segments a URL target maps to under the served folder: the
/// target before any `?`, percent-decoded, split at `/` and `\`, with empty
/// and `.` segments dropped; a `..` segment, or one holding the drive mark
/// `:`, rejects the target.
pub open spec fn safe_segments(pieces: Seq<Seq<char>>) -> Option<Seq<Seq<char>>>
    decreases pieces.len(),
{
    if pieces.len() == 0 {
        Some(Seq::empty())
    } else {
        match safe_segments(pieces.drop_last()) {
            None => None,
            Some(acc) => {
                let p = pieces.last();
                if p.len() == 0 || p == "."@ {
                    Some(acc)
                } else if p == ".."@ || p.contains(':') {
                    None
                } else {
                    Some(acc.push(p))
                }
            },
        }
    }
}

/// The segments of a URL target, or `None` for a traversal attempt or a bad
/// escape.
pub open spec fn safe_path_spec(target: Seq<char>) -> Option<Seq<Seq<char>>> {
    match url_decode_spec(before_char(target, '?')) {
        None => None,
        Some(d) => safe_segments(split_pieces(d, Sep::Two('/', '\\'))),
    }
}

/// Whether `v` holds `c`.
fn has_char(v: &Vec<char>, c: char) -> (r: bool)
    ensures
        r == v@.contains(c),
{
    for i in 0..v.len()
        invariant
            forall|j: int| 0 <= j < i ==> v@[j] != c,
    {
        if v[i] == c {
            assert(v@[i as int] == c);
            return true;
        }
    }
    false
}

/// Keeps the path segments of `pieces`: empty and `.` dropped, `..` and
/// segments holding `:` rejected.
pub fn keep_segments(pieces: &Vec<Vec<char>>) -> (r: Option<Vec<String>>)
    ensures
        match r {
            Some(v) => safe_segments(pieces@.map_values(|p: Vec<char>| p@)) == Some(
                v@.map_values(|s: String| s@),
            ),
            None => safe_segments(pieces@.map_values(|p: Vec<char>| p@)) is None,
        },
{
    let ghost views = pieces@.map_values(|p: Vec<char>| p@);
    let mut out: Vec<String> = Vec::new();
    for i in 0..pieces.len()
        invariant
            views == pieces@.map_values(|p: Vec<char>| p@),
            safe_segments(views.take(i as int)) == Some(out@.map_values(|s: String| s@)),
    {
        assert(views.take(i + 1).drop_last() == views.take(i as int));
        let seg = &pieces[i];
        if seg.len() == 0 || vec_eq_str(seg, ".") {
        } else if vec_eq_str(seg, "..") || has_char(seg, ':') {
            assert(safe_segments(views.take(i + 1)) is None);
            proof {
                lemma_safe_segments_none(views, i + 1);
            }
            return None;
        } else {
            let ghost before = out@.map_values(|s: String| s@);
            out.push(string_of(seg));
            assert(out@.map_values(|s: String| s@) =~= before.push(seg@));
        }
    }
    assert(views.take(pieces.len() as int) == views);
    Some(out)
}

/// A rejected prefix rejects the whole list.
pub proof fn lemma_safe_segments_none(v: Seq<Seq<char>>, n: int)
    requires
        0 <= n <= v.len(),
        safe_segments(v.take(n)) is None,
    ensures
        safe_segments(v) is None,
    decreases v.len() - n,
{
    if n < v.len() {
        assert(v.take(n + 1).drop_last() == v.take(n));
        lemma_safe_segments_none(v, n + 1);
    } else {
        assert(v.take(n) == v);
    }
}

/// Maps a URL path to path segments under the served folder, rejecting
/// traversal.
pub fn safe_path(target: &str) -> (r: Option<Vec<String>>)
    ensures
        match r {
            Some(v) => safe_path_spec(target@) == Some(v@.map_values(|s: String| s@)),
            None => safe_path_spec(target@) is None,
        },
{
    let t = chars_of(target);
    let parts = split_vec(&t, Sep::One('?'));
    proof {
        crate::text::lemma_split_nonempty(t@, Sep::One('?'));
    }
    assert(parts@.map_values(|p: Vec<char>| p@)[0] == parts@[0]@);
    let path = string_of(&parts[0]);
    let decoded = match url_decode(path.as_str()) {
        Some(d) => d,
        None => return None,
    };
    let d = chars_of(decoded.as_str());
    let segs = split_vec(&d, Sep::Two('/', '\\'));
    keep_segments(&segs)
}

// ---------------------------------------------------------------------------
// Requests
// ---------------------------------------------------------------------------

/// The method and target of a request line.
#[derive(Clone, Debug, PartialEq)]
pub struct RequestLine {
    pub method: String,
    pub target: String,
}

/// The upper-cased first word (or the empty word) of a request line.
pub open spec fn request_method_spec(line: Seq<char>) -> Seq<char> {
    let w = crate::text::words(trim_end_spec(line, Trim::Whitespace));
    unicode_upper(
        if w.len() > 0 {
            w[0]
        } else {
            Seq::empty()
        },
    )
}

/// The second word of a request line, `/` when missing.
pub open spec fn request_target_spec(line: Seq<char>) -> Seq<char> {
    let w = crate::text::words(trim_end_spec(line, Trim::Whitespace));
    if w.len() > 1 {
        w[1]
    } else {
        "/"@
    }
}

/// Splits a request line into its upper-cased method and its target.
pub fn parse_request_line(line: &str) -> (r: RequestLine)
    ensures
        r.method@ == request_method_spec(line@),
        r.target@ == request_target_spec(line@),
{
    let v = chars_of(line);
    let t = trim_vec(&v, Trim::Whitespace, false, true);
    let w = crate::text::words_vec(&t);
    let ghost wv = w@.map_values(|p: Vec<char>| p@);
    let first = if w.len() > 0 {
        assert(wv[0] == w@[0]@);
        string_of(&w[0])
    } else {
        String::new()
    };
    let method = to_upper(first.as_str());
    let target = if w.len() > 1 {
        assert(wv[1] == w@[1]@);
        string_of(&w[1])
    } else {
        "/".to_owned()
    };
    RequestLine { method, target }
}

/// Upper bound for the request head (request line + headers), in bytes.
pub const MAX_HEAD: u64 = 32768;

/// What reading one header line leads to.
#[derive(Clone, Copy, Debug, PartialEq, Eq)]
pub enum HeadStep {
    /// Keep reading header lines.
    More,
    /// The blank line ended the head.
    End,
    /// The head exceeded `MAX_HEAD` bytes (answered with 413).
    TooLarge,
}

/// Bytes of the head read so far and the `Content-Length` seen.
pub struct HeadReader {
    pub head_bytes: u64,
    pub content_length: u64,
}

/// The new `Content-Length` after a header line (trimmed at its end):
/// a `content-length` header (any ASCII case) sets it to its parsed value,
/// 0 when unparsable; other lines keep it.
pub open spec fn header_content_length(trimmed: Seq<char>, old_len: int) -> int {
    match crate::text::split_once_spec(trimmed, ':') {
        Some((key, value)) => if eq_ignore_ascii_case_bytes(
            vstd::utf8::encode_utf8(key),
            vstd::utf8::encode_utf8("content-length"@),
        ) {
            match parse_u64_spec(trim_spec(value, Trim::Whitespace)) {
                Some(n) => n,
                None => 0,
            }
        } else {
            old_len
        },
        None => old_len,
    }
}

impl HeadReader {
    /// A reader before any header line.
    pub fn new() -> (r: Self)
        ensures
            r.head_bytes == 0,
            r.content_length == 0,
    {
        HeadReader { head_bytes: 0, content_length: 0 }
    }

    /// Takes one header line (with its line ending): counts its bytes
    /// against `MAX_HEAD`, stops at the blank line, and records
    /// `Content-Length`.
    pub fn feed(&mut self, line: &str) -> (step: HeadStep)
        ensures
            ({
                let n = vstd::utf8::encode_utf8(line@).len();
                let trimmed = trim_end_spec(line@, Trim::Whitespace);
                if old(self).head_bytes + n > MAX_HEAD {
                    step == HeadStep::TooLarge && *final(self) == *old(self)
                } else if trimmed.len() == 0 {
                    step == HeadStep::End && final(self).head_bytes == old(self).head_bytes + n
                        && final(self).content_length == old(self).content_length
                } else {
                    step == HeadStep::More && final(self).head_bytes == old(self).head_bytes + n
                        && final(self).content_length == header_content_length(
                        trimmed,
                        old(self).content_length as int,
                    )
                }
            }),
    {
        let n = line.as_bytes().len() as u64;
        if n > MAX_HEAD || self.head_bytes > MAX_HEAD - n {
            return HeadStep::TooLarge;
        }
        self.head_bytes = self.head_bytes + n;
        let v = chars_of(line);
        let t = trim_vec(&v, Trim::Whitespace, false, true);
        if t.len() == 0 {
            return HeadStep::End;
        }
        match crate::text::split_once_vec(&t, ':') {
            Some((key, value)) => {
                let k = string_of(&key);
                if str_eq_ignore_ascii_case(k.as_str(), "content-length") {
                    let tv = trim_vec(&value, Trim::Whitespace, true, true);
                    let ts = string_of(&tv);
                    self.content_length = match parse_u64(ts.as_str()) {
                        Some(x) => x,
                        None => 0,
                    };
                }
            },
            None => {},
        }
        HeadStep::More
    }
}

/// The `Content-Length` after a header line: a `content-length` header
/// (any ASCII case) gives its value (0 when unreadable); any other line
/// keeps `current`.
pub fn content_length_header(line: &str, current: u64) -> (n: u64)
    ensures
        n as int == header_content_length(trim_end_spec(line@, Trim::Whitespace), current as int),
{
    let v = chars_of(line);
    let t = trim_vec(&v, Trim::Whitespace, false, true);
    match crate::text::split_once_vec(&t, ':') {
        Some((key, value)) => {
            let k = string_of(&key);
            if str_eq_ignore_ascii_case(k.as_str(), "content-length") {
                let tv = trim_vec(&value, Trim::Whitespace, true, true);
                let ts = string_of(&tv);
                match parse_u64(ts.as_str()) {
                    Some(x) => x,
                    None => 0,
                }
            } else {
                current
            }
        },
        None => current,
    }
}

/// How the server handles a request.
#[derive(Clone, Copy, Debug, PartialEq, Eq)]
pub enum Route {
    /// `GET`/`HEAD /info`: the device-info JSON (`head_only` for `HEAD`).
    Info { head_only: bool },
    /// A file download.
    Get,
    /// Headers of a file download.
    Head,
    /// An upload.
    Put,
    /// Anything else (405).
    NotAllowed,
}

/// The route of an upper-cased method and a target.
pub open spec fn route_spec(method: Seq<char>, target: Seq<char>) -> Route {
    if (method == "GET"@ || method == "HEAD"@) && before_char(target, '?') == "/info"@ {
        Route::Info { head_only: method == "HEAD"@ }
    } else if method == "GET"@ {
        Route::Get
    } else if method == "HEAD"@ {
        Route::Head
    } else if method == "PUT"@ {
        Route::Put
    } else {
        Route::NotAllowed
    }
}

/// Routes a request by its upper-cased method and its target.
pub fn route(method: &str, target: &str) -> (r: Route)
    ensures
        r == route_spec(method@, target@),
{
    let m = chars_of(method);
    let t = chars_of(target);
    let parts = split_vec(&t, Sep::One('?'));
    proof {
        crate::text::lemma_split_nonempty(t@, Sep::One('?'));
    }
    assert(parts@.map_values(|p: Vec<char>| p@)[0] == parts@[0]@);
    let is_get = vec_eq_str(&m, "GET");
    let is_head = vec_eq_str(&m, "HEAD");
    if (is_get || is_head) && vec_eq_str(&parts[0], "/info") {
        Route::Info { head_only: is_head }
    } else if is_get {
        Route::Get
    } else if is_head {
        Route::Head
    } else if vec_eq_str(&m, "PUT") {
        Route::Put
    } else {
        Route::NotAllowed
    }
}

/// What a target path is on disk.
#[derive(Clone, Copy, Debug, PartialEq, Eq)]
pub enum PathKind {
    Dir,
    File,
    Missing,
}

/// The answer to a `GET`/`HEAD` of a path.
#[derive(Clone, Copy, Debug, PartialEq, Eq)]
pub enum GetAction {
    /// 400: the target escapes the folder or is badly escaped.
    BadRequest,
    /// 200 with the HTML directory listing.
    Listing,
    /// 403: directory listing is disabled.
    Forbidden,
    /// 200 with the file contents.
    SendFile,
    /// 404.
    NotFound,
}

/// Decides a download: unsafe targets are refused, directories are listed
/// only when listing is enabled, files are sent, anything else is 404.
pub fn get_action(safe: bool, kind: PathKind, listing_enabled: bool) -> (a: GetAction)
    ensures
        a == (if !safe {
            GetAction::BadRequest
        } else {
            match kind {
                PathKind::Dir => if listing_enabled {
                    GetAction::Listing
                } else {
                    GetAction::Forbidden
                },
                PathKind::File => GetAction::SendFile,
                PathKind::Missing => GetAction::NotFound,
            }
        }),
{
    if !safe {
        return GetAction::BadRequest;
    }
    match kind {
        PathKind::Dir => if listing_enabled {
            GetAction::Listing
        } else {
            GetAction::Forbidden
        },
        PathKind::File => GetAction::SendFile,
        PathKind::Missing => GetAction::NotFound,
    }
}

/// The file name an upload target names: its last `/`-separated piece,
/// percent-decoded; `None` when that fails or gives ``, `.` or `..`.
pub open spec fn put_name_spec(target: Seq<char>) -> Option<Seq<char>> {
    let pieces = split_pieces(target, Sep::One('/'));
    match url_decode_spec(pieces.last()) {
        Some(n) => if n.len() == 0 || n == "."@ || n == ".."@ {
            None
        } else {
            Some(n)
        },
        None => None,
    }
}

/// The file name an upload is saved under, from its URL target.
pub fn put_file_name(target: &str) -> (r: Option<String>)
    ensures
        match r {
            Some(n) => put_name_spec(target@) == Some(n@),
            None => put_name_spec(target@) is None,
        },
{
    let t = chars_of(target);
    let parts = split_vec(&t, Sep::One('/'));
    proof {
        crate::text::lemma_split_nonempty(t@, Sep::One('/'));
    }
    let last = parts.len() - 1;
    assert(parts@.map_values(|p: Vec<char>| p@).last() == parts@[last as int]@);
    let raw = string_of(&parts[last]);
    let name = match url_decode(raw.as_str()) {
        Some(n) => n,
        None => return None,
    };
    let nv = chars_of(name.as_str());
    if nv.len() == 0 || vec_eq_str(&nv, ".") || vec_eq_str(&nv, "..") {
        return None;
    }
    Some(name)
}

/// How an upload ended.
#[derive(Clone, Copy, Debug, PartialEq, Eq)]
pub enum PutOutcome {
    /// The confirmation UI was not running yet.
    NotReady,
    /// Confirmed and moved into the chosen folder.
    Saved,
    /// Confirmed but the file could not be moved or copied.
    SaveFailed,
    /// Declined, or no decision arrived in time.
    Rejected,
}

/// The reply to an upload: status, content type and body.
pub open spec fn put_reply_spec(o: PutOutcome) -> (int, Seq<char>, Seq<char>) {
    match o {
        PutOutcome::NotReady => (503, "text/html; charset=utf-8"@, error_body_spec(503, "Not ready"@)),
        PutOutcome::Saved => (201, "text/plain"@, "Saved\n"@),
        PutOutcome::SaveFailed => (500, "text/html; charset=utf-8"@, error_body_spec(500, "Save failed"@)),
        PutOutcome::Rejected => (403, "text/html; charset=utf-8"@, error_body_spec(403, "Rejected"@)),
    }
}

/// The reply to an upload: status, content type and body.
pub fn put_reply(o: PutOutcome) -> (r: (u16, &'static str, String))
    ensures
        (r.0 as int, r.1@, r.2@) == put_reply_spec(o),
{
    match o {
        PutOutcome::NotReady => (503, "text/html; charset=utf-8", error_body(503, "Not ready")),
        PutOutcome::Saved => (201, "text/plain", "Saved\n".to_owned()),
        PutOutcome::SaveFailed => (500, "text/html; charset=utf-8", error_body(500, "Save failed")),
        PutOutcome::Rejected => (403, "text/html; charset=utf-8", error_body(403, "Rejected")),
    }
}

/// The served folder and the directory-listing switch.
pub struct ServerState {
    root: Option<String>,
    list_directories: bool,
}

impl ServerState {
    /// No folder chosen yet; listing off.
    pub fn new() -> (r: Self)
        ensures
            r.root_spec() is None,
            !r.listing_spec(),
    {
        ServerState { root: None, list_directories: false }
    }

    /// The folder set by the Explorer page, if any.
    pub closed spec fn root_spec(&self) -> Option<Seq<char>> {
        match self.root {
            Some(r) => Some(r@),
            None => None,
        }
    }

    /// Whether directory listing is on.
    pub closed spec fn listing_spec(&self) -> bool {
        self.list_directories
    }

    /// Updates the served folder (called when the Explorer folder changes).
    pub fn set_root(&mut self, path: String)
        ensures
            final(self).root_spec() == Some(path@),
            final(self).listing_spec() == old(self).listing_spec(),
    {
        self.root = Some(path);
    }

    /// The folder currently served: the one set, else the working folder
    /// (`current_dir`, when it could be read), else `C:\`.
    pub fn current_root(&self, current_dir: Option<String>) -> (r: String)
        ensures
            r@ == match self.root_spec() {
                Some(p) => p,
                None => match current_dir {
                    Some(d) => d@,
                    None => "C:\\"@,
                },
            },
    {
        match &self.root {
            Some(p) => p.clone(),
            None => match current_dir {
                Some(d) => d,
                None => String::from_str("C:\\"),
            },
        }
    }

    /// Turns the directory-listing feature on/off.
    pub fn set_list_directories(&mut self, enabled: bool)
        ensures
            final(self).listing_spec() == enabled,
            final(self).root_spec() == old(self).root_spec(),
    {
        self.list_directories = enabled;
    }

    /// Whether `GET` on a directory returns an HTML listing.
    pub fn list_directories_enabled(&self) -> (r: bool)
        ensures
            r == self.listing_spec(),
    {
        self.list_directories
    }
}

// ---------------------------------------------------------------------------
// Directory listing
// ---------------------------------------------------------------------------

/// A listed name and whether it is a folder.
pub type ListedView = (Seq<char>, bool);

/// Where `e` goes among the names `s`: before the first greater name.
pub open spec fn name_pos(s: Seq<ListedView>, e: ListedView) -> int
    decreases s.len(),
{
    if s.len() == 0 {
        0
    } else if crate::settings::lex_lt(e.0, s[0].0) {
        0
    } else {
        1 + name_pos(s.drop_first(), e)
    }
}

/// The names in ascending order (`String`'s order, stable).
pub open spec fn sorted_names(v: Seq<ListedView>) -> Seq<ListedView>
    decreases v.len(),
{
    if v.len() == 0 {
        Seq::empty()
    } else {
        let s = sorted_names(v.drop_last());
        s.insert(name_pos(s, v.last()), v.last())
    }
}

proof fn lemma_name_pos(s: Seq<ListedView>, e: ListedView, p: int)
    requires
        0 <= p <= s.len(),
        forall|j: int| 0 <= j < p ==> !crate::settings::lex_lt(e.0, #[trigger] s[j].0),
        p < s.len() ==> crate::settings::lex_lt(e.0, s[p].0),
    ensures
        name_pos(s, e) == p,
    decreases s.len(),
{
    if s.len() > 0 && p > 0 {
        assert(!crate::settings::lex_lt(e.0, s[0].0));
        assert forall|j: int| 0 <= j < p - 1 implies !crate::settings::lex_lt(e.0, #[trigger] s.drop_first()[j].0) by {
            assert(s.drop_first()[j] == s[j + 1]);
        }
        lemma_name_pos(s.drop_first(), e, p - 1);
    }
}

/// Views of listed names.
pub open spec fn listed_views(v: Seq<(String, bool)>) -> Seq<ListedView> {
    v.map_values(|e: (String, bool)| (e.0@, e.1))
}

/// Sorts listed names in ascending order.
pub fn sort_names(names: Vec<(String, bool)>) -> (r: Vec<(String, bool)>)
    ensures
        listed_views(r@) == sorted_names(listed_views(names@)),
{
    let ghost input = listed_views(names@);
    let mut out: Vec<(String, bool)> = Vec::new();
    let mut keys: Vec<Vec<char>> = Vec::new();
    for e in it: names
        invariant
            it.seq() == names@,
            input == listed_views(names@),
            listed_views(out@) == sorted_names(input.take(it.index() as int)),
            keys@.len() == out@.len(),
            forall|j: int| 0 <= j < out@.len() ==> (#[trigger] keys@[j])@ == out@[j].0@,
    {
        let ghost i = it.index();
        let ghost s = listed_views(out@);
        let ghost ev = (e.0@, e.1);
        assert(input.take(i + 1).drop_last() == input.take(i as int));
        assert(input.take(i + 1).last() == ev);
        let k = chars_of(e.0.as_str());
        let mut p: usize = 0;
        while p < out.len() && !crate::settings::str_lt(&k, &keys[p])
            invariant
                p <= out@.len(),
                keys@.len() == out@.len(),
                s == listed_views(out@),
                k@ == ev.0,
                forall|j: int| 0 <= j < out@.len() ==> (#[trigger] keys@[j])@ == out@[j].0@,
                forall|j: int| 0 <= j < p ==> !crate::settings::lex_lt(ev.0, #[trigger] s[j].0),
            decreases out@.len() - p,
        {
            assert(s[p as int].0 == out@[p as int].0@);
            p = p + 1;
        }
        proof {
            if p < out@.len() {
                assert(s[p as int].0 == out@[p as int].0@);
            }
            lemma_name_pos(s, ev, p as int);
        }
        let ghost kb = keys@;
        let ghost ob = out@;
        out.insert(p, e);
        keys.insert(p, k);
        assert(listed_views(out@) =~= s.insert(p as int, ev));
        assert forall|j: int| 0 <= j < out@.len() implies (#[trigger] keys@[j])@ == out@[j].0@ by {
            if j < p {
                assert(keys@[j] == kb[j] && out@[j] == ob[j]);
            } else if j > p {
                assert(keys@[j] == kb[j - 1] && out@[j] == ob[j - 1]);
            }
        }
    }
    assert(input.take(input.len() as int) == input);
    out
}

/// Index of the last `c` in `s`.
pub open spec fn last_index(s: Seq<char>, c: char) -> Option<int>
    decreases s.len(),
{
    if s.len() == 0 {
        None
    } else if s.last() == c {
        Some(s.len() - 1)
    } else {
        last_index(s.drop_last(), c)
    }
}

/// The link to the parent folder: none at the root; else to the URL path
/// without its trailing slashes and its last segment (`/` when nothing is
/// left).
pub open spec fn parent_link_spec(url_path: Seq<char>) -> Seq<char> {
    let parent = trim_end_spec(url_path, Trim::Char('/'));
    if parent.len() == 0 {
        Seq::empty()
    } else {
        let up = match last_index(parent, '/') {
            Some(i) => parent.subrange(0, i),
            None => Seq::empty(),
        };
        let up_url = if up.len() == 0 {
            "/"@
        } else {
            up
        };
        "<li><a href=\""@ + url_encode_bytes(vstd::utf8::encode_utf8(up_url)) + "\">..</a></li>"@
    }
}

/// One listed entry: a link to `<parent>/<encoded name>` showing the
/// (escaped) name, with `/` after folder names.
pub open spec fn listing_item(parent: Seq<char>, e: ListedView) -> Seq<char> {
    let display = if e.1 {
        e.0 + seq!['/']
    } else {
        e.0
    };
    "<li><a href=\""@ + parent + seq!['/'] + url_encode_bytes(vstd::utf8::encode_utf8(e.0)) + "\">"@
        + html_escape_spec(display) + "</a></li>"@
}

/// The listed entries, in the given order.
pub open spec fn listing_items(parent: Seq<char>, v: Seq<ListedView>) -> Seq<char>
    decreases v.len(),
{
    if v.len() == 0 {
        Seq::empty()
    } else {
        listing_items(parent, v.drop_last()) + listing_item(parent, v.last())
    }
}

/// The HTML page listing a folder: its title, the parent link, the entries
/// in ascending name order, and the server's footer.
pub open spec fn directory_listing_spec(title: Seq<char>, url_path: Seq<char>, entries: Seq<ListedView>) -> Seq<char> {
    "<!DOCTYPE html><html><head><meta charset='utf-8'><title>"@ + html_escape_spec(title)
        + "</title></head><body><h1>"@ + html_escape_spec(title) + "</h1><ul>"@ + parent_link_spec(
        url_path,
    ) + listing_items(trim_end_spec(url_path, Trim::Char('/')), sorted_names(entries))
        + "</ul><p><i>tumbleweed HTTP file server</i></p></body></html>"@
}

fn find_last(v: &Vec<char>, c: char) -> (r: Option<usize>)
    ensures
        match r {
            Some(i) => last_index(v@, c) == Some(i as int) && i < v@.len(),
            None => last_index(v@, c) is None,
        },
{
    let mut i = v.len();
    assert(v@.subrange(0, i as int) == v@);
    while i > 0
        invariant
            i <= v@.len(),
            last_index(v@, c) == last_index(v@.subrange(0, i as int), c),
        decreases i,
    {
        if v[i - 1] == c {
            return Some(i - 1);
        }
        assert(v@.subrange(0, i as int).drop_last() == v@.subrange(0, i - 1));
        i = i - 1;
    }
    None
}

fn push_listing_item(html: &mut String, parent: &str, name: &str, is_dir: bool)
    ensures
        final(html)@ == old(html)@ + listing_item(parent@, (name@, is_dir)),
{
    let mut display = String::new();
    push_str(&mut display, name);
    if is_dir {
        push_char(&mut display, '/');
    }
    assert(display@ =~= (if is_dir {
        name@ + seq!['/']
    } else {
        name@
    }));
    push_str(html, "<li><a href=\"");
    push_str(html, parent);
    push_char(html, '/');
    let enc = url_encode(name);
    push_str(html, enc.as_str());
    push_str(html, "\">");
    let esc = html_escape(display.as_str());
    push_str(html, esc.as_str());
    push_str(html, "</a></li>");
    assert(final(html)@ =~= old(html)@ + listing_item(parent@, (name@, is_dir)));
}

/// The HTML listing of a folder titled `title` served at `url_path`, with
/// its entries given as names and whether each is a folder.
pub fn directory_listing(title: &str, url_path: &str, entries: Vec<(String, bool)>) -> (html: String)
    ensures
        html@ == directory_listing_spec(title@, url_path@, listed_views(entries@)),
{
    let mut html = String::from_str("<!DOCTYPE html><html><head><meta charset='utf-8'><title>");
    let t = html_escape(title);
    push_str(&mut html, t.as_str());
    push_str(&mut html, "</title></head><body><h1>");
    push_str(&mut html, t.as_str());
    push_str(&mut html, "</h1><ul>");
    let u = chars_of(url_path);
    let pv = trim_vec(&u, Trim::Char('/'), false, true);
    let parent = string_of(&pv);
    if pv.len() > 0 {
        let up = match find_last(&pv, '/') {
            Some(i) => string_of(&slice_vec(&pv, 0, i)),
            None => String::new(),
        };
        let up_url = if chars_of(up.as_str()).len() == 0 {
            String::from_str("/")
        } else {
            up
        };
        push_str(&mut html, "<li><a href=\"");
        let enc = url_encode(up_url.as_str());
        push_str(&mut html, enc.as_str());
        push_str(&mut html, "\">..</a></li>");
    }
    let ghost head = html@;
    assert(head =~= "<!DOCTYPE html><html><head><meta charset='utf-8'><title>"@ + html_escape_spec(
        title@,
    ) + "</title></head><body><h1>"@ + html_escape_spec(title@) + "</h1><ul>"@ + parent_link_spec(
        url_path@,
    ));
    let sorted = sort_names(entries);
    let ghost sv = listed_views(sorted@);
    for i in 0..sorted.len()
        invariant
            sv == listed_views(sorted@),
            parent@ == trim_end_spec(url_path@, Trim::Char('/')),
            html@ == head + listing_items(parent@, sv.take(i as int)),
    {
        assert(sv.take(i + 1).drop_last() == sv.take(i as int));
        let e = &sorted[i];
        assert(sv[i as int] == (e.0@, e.1));
        let ghost before = html@;
        push_listing_item(&mut html, parent.as_str(), e.0.as_str(), e.1);
        assert(html@ == before + listing_item(parent@, sv[i as int]));
        assert(html@ =~= head + listing_items(parent@, sv.take(i + 1)));
    }
    assert(sv.take(sorted.len() as int) == sv);
    push_str(&mut html, "</ul><p><i>tumbleweed HTTP file server</i></p></body></html>");
    html
}

/// The name of the temporary file an upload body is streamed into:
/// `tumbleweed-upload-<process id>-<counter>.tmp` (unique per request).
pub fn temp_upload_name(pid: u32, n: u64) -> (s: String)
    ensures
        s@ == "tumbleweed-upload-"@ + decimal(pid as nat) + seq!['-'] + decimal(n as nat) + ".tmp"@,
{
    let mut s = String::from_str("tumbleweed-upload-");
    push_str(&mut s, u64_decimal(pid as u64).as_str());
    push_char(&mut s, '-');
    push_str(&mut s, u64_decimal(n).as_str());
    push_str(&mut s, ".tmp");
    s
}

/// How many body bytes to read next: the rest of the body, at most 64 KiB.
pub fn body_chunk(remaining: u64) -> (n: usize)
    ensures
        n == (if remaining < 65536 {
            remaining as int
        } else {
            65536
        }),
{
    if remaining < 65536 {
        remaining as usize
    } else {
        65536
    }
}

// ---------------------------------------------------------------------------
// URL coding round trip
// ---------------------------------------------------------------------------

/// The bytes of ASCII characters.
pub open spec fn ascii_bytes(e: Seq<char>) -> Seq<u8> {
    e.map_values(|c: char| c as u8)
}

proof fn lemma_url_encode_front(b: Seq<u8>)
    requires
        b.len() > 0,
    ensures
        url_encode_bytes(b) == url_encode_byte(b[0]) + url_encode_bytes(b.drop_first()),
    decreases b.len(),
{
    if b.len() == 1 {
        assert(b.drop_last() =~= Seq::<u8>::empty());
        assert(b.drop_first() =~= Seq::<u8>::empty());
        assert(url_encode_bytes(b.drop_last()) =~= Seq::<char>::empty());
        assert(b.last() == b[0]);
        assert(url_encode_bytes(b) =~= url_encode_byte(b[0]));
        assert(url_encode_byte(b[0]) + url_encode_bytes(b.drop_first()) =~= url_encode_byte(b[0]));
    } else {
        lemma_url_encode_front(b.drop_last());
        assert(b.drop_last().drop_first() =~= b.drop_first().drop_last());
        assert(b.drop_first().last() == b.last());
        assert(url_encode_bytes(b) =~= url_encode_byte(b[0]) + url_encode_bytes(b.drop_first()));
    }
}

proof fn lemma_url_encode_ascii(b: Seq<u8>)
    ensures
        vstd::utf8::is_ascii_chars(url_encode_bytes(b)),
    decreases b.len(),
{
    if b.len() > 0 {
        lemma_url_encode_ascii(b.drop_last());
        let e = url_encode_bytes(b.drop_last());
        let x = url_encode_byte(b.last());
        assert forall|i: int| 0 <= i < (e + x).len() implies '\0' <= #[trigger] (e + x)[i] <= '\u{7f}' by {
            if i < e.len() {
                assert((e + x)[i] == e[i]);
            } else {
                assert((e + x)[i] == x[i - e.len()]);
            }
        }
    }
}

proof fn lemma_hex_upper_val(d: int)
    requires
        0 <= d < 16,
    ensures
        hex_val_spec(hex_upper(d) as u8) == Some(d as u8),
{
}

proof fn lemma_pct_shift(y: Seq<u8>, z: Seq<u8>, j: int)
    requires
        0 <= j <= z.len(),
    ensures
        pct_decode(y + z, y.len() + j) == pct_decode(z, j),
    decreases z.len() - j,
{
    let w = y + z;
    let i = y.len() + j;
    if j < z.len() {
        assert(w[i] == z[j]);
        if j + 1 < z.len() {
            assert(w[i + 1] == z[j + 1]);
        }
        if j + 2 < z.len() {
            assert(w[i + 2] == z[j + 2]);
        }
        if z[j] == 37 {
            if j + 2 < z.len() {
                lemma_pct_shift(y, z, j + 3);
            }
        } else {
            lemma_pct_shift(y, z, j + 1);
        }
    }
}

proof fn lemma_decode_encode(b: Seq<u8>)
    ensures
        pct_decode(ascii_bytes(url_encode_bytes(b)), 0) == Some(b),
    decreases b.len(),
{
    if b.len() == 0 {
        assert(ascii_bytes(url_encode_bytes(b)) =~= Seq::<u8>::empty());
    } else {
        lemma_url_encode_front(b);
        lemma_decode_encode(b.drop_first());
        let x = url_encode_byte(b[0]);
        let r = url_encode_bytes(b.drop_first());
        let y = ascii_bytes(x);
        let z = ascii_bytes(r);
        assert(ascii_bytes(x + r) =~= y + z);
        let c = b[0];
        if url_safe(c) {
            assert(y =~= seq![c]);
            lemma_pct_shift(y, z, 0);
            assert((y + z)[0] == c);
            assert(seq![c] + b.drop_first() =~= b);
        } else {
            let h = (c / 16) as int;
            let l = (c % 16) as int;
            assert(y =~= seq![37u8, hex_upper(h) as u8, hex_upper(l) as u8]);
            lemma_hex_upper_val(h);
            lemma_hex_upper_val(l);
            lemma_pct_shift(y, z, 0);
            assert((y + z)[0] == 37u8);
            assert((y + z)[1] == hex_upper(h) as u8);
            assert((y + z)[2] == hex_upper(l) as u8);
            assert((h * 16 + l) as u8 == c);
            assert(seq![c] + b.drop_first() =~= b);
        }
    }
}

/// Decoding what `url_encode` made of a text gives the text back.
pub proof fn law_url_roundtrip(s: Seq<char>)
    ensures
        url_decode_spec(url_encode_bytes(vstd::utf8::encode_utf8(s))) == Some(s),
{
    broadcast use vstd::utf8::group_utf8_lib;

    let b = vstd::utf8::encode_utf8(s);
    let e = url_encode_bytes(b);
    lemma_url_encode_ascii(b);
    vstd::utf8::is_ascii_chars_encode_utf8(e);
    assert(vstd::utf8::encode_utf8(e) =~= ascii_bytes(e));
    lemma_decode_encode(b);
}

proof fn lemma_high_bytes(z: u8)
    by (bit_vector)
    ensures
        (0x80u8 | z) >= 0x80u8,
        (0xC0u8 | z) >= 0x80u8,
        (0xE0u8 | z) >= 0x80u8,
        (0xF0u8 | z) >= 0x80u8,
{
}

proof fn lemma_low_scalar(x: u32)
    by (bit_vector)
    requires
        x <= 0x7f,
    ensures
        ((x & 0x7f) as u8) as u32 == x,
{
}

proof fn lemma_encode_no_slash(s: Seq<char>)
    requires
        !s.contains('/'),
    ensures
        forall|i: int| 0 <= i < vstd::utf8::encode_utf8(s).len() ==> #[trigger] vstd::utf8::encode_utf8(s)[i] != 47,
    decreases s.len(),
{
    if s.len() > 0 {
        let rest = s.drop_first();
        assert(!rest.contains('/')) by {
            if rest.contains('/') {
                let k = choose|k: int| 0 <= k < rest.len() && rest[k] == '/';
                assert(s[k + 1] == '/');
            }
        }
        lemma_encode_no_slash(rest);
        let x = s[0] as u32;
        assert(s[0] != '/');
        let head = vstd::utf8::encode_scalar(x);
        assert forall|i: int| 0 <= i < head.len() implies #[trigger] head[i] != 47 by {
            if vstd::utf8::has_width_1_encoding(x) {
                lemma_low_scalar(x);
                if x == 47 {
                    vstd::utf8::char_u32_cast(s[0], x);
                    assert((47u32 as char) == '/');
                }
            } else {
                lemma_high_bytes(((x >> 6) & 0x1F) as u8);
                lemma_high_bytes((x & 0x3F) as u8);
                lemma_high_bytes(((x >> 6) & 0x3F) as u8);
                lemma_high_bytes(((x >> 12) & 0x0F) as u8);
                lemma_high_bytes(((x >> 12) & 0x3F) as u8);
                lemma_high_bytes(((x >> 18) & 0x7) as u8);
            }
        }
        let e = vstd::utf8::encode_utf8(s);
        assert(e == head + vstd::utf8::encode_utf8(rest));
        assert forall|i: int| 0 <= i < e.len() implies #[trigger] e[i] != 47 by {
            if i < head.len() {
                assert(e[i] == head[i]);
            } else {
                assert(e[i] == vstd::utf8::encode_utf8(rest)[i - head.len()]);
            }
        }
    }
}

proof fn lemma_url_encode_no_slash(b: Seq<u8>)
    requires
        forall|i: int| 0 <= i < b.len() ==> #[trigger] b[i] != 47,
    ensures
        forall|i: int| 0 <= i < url_encode_bytes(b).len() ==> #[trigger] url_encode_bytes(b)[i] != '/',
    decreases b.len(),
{
    if b.len() > 0 {
        assert forall|i: int| 0 <= i < b.drop_last().len() implies #[trigger] b.drop_last()[i] != 47 by {
            assert(b.drop_last()[i] == b[i]);
        }
        lemma_url_encode_no_slash(b.drop_last());
        let e = url_encode_bytes(b.drop_last());
        let x = url_encode_byte(b.last());
        assert(b.last() != 47);
        assert forall|i: int| 0 <= i < (e + x).len() implies #[trigger] (e + x)[i] != '/' by {
            if i < e.len() {
                assert((e + x)[i] == e[i]);
            } else {
                assert((e + x)[i] == x[i - e.len()]);
            }
        }
    }
}

/// The name an upload is sent under (`PUT /<url-encoded name>`) is the name
/// the receiving server saves it under, for every name that is not empty,
/// `.` or `..` and holds no `/`.
pub proof fn law_upload_name_roundtrip(name: Seq<char>)
    requires
        name.len() > 0,
        name != "."@,
        name != ".."@,
        !name.contains('/'),
    ensures
        put_name_spec("/"@ + url_encode_bytes(vstd::utf8::encode_utf8(name))) == Some(name),
{
    let e = url_encode_bytes(vstd::utf8::encode_utf8(name));
    lemma_encode_no_slash(name);
    lemma_url_encode_no_slash(vstd::utf8::encode_utf8(name));
    reveal_strlit("/");
    let slash = "/"@;
    assert(slash =~= seq!['/']);
    assert(slash.drop_last() =~= Seq::<char>::empty());
    assert(split_pieces(Seq::<char>::empty(), Sep::One('/')) =~= seq![Seq::<char>::empty()]);
    assert(split_pieces(slash.drop_last(), Sep::One('/')) =~= seq![Seq::<char>::empty()]);
    assert(slash.last() == '/');
    assert(split_pieces(slash, Sep::One('/')) =~= seq![Seq::<char>::empty(), Seq::<char>::empty()]);
    crate::text::lemma_split_append_plain(slash, e, '/');
    assert(Seq::<char>::empty() + e =~= e);
    assert(split_pieces(slash + e, Sep::One('/')).last() == e);
    law_url_roundtrip(name);
}

/// A plain path segment: not empty, `.` or `..`, and holding no `/`, `\`
/// or `:`.
pub open spec fn plain_segment(c: Seq<char>) -> bool {
    c.len() > 0 && c != "."@ && c != ".."@ && !c.contains('/') && !c.contains('\\') && !c.contains(
        ':',
    )
}

proof fn lemma_safe_segments_plain(ps: Seq<Seq<char>>)
    requires
        forall|i: int| 0 <= i < ps.len() ==> !(#[trigger] ps[i]).contains('/') && !ps[i].contains('\\'),
    ensures
        safe_segments(ps) matches Some(cs) ==> forall|k: int|
            0 <= k < cs.len() ==> plain_segment(#[trigger] cs[k]),
    decreases ps.len(),
{
    if ps.len() > 0 {
        assert forall|i: int| 0 <= i < ps.drop_last().len() implies !(#[trigger] ps.drop_last()[i]).contains('/') && !ps.drop_last()[i].contains('\\') by {
            assert(ps.drop_last()[i] == ps[i]);
        }
        lemma_safe_segments_plain(ps.drop_last());
        assert(!ps[ps.len() - 1].contains('/'));
        assert(!ps[ps.len() - 1].contains('\\'));
    }
}

/// A URL never leads out of the served folder: every segment it maps to is
/// a plain name (not empty, `.` or `..`, and without `/`, `\` or `:`), so
/// the served path is the folder followed by plain names only.
pub proof fn law_served_paths_stay_inside(target: Seq<char>)
    ensures
        safe_path_spec(target) matches Some(cs) ==> forall|k: int|
            0 <= k < cs.len() ==> plain_segment(#[trigger] cs[k]),
{
    match url_decode_spec(before_char(target, '?')) {
        Some(d) => {
            let sep = Sep::Two('/', '\\');
            let ps = split_pieces(d, sep);
            crate::text::lemma_split_no_sep(d, sep);
            assert forall|i: int| 0 <= i < ps.len() implies !(#[trigger] ps[i]).contains('/') && !ps[i].contains('\\') by {
                if ps[i].contains('/') {
                    let j = choose|j: int| 0 <= j < ps[i].len() && ps[i][j] == '/';
                    assert(!crate::text::is_sep(sep, ps[i][j]));
                }
                if ps[i].contains('\\') {
                    let j = choose|j: int| 0 <= j < ps[i].len() && ps[i][j] == '\\';
                    assert(!crate::text::is_sep(sep, ps[i][j]));
                }
            }
            lemma_safe_segments_plain(ps);
        },
        None => {},
    }
}

/// The last dot of `n.e` is the one before `e` when `e` has none.
proof fn lemma_last_dot_before(n: Seq<char>, e: Seq<char>)
    requires
        forall|i: int| 0 <= i < e.len() ==> e[i] != '.',
    ensures
        last_dot(n + seq!['.'] + e) == Some(n.len() as int),
    decreases e.len(),
{
    let s = n + seq!['.'] + e;
    if e.len() > 0 {
        assert(s.last() == e.last());
        assert(s.drop_last() =~= n + seq!['.'] + e.drop_last());
        lemma_last_dot_before(n, e.drop_last());
    }
}

/// The content types served, by the file's extension in any ASCII case:
/// `name.html` and `name.htm` are HTML, the text formats plain text, then
/// CSS, JavaScript, the image formats, PDF and ZIP; any other extension is
/// an octet stream. For a name that is not empty and an extension without
/// a dot.
pub proof fn law_content_type_table(n: Seq<char>, e: Seq<char>)
    requires
        n.len() > 0,
        e.len() > 0,
        forall|i: int| 0 <= i < e.len() ==> e[i] != '.',
    ensures
        ({
            let t = content_type_spec(n + seq!['.'] + e);
            let x = ascii_lowered(e);
            &&& (x == "html"@ || x == "htm"@) ==> t == "text/html; charset=utf-8"@
            &&& (x == "txt"@ || x == "md"@ || x == "log"@ || x == "csv"@ || x == "json"@) ==> t
                == "text/plain; charset=utf-8"@
            &&& x == "css"@ ==> t == "text/css; charset=utf-8"@
            &&& x == "js"@ ==> t == "text/javascript; charset=utf-8"@
            &&& x == "png"@ ==> t == "image/png"@
            &&& (x == "jpg"@ || x == "jpeg"@) ==> t == "image/jpeg"@
            &&& x == "gif"@ ==> t == "image/gif"@
            &&& x == "svg"@ ==> t == "image/svg+xml"@
            &&& x == "pdf"@ ==> t == "application/pdf"@
            &&& x == "zip"@ ==> t == "application/zip"@
            &&& !(x == "html"@ || x == "htm"@ || x == "txt"@ || x == "md"@ || x == "log"@ || x == "csv"@
                || x == "json"@ || x == "css"@ || x == "js"@ || x == "png"@ || x == "jpg"@ || x
                == "jpeg"@ || x == "gif"@ || x == "svg"@ || x == "pdf"@ || x == "zip"@) ==> t
                == "application/octet-stream"@
        }),
{
    let s = n + seq!['.'] + e;
    reveal_strlit("..");
    assert(s.len() >= 3);
    assert(s != ".."@);
    lemma_last_dot_before(n, e);
    assert(s.subrange(n.len() as int + 1, s.len() as int) =~= e);
    assert(extension_spec(s) == Some(e));
    assert(content_type_spec(s) == mime_for(Some(ascii_lowered(e))));
    reveal_strlit("html");
    reveal_strlit("htm");
    reveal_strlit("txt");
    reveal_strlit("md");
    reveal_strlit("log");
    reveal_strlit("csv");
    reveal_strlit("json");
    reveal_strlit("css");
    reveal_strlit("js");
    reveal_strlit("png");
    reveal_strlit("jpg");
    reveal_strlit("jpeg");
    reveal_strlit("gif");
    reveal_strlit("svg");
    reveal_strlit("pdf");
    reveal_strlit("zip");
    // Each extension's length and first letters tell it from the others.
    assert("html"@.len() == 4 && "html"@[0] == 'h' && "html"@[1] == 't' && "html"@[2] == 'm');
    assert("htm"@.len() == 3 && "htm"@[0] == 'h' && "htm"@[1] == 't' && "htm"@[2] == 'm');
    assert("txt"@.len() == 3 && "txt"@[0] == 't' && "txt"@[1] == 'x' && "txt"@[2] == 't');
    assert("md"@.len() == 2 && "md"@[0] == 'm' && "md"@[1] == 'd');
    assert("log"@.len() == 3 && "log"@[0] == 'l' && "log"@[1] == 'o' && "log"@[2] == 'g');
    assert("csv"@.len() == 3 && "csv"@[0] == 'c' && "csv"@[1] == 's' && "csv"@[2] == 'v');
    assert("json"@.len() == 4 && "json"@[0] == 'j' && "json"@[1] == 's' && "json"@[2] == 'o');
    assert("css"@.len() == 3 && "css"@[0] == 'c' && "css"@[1] == 's' && "css"@[2] == 's');
    assert("js"@.len() == 2 && "js"@[0] == 'j' && "js"@[1] == 's');
    assert("png"@.len() == 3 && "png"@[0] == 'p' && "png"@[1] == 'n' && "png"@[2] == 'g');
    assert("jpg"@.len() == 3 && "jpg"@[0] == 'j' && "jpg"@[1] == 'p' && "jpg"@[2] == 'g');
    assert("jpeg"@.len() == 4 && "jpeg"@[0] == 'j' && "jpeg"@[1] == 'p' && "jpeg"@[2] == 'e');
    assert("gif"@.len() == 3 && "gif"@[0] == 'g' && "gif"@[1] == 'i' && "gif"@[2] == 'f');
    assert("svg"@.len() == 3 && "svg"@[0] == 's' && "svg"@[1] == 'v' && "svg"@[2] == 'g');
    assert("pdf"@.len() == 3 && "pdf"@[0] == 'p' && "pdf"@[1] == 'd' && "pdf"@[2] == 'f');
    assert("zip"@.len() == 3 && "zip"@[0] == 'z' && "zip"@[1] == 'i' && "zip"@[2] == 'p');
}

} // verus!
