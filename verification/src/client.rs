//! The HTTP client side: request heads for uploads and `/info`, status-line
//! checks, and the parser for a peer's `/info` JSON.

use vstd::prelude::*;
use crate::http::{device_info_json_spec, url_encode, url_encode_bytes, HTTP_PORT};
use crate::text::{
    chars_of, decimal, parse_u16_spec, push_str, slice_vec, string_of, trim_start_spec, trim_vec,
    u64_decimal, words, words_vec, Trim,
};

verus! {

/// Device metadata returned by a peer's `GET /info` endpoint.
#[derive(Clone, Debug, PartialEq)]
pub struct PeerInfo {
    pub name: String,
    pub kind: String,
    pub port: u16,
}

/// Index of the first occurrence of `pat` in `s` at or after `i`.
pub open spec fn find_from(s: Seq<char>, pat: Seq<char>, i: int) -> Option<int>
    decreases s.len() + 1 - i,
{
    if i < 0 || i + pat.len() > s.len() {
        None
    } else if s.subrange(i, i + pat.len()) == pat {
        Some(i)
    } else {
        find_from(s, pat, i + 1)
    }
}

/// Index of the first occurrence of `pat` in `s` (`str::find`).
pub open spec fn find_spec(s: Seq<char>, pat: Seq<char>) -> Option<int> {
    find_from(s, pat, 0)
}

proof fn lemma_find_from(s: Seq<char>, pat: Seq<char>, i: int)
    requires
        0 <= i,
    ensures
        find_from(s, pat, i) matches Some(k) ==> i <= k && k + pat.len() <= s.len(),
    decreases s.len() + 1 - i,
{
    if i + pat.len() <= s.len() && s.subrange(i, i + pat.len()) != pat {
        lemma_find_from(s, pat, i + 1);
    }
}

/// Finds the first occurrence of `pat` in `v`.
fn find_vec(v: &Vec<char>, pat: &Vec<char>) -> (r: Option<usize>)
    ensures
        match r {
            Some(k) => find_spec(v@, pat@) == Some(k as int),
            None => find_spec(v@, pat@) is None,
        },
{
    if pat.len() > v.len() {
        return None;
    }
    let mut i: usize = 0;
    let last = v.len() - pat.len();
    while i <= last
        invariant
            pat@.len() <= v@.len(),
            v@.len() <= usize::MAX,
            last == v@.len() - pat@.len(),
            find_from(v@, pat@, 0) == find_from(v@, pat@, i as int),
        decreases v@.len() - i,
    {
        let mut k: usize = 0;
        let mut same = true;
        while k < pat.len()
            invariant
                v@.len() <= usize::MAX,
                i + pat@.len() <= v@.len(),
                k <= pat@.len(),
                same == (forall|j: int| 0 <= j < k ==> v@[i + j] == pat@[j]),
            decreases pat@.len() - k,
        {
            assert(i + k < v@.len());
            if v[i + k] != pat[k] {
                same = false;
            }
            k = k + 1;
        }
        if same {
            assert(v@.subrange(i as int, i + pat@.len()) =~= pat@);
            return Some(i);
        }
        assert(v@.subrange(i as int, i + pat@.len()) != pat@) by {
            let j = choose|j: int| 0 <= j < pat@.len() && v@[i + j] != pat@[j];
            assert(v@.subrange(i as int, i + pat@.len())[j] != pat@[j]);
        }
        if i == last {
            assert(find_from(v@, pat@, i + 1) is None);
            return None;
        }
        i = i + 1;
    }
    None
}

/// The text after field `key`'s separator in our own fixed JSON format:
/// after the first `"key"`, the first `:`, with leading whitespace trimmed.
pub open spec fn field_tail(body: Seq<char>, key: Seq<char>) -> Option<Seq<char>> {
    let needle = seq!['"'] + key + seq!['"'];
    match find_spec(body, needle) {
        None => None,
        Some(idx) => {
            let rest = body.subrange(idx + needle.len(), body.len() as int);
            match find_spec(rest, seq![':']) {
                None => None,
                Some(c) => Some(
                    trim_start_spec(rest.subrange(c + 1, rest.len() as int), Trim::Whitespace),
                ),
            }
        },
    }
}

/// The value of the JSON string field `key`: the text between the two
/// quotes that follow the separator.
pub open spec fn json_str_field_spec(body: Seq<char>, key: Seq<char>) -> Option<Seq<char>> {
    match field_tail(body, key) {
        None => None,
        Some(r) => if r.len() > 0 && r[0] == '"' {
            match find_spec(r.drop_first(), seq!['"']) {
                Some(end) => Some(r.drop_first().subrange(0, end)),
                None => None,
            }
        } else {
            None
        },
    }
}

/// Index of the first non-digit character of `s` (or its length).
pub open spec fn digits_end(s: Seq<char>) -> int
    decreases s.len(),
{
    if s.len() == 0 {
        0
    } else if '0' <= s[0] <= '9' {
        1 + digits_end(s.drop_first())
    } else {
        0
    }
}

/// The value of the JSON numeric field `key`: the leading digits after the
/// separator, read as a `u16`.
pub open spec fn json_num_field_spec(body: Seq<char>, key: Seq<char>) -> Option<int> {
    match field_tail(body, key) {
        None => None,
        Some(r) => parse_u16_spec(r.subrange(0, digits_end(r))),
    }
}

/// The text after field `key`'s separator.
fn after_key(body: &Vec<char>, key: &str) -> (r: Option<Vec<char>>)
    ensures
        match r {
            Some(v) => field_tail(body@, key@) == Some(v@),
            None => field_tail(body@, key@) is None,
        },
{
    let mut needle: Vec<char> = Vec::new();
    needle.push('"');
    let kv = chars_of(key);
    for i in 0..kv.len()
        invariant
            needle@ == seq!['"'] + kv@.take(i as int),
    {
        needle.push(kv[i]);
        assert(seq!['"'] + kv@.take(i + 1) =~= (seq!['"'] + kv@.take(i as int)).push(kv@[i as int]));
    }
    needle.push('"');
    assert(kv@.take(kv@.len() as int) == kv@);
    assert(needle@ =~= seq!['"'] + key@ + seq!['"']);
    let idx = match find_vec(body, &needle) {
        Some(i) => i,
        None => return None,
    };
    proof {
        lemma_find_from(body@, needle@, 0);
        assert(idx + needle@.len() <= body@.len());
    }
    let blen = body.len();
    let rest = slice_vec(body, idx + needle.len(), blen);
    let colon: Vec<char> = vec![':'];
    assert(colon@ =~= seq![':']);
    let c = match find_vec(&rest, &colon) {
        Some(c) => c,
        None => return None,
    };
    proof {
        lemma_find_from(rest@, colon@, 0);
    }
    let tail = slice_vec(&rest, c + 1, rest.len());
    Some(trim_vec(&tail, Trim::Whitespace, true, false))
}

/// Extracts a JSON string field like `"name": "..."` (our own fixed format).
pub fn json_str_field(body: &str, key: &str) -> (r: Option<String>)
    ensures
        match r {
            Some(v) => json_str_field_spec(body@, key@) == Some(v@),
            None => json_str_field_spec(body@, key@) is None,
        },
{
    let b = chars_of(body);
    let r = match after_key(&b, key) {
        Some(r) => r,
        None => return None,
    };
    if r.len() == 0 || r[0] != '"' {
        return None;
    }
    let r2 = slice_vec(&r, 1, r.len());
    assert(r2@ == r@.drop_first());
    let quote: Vec<char> = vec!['"'];
    assert(quote@ =~= seq!['"']);
    let end = match find_vec(&r2, &quote) {
        Some(e) => e,
        None => return None,
    };
    proof {
        lemma_find_from(r2@, quote@, 0);
    }
    Some(string_of(&slice_vec(&r2, 0, end)))
}

/// Extracts a JSON numeric field like `"port": 8000`.
pub fn json_num_field(body: &str, key: &str) -> (r: Option<u16>)
    ensures
        match r {
            Some(v) => json_num_field_spec(body@, key@) == Some(v as int),
            None => json_num_field_spec(body@, key@) is None,
        },
{
    let b = chars_of(body);
    let r = match after_key(&b, key) {
        Some(r) => r,
        None => return None,
    };
    let mut end: usize = 0;
    assert(r@.subrange(0, r@.len() as int) == r@);
    while end < r.len() && '0' <= r[end] && r[end] <= '9'
        invariant
            end <= r@.len(),
            digits_end(r@) == end + digits_end(r@.subrange(end as int, r@.len() as int)),
        decreases r@.len() - end,
    {
        assert(r@.subrange(end as int, r@.len() as int).drop_first() == r@.subrange(
            end + 1,
            r@.len() as int,
        ));
        end = end + 1;
    }
    assert(digits_end(r@.subrange(end as int, r@.len() as int)) == 0);
    let digits = string_of(&slice_vec(&r, 0, end));
    crate::text::parse_u16(digits.as_str())
}

/// The `PeerInfo` a `/info` body describes: name and type are required,
/// a missing or unreadable port reads 0.
pub open spec fn parse_info_spec(body: Seq<char>) -> Option<(Seq<char>, Seq<char>, int)> {
    match (json_str_field_spec(body, "name"@), json_str_field_spec(body, "type"@)) {
        (Some(n), Some(k)) => Some(
            (
                n,
                k,
                match json_num_field_spec(body, "port"@) {
                    Some(p) => p,
                    None => 0,
                },
            ),
        ),
        _ => None,
    }
}

/// Parses a peer's `/info` JSON body.
pub fn parse_info(body: &str) -> (r: Option<PeerInfo>)
    ensures
        match r {
            Some(i) => parse_info_spec(body@) == Some((i.name@, i.kind@, i.port as int)),
            None => parse_info_spec(body@) is None,
        },
{
    let name = match json_str_field(body, "name") {
        Some(n) => n,
        None => return None,
    };
    let kind = match json_str_field(body, "type") {
        Some(k) => k,
        None => return None,
    };
    let port = match json_num_field(body, "port") {
        Some(p) => p,
        None => 0,
    };
    Some(PeerInfo { name, kind, port })
}

/// The status code of a response status line: its second word read as a
/// `u16`, 0 when missing or unreadable.
pub open spec fn status_code_spec(line: Seq<char>) -> int {
    let w = words(line);
    if w.len() > 1 {
        match parse_u16_spec(w[1]) {
            Some(n) => n,
            None => 0,
        }
    } else {
        0
    }
}

/// The status code of a response status line.
pub fn status_code(line: &str) -> (code: u16)
    ensures
        code as int == status_code_spec(line@),
{
    let v = chars_of(line);
    let w = words_vec(&v);
    if w.len() > 1 {
        assert(w@.map_values(|p: Vec<char>| p@)[1] == w@[1]@);
        let word = string_of(&w[1]);
        match crate::text::parse_u16(word.as_str()) {
            Some(n) => n,
            None => 0,
        }
    } else {
        0
    }
}

/// Whether an upload was accepted: a 2xx status.
pub fn upload_accepted(status: u16) -> (r: bool)
    ensures
        r == (200 <= status < 300),
{
    200 <= status && status < 300
}

/// Whether a `/info` body of `len` bytes is read: 1 to 4096 bytes.
pub fn info_body_len_ok(len: u64) -> (r: bool)
    ensures
        r == (0 < len <= 4096),
{
    len != 0 && len <= 4096
}

/// Whether a `/info` status line reports success (contains ` 200 `).
pub fn info_status_ok(line: &str) -> (r: bool)
    ensures
        r == find_spec(line@, " 200 "@) is Some,
{
    let v = chars_of(line);
    let pat = chars_of(" 200 ");
    find_vec(&v, &pat).is_some()
}

/// The head of an upload request for the file `name` to the host `host`.
pub open spec fn put_request_head_spec(name: Seq<char>, host: Seq<char>, len: nat) -> Seq<char> {
    "PUT /"@ + url_encode_bytes(vstd::utf8::encode_utf8(name)) + " HTTP/1.1\r\nHost: "@ + host
        + "\r\nContent-Length: "@ + decimal(len) + "\r\nConnection: close\r\n\r\n"@
}

/// The head of an upload request: `PUT /<url-encoded name>` with the body
/// length, addressed to `host` (the peer's address text).
pub fn put_request_head(name: &str, host: &str, len: u64) -> (s: String)
    ensures
        s@ == put_request_head_spec(name@, host@, len as nat),
{
    let mut s = "PUT /".to_owned();
    push_str(&mut s, url_encode(name).as_str());
    push_str(&mut s, " HTTP/1.1\r\nHost: ");
    push_str(&mut s, host);
    push_str(&mut s, "\r\nContent-Length: ");
    push_str(&mut s, u64_decimal(len).as_str());
    push_str(&mut s, "\r\nConnection: close\r\n\r\n");
    s
}

/// The `GET /info` request to the host `host`.
pub fn info_request(host: &str) -> (s: String)
    ensures
        s@ == "GET /info HTTP/1.1\r\nHost: "@ + host@ + "\r\nConnection: close\r\n\r\n"@,
{
    let mut s = "GET /info HTTP/1.1\r\nHost: ".to_owned();
    push_str(&mut s, host);
    push_str(&mut s, "\r\nConnection: close\r\n\r\n");
    s
}

/// How an upload ended, from the response status: accepted for 2xx, else
/// the error `server responded <status>`.
pub fn upload_result(status: u16) -> (r: Result<(), String>)
    ensures
        match r {
            Ok(()) => 200 <= status < 300,
            Err(m) => !(200 <= status < 300) && m@ == "server responded "@ + decimal(status as nat),
        },
{
    if upload_accepted(status) {
        Ok(())
    } else {
        let mut m = "server responded ".to_owned();
        push_str(&mut m, u64_decimal(status as u64).as_str());
        Err(m)
    }
}

/// At most this many bytes of a response head are drained.
pub const MAX_RESPONSE_HEAD: u64 = 32768;

/// Draining a response's header block after its status line: lines are
/// read until a blank one, or until more than `MAX_RESPONSE_HEAD` bytes
/// were consumed.
pub struct HeadDrain {
    consumed: u64,
}

impl HeadDrain {
    /// Starts after a status line of `status_len` bytes.
    pub fn new(status_len: u64) -> (d: Self)
        ensures
            d.consumed() == status_len,
    {
        HeadDrain { consumed: status_len }
    }

    /// The bytes consumed so far.
    pub closed spec fn consumed(&self) -> u64 {
        self.consumed
    }

    /// Whether another line is read.
    pub fn wants_line(&self) -> (r: bool)
        ensures
            r == (self.consumed() <= MAX_RESPONSE_HEAD),
    {
        self.consumed <= MAX_RESPONSE_HEAD
    }

    /// Takes one header line of `len` bytes; returns whether it ended the
    /// header block (it is blank once trimmed).
    pub fn feed(&mut self, line: &str, len: u64) -> (done: bool)
        ensures
            final(self).consumed() == (if old(self).consumed() + len > u64::MAX {
                u64::MAX as int
            } else {
                old(self).consumed() + len
            }),
            done == (crate::text::trim_spec(line@, Trim::Whitespace).len() == 0),
    {
        self.consumed = self.consumed.saturating_add(len);
        let t = crate::text::trim_ws(line);
        chars_of(t.as_str()).len() == 0
    }
}


// ---------------------------------------------------------------------------
// What a device serves at `/info` is what a peer reads from it
// ---------------------------------------------------------------------------

/// A search steps past a position whose character differs from the pattern's
/// character `m` places further on.
proof fn lemma_find_step(s: Seq<char>, pat: Seq<char>, j: int, m: int)
    requires
        0 <= j,
        0 <= m < pat.len(),
        j + pat.len() <= s.len() ==> s[j + m] != pat[m],
    ensures
        find_from(s, pat, j) == find_from(s, pat, j + 1),
{
    if j + pat.len() <= s.len() {
        assert(s.subrange(j, j + pat.len())[m] != pat[m]);
    }
}

/// A search steps past a stretch where the pattern's first character does
/// not occur.
proof fn lemma_find_skip(s: Seq<char>, pat: Seq<char>, i: int, k: int)
    requires
        0 <= i <= k,
        pat.len() > 0,
        forall|j: int| i <= j < k && j < s.len() ==> s[j] != pat[0],
    ensures
        find_from(s, pat, i) == find_from(s, pat, k),
    decreases k - i,
{
    if i < k {
        if i < s.len() {
            lemma_find_step(s, pat, i, 0);
        }
        lemma_find_skip(s, pat, i + 1, k);
    }
}

/// A search stops where the pattern occurs.
proof fn lemma_find_here(s: Seq<char>, pat: Seq<char>, j: int)
    requires
        0 <= j,
        j + pat.len() <= s.len(),
        forall|m: int| 0 <= m < pat.len() ==> s[j + m] == pat[m],
    ensures
        find_from(s, pat, j) == Some(j),
{
    assert(s.subrange(j, j + pat.len()) =~= pat);
}


/// The `/info` body, character by character around the host name.
#[verifier::spinoff_prover]
#[verifier::rlimit(50)]
proof fn lemma_info_body(host: Seq<char>, version: Seq<char>)
    ensures
        ({
            let b = device_info_json_spec(host, version);
            let o = 9 + host.len() as int;
            &&& b.len() == o + 39 + version.len()
            &&& b[0] == '{' && b[1] == '"' && b[2] == 'n' && b[3] == 'a' && b[4] == 'm'
            &&& b[5] == 'e' && b[6] == '"' && b[7] == ':' && b[8] == '"'
            &&& forall|k: int| 9 <= k < o ==> #[trigger] b[k] == host[k - 9]
            &&& b[o] == '"' && b[o + 1] == ',' && b[o + 2] == '"' && b[o + 3] == 't'
            &&& b[o + 4] == 'y' && b[o + 5] == 'p' && b[o + 6] == 'e' && b[o + 7] == '"'
            &&& b[o + 8] == ':' && b[o + 9] == '"' && b[o + 10] == 'p' && b[o + 11] == 'c'
            &&& b[o + 12] == '"' && b[o + 13] == ',' && b[o + 14] == '"' && b[o + 15] == 'p'
            &&& b[o + 16] == 'o' && b[o + 17] == 'r' && b[o + 18] == 't' && b[o + 19] == '"'
            &&& b[o + 20] == ':' && b[o + 21] == '8' && b[o + 22] == '0' && b[o + 23] == '0'
            &&& b[o + 24] == '0' && b[o + 25] == ','
        }),
{
    reveal_strlit("{\"name\":\"");
    reveal_strlit("\",\"type\":\"pc\",\"port\":");
    reveal_strlit(",\"version\":\"");
    reveal_strlit("\"}");
    reveal_with_fuel(decimal, 5);
    let a = "{\"name\":\""@;
    let bb = "\",\"type\":\"pc\",\"port\":"@;
    let d = decimal(HTTP_PORT as nat);
    let c = ",\"version\":\""@;
    let e = "\"}"@;
    assert(d =~= seq!['8', '0', '0', '0']);
    let b = device_info_json_spec(host, version);
    let h = host.len() as int;
    assert(b =~= a + host + bb + d + c + version + e);
    assert forall|k: int| 9 <= k < 9 + h implies #[trigger] b[k] == host[k - 9] by {
        assert((a + host)[k] == host[k - 9]);
    }
    assert(forall|k: int| 0 <= k < 9 ==> b[k] == a[k]);
    assert(forall|k: int| 0 <= k < 21 ==> b[9 + h + k] == bb[k]);
    assert(forall|k: int| 0 <= k < 4 ==> b[30 + h + k] == d[k]);
    assert(b[34 + h] == c[0]);
}


/// After a field's `:` comes the text from `at` on, which starts with a
/// character that is not whitespace.
proof fn lemma_field_tail_at(b: Seq<char>, key: Seq<char>, idx: int, colon: int, at: int)
    requires
        find_spec(b, seq!['"'] + key + seq!['"']) == Some(idx),
        idx + key.len() + 2 <= colon < at <= b.len() - 1,
        at == colon + 1,
        b[colon] == ':',
        forall|j: int| idx + key.len() + 2 <= j < colon ==> b[j] != ':',
        !crate::text::is_ws(b[at]),
    ensures
        field_tail(b, key) == Some(b.subrange(at, b.len() as int)),
{
    let needle = seq!['"'] + key + seq!['"'];
    lemma_find_from(b, needle, 0);
    let start = idx + needle.len();
    let rest = b.subrange(start, b.len() as int);
    assert forall|j: int| 0 <= j < colon - start && j < rest.len() implies rest[j] != seq![':'][0] by {
        assert(rest[j] == b[start + j]);
    }
    lemma_find_skip(rest, seq![':'], 0, colon - start);
    assert(rest[colon - start] == b[colon]);
    lemma_find_here(rest, seq![':'], colon - start);
    let tail = rest.subrange(colon - start + 1, rest.len() as int);
    assert(tail =~= b.subrange(at, b.len() as int));
    assert(trim_start_spec(tail, Trim::Whitespace) == tail);
}

/// The name a device serves at `/info` reads back.
#[verifier::spinoff_prover]
#[verifier::rlimit(50)]
proof fn lemma_info_name(host: Seq<char>, version: Seq<char>)
    requires
        forall|i: int| 0 <= i < host.len() ==> host[i] != '"',
    ensures
        json_str_field_spec(device_info_json_spec(host, version), "name"@) == Some(host),
{
    lemma_info_body(host, version);
    reveal_strlit("name");
    let b = device_info_json_spec(host, version);
    let h = host.len() as int;
    let n = seq!['"'] + "name"@ + seq!['"'];
    assert(n =~= seq!['"', 'n', 'a', 'm', 'e', '"']);
    lemma_find_step(b, n, 0, 0);
    lemma_find_here(b, n, 1);
    lemma_field_tail_at(b, "name"@, 1, 7, 8);
    let r = b.subrange(8, b.len() as int);
    let v = r.drop_first();
    assert(v =~= b.subrange(9, b.len() as int));
    assert forall|j: int| 0 <= j < h && j < v.len() implies v[j] != seq!['"'][0] by {
        assert(v[j] == b[9 + j]);
        assert(b[9 + j] == host[j]);
    }
    lemma_find_skip(v, seq!['"'], 0, h);
    assert(v[h] == b[9 + h]);
    lemma_find_here(v, seq!['"'], h);
    assert forall|k: int| 0 <= k < h implies v.subrange(0, h)[k] == host[k] by {
        assert(v[k] == b[9 + k]);
        assert(b[9 + k] == host[k]);
    }
    assert(v.subrange(0, h) =~= host);
}

/// Where a field name of six characters starting `"` and ending `"` may
/// first occur in an `/info` body: not within `"name":"` and, unless the
/// host name is that field's own name, not where the host name starts.
#[verifier::spinoff_prover]
#[verifier::rlimit(50)]
proof fn lemma_info_prefix_skip(host: Seq<char>, version: Seq<char>, pat: Seq<char>)
    requires
        forall|i: int| 0 <= i < host.len() ==> host[i] != '"',
        pat.len() == 6,
        pat[0] == '"',
        pat[5] == '"',
        pat[1] != 'n' && pat[1] != ':',
        forall|m: int| 1 <= m < 5 ==> pat[m] != '"',
        host != pat.subrange(1, 5),
    ensures
        find_from(device_info_json_spec(host, version), pat, 0) == find_from(
            device_info_json_spec(host, version),
            pat,
            9 + host.len() as int,
        ),
{
    lemma_info_body(host, version);
    let b = device_info_json_spec(host, version);
    let h = host.len() as int;
    lemma_find_step(b, pat, 0, 0);
    lemma_find_step(b, pat, 1, 1);
    lemma_find_skip(b, pat, 2, 6);
    lemma_find_step(b, pat, 6, 1);
    lemma_find_step(b, pat, 7, 0);
    // At the host name's opening quote the pattern cannot fit.
    if h > 4 {
        assert(b[13] == host[4]);
        lemma_find_step(b, pat, 8, 5);
    } else if h < 4 {
        assert(b[9 + h] == '"');
        lemma_find_step(b, pat, 8, 1 + h);
    } else {
        assert(exists|m: int| 0 <= m < 4 && host[m] != pat[m + 1]) by {
            if forall|m: int| 0 <= m < 4 ==> host[m] == pat[m + 1] {
                assert(host =~= pat.subrange(1, 5));
            }
        }
        let m = choose|m: int| 0 <= m < 4 && host[m] != pat[m + 1];
        assert(b[9 + m] == host[m]);
        lemma_find_step(b, pat, 8, m + 1);
    }
    assert forall|j: int| 9 <= j < 9 + h && j < b.len() implies b[j] != pat[0] by {
        assert(b[j] == host[j - 9]);
    }
    lemma_find_skip(b, pat, 9, 9 + h);
}


/// Where the type field's value starts, for a host named `type`: the
/// search stops at the host name, whose `:` is the type field's.
#[verifier::spinoff_prover]
#[verifier::rlimit(50)]
proof fn lemma_info_type_tail_own(host: Seq<char>, version: Seq<char>)
    requires
        host == "type"@,
    ensures
        field_tail(device_info_json_spec(host, version), "type"@) == Some(
            device_info_json_spec(host, version).subrange(
                9 + host.len() as int + 9,
                device_info_json_spec(host, version).len() as int,
            ),
        ),
{
    lemma_info_body(host, version);
    reveal_strlit("type");
    let b = device_info_json_spec(host, version);
    let o = 9 + host.len() as int;
    let t = seq!['"'] + "type"@ + seq!['"'];
    assert(t =~= seq!['"', 't', 'y', 'p', 'e', '"']);
    lemma_find_step(b, t, 0, 0);
    lemma_find_step(b, t, 1, 1);
    lemma_find_skip(b, t, 2, 6);
    lemma_find_step(b, t, 6, 1);
    lemma_find_step(b, t, 7, 0);
    assert(b[9] == host[0] && b[10] == host[1] && b[11] == host[2] && b[12] == host[3]);
    lemma_find_here(b, t, 8);
    lemma_field_tail_at(b, "type"@, 8, o + 8, o + 9);
}

/// Where the type field's value starts, for any other host name.
#[verifier::spinoff_prover]
#[verifier::rlimit(50)]
proof fn lemma_info_type_tail_other(host: Seq<char>, version: Seq<char>)
    requires
        forall|i: int| 0 <= i < host.len() ==> host[i] != '"',
        host != "type"@,
    ensures
        field_tail(device_info_json_spec(host, version), "type"@) == Some(
            device_info_json_spec(host, version).subrange(
                9 + host.len() as int + 9,
                device_info_json_spec(host, version).len() as int,
            ),
        ),
{
    lemma_info_body(host, version);
    reveal_strlit("type");
    let b = device_info_json_spec(host, version);
    let o = 9 + host.len() as int;
    let t = seq!['"'] + "type"@ + seq!['"'];
    assert(t =~= seq!['"', 't', 'y', 'p', 'e', '"']);
    assert(t.subrange(1, 5) =~= "type"@);
    lemma_info_prefix_skip(host, version, t);
    lemma_find_step(b, t, o, 1);
    lemma_find_step(b, t, o + 1, 0);
    lemma_find_here(b, t, o + 2);
    lemma_field_tail_at(b, "type"@, o + 2, o + 8, o + 9);
}

/// The type a device serves at `/info` reads back as `pc`.
#[verifier::spinoff_prover]
#[verifier::rlimit(50)]
proof fn lemma_info_type(host: Seq<char>, version: Seq<char>)
    requires
        forall|i: int| 0 <= i < host.len() ==> host[i] != '"',
    ensures
        json_str_field_spec(device_info_json_spec(host, version), "type"@) == Some("pc"@),
{
    lemma_info_body(host, version);
    reveal_strlit("pc");
    let b = device_info_json_spec(host, version);
    let o = 9 + host.len() as int;
    if host == "type"@ {
        lemma_info_type_tail_own(host, version);
    } else {
        lemma_info_type_tail_other(host, version);
    }
    let v = b.subrange(o + 10, b.len() as int);
    assert(b.subrange(o + 9, b.len() as int).drop_first() =~= v);
    assert(b.subrange(o + 9, b.len() as int)[0] == '"');
    assert(v[0] == 'p' && v[1] == 'c' && v[2] == '"');
    lemma_find_step(v, seq!['"'], 0, 0);
    lemma_find_step(v, seq!['"'], 1, 0);
    lemma_find_here(v, seq!['"'], 2);
    assert(v.subrange(0, 2) =~= "pc"@);
}

/// The port a device serves at `/info` reads back, unless the host name is
/// `port` itself.
#[verifier::spinoff_prover]
#[verifier::rlimit(50)]
proof fn lemma_info_port(host: Seq<char>, version: Seq<char>)
    requires
        forall|i: int| 0 <= i < host.len() ==> host[i] != '"',
        host != "port"@,
    ensures
        json_num_field_spec(device_info_json_spec(host, version), "port"@) == Some(
            HTTP_PORT as int,
        ),
{
    lemma_info_body(host, version);
    reveal_strlit("port");
    let b = device_info_json_spec(host, version);
    let o = 9 + host.len() as int;
    let p = seq!['"'] + "port"@ + seq!['"'];
    assert(p =~= seq!['"', 'p', 'o', 'r', 't', '"']);
    assert(p.subrange(1, 5) =~= "port"@);
    lemma_info_prefix_skip(host, version, p);
    lemma_find_step(b, p, o, 1);
    lemma_find_step(b, p, o + 1, 0);
    lemma_find_step(b, p, o + 2, 1);
    lemma_find_skip(b, p, o + 3, o + 7);
    lemma_find_step(b, p, o + 7, 1);
    lemma_find_step(b, p, o + 8, 0);
    lemma_find_step(b, p, o + 9, 2);
    lemma_find_skip(b, p, o + 10, o + 12);
    lemma_find_step(b, p, o + 12, 1);
    lemma_find_step(b, p, o + 13, 0);
    lemma_find_here(b, p, o + 14);
    lemma_field_tail_at(b, "port"@, o + 14, o + 20, o + 21);
    let r = b.subrange(o + 21, b.len() as int);
    assert(r[0] == '8' && r[1] == '0' && r[2] == '0' && r[3] == '0' && r[4] == ',');
    assert(digits_end(r.subrange(4, r.len() as int)) == 0);
    assert(r.subrange(3, r.len() as int).drop_first() =~= r.subrange(4, r.len() as int));
    assert(r.subrange(2, r.len() as int).drop_first() =~= r.subrange(3, r.len() as int));
    assert(r.subrange(1, r.len() as int).drop_first() =~= r.subrange(2, r.len() as int));
    assert(r.drop_first() =~= r.subrange(1, r.len() as int));
    assert(digits_end(r.subrange(3, r.len() as int)) == 1);
    assert(digits_end(r.subrange(2, r.len() as int)) == 2);
    assert(digits_end(r.subrange(1, r.len() as int)) == 3);
    assert(digits_end(r) == 4);
    let d = r.subrange(0, 4);
    assert(d =~= seq!['8', '0', '0', '0']);
    reveal_with_fuel(crate::text::digits_value, 5);
    assert(crate::text::digits_value(d) == 8000);
    assert(crate::text::all_digits(d));
}

/// A peer reads back what a device serves at `/info`: the device's name,
/// the type `pc` and the file-server port. For every name without `"`,
/// other than the name `port` (which the reader takes for the port field
/// and then reads port 0).
pub proof fn law_info_roundtrip(host: Seq<char>, version: Seq<char>)
    requires
        forall|i: int| 0 <= i < host.len() ==> host[i] != '"',
        host != "port"@,
    ensures
        parse_info_spec(device_info_json_spec(host, version)) == Some(
            (host, "pc"@, HTTP_PORT as int),
        ),
{
    lemma_info_name(host, version);
    lemma_info_type(host, version);
    lemma_info_port(host, version);
}

} // verus!
