//! The SSH side of pairing and receiving: which keys are authorized, what a
//! session's exec and subsystem requests lead to, where SFTP paths land, and
//! the sink side of the `scp -t` protocol as a state machine.

use vstd::prelude::*;
use russh_keys::PublicKeyBase64;
use crate::text::{
    chars_of, lines_spec, lines_vec, lossy_string, push_char, push_str, slice_vec, split_once_spec,
    split_once_vec, split_pieces, split_vec, string_of, strip_cr, trim_spec, trim_start_spec, trim_vec,
    lossy_text, vec_eq_str, words, words_vec, Sep, Trim,
};

verus! {

/// The SSH port every Tumbleweed device listens on.
pub const SSH_PORT: u16 = 2222;

// ---------------------------------------------------------------------------
// Logging of the SSH library's diagnostics
// ---------------------------------------------------------------------------

/// Bridges the SSH library's log records into the app's log file.
pub struct FileLogger;

impl FileLogger {
    /// Records are kept when their target starts with `russh`.
    pub fn enabled(&self, target: &str) -> (r: bool)
        ensures
            r == (target@.len() >= 5 && target@.subrange(0, 5) == "russh"@),
    {
        let t = chars_of(target);
        let p = chars_of("russh");
        proof {
            reveal_strlit("russh");
        }
        crate::text::starts_with_vec(&t, &p)
    }

    /// The log-file line for a record: `[log/<level>] <message>`.
    pub fn line(&self, level: &str, message: &str) -> (s: String)
        ensures
            s@ == "[log/"@ + level@ + "] "@ + message@,
    {
        let mut s = String::new();
        push_str(&mut s, "[log/");
        push_str(&mut s, level);
        push_str(&mut s, "] ");
        push_str(&mut s, message);
        s
    }
}

// ---------------------------------------------------------------------------
// The shared folder
// ---------------------------------------------------------------------------

/// The folder uploads land in: the Explorer page's current folder once set.
pub struct ShareRoot {
    root: Option<String>,
}

impl ShareRoot {
    /// No folder chosen yet.
    pub fn new() -> (s: Self)
        ensures
            s.chosen() is None,
    {
        ShareRoot { root: None }
    }

    /// The chosen folder, if any.
    pub closed spec fn chosen(&self) -> Option<Seq<char>> {
        match self.root {
            Some(r) => Some(r@),
            None => None,
        }
    }

    /// Updates the folder uploads land in.
    pub fn set_share_root(&mut self, path: String)
        ensures
            final(self).chosen() == Some(path@),
    {
        self.root = Some(path);
    }

    /// The folder uploads land in: the chosen one, else the working folder
    /// (`current_dir`, when it could be read), else `C:\`.
    pub fn share_root(&self, current_dir: Option<String>) -> (r: String)
        ensures
            r@ == (match self.chosen() {
                Some(p) => p,
                None => match current_dir {
                    Some(d) => d@,
                    None => "C:\\"@,
                },
            }),
    {
        match &self.root {
            Some(r) => r.clone(),
            None => match current_dir {
                Some(d) => d,
                None => String::from_str("C:\\"),
            },
        }
    }
}

// ---------------------------------------------------------------------------
// Paths
// ---------------------------------------------------------------------------

/// A plain file or folder name: the trimmed name, unless it is empty, holds
/// a path separator or a drive mark `:`, or is `.` or `..`.
pub open spec fn sanitize_component_spec(name: Seq<char>) -> Option<Seq<char>> {
    let t = trim_spec(name, Trim::Whitespace);
    if t.len() == 0 || t.contains('/') || t.contains('\\') || t.contains(':') || t == ".."@ || t
        == "."@ {
        None
    } else {
        Some(t)
    }
}

/// Whether `c` occurs in `v`.
fn vec_contains(v: &Vec<char>, c: char) -> (r: bool)
    ensures
        r == v@.contains(c),
{
    for i in 0..v.len()
        invariant
            forall|k: int| 0 <= k < i ==> v@[k] != c,
    {
        if v[i] == c {
            assert(v@[i as int] == c);
            return true;
        }
    }
    false
}

/// Rejects path traversal: only a single plain file or folder name passes
/// (no separator, no drive mark `:`, not `.` or `..`).
pub fn sanitize_component(name: &str) -> (r: Option<String>)
    ensures
        match r {
            Some(s) => sanitize_component_spec(name@) == Some(s@),
            None => sanitize_component_spec(name@) is None,
        },
{
    let v = chars_of(name);
    let t = trim_vec(&v, Trim::Whitespace, true, true);
    if t.len() == 0 || vec_contains(&t, '/') || vec_contains(&t, '\\') || vec_contains(&t, ':')
        || vec_eq_str(&t, "..") || vec_eq_str(&t, ".") {
        None
    } else {
        Some(string_of(&t))
    }
}

/// The path components of an SFTP path: empty and `.` pieces dropped; a
/// `..` piece or a piece with `:` rejects the whole path.
pub open spec fn resolve_segments(pieces: Seq<Seq<char>>) -> Option<Seq<Seq<char>>>
    decreases pieces.len(),
{
    if pieces.len() == 0 {
        Some(Seq::empty())
    } else {
        match resolve_segments(pieces.drop_last()) {
            None => None,
            Some(acc) => {
                let p = pieces.last();
                if p.len() == 0 || p == "."@ {
                    Some(acc)
                } else if p == ".."@ || p.contains(':') {
                    None
                } else {
                    Some(acc.push(p))
                }
            },
        }
    }
}

/// The components below the shared folder that an SFTP path names, split at
/// `/` and `\`; `None` for a path that would escape the folder.
pub open spec fn resolve_path_spec(path: Seq<char>) -> Option<Seq<Seq<char>>> {
    resolve_segments(split_pieces(path, Sep::Two('/', '\\')))
}

proof fn lemma_resolve_none(v: Seq<Seq<char>>, n: int)
    requires
        0 <= n <= v.len(),
        resolve_segments(v.take(n)) is None,
    ensures
        resolve_segments(v) is None,
    decreases v.len() - n,
{
    if n < v.len() {
        assert(v.take(n + 1).drop_last() == v.take(n));
        lemma_resolve_none(v, n + 1);
    } else {
        assert(v.take(n) == v);
    }
}

/// Resolves an SFTP path inside the shared folder, rejecting anything that
/// escapes it; the result is the list of components to join onto the folder.
pub fn resolve_path(path: &str) -> (r: Option<Vec<String>>)
    ensures
        match r {
            Some(v) => resolve_path_spec(path@) == Some(v@.map_values(|s: String| s@)),
            None => resolve_path_spec(path@) is None,
        },
{
    let c = chars_of(path);
    let pieces = split_vec(&c, Sep::Two('/', '\\'));
    let ghost views = pieces@.map_values(|p: Vec<char>| p@);
    let mut out: Vec<String> = Vec::new();
    for i in 0..pieces.len()
        invariant
            views == pieces@.map_values(|p: Vec<char>| p@),
            views == split_pieces(path@, Sep::Two('/', '\\')),
            resolve_segments(views.take(i as int)) == Some(out@.map_values(|s: String| s@)),
    {
        assert(views.take(i + 1).drop_last() == views.take(i as int));
        let seg = &pieces[i];
        if seg.len() == 0 || vec_eq_str(seg, ".") {
        } else if vec_eq_str(seg, "..") || vec_contains(seg, ':') {
            proof {
                lemma_resolve_none(views, i + 1);
            }
            return None;
        } else {
            let ghost before = out@.map_values(|s: String| s@);
            out.push(string_of(seg));
            assert(out@.map_values(|s: String| s@) =~= before.push(seg@));
        }
    }
    assert(views.take(pieces.len() as int) == views);
    Some(out)
}

/// The name an SFTP `realpath` request gets back: the path with its leading
/// slashes and backslashes replaced by one `/`.
pub fn sftp_realpath(path: &str) -> (r: String)
    ensures
        r@ == seq!['/'] + trim_start_spec(path@, Trim::Either('/', '\\')),
{
    let v = chars_of(path);
    let rel = trim_vec(&v, Trim::Either('/', '\\'), true, false);
    let mut s = String::new();
    push_char(&mut s, '/');
    let r = string_of(&rel);
    push_str(&mut s, r.as_str());
    s
}

/// The SFTP requests that name a path.
#[derive(Clone, Copy, Debug, PartialEq, Eq, Structural)]
pub enum SftpOp {
    Open,
    Mkdir,
    Stat,
}

/// Why an SFTP request on a path fails.
#[derive(Clone, Copy, Debug, PartialEq, Eq, Structural)]
pub enum SftpFailure {
    /// The generic failure status.
    Failure,
    /// The "no such file" status.
    NoSuchFile,
}

/// The components an SFTP request's path names, or the status it fails with
/// when the path escapes the shared folder: "no such file" for `stat`, a
/// plain failure otherwise.
pub fn sftp_path(op: SftpOp, path: &str) -> (r: Result<Vec<String>, SftpFailure>)
    ensures
        match r {
            Ok(v) => resolve_path_spec(path@) == Some(v@.map_values(|s: String| s@)),
            Err(e) => resolve_path_spec(path@) is None && e == (if op == SftpOp::Stat {
                SftpFailure::NoSuchFile
            } else {
                SftpFailure::Failure
            }),
        },
{
    match resolve_path(path) {
        Some(v) => Ok(v),
        None => match op {
            SftpOp::Stat => Err(SftpFailure::NoSuchFile),
            _ => Err(SftpFailure::Failure),
        },
    }
}

// ---------------------------------------------------------------------------
// The `scp -t` sink
// ---------------------------------------------------------------------------

/// Control lines longer than this are refused.
pub const SCP_LINE_MAX: usize = 8192;

/// File payloads are read in pieces of at most this many bytes.
pub const SCP_CHUNK: usize = 65536;

/// What one control line asks of the sink.
#[derive(Clone, Debug, PartialEq)]
pub enum ScpStep {
    /// An empty line: read the next one.
    Skip,
    /// `C<mode> <size> <name>`: ack, receive `size` bytes into `name` in the
    /// current folder, read the sender's trailing zero byte, ack again.
    File { name: String, size: u64 },
    /// `D<mode> <size> <name>`: enter (and create) the folder `name`, then ack.
    EnterDir(String),
    /// `E`: step out to the parent folder, then ack.
    LeaveDir,
    /// `T<times>`: ack only.
    Ack,
    /// Stop the transfer with this error.
    Fail(String),
}

/// A control line's meaning as plain values.
pub enum ScpView {
    Skip,
    File(Seq<char>, u64),
    EnterDir(Seq<char>),
    LeaveDir,
    Ack,
    Fail(Seq<char>),
}

impl View for ScpStep {
    type V = ScpView;

    open spec fn view(&self) -> ScpView {
        match self {
            ScpStep::Skip => ScpView::Skip,
            ScpStep::File { name, size } => ScpView::File(name@, *size),
            ScpStep::EnterDir(n) => ScpView::EnterDir(n@),
            ScpStep::LeaveDir => ScpView::LeaveDir,
            ScpStep::Ack => ScpView::Ack,
            ScpStep::Fail(m) => ScpView::Fail(m@),
        }
    }
}

/// The pieces `str::splitn(3, ' ')` gives: split at the first two spaces.
pub open spec fn splitn3(s: Seq<char>) -> Seq<Seq<char>> {
    match split_once_spec(s, ' ') {
        None => seq![s],
        Some((a, r)) => match split_once_spec(r, ' ') {
            None => seq![a, r],
            Some((b, c)) => seq![a, b, c],
        },
    }
}

/// A lower-case hexadecimal digit.
pub open spec fn hex_digit_lower(n: int) -> char {
    if n < 10 {
        (48 + n) as char
    } else {
        (87 + n) as char
    }
}

/// The meaning of a control line with command byte `c` and the rest of the
/// line `rest`.
pub open spec fn scp_command_spec(c: u8, rest: Seq<char>) -> ScpView {
    let ps = splitn3(rest);
    if c == 67 {
        let size_text = if ps.len() >= 2 {
            ps[1]
        } else {
            "0"@
        };
        let size: u64 = match crate::text::parse_u64_spec(trim_spec(size_text, Trim::Whitespace)) {
            Some(n) => n as u64,
            None => 0,
        };
        let name = if ps.len() >= 3 {
            ps[2]
        } else {
            Seq::empty()
        };
        match sanitize_component_spec(name) {
            Some(n) => ScpView::File(n, size),
            None => ScpView::Fail("scp: bad file name: "@ + rest),
        }
    } else if c == 68 {
        let name = if ps.len() >= 3 {
            ps[2]
        } else {
            Seq::empty()
        };
        match sanitize_component_spec(name) {
            Some(n) => ScpView::EnterDir(n),
            None => ScpView::Fail("scp: bad dir name: "@ + rest),
        }
    } else if c == 69 {
        ScpView::LeaveDir
    } else if c == 84 {
        ScpView::Ack
    } else if c == 1 || c == 2 {
        ScpView::Fail("scp: sender error: "@ + rest)
    } else {
        ScpView::Fail(
            "scp: unexpected control byte 0x"@ + seq![hex_digit_lower((c / 16) as int), hex_digit_lower((c % 16) as int)],
        )
    }
}

fn hex_lower(n: u8) -> (c: char)
    requires
        n < 16,
    ensures
        c == hex_digit_lower(n as int),
{
    if n < 10 {
        crate::text::char_from_ascii((48 + n) as u32)
    } else {
        crate::text::char_from_ascii((87 + n) as u32)
    }
}

/// The pieces of `splitn(3, ' ')` after the first: the second (if any) and
/// the third (if any).
fn splitn3_tail(v: &Vec<char>) -> (r: (Option<Vec<char>>, Option<Vec<char>>))
    ensures
        splitn3(v@).len() >= 2 <==> r.0 is Some,
        splitn3(v@).len() >= 2 ==> r.0.unwrap()@ == splitn3(v@)[1],
        splitn3(v@).len() >= 3 <==> r.1 is Some,
        splitn3(v@).len() >= 3 ==> r.1.unwrap()@ == splitn3(v@)[2],
{
    match split_once_vec(v, ' ') {
        None => (None, None),
        Some((_a, rest)) => match split_once_vec(&rest, ' ') {
            None => (Some(rest), None),
            Some((b, c)) => (Some(b), Some(c)),
        },
    }
}

/// What a control line asks, given its command byte and the rest of it.
pub fn scp_command(c: u8, rest: &str) -> (r: ScpStep)
    ensures
        r@ == scp_command_spec(c, rest@),
{
    let v = chars_of(rest);
    let (second, third) = splitn3_tail(&v);
    if c == 67 {
        let size_text = match second {
            Some(t) => t,
            None => chars_of("0"),
        };
        let st = string_of(&trim_vec(&size_text, Trim::Whitespace, true, true));
        let size: u64 = match crate::text::parse_u64(st.as_str()) {
            Some(n) => n,
            None => 0,
        };
        let name = match third {
            Some(t) => string_of(&t),
            None => String::new(),
        };
        match sanitize_component(name.as_str()) {
            Some(n) => ScpStep::File { name: n, size },
            None => {
                let mut m = String::new();
                push_str(&mut m, "scp: bad file name: ");
                push_str(&mut m, rest);
                assert(m@ =~= "scp: bad file name: "@ + rest@);
                ScpStep::Fail(m)
            },
        }
    } else if c == 68 {
        let name = match third {
            Some(t) => string_of(&t),
            None => String::new(),
        };
        match sanitize_component(name.as_str()) {
            Some(n) => ScpStep::EnterDir(n),
            None => {
                let mut m = String::new();
                push_str(&mut m, "scp: bad dir name: ");
                push_str(&mut m, rest);
                assert(m@ =~= "scp: bad dir name: "@ + rest@);
                ScpStep::Fail(m)
            },
        }
    } else if c == 69 {
        ScpStep::LeaveDir
    } else if c == 84 {
        ScpStep::Ack
    } else if c == 1 || c == 2 {
        let mut m = String::new();
        push_str(&mut m, "scp: sender error: ");
        push_str(&mut m, rest);
        assert(m@ =~= "scp: sender error: "@ + rest@);
        ScpStep::Fail(m)
    } else {
        let mut m = String::new();
        push_str(&mut m, "scp: unexpected control byte 0x");
        push_char(&mut m, hex_lower(c / 16));
        push_char(&mut m, hex_lower(c % 16));
        assert(m@ =~= "scp: unexpected control byte 0x"@ + seq![
            hex_digit_lower((c / 16) as int),
            hex_digit_lower((c % 16) as int),
        ]);
        ScpStep::Fail(m)
    }
}

/// The meaning of a whole control line: its first byte is the command, the
/// rest is read as (lossy) UTF-8.
pub open spec fn scp_line_spec(line: Seq<u8>) -> ScpView {
    if line.len() == 0 {
        ScpView::Skip
    } else {
        scp_command_spec(line[0], lossy_text(line.drop_first()))
    }
}

/// What a complete control line (without its `\n`) asks of the sink.
pub fn scp_control(line: &Vec<u8>) -> (r: ScpStep)
    ensures
        r@ == scp_line_spec(line@),
{
    if line.len() == 0 {
        return ScpStep::Skip;
    }
    let tail = slice_vec(line, 1, line.len());
    assert(tail@ == line@.drop_first());
    let rest = lossy_string(tail.as_slice());
    scp_command(line[0], rest.as_str())
}

/// A control line being read byte by byte.
pub struct ControlLine {
    bytes: Vec<u8>,
}

impl View for ControlLine {
    type V = Seq<u8>;

    closed spec fn view(&self) -> Seq<u8> {
        self.bytes@
    }
}

/// What one more byte of a control line leads to.
#[derive(Clone, Debug, PartialEq)]
pub enum LineStep {
    /// The byte was kept; read another.
    More,
    /// The byte was the `\n` that ends the line.
    Done,
    /// The line is too long: stop the transfer with this error.
    TooLong(String),
}

impl ControlLine {
    /// An empty line.
    pub fn new() -> (l: Self)
        ensures
            l@ == Seq::<u8>::empty(),
    {
        ControlLine { bytes: Vec::new() }
    }

    /// Takes one byte: a `\n` ends the line; otherwise the byte is kept,
    /// unless the line already holds more than `SCP_LINE_MAX` bytes.
    pub fn feed(&mut self, b: u8) -> (r: LineStep)
        ensures
            b == 10 ==> r is Done && final(self)@ == old(self)@,
            b != 10 && old(self)@.len() > SCP_LINE_MAX ==> (r matches LineStep::TooLong(m) && m@
                == "scp: control line too long"@) && final(self)@ == old(self)@,
            b != 10 && old(self)@.len() <= SCP_LINE_MAX ==> r is More && final(self)@ == old(
                self,
            )@.push(b),
    {
        if b == 10 {
            LineStep::Done
        } else if self.bytes.len() > SCP_LINE_MAX {
            LineStep::TooLong(String::from_str("scp: control line too long"))
        } else {
            self.bytes.push(b);
            LineStep::More
        }
    }

    /// Hands out the line read so far and starts a new one.
    pub fn take(&mut self) -> (line: Vec<u8>)
        ensures
            line@ == old(self)@,
            final(self)@ == Seq::<u8>::empty(),
    {
        let mut out = Vec::new();
        std::mem::swap(&mut out, &mut self.bytes);
        out
    }
}

/// How many payload bytes to read next: the rest of the file, at most one
/// chunk.
pub fn scp_chunk(remaining: u64) -> (n: usize)
    ensures
        n == (if remaining < SCP_CHUNK {
            remaining as int
        } else {
            SCP_CHUNK as int
        }),
{
    if remaining < 65536 {
        remaining as usize
    } else {
        SCP_CHUNK
    }
}

// ---------------------------------------------------------------------------
// Authorized phone keys
// ---------------------------------------------------------------------------

/// The first two words of a line joined by one space (`ssh-ed25519 AAAA...`
/// keeps its type and key, drops a trailing comment).
pub open spec fn first_two_words(ws: Seq<Seq<char>>) -> Seq<char> {
    if ws.len() == 0 {
        Seq::empty()
    } else if ws.len() == 1 {
        ws[0]
    } else {
        ws[0] + seq![' '] + ws[1]
    }
}

/// The key text an `authorized_keys` line offers: none for a blank line or
/// a `#` comment.
pub open spec fn key_candidate(line: Seq<char>) -> Option<Seq<char>> {
    let t = trim_spec(line, Trim::Whitespace);
    if t.len() == 0 || t[0] == '#' {
        None
    } else {
        Some(first_two_words(words(t)))
    }
}

/// The key texts the lines offer, in order.
pub open spec fn key_candidates(ls: Seq<Seq<char>>) -> Seq<Seq<char>>
    decreases ls.len(),
{
    if ls.len() == 0 {
        Seq::empty()
    } else {
        let w = key_candidates(ls.drop_last());
        match key_candidate(ls.last()) {
            Some(c) => w.push(c),
            None => w,
        }
    }
}

/// Names the key that `russh_keys::parse_public_key_base64` reads from a
/// text, as its SSH wire blob (`PublicKeyBase64::public_key_bytes`); `None`
/// when the text is not base64 of a supported public key.
pub uninterp spec fn public_key_blob(text: Seq<char>) -> Option<Seq<u8>>;

/// `russh_keys::parse_public_key_base64`, with the parsed key handed back as
/// its wire blob. The contract only names the result: the base64 decoding
/// and key parsing are the outside crate's and are not restated here.
#[verifier::external_body]
fn parse_key_blob(text: &str) -> (r: Option<Vec<u8>>)
    ensures
        match r {
            Some(b) => public_key_blob(text@) == Some(b@),
            None => public_key_blob(text@) is None,
        },
{
    match russh_keys::parse_public_key_base64(text) {
        Ok(key) => Some(key.public_key_bytes()),
        Err(_) => None,
    }
}

/// The keys the candidate texts parse to, in order; unreadable ones skipped.
pub open spec fn parsed_keys(cands: Seq<Seq<char>>) -> Seq<Seq<u8>>
    decreases cands.len(),
{
    if cands.len() == 0 {
        Seq::empty()
    } else {
        let w = parsed_keys(cands.drop_last());
        match public_key_blob(cands.last()) {
            Some(b) => w.push(b),
            None => w,
        }
    }
}

/// The phone keys an `authorized_keys` text authorizes.
pub open spec fn authorized_keys_spec(text: Seq<char>) -> Seq<Seq<u8>> {
    parsed_keys(key_candidates(lines_spec(text)))
}

/// The key text one `authorized_keys` line offers.
fn line_candidate(line: &Vec<char>) -> (r: Option<String>)
    ensures
        match r {
            Some(c) => key_candidate(line@) == Some(c@),
            None => key_candidate(line@) is None,
        },
{
    let t = trim_vec(line, Trim::Whitespace, true, true);
    if t.len() == 0 || t[0] == '#' {
        return None;
    }
    let ws = words_vec(&t);
    let ghost wv = ws@.map_values(|p: Vec<char>| p@);
    let mut out = String::new();
    if ws.len() >= 1 {
        assert(wv[0] == ws@[0]@);
        let a = string_of(&ws[0]);
        push_str(&mut out, a.as_str());
    }
    if ws.len() >= 2 {
        assert(wv[1] == ws@[1]@);
        push_char(&mut out, ' ');
        let b = string_of(&ws[1]);
        push_str(&mut out, b.as_str());
    }
    assert(out@ =~= first_two_words(wv));
    Some(out)
}

/// The key texts of an `authorized_keys` text: per line, trimmed, blank and
/// `#` lines skipped, the first two words kept.
pub fn key_candidates_of(text: &str) -> (r: Vec<String>)
    ensures
        r@.map_values(|s: String| s@) == key_candidates(lines_spec(text@)),
{
    let ls = lines_vec(text);
    let ghost lv = ls@.map_values(|p: Vec<char>| p@);
    let mut out: Vec<String> = Vec::new();
    for i in 0..ls.len()
        invariant
            lv == ls@.map_values(|p: Vec<char>| p@),
            lv == lines_spec(text@),
            out@.map_values(|s: String| s@) == key_candidates(lv.take(i as int)),
    {
        assert(lv.take(i + 1).drop_last() == lv.take(i as int));
        assert(lv[i as int] == ls@[i as int]@);
        match line_candidate(&ls[i]) {
            Some(c) => {
                let ghost before = out@.map_values(|s: String| s@);
                out.push(c);
                assert(out@.map_values(|s: String| s@) =~= before.push(c@));
            },
            None => {},
        }
    }
    assert(lv.take(ls.len() as int) == lv);
    out
}

/// Parses each candidate key text, keeping the keys that parse.
pub fn parse_keys(cands: &Vec<String>) -> (r: Vec<Vec<u8>>)
    ensures
        r@.map_values(|b: Vec<u8>| b@) == parsed_keys(cands@.map_values(|s: String| s@)),
{
    let ghost cv = cands@.map_values(|s: String| s@);
    let mut out: Vec<Vec<u8>> = Vec::new();
    for i in 0..cands.len()
        invariant
            cv == cands@.map_values(|s: String| s@),
            out@.map_values(|b: Vec<u8>| b@) == parsed_keys(cv.take(i as int)),
    {
        assert(cv.take(i + 1).drop_last() == cv.take(i as int));
        assert(cv[i as int] == cands@[i as int]@);
        match parse_key_blob(cands[i].as_str()) {
            Some(b) => {
                let ghost before = out@.map_values(|b: Vec<u8>| b@);
                out.push(b);
                assert(out@.map_values(|b: Vec<u8>| b@) =~= before.push(b@));
            },
            None => {},
        }
    }
    assert(cv.take(cands.len() as int) == cv);
    out
}

/// The phone keys an `authorized_keys` text authorizes, as wire blobs.
pub fn authorized_keys(text: &str) -> (r: Vec<Vec<u8>>)
    ensures
        r@.map_values(|b: Vec<u8>| b@) == authorized_keys_spec(text@),
{
    let cands = key_candidates_of(text);
    parse_keys(&cands)
}

/// Whether `key` is one of `keys`.
pub open spec fn key_listed(keys: Seq<Seq<u8>>, key: Seq<u8>) -> bool {
    exists|i: int| 0 <= i < keys.len() && #[trigger] keys[i] == key
}

fn blob_eq(a: &Vec<u8>, b: &Vec<u8>) -> (r: bool)
    ensures
        r == (a@ == b@),
{
    if a.len() != b.len() {
        return false;
    }
    for i in 0..a.len()
        invariant
            a@.len() == b@.len(),
            forall|k: int| 0 <= k < i ==> a@[k] == b@[k],
    {
        if a[i] != b[i] {
            assert(a@[i as int] != b@[i as int]);
            return false;
        }
    }
    assert(a@ =~= b@);
    true
}

/// Whether `key` is one of `keys`.
pub fn is_known_key(key: &Vec<u8>, keys: &Vec<Vec<u8>>) -> (r: bool)
    ensures
        r == key_listed(keys@.map_values(|b: Vec<u8>| b@), key@),
{
    let ghost kv = keys@.map_values(|b: Vec<u8>| b@);
    for i in 0..keys.len()
        invariant
            kv == keys@.map_values(|b: Vec<u8>| b@),
            forall|k: int| 0 <= k < i ==> kv[k] != key@,
    {
        if blob_eq(&keys[i], key) {
            assert(kv[i as int] == key@);
            return true;
        }
    }
    false
}

/// Whether a phone's host key is one of the paired phones' keys.
pub fn is_known_phone_key(key: &Vec<u8>, keys: &Vec<Vec<u8>>) -> (r: bool)
    ensures
        r == key_listed(keys@.map_values(|b: Vec<u8>| b@), key@),
{
    is_known_key(key, keys)
}

/// Whether `user` is the current pairing token.
pub open spec fn is_token(token: Option<Seq<char>>, user: Seq<char>) -> bool {
    token == Some(user)
}

/// The optional text as plain values.
pub open spec fn opt_view(o: Option<&str>) -> Option<Seq<char>> {
    match o {
        Some(t) => Some(t@),
        None => None,
    }
}

/// A client may log in when it uses the current pairing token as its user
/// name (pairing bootstrap, any key) or offers an authorized key.
pub open spec fn authorized_spec(user: Seq<char>, token: Option<Seq<char>>, key: Seq<u8>, keys: Seq<Seq<u8>>) -> bool {
    is_token(token, user) || key_listed(keys, key)
}

fn token_matches(token: Option<&str>, user: &str) -> (r: bool)
    ensures
        r == is_token(opt_view(token), user@),
{
    match token {
        Some(t) => crate::transfer::str_equal(t, user),
        None => false,
    }
}

/// Whether a public-key login is accepted.
pub fn is_authorized(user: &str, token: Option<&str>, key: &Vec<u8>, keys: &Vec<Vec<u8>>) -> (r: bool)
    ensures
        r == authorized_spec(user@, opt_view(token), key@, keys@.map_values(|b: Vec<u8>| b@)),
{
    if token_matches(token, user) {
        return true;
    }
    is_known_key(key, keys)
}

/// What an exec request leads to.
#[derive(Clone, Debug, PartialEq)]
pub enum ExecReply {
    /// `tumbleweed add-key` after a token login: register this key text,
    /// answer `registered`, then end the command with exit status 0.
    Registered(String),
    /// `tumbleweed add-key` without a token login: answer `no pairing
    /// session`, then end the command with exit status 0.
    NoPairingSession,
    /// `scp ...`: acknowledge and receive over the `scp -t` protocol.
    Scp,
    /// Anything else: refuse the request.
    Reject,
}

/// An exec reply as plain values.
pub enum ExecView {
    Registered(Seq<char>),
    NoPairingSession,
    Scp,
    Reject,
}

impl View for ExecReply {
    type V = ExecView;

    open spec fn view(&self) -> ExecView {
        match self {
            ExecReply::Registered(k) => ExecView::Registered(k@),
            ExecReply::NoPairingSession => ExecView::NoPairingSession,
            ExecReply::Scp => ExecView::Scp,
            ExecReply::Reject => ExecView::Reject,
        }
    }
}

impl ExecReply {
    /// The text sent back on the channel, if any.
    pub fn message(&self) -> (m: Option<&'static str>)
        ensures
            m matches Some(t) ==> t@ == (if self is Registered {
                "registered\n"@
            } else {
                "no pairing session\n"@
            }),
            m is Some <==> (self is Registered || self is NoPairingSession),
    {
        match self {
            ExecReply::Registered(_) => Some("registered\n"),
            ExecReply::NoPairingSession => Some("no pairing session\n"),
            _ => None,
        }
    }
}

/// One SSH connection's pairing state: the key offered with the pairing
/// token, waiting to be registered by `tumbleweed add-key`.
pub struct SshSession {
    pairing_key: Option<String>,
}

/// The command that registers the pairing key.
pub open spec fn add_key_command() -> Seq<char> {
    "tumbleweed add-key"@
}

/// What an exec command leads to, given the waiting pairing key.
pub open spec fn exec_spec(command: Seq<char>, pending: Option<Seq<char>>) -> ExecView {
    let t = trim_spec(command, Trim::Whitespace);
    if t == add_key_command() {
        match pending {
            Some(k) => ExecView::Registered(k),
            None => ExecView::NoPairingSession,
        }
    } else if t.len() >= 4 && t.subrange(0, 4) == "scp "@ {
        ExecView::Scp
    } else {
        ExecView::Reject
    }
}

impl SshSession {
    /// A new connection: no pairing key yet.
    pub fn new() -> (s: Self)
        ensures
            s.pending() is None,
    {
        SshSession { pairing_key: None }
    }

    /// The key text waiting to be registered.
    pub closed spec fn pending(&self) -> Option<Seq<char>> {
        match self.pairing_key {
            Some(k) => Some(k@),
            None => None,
        }
    }

    /// A public-key login: accepted as `is_authorized` says; a login with
    /// the pairing token remembers the offered key (`key_text`, its base64)
    /// for `tumbleweed add-key`.
    pub fn auth_publickey(
        &mut self,
        user: &str,
        token: Option<&str>,
        key: &Vec<u8>,
        key_text: &str,
        keys: &Vec<Vec<u8>>,
    ) -> (ok: bool)
        ensures
            ok == authorized_spec(user@, opt_view(token), key@, keys@.map_values(|b: Vec<u8>| b@)),
            final(self).pending() == (if ok && is_token(opt_view(token), user@) {
                Some(key_text@)
            } else {
                old(self).pending()
            }),
    {
        let ok = is_authorized(user, token, key, keys);
        if ok && token_matches(token, user) {
            self.pairing_key = Some(key_text.to_owned());
        }
        ok
    }

    /// What an exec command leads to; `tumbleweed add-key` uses up the
    /// waiting pairing key.
    pub fn exec_command(&mut self, command: &str) -> (r: ExecReply)
        ensures
            r@ == exec_spec(command@, old(self).pending()),
            final(self).pending() == (if trim_spec(command@, Trim::Whitespace) == add_key_command() {
                None
            } else {
                old(self).pending()
            }),
    {
        let v = chars_of(command);
        let t = trim_vec(&v, Trim::Whitespace, true, true);
        if vec_eq_str(&t, "tumbleweed add-key") {
            let mut k: Option<String> = None;
            std::mem::swap(&mut k, &mut self.pairing_key);
            match k {
                Some(key) => ExecReply::Registered(key),
                None => ExecReply::NoPairingSession,
            }
        } else {
            let p = chars_of("scp ");
            proof {
                reveal_strlit("scp ");
            }
            if crate::text::starts_with_vec(&t, &p) {
                ExecReply::Scp
            } else {
                ExecReply::Reject
            }
        }
    }

    /// What an exec request's raw command bytes lead to (read as lossy UTF-8).
    pub fn exec_request(&mut self, data: &[u8]) -> (r: ExecReply)
        ensures
            r@ == exec_spec(lossy_text(data@), old(self).pending()),
            final(self).pending() == (if trim_spec(lossy_text(data@), Trim::Whitespace)
                == add_key_command() {
                None
            } else {
                old(self).pending()
            }),
    {
        let command = lossy_string(data);
        self.exec_command(command.as_str())
    }
}

/// Whether a subsystem request is served: only `sftp` is.
pub fn subsystem_accepted(name: &str) -> (r: bool)
    ensures
        r == (name@ == "sftp"@),
{
    let v = chars_of(name);
    vec_eq_str(&v, "sftp")
}

/// The line appended to `authorized_keys` for a key: the trimmed key text,
/// unless it is empty or a line of `existing` already holds it (trimmed).
pub open spec fn add_key_spec(line: Seq<char>, existing: Seq<char>) -> Option<Seq<char>> {
    let t = trim_spec(line, Trim::Whitespace);
    if t.len() == 0 {
        None
    } else if exists|i: int|
        0 <= i < lines_spec(existing).len() && trim_spec(#[trigger] lines_spec(existing)[i], Trim::Whitespace) == t {
        None
    } else {
        Some(t + seq!['\n'])
    }
}

/// The text to append to `authorized_keys` (holding `existing`) to register
/// a key, or `None` when there is nothing to add.
pub fn add_authorized_key(line: &str, existing: &str) -> (r: Option<String>)
    ensures
        match r {
            Some(a) => add_key_spec(line@, existing@) == Some(a@),
            None => add_key_spec(line@, existing@) is None,
        },
{
    let v = chars_of(line);
    let t = trim_vec(&v, Trim::Whitespace, true, true);
    if t.len() == 0 {
        return None;
    }
    let ls = lines_vec(existing);
    let ghost lv = ls@.map_values(|p: Vec<char>| p@);
    for i in 0..ls.len()
        invariant
            lv == ls@.map_values(|p: Vec<char>| p@),
            lv == lines_spec(existing@),
            t@ == trim_spec(line@, Trim::Whitespace),
            forall|k: int| 0 <= k < i ==> trim_spec(#[trigger] lv[k], Trim::Whitespace) != t@,
    {
        let lt = trim_vec(&ls[i], Trim::Whitespace, true, true);
        assert(lv[i as int] == ls@[i as int]@);
        if blob_eq_chars(&lt, &t) {
            assert(trim_spec(lv[i as int], Trim::Whitespace) == t@);
            return None;
        }
    }
    let mut out = string_of(&t);
    push_char(&mut out, '\n');
    Some(out)
}

fn blob_eq_chars(a: &Vec<char>, b: &Vec<char>) -> (r: bool)
    ensures
        r == (a@ == b@),
{
    if a.len() != b.len() {
        return false;
    }
    for i in 0..a.len()
        invariant
            a@.len() == b@.len(),
            forall|k: int| 0 <= k < i ==> a@[k] == b@[k],
    {
        if a[i] != b[i] {
            assert(a@[i as int] != b@[i as int]);
            return false;
        }
    }
    assert(a@ =~= b@);
    true
}

/// The size announcement sent before an upload: `<size>\n<name>\n`.
pub fn announce_payload(name: &str, size: u64) -> (s: String)
    ensures
        s@ == crate::text::decimal(size as nat) + seq!['\n'] + name@ + seq!['\n'],
{
    let mut s = crate::text::u64_decimal(size);
    push_char(&mut s, '\n');
    push_str(&mut s, name);
    push_char(&mut s, '\n');
    s
}

// ---------------------------------------------------------------------------
// Laws
// ---------------------------------------------------------------------------

/// A plain file or folder name: not empty, not `.` or `..`, and without a
/// path separator or a drive colon.
pub open spec fn plain_component(c: Seq<char>) -> bool {
    &&& c.len() > 0
    &&& c != "."@
    &&& c != ".."@
    &&& !c.contains('/')
    &&& !c.contains('\\')
    &&& !c.contains(':')
}

proof fn lemma_resolve_plain(ps: Seq<Seq<char>>)
    requires
        forall|i: int| 0 <= i < ps.len() ==> !(#[trigger] ps[i]).contains('/') && !ps[i].contains('\\'),
    ensures
        resolve_segments(ps) matches Some(cs) ==> forall|k: int| 0 <= k < cs.len() ==> plain_component(#[trigger] cs[k]),
    decreases ps.len(),
{
    if ps.len() > 0 {
        assert forall|i: int| 0 <= i < ps.drop_last().len() implies !(#[trigger] ps.drop_last()[i]).contains('/')
            && !ps.drop_last()[i].contains('\\') by {
            assert(ps.drop_last()[i] == ps[i]);
        }
        lemma_resolve_plain(ps.drop_last());
        assert(!ps[ps.len() - 1].contains('/'));
    }
}

/// An SFTP path never leads out of the shared folder: every component it
/// resolves to is a plain name.
pub proof fn law_resolved_paths_stay_inside(path: Seq<char>)
    ensures
        resolve_path_spec(path) matches Some(cs) ==> forall|k: int| 0 <= k < cs.len() ==> plain_component(#[trigger] cs[k]),
{
    let ps = split_pieces(path, Sep::Two('/', '\\'));
    crate::text::lemma_split_no_sep(path, Sep::Two('/', '\\'));
    assert forall|i: int| 0 <= i < ps.len() implies !(#[trigger] ps[i]).contains('/') && !ps[i].contains('\\') by {
        if ps[i].contains('/') {
            let j = choose|j: int| 0 <= j < ps[i].len() && ps[i][j] == '/';
            assert(!crate::text::is_sep(Sep::Two('/', '\\'), ps[i][j]));
        }
        if ps[i].contains('\\') {
            let j = choose|j: int| 0 <= j < ps[i].len() && ps[i][j] == '\\';
            assert(!crate::text::is_sep(Sep::Two('/', '\\'), ps[i][j]));
        }
    }
    lemma_resolve_plain(ps);
}

/// A single plain file or folder name: not empty, not `.` or `..`, and
/// holding no path separator and no drive mark `:`.
pub open spec fn plain_name(t: Seq<char>) -> bool {
    t.len() > 0 && t != "."@ && t != ".."@ && !t.contains('/') && !t.contains('\\') && !t.contains(
        ':',
    )
}

/// A name an SCP sender gives is used only as a single plain name.
pub proof fn law_sanitized_names_plain(name: Seq<char>)
    ensures
        sanitize_component_spec(name) matches Some(t) ==> plain_name(t),
{
}

/// A key offered at a login with the pairing token is registered by the
/// next `tumbleweed add-key`, which uses it up: a second `tumbleweed
/// add-key` finds no pairing session.
pub proof fn law_pairing_key_registered_once(key_text: Seq<char>)
    ensures
        trim_spec(add_key_command(), Trim::Whitespace) == add_key_command(),
        exec_spec(add_key_command(), Some(key_text)) == ExecView::Registered(key_text),
        exec_spec(add_key_command(), None) == ExecView::NoPairingSession,
{
    reveal_strlit("tumbleweed add-key");
    let c = add_key_command();
    assert(c.len() == 18);
    assert(c[0] == 't' && c[17] == 'y');
    assert(!crate::text::is_ws(c[0]));
    assert(!crate::text::is_ws(c.last()));
    assert(trim_start_spec(c, Trim::Whitespace) == c);
    assert(crate::text::trim_end_spec(c, Trim::Whitespace) == c);
}

/// A login with the current pairing token is accepted whatever key it
/// offers; any other login is accepted exactly when its key is authorized.
pub proof fn law_login_rules(user: Seq<char>, token: Option<Seq<char>>, key: Seq<u8>, keys: Seq<Seq<u8>>)
    ensures
        token == Some(user) ==> authorized_spec(user, token, key, keys),
        token != Some(user) ==> (authorized_spec(user, token, key, keys) <==> key_listed(keys, key)),
{
}


/// Registering a key twice writes it once: once the text that registering
/// a key asks to append has been appended to `authorized_keys`, registering
/// the same key again asks to append nothing. For a file that is empty or
/// ends with a newline, and a key written on one line.
pub proof fn law_add_key_once(line: Seq<char>, existing: Seq<char>)
    requires
        forall|i: int| 0 <= i < line.len() ==> line[i] != '\n',
        existing.len() == 0 || existing.last() == '\n',
    ensures
        add_key_spec(line, existing) matches Some(a) ==> add_key_spec(line, existing + a) is None,
{
    let t = trim_spec(line, Trim::Whitespace);
    crate::text::lemma_trim_facts(line, Trim::Whitespace);
    if let Some(a) = add_key_spec(line, existing) {
        assert(a == t + seq!['\n']);
        assert forall|i: int| 0 <= i < t.len() implies t[i] != '\n' by {
            let j = choose|j: int| 0 <= j < line.len() && line[j] == #[trigger] t[i];
        }
        assert(strip_cr(t) == t);
        crate::text::lemma_lines_after_append(existing, t);
        assert(existing + a =~= existing + t + seq!['\n']);
        let ls = lines_spec(existing + a);
        let k = choose|k: int| 0 <= k < ls.len() && #[trigger] ls[k] == t;
        assert(trim_spec(ls[k], Trim::Whitespace) == t);
    }
}


// ---------------------------------------------------------------------------
// The SCP sink's folders
// ---------------------------------------------------------------------------

/// What the sink asks the program to do for one control line.
#[derive(Clone, Debug, PartialEq)]
pub enum ScpAction {
    /// An empty line: read the next one.
    Skip,
    /// Ack, receive `size` bytes into the file `name` in the folder reached
    /// from the root through `folders`, read the trailing zero byte, ack.
    File { folders: Vec<String>, name: String, size: u64 },
    /// Create the folder reached from the root through `folders`, then ack.
    MakeDir(Vec<String>),
    /// Ack only.
    Ack,
    /// Stop the transfer with this error.
    Fail(String),
}

/// An action as plain values.
pub enum ScpActionView {
    Skip,
    File(Seq<Seq<char>>, Seq<char>, u64),
    MakeDir(Seq<Seq<char>>),
    Ack,
    Fail(Seq<char>),
}

/// Views of a list of names.
pub open spec fn name_views(v: Seq<String>) -> Seq<Seq<char>> {
    v.map_values(|s: String| s@)
}

impl View for ScpAction {
    type V = ScpActionView;

    open spec fn view(&self) -> ScpActionView {
        match self {
            ScpAction::Skip => ScpActionView::Skip,
            ScpAction::File { folders, name, size } => ScpActionView::File(
                name_views(folders@),
                name@,
                *size,
            ),
            ScpAction::MakeDir(f) => ScpActionView::MakeDir(name_views(f@)),
            ScpAction::Ack => ScpActionView::Ack,
            ScpAction::Fail(m) => ScpActionView::Fail(m@),
        }
    }
}

/// The folders after a control line's step, from the folders before it:
/// `D` enters its folder, `E` steps back out but never above the root,
/// anything else keeps them.
pub open spec fn scp_folders_after(folders: Seq<Seq<char>>, step: ScpView) -> Seq<Seq<char>> {
    match step {
        ScpView::EnterDir(n) => folders.push(n),
        ScpView::LeaveDir => if folders.len() > 0 {
            folders.drop_last()
        } else {
            folders
        },
        _ => folders,
    }
}

/// What the sink does for a control line, in the folders before it.
pub open spec fn scp_action_spec(folders: Seq<Seq<char>>, step: ScpView) -> ScpActionView {
    match step {
        ScpView::Skip => ScpActionView::Skip,
        ScpView::File(n, size) => ScpActionView::File(folders, n, size),
        ScpView::EnterDir(n) => ScpActionView::MakeDir(folders.push(n)),
        ScpView::LeaveDir => ScpActionView::Ack,
        ScpView::Ack => ScpActionView::Ack,
        ScpView::Fail(m) => ScpActionView::Fail(m),
    }
}

/// The receiving side of `scp -t`: the folders entered below the root.
pub struct ScpSink {
    folders: Vec<String>,
}

impl View for ScpSink {
    type V = Seq<Seq<char>>;

    closed spec fn view(&self) -> Seq<Seq<char>> {
        name_views(self.folders@)
    }
}

impl ScpSink {
    /// Every folder entered is a plain name.
    pub closed spec fn wf(&self) -> bool {
        forall|k: int| 0 <= k < self@.len() ==> plain_name(#[trigger] self@[k])
    }

    /// A sink at the root.
    pub fn new() -> (s: Self)
        ensures
            s.wf(),
            s@ == Seq::<Seq<char>>::empty(),
    {
        let s = ScpSink { folders: Vec::new() };
        assert(s@ =~= Seq::<Seq<char>>::empty());
        s
    }

    /// Handles one control line (without its `\n`).
    pub fn step(&mut self, line: &Vec<u8>) -> (a: ScpAction)
        requires
            old(self).wf(),
        ensures
            final(self).wf(),
            a@ == scp_action_spec(old(self)@, scp_line_spec(line@)),
            final(self)@ == scp_folders_after(old(self)@, scp_line_spec(line@)),
    {
        let ghost before = self@;
        let st = scp_control(line);
        proof {
            lemma_scp_names_plain(line@);
        }
        match st {
            ScpStep::Skip => ScpAction::Skip,
            ScpStep::File { name, size } => {
                let folders = self.folders.clone();
                assert(name_views(folders@) == before) by {
                    assert(folders@ =~= self.folders@);
                }
                ScpAction::File { folders, name, size }
            },
            ScpStep::EnterDir(n) => {
                self.folders.push(n);
                assert(self@ =~= before.push(st@->EnterDir_0));
                let folders = self.folders.clone();
                assert(folders@ =~= self.folders@);
                ScpAction::MakeDir(folders)
            },
            ScpStep::LeaveDir => {
                if self.folders.len() > 0 {
                    self.folders.pop();
                    assert(self@ =~= before.drop_last());
                }
                ScpAction::Ack
            },
            ScpStep::Ack => ScpAction::Ack,
            ScpStep::Fail(m) => ScpAction::Fail(m),
        }
    }
}

/// The names in a control line's meaning are plain.
proof fn lemma_scp_names_plain(line: Seq<u8>)
    ensures
        scp_line_spec(line) matches ScpView::File(n, _) ==> plain_name(n),
        scp_line_spec(line) matches ScpView::EnterDir(n) ==> plain_name(n),
{
    if line.len() > 0 {
        let ps = splitn3(lossy_text(line.drop_first()));
        let name = if ps.len() >= 3 {
            ps[2]
        } else {
            Seq::empty()
        };
        law_sanitized_names_plain(name);
    }
}

/// Files an SCP sender sends land inside the shared folder: whatever
/// control lines arrive, the sink's folders stay plain names below the
/// root, and every file or folder it asks for is the root followed by plain
/// names only. Leaving the root is ignored.
pub proof fn law_scp_stays_inside(folders: Seq<Seq<char>>, line: Seq<u8>)
    requires
        forall|k: int| 0 <= k < folders.len() ==> plain_name(#[trigger] folders[k]),
    ensures
        forall|k: int|
            0 <= k < scp_folders_after(folders, scp_line_spec(line)).len() ==> plain_name(
                #[trigger] scp_folders_after(folders, scp_line_spec(line))[k],
            ),
        scp_action_spec(folders, scp_line_spec(line)) matches ScpActionView::File(f, n, _) ==> f
            == folders && plain_name(n),
        scp_action_spec(folders, scp_line_spec(line)) matches ScpActionView::MakeDir(f) ==> f
            == scp_folders_after(folders, scp_line_spec(line)),
        folders.len() == 0 && scp_line_spec(line) is LeaveDir ==> scp_folders_after(
            folders,
            scp_line_spec(line),
        ).len() == 0,
{
    lemma_scp_names_plain(line);
    let after = scp_folders_after(folders, scp_line_spec(line));
    assert forall|k: int| 0 <= k < after.len() implies plain_name(#[trigger] after[k]) by {
        match scp_line_spec(line) {
            ScpView::EnterDir(n) => {
                if k < folders.len() {
                    assert(after[k] == folders[k]);
                }
            },
            ScpView::LeaveDir => {
                if folders.len() > 0 {
                    assert(after[k] == folders[k]);
                }
            },
            _ => {},
        }
    }
}

/// An `E` line steps back out of exactly one folder: the folders after it
/// are those before it without the last one (none are left at the root).
/// So a folder entered by a `D` line and left by an `E` line leaves the
/// folders as they were, and a `D` line enters its folder below the others.
pub proof fn law_scp_end_leaves_one_folder(folders: Seq<Seq<char>>, e_line: Seq<u8>, d_line: Seq<u8>)
    requires
        e_line.len() > 0,
        e_line[0] == 69,
    ensures
        scp_line_spec(e_line) is LeaveDir,
        folders.len() > 0 ==> scp_folders_after(folders, scp_line_spec(e_line)) == folders.drop_last(),
        folders.len() > 0 ==> scp_folders_after(folders, scp_line_spec(e_line)).len() == folders.len() - 1,
        folders.len() == 0 ==> scp_folders_after(folders, scp_line_spec(e_line)) == folders,
        scp_line_spec(d_line) matches ScpView::EnterDir(n) ==> scp_folders_after(folders, scp_line_spec(d_line))
            == folders.push(n),
        scp_line_spec(d_line) is EnterDir ==> scp_folders_after(
            scp_folders_after(folders, scp_line_spec(d_line)),
            scp_line_spec(e_line),
        ) == folders,
{
    match scp_line_spec(d_line) {
        ScpView::EnterDir(n) => {
            assert(folders.push(n).drop_last() =~= folders);
        },
        _ => {},
    }
}

} // verus!
