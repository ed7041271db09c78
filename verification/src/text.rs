//! Character and byte string helpers shared by the protocol modules.

use vstd::prelude::*;

verus! {

/// Copies the characters of `s` into a vector.
pub fn chars_of(s: &str) -> (v: Vec<char>)
    ensures
        v@ == s@,
{
    let mut v: Vec<char> = Vec::new();
    for c in it: s.chars()
        invariant
            v@ == it.seq().take(it.index() as int),
            it.seq() == s@,
    {
        v.push(c);
    }
    v
}


/// Appends one character to a string (`String::push`).
#[verifier::external_body]
pub(crate) fn push_char(s: &mut String, c: char)
    ensures
        final(s)@ == old(s)@.push(c),
{
    s.push(c);
}

/// Builds a string holding the characters of `v`.
pub fn string_of(v: &Vec<char>) -> (s: String)
    ensures
        s@ == v@,
{
    let mut s = String::new();
    for i in 0..v.len()
        invariant
            s@ == v@.take(i as int),
    {
        push_char(&mut s, v[i]);
        assert(v@.take(i + 1) == v@.take(i as int).push(v@[i as int]));
    }
    assert(v@.take(v.len() as int) == v@);
    s
}

/// Appends the characters of `t` to `s`.
pub fn push_str(s: &mut String, t: &str)
    ensures
        final(s)@ == old(s)@ + t@,
{
    let v = chars_of(t);
    let ghost start = s@;
    for i in 0..v.len()
        invariant
            s@ == start + v@.take(i as int),
    {
        push_char(s, v[i]);
        assert(v@.take(i + 1) == v@.take(i as int).push(v@[i as int]));
    }
    assert(v@.take(v.len() as int) == v@);
}


/// ASCII lower-casing of one byte (other bytes are unchanged).
pub open spec fn ascii_lower_byte(b: u8) -> u8 {
    if 65 <= b && b <= 90 { (b + 32) as u8 } else { b }
}

/// Byte strings equal up to ASCII case (the rule of `str::eq_ignore_ascii_case`).
pub open spec fn eq_ignore_ascii_case_bytes(a: Seq<u8>, b: Seq<u8>) -> bool {
    &&& a.len() == b.len()
    &&& forall|i: int| 0 <= i < a.len() ==> #[trigger] ascii_lower_byte(a[i]) == ascii_lower_byte(b[i])
}

/// Compares two byte strings ignoring ASCII case.
pub fn bytes_eq_ignore_ascii_case(a: &[u8], b: &[u8]) -> (r: bool)
    ensures
        r == eq_ignore_ascii_case_bytes(a@, b@),
{
    if a.len() != b.len() {
        return false;
    }
    for i in 0..a.len()
        invariant
            a@.len() == b@.len(),
            forall|k: int| 0 <= k < i ==> #[trigger] ascii_lower_byte(a@[k]) == ascii_lower_byte(b@[k]),
    {
        let x = a[i];
        let y = b[i];
        let lx: u8 = if 65 <= x && x <= 90 { x + 32 } else { x };
        let ly: u8 = if 65 <= y && y <= 90 { y + 32 } else { y };
        if lx != ly {
            assert(ascii_lower_byte(a@[i as int]) != ascii_lower_byte(b@[i as int]));
            return false;
        }
    }
    true
}

/// Compares two strings ignoring ASCII case, byte by byte.
pub fn str_eq_ignore_ascii_case(a: &str, b: &str) -> (r: bool)
    ensures
        r == eq_ignore_ascii_case_bytes(vstd::utf8::encode_utf8(a@), vstd::utf8::encode_utf8(b@)),
{
    bytes_eq_ignore_ascii_case(a.as_bytes(), b.as_bytes())
}

/// `s` with every trailing copy of the non-empty pattern `suf` removed
/// (`str::trim_end_matches` with a string pattern).
pub open spec fn strip_suffixes(s: Seq<char>, suf: Seq<char>) -> Seq<char>
    decreases s.len(),
{
    if suf.len() > 0 && s.len() >= suf.len() && s.subrange(s.len() - suf.len(), s.len() as int)
        == suf {
        strip_suffixes(s.subrange(0, s.len() - suf.len()), suf)
    } else {
        s
    }
}

/// `s` without the leading pattern `pre`, if it starts with it (`str::strip_prefix`).
pub open spec fn strip_prefix_opt(s: Seq<char>, pre: Seq<char>) -> Option<Seq<char>> {
    if s.len() >= pre.len() && s.subrange(0, pre.len() as int) == pre {
        Some(s.subrange(pre.len() as int, s.len() as int))
    } else {
        None
    }
}

/// Whether `v[end - suf.len() .. end]` equals `suf`.
fn ends_with_at(v: &Vec<char>, end: usize, suf: &Vec<char>) -> (r: bool)
    requires
        end <= v@.len(),
    ensures
        r == (end >= suf@.len() && v@.subrange(end - suf@.len(), end as int) == suf@),
{
    if end < suf.len() {
        return false;
    }
    let off = end - suf.len();
    for k in 0..suf.len()
        invariant
            off + suf@.len() == end,
            end <= v@.len(),
            forall|j: int| 0 <= j < k ==> v@[off + j] == suf@[j],
    {
        if v[off + k] != suf[k] {
            assert(v@.subrange(off as int, end as int)[k as int] != suf@[k as int]);
            return false;
        }
    }
    assert(v@.subrange(off as int, end as int) =~= suf@);
    true
}

/// Removes every trailing copy of `suf` (non-empty) from `v`.
pub fn strip_suffixes_vec(v: &Vec<char>, suf: &Vec<char>) -> (r: Vec<char>)
    ensures
        r@ == strip_suffixes(v@, suf@),
{
    let mut end = v.len();
    assert(v@.subrange(0, end as int) == v@);
    while suf.len() > 0 && ends_with_at(v, end, suf)
        invariant
            end <= v@.len(),
            strip_suffixes(v@, suf@) == strip_suffixes(v@.subrange(0, end as int), suf@),
        decreases end,
    {
        let ghost s = v@.subrange(0, end as int);
        assert(s.subrange(s.len() - suf@.len(), s.len() as int) == v@.subrange(
            end - suf@.len(),
            end as int,
        ));
        assert(s.subrange(0, s.len() - suf@.len()) == v@.subrange(0, end - suf@.len()));
        end = end - suf.len();
    }
    let ghost s = v@.subrange(0, end as int);
    if suf.len() > 0 && end >= suf.len() {
        assert(s.subrange(s.len() - suf@.len(), s.len() as int) == v@.subrange(
            end - suf@.len(),
            end as int,
        ));
    }
    slice_vec(v, 0, end)
}

/// The characters `v[from..to]`.
pub fn slice_vec<T: Copy>(v: &Vec<T>, from: usize, to: usize) -> (r: Vec<T>)
    requires
        from <= to <= v@.len(),
    ensures
        r@ == v@.subrange(from as int, to as int),
{
    let mut r: Vec<T> = Vec::new();
    for i in from..to
        invariant
            from <= to <= v@.len(),
            r@ == v@.subrange(from as int, i as int),
    {
        r.push(v[i]);
        assert(v@.subrange(from as int, i + 1) == v@.subrange(from as int, i as int).push(v@[i as int]));
    }
    r
}

/// Whether `v` starts with `pre`.
pub fn starts_with_vec(v: &Vec<char>, pre: &Vec<char>) -> (r: bool)
    ensures
        r == (v@.len() >= pre@.len() && v@.subrange(0, pre@.len() as int) == pre@),
{
    if v.len() < pre.len() {
        return false;
    }
    for k in 0..pre.len()
        invariant
            v@.len() >= pre@.len(),
            forall|j: int| 0 <= j < k ==> v@[j] == pre@[j],
    {
        if v[k] != pre[k] {
            assert(v@.subrange(0, pre@.len() as int)[k as int] != pre@[k as int]);
            return false;
        }
    }
    assert(v@.subrange(0, pre@.len() as int) =~= pre@);
    true
}

/// Decimal digits of `n` (no sign, no leading zeros).
pub open spec fn decimal(n: nat) -> Seq<char>
    decreases n,
{
    if n < 10 {
        seq![digit_char(n)]
    } else {
        decimal(n / 10).push(digit_char(n % 10))
    }
}

/// The ASCII digit for `d < 10`.
pub open spec fn digit_char(d: nat) -> char {
    (48 + d) as char
}

/// Formats `n` in decimal, as `u64::to_string` does.
pub fn u64_decimal(n: u64) -> (s: String)
    ensures
        s@ == decimal(n as nat),
    decreases n,
{
    if n < 10 {
        let mut s = String::new();
        push_char(&mut s, digit_of(n));
        s
    } else {
        let mut s = u64_decimal(n / 10);
        push_char(&mut s, digit_of(n % 10));
        s
    }
}

/// The digit character for `d < 10`.
fn digit_of(d: u64) -> (c: char)
    requires
        d < 10,
    ensures
        c == digit_char(d as nat),
{
    if d == 0 { '0' } else if d == 1 { '1' } else if d == 2 { '2' } else if d == 3 { '3' }
    else if d == 4 { '4' } else if d == 5 { '5' } else if d == 6 { '6' } else if d == 7 { '7' }
    else if d == 8 { '8' } else { '9' }
}

/// Labels joined by `.` (`[String]::join(".")`).
pub open spec fn join_dot(ls: Seq<Seq<char>>) -> Seq<char>
    decreases ls.len(),
{
    if ls.len() == 0 {
        Seq::empty()
    } else if ls.len() == 1 {
        ls[0]
    } else {
        join_dot(ls.drop_last()) + seq!['.'] + ls.last()
    }
}

/// Joins `parts` with `.` between consecutive entries.
pub fn join_with_dot(parts: &Vec<String>) -> (s: String)
    ensures
        s@ == join_dot(parts@.map_values(|p: String| p@)),
{
    let ghost views = parts@.map_values(|p: String| p@);
    let mut s = String::new();
    for i in 0..parts.len()
        invariant
            views == parts@.map_values(|p: String| p@),
            s@ == join_dot(views.take(i as int)),
    {
        if i > 0 {
            push_char(&mut s, '.');
        }
        push_str(&mut s, parts[i].as_str());
        assert(views.take(i + 1).drop_last() == views.take(i as int));
    }
    assert(views.take(parts.len() as int) == views);
    s
}


/// Names the text that `String::from_utf8_lossy` makes of a byte string.
pub uninterp spec fn utf8_lossy(bytes: Seq<u8>) -> Seq<char>;

/// What `String::from_utf8_lossy` gives for `bytes`, as far as this library
/// states it: valid UTF-8 reads as itself, anything else as the named result.
pub open spec fn lossy_text(bytes: Seq<u8>) -> Seq<char> {
    if vstd::utf8::valid_utf8(bytes) {
        vstd::utf8::decode_utf8(bytes)
    } else {
        utf8_lossy(bytes)
    }
}

/// `String::from_utf8_lossy`: decodes `bytes` as UTF-8, replacing each invalid
/// sequence with U+FFFD. The contract names the result and states only that
/// valid UTF-8 decodes unchanged; the replacement rule itself is not stated.
#[verifier::external_body]
pub(crate) fn lossy_string(bytes: &[u8]) -> (s: String)
    ensures
        s@ == utf8_lossy(bytes@),
        vstd::utf8::valid_utf8(bytes@) ==> s@ == vstd::utf8::decode_utf8(bytes@),
{
    String::from_utf8_lossy(bytes).to_string()
}

/// `char::is_whitespace`: the Unicode White_Space property.
pub open spec fn is_ws(c: char) -> bool {
    let u = c as u32;
    (9 <= u && u <= 13) || u == 32 || u == 0x85 || u == 0xA0 || u == 0x1680 || (0x2000 <= u && u
        <= 0x200A) || u == 0x2028 || u == 0x2029 || u == 0x202F || u == 0x205F || u == 0x3000
}

/// Character classes trimmed at the ends of strings.
#[derive(Clone, Copy)]
pub enum Trim {
    /// `char::is_whitespace` (`str::trim`).
    Whitespace,
    /// A single fixed character.
    Char(char),
    /// Either of two fixed characters.
    Either(char, char),
}

/// Whether `c` belongs to the trimmed class.
pub open spec fn trimmed(t: Trim, c: char) -> bool {
    match t {
        Trim::Whitespace => is_ws(c),
        Trim::Char(x) => c == x,
        Trim::Either(x, y) => c == x || c == y,
    }
}

/// `s` without its leading characters of class `t`.
pub open spec fn trim_start_spec(s: Seq<char>, t: Trim) -> Seq<char>
    decreases s.len(),
{
    if s.len() > 0 && trimmed(t, s[0]) {
        trim_start_spec(s.drop_first(), t)
    } else {
        s
    }
}

/// `s` without its trailing characters of class `t`.
pub open spec fn trim_end_spec(s: Seq<char>, t: Trim) -> Seq<char>
    decreases s.len(),
{
    if s.len() > 0 && trimmed(t, s.last()) {
        trim_end_spec(s.drop_last(), t)
    } else {
        s
    }
}

/// `s` without leading and trailing characters of class `t`.
pub open spec fn trim_spec(s: Seq<char>, t: Trim) -> Seq<char> {
    trim_end_spec(trim_start_spec(s, t), t)
}

fn is_trimmed(t: Trim, c: char) -> (r: bool)
    ensures
        r == trimmed(t, c),
{
    match t {
        Trim::Whitespace => {
            let u = c as u32;
            (9 <= u && u <= 13) || u == 32 || u == 0x85 || u == 0xA0 || u == 0x1680 || (0x2000
                <= u && u <= 0x200A) || u == 0x2028 || u == 0x2029 || u == 0x202F || u == 0x205F
                || u == 0x3000
        },
        Trim::Char(x) => c == x,
        Trim::Either(x, y) => c == x || c == y,
    }
}

/// Removes leading (if `start`) and trailing (if `end`) characters of class `t`.
pub fn trim_vec(v: &Vec<char>, t: Trim, start: bool, end: bool) -> (r: Vec<char>)
    ensures
        r@ == (if start && end {
            trim_spec(v@, t)
        } else if start {
            trim_start_spec(v@, t)
        } else if end {
            trim_end_spec(v@, t)
        } else {
            v@
        }),
{
    let mut lo: usize = 0;
    assert(v@.subrange(0, v@.len() as int) == v@);
    if start {
        while lo < v.len() && is_trimmed(t, v[lo])
            invariant
                lo <= v@.len(),
                trim_start_spec(v@, t) == trim_start_spec(v@.subrange(lo as int, v@.len() as int), t),
            decreases v@.len() - lo,
        {
            assert(v@.subrange(lo as int, v@.len() as int).drop_first() == v@.subrange(
                lo + 1,
                v@.len() as int,
            ));
            lo = lo + 1;
        }
    }
    let ghost mid = v@.subrange(lo as int, v@.len() as int);
    assert(start ==> trim_start_spec(v@, t) == mid);
    assert(!start ==> mid == v@);
    let mut hi: usize = v.len();
    if end {
        while hi > lo && is_trimmed(t, v[hi - 1])
            invariant
                lo <= hi <= v@.len(),
                mid == v@.subrange(lo as int, v@.len() as int),
                trim_end_spec(mid, t) == trim_end_spec(v@.subrange(lo as int, hi as int), t),
            decreases hi,
        {
            assert(v@.subrange(lo as int, hi as int).drop_last() == v@.subrange(
                lo as int,
                hi - 1,
            ));
            hi = hi - 1;
        }
    }
    assert(!end ==> v@.subrange(lo as int, hi as int) == mid);
    slice_vec(v, lo, hi)
}

/// `str::trim`.
pub fn trim_ws(s: &str) -> (r: String)
    ensures
        r@ == trim_spec(s@, Trim::Whitespace),
{
    let v = chars_of(s);
    string_of(&trim_vec(&v, Trim::Whitespace, true, true))
}

/// ASCII letters and digits.
pub open spec fn is_ascii_alnum(c: char) -> bool {
    ('0' <= c && c <= '9') || ('a' <= c && c <= 'z') || ('A' <= c && c <= 'Z')
}

/// ASCII lower-casing of one character.
pub open spec fn ascii_lower(c: char) -> char {
    if 'A' <= c && c <= 'Z' {
        ((c as u32) + 32) as char
    } else {
        c
    }
}

/// Lower-cases one ASCII letter.
pub fn to_ascii_lower(c: char) -> (r: char)
    ensures
        r == ascii_lower(c),
{
    if 'A' <= c && c <= 'Z' {
        let u = (c as u32) + 32;
        char_from_ascii(u)
    } else {
        c
    }
}

/// The character with ASCII code `u`.
pub fn char_from_ascii(u: u32) -> (c: char)
    requires
        u < 128,
    ensures
        c == u as char,
{
    (u as u8) as char
}

/// `String::from_utf8`: the text of `bytes` when they are valid UTF-8.
#[verifier::external_body]
pub(crate) fn utf8_string(bytes: Vec<u8>) -> (r: Option<String>)
    ensures
        r is Some <==> vstd::utf8::valid_utf8(bytes@),
        r matches Some(s) ==> s@ == vstd::utf8::decode_utf8(bytes@),
{
    String::from_utf8(bytes).ok()
}

/// Names the text that `str::to_uppercase` makes of a string.
pub uninterp spec fn unicode_upper(s: Seq<char>) -> Seq<char>;

/// `str::to_uppercase` (full Unicode upper-casing). The contract names the
/// result; the case mapping itself is not stated.
#[verifier::external_body]
pub(crate) fn to_upper(s: &str) -> (r: String)
    ensures
        r@ == unicode_upper(s@),
{
    s.to_uppercase()
}

/// Names the text that `str::to_lowercase` makes of a string.
pub uninterp spec fn unicode_lower(s: Seq<char>) -> Seq<char>;

/// `str::to_lowercase` (full Unicode lower-casing). The contract names the
/// result and states that the empty string stays empty; the case mapping
/// itself is not stated.
#[verifier::external_body]
pub(crate) fn to_lower(s: &str) -> (r: String)
    ensures
        r@ == unicode_lower(s@),
        s@.len() == 0 ==> r@.len() == 0,
{
    s.to_lowercase()
}

/// Decimal digits with an optional leading `+`, as `str::parse::<u64>` reads
/// them; `None` for any other text or a value above `u64::MAX`.
pub open spec fn parse_u64_spec(s: Seq<char>) -> Option<int> {
    let d = if s.len() > 0 && s[0] == '+' {
        s.drop_first()
    } else {
        s
    };
    if d.len() == 0 || !all_digits(d) {
        None
    } else if digits_value(d) > u64::MAX {
        None
    } else {
        Some(digits_value(d))
    }
}

/// Every character is an ASCII digit.
pub open spec fn all_digits(d: Seq<char>) -> bool {
    forall|i: int| 0 <= i < d.len() ==> '0' <= #[trigger] d[i] <= '9'
}

/// The number written by decimal digits.
pub open spec fn digits_value(d: Seq<char>) -> int
    decreases d.len(),
{
    if d.len() == 0 {
        0
    } else {
        digits_value(d.drop_last()) * 10 + (d.last() as int - 48)
    }
}

proof fn lemma_digits_value_nonneg(d: Seq<char>)
    requires
        forall|i: int| 0 <= i < d.len() ==> '0' <= #[trigger] d[i] <= '9',
    ensures
        digits_value(d) >= 0,
    decreases d.len(),
{
    if d.len() > 0 {
        lemma_digits_value_nonneg(d.drop_last());
    }
}

/// `str::parse::<u64>`.
pub fn parse_u64(s: &str) -> (r: Option<u64>)
    ensures
        match r {
            Some(n) => parse_u64_spec(s@) == Some(n as int),
            None => parse_u64_spec(s@) is None,
        },
{
    let v = chars_of(s);
    let start: usize = if v.len() > 0 && v[0] == '+' { 1 } else { 0 };
    let ghost d = if s@.len() > 0 && s@[0] == '+' { s@.drop_first() } else { s@ };
    assert(d =~= v@.subrange(start as int, v@.len() as int));
    if start >= v.len() {
        return None;
    }
    let mut j = start;
    while j < v.len()
        invariant
            start <= j <= v@.len(),
            v@ == s@,
            d == (if s@.len() > 0 && s@[0] == '+' { s@.drop_first() } else { s@ }),
            d == v@.subrange(start as int, v@.len() as int),
            forall|k: int| start <= k < j ==> '0' <= #[trigger] v@[k] <= '9',
        decreases v@.len() - j,
    {
        if !('0' <= v[j] && v[j] <= '9') {
            assert(d[j - start] == v@[j as int]);
            assert(!all_digits(d));
            return None;
        }
        j = j + 1;
    }
    assert(forall|k: int| 0 <= k < d.len() ==> '0' <= #[trigger] d[k] <= '9') by {
        assert forall|k: int| 0 <= k < d.len() implies '0' <= #[trigger] d[k] <= '9' by {
            assert(d[k] == v@[start + k]);
        }
    }
    let mut acc: u64 = 0;
    let mut i = start;
    while i < v.len()
        invariant
            start <= i <= v@.len(),
            v@ == s@,
            d == (if s@.len() > 0 && s@[0] == '+' { s@.drop_first() } else { s@ }),
            forall|k: int| 0 <= k < d.len() ==> '0' <= #[trigger] d[k] <= '9',
            d == v@.subrange(start as int, v@.len() as int),
            forall|k: int| start <= k < v@.len() ==> '0' <= #[trigger] v@[k] <= '9',
            acc as int == digits_value(v@.subrange(start as int, i as int)),
        decreases v@.len() - i,
    {
        let c = v[i];
        let dv = (c as u32 - 48) as u64;
        assert(v@.subrange(start as int, i + 1).drop_last() == v@.subrange(start as int, i as int));
        if acc > (u64::MAX - dv) / 10 {
            proof {
                lemma_rest_digits_grow(v@, start as int, i + 1);
                assert(acc * 10 + dv > u64::MAX) by (nonlinear_arith)
                    requires
                        acc > (u64::MAX - dv) / 10,
                        dv <= 9,
                ;
            }
            return None;
        }
        acc = acc * 10 + dv;
        i = i + 1;
    }
    assert(v@.subrange(start as int, v@.len() as int) == d);
    Some(acc)
}

/// Appending digits never makes the value smaller.
proof fn lemma_rest_digits_grow(v: Seq<char>, start: int, i: int)
    requires
        0 <= start < i <= v.len(),
        forall|k: int| start <= k < v.len() ==> '0' <= #[trigger] v[k] <= '9',
    ensures
        digits_value(v.subrange(start, v.len() as int)) >= digits_value(v.subrange(start, i)),
    decreases v.len() - i,
{
    if i < v.len() {
        lemma_rest_digits_grow(v, start, i + 1);
        assert(v.subrange(start, i + 1).drop_last() == v.subrange(start, i));
        lemma_digits_value_nonneg(v.subrange(start, i));
    }
}

/// Separator classes for splitting strings.
#[derive(Clone, Copy)]
pub enum Sep {
    /// One character.
    One(char),
    /// Either of two characters.
    Two(char, char),
    /// `char::is_whitespace`.
    Whitespace,
}

/// Whether `c` separates pieces under `sep`.
pub open spec fn is_sep(sep: Sep, c: char) -> bool {
    match sep {
        Sep::One(a) => c == a,
        Sep::Two(a, b) => c == a || c == b,
        Sep::Whitespace => is_ws(c),
    }
}

fn sep_matches(sep: Sep, c: char) -> (r: bool)
    ensures
        r == is_sep(sep, c),
{
    match sep {
        Sep::One(a) => c == a,
        Sep::Two(a, b) => c == a || c == b,
        Sep::Whitespace => is_trimmed(Trim::Whitespace, c),
    }
}

/// The pieces of `s` between separators (`str::split`): one more piece than
/// there are separators, empty pieces included.
pub open spec fn split_pieces(s: Seq<char>, sep: Sep) -> Seq<Seq<char>>
    decreases s.len(),
{
    if s.len() == 0 {
        seq![Seq::<char>::empty()]
    } else {
        let w = split_pieces(s.drop_last(), sep);
        if is_sep(sep, s.last()) {
            w.push(Seq::empty())
        } else {
            w.update(w.len() - 1, w.last().push(s.last()))
        }
    }
}

pub proof fn lemma_split_nonempty(s: Seq<char>, sep: Sep)
    ensures
        split_pieces(s, sep).len() >= 1,
    decreases s.len(),
{
    if s.len() > 0 {
        lemma_split_nonempty(s.drop_last(), sep);
    }
}

/// Splits the characters of `v` at separators.
pub fn split_vec(v: &Vec<char>, sep: Sep) -> (pieces: Vec<Vec<char>>)
    ensures
        pieces@.map_values(|p: Vec<char>| p@) == split_pieces(v@, sep),
{
    let mut pieces: Vec<Vec<char>> = Vec::new();
    let mut cur: Vec<char> = Vec::new();
    for i in 0..v.len()
        invariant
            pieces@.map_values(|p: Vec<char>| p@).push(cur@) == split_pieces(v@.take(i as int), sep),
    {
        proof {
            lemma_split_nonempty(v@.take(i as int), sep);
        }
        assert(v@.take(i + 1).drop_last() == v@.take(i as int));
        let c = v[i];
        if sep_matches(sep, c) {
            let ghost before = pieces@.map_values(|p: Vec<char>| p@);
            let done = cur;
            cur = Vec::new();
            pieces.push(done);
            assert(pieces@.map_values(|p: Vec<char>| p@) =~= before.push(done@));
            assert(pieces@.map_values(|p: Vec<char>| p@).push(cur@) =~= split_pieces(
                v@.take(i + 1),
                sep,
            ));
        } else {
            cur.push(c);
            assert(pieces@.map_values(|p: Vec<char>| p@).push(cur@) =~= split_pieces(
                v@.take(i + 1),
                sep,
            ));
        }
    }
    assert(v@.take(v.len() as int) == v@);
    let ghost before = pieces@.map_values(|p: Vec<char>| p@);
    pieces.push(cur);
    assert(pieces@.map_values(|p: Vec<char>| p@) =~= before.push(cur@));
    pieces
}

/// Whether the characters of `v` are those of `lit`.
pub fn vec_eq_str(v: &Vec<char>, lit: &str) -> (r: bool)
    ensures
        r == (v@ == lit@),
{
    let w = chars_of(lit);
    if v.len() != w.len() {
        return false;
    }
    for i in 0..v.len()
        invariant
            v@.len() == w@.len(),
            w@ == lit@,
            forall|k: int| 0 <= k < i ==> v@[k] == w@[k],
    {
        if v[i] != w[i] {
            assert(v@[i as int] != w@[i as int]);
            return false;
        }
    }
    assert(v@ =~= w@);
    true
}

/// The text before the first `c` (or all of `s`): the first piece of `str::split`.
pub open spec fn before_char(s: Seq<char>, c: char) -> Seq<char> {
    split_pieces(s, Sep::One(c))[0]
}

/// `str::parse::<u16>`.
pub open spec fn parse_u16_spec(s: Seq<char>) -> Option<int> {
    match parse_u64_spec(s) {
        Some(n) => if n <= u16::MAX {
            Some(n)
        } else {
            None
        },
        None => None,
    }
}

/// `str::parse::<u16>`.
pub fn parse_u16(s: &str) -> (r: Option<u16>)
    ensures
        match r {
            Some(n) => parse_u16_spec(s@) == Some(n as int),
            None => parse_u16_spec(s@) is None,
        },
{
    match parse_u64(s) {
        Some(n) => if n <= 65535 {
            Some(n as u16)
        } else {
            None
        },
        None => None,
    }
}

/// The non-empty pieces, in order (`str::split_whitespace` keeps only these).
pub open spec fn nonempty_pieces(ps: Seq<Seq<char>>) -> Seq<Seq<char>>
    decreases ps.len(),
{
    if ps.len() == 0 {
        Seq::empty()
    } else {
        let w = nonempty_pieces(ps.drop_last());
        if ps.last().len() > 0 {
            w.push(ps.last())
        } else {
            w
        }
    }
}

/// The whitespace-separated words of `s` (`str::split_whitespace`).
pub open spec fn words(s: Seq<char>) -> Seq<Seq<char>> {
    nonempty_pieces(split_pieces(s, Sep::Whitespace))
}

/// The whitespace-separated words of the characters of `v`.
pub fn words_vec(v: &Vec<char>) -> (r: Vec<Vec<char>>)
    ensures
        r@.map_values(|p: Vec<char>| p@) == words(v@),
{
    let pieces = split_vec(v, Sep::Whitespace);
    let ghost views = pieces@.map_values(|p: Vec<char>| p@);
    let mut out: Vec<Vec<char>> = Vec::new();
    for i in 0..pieces.len()
        invariant
            views == pieces@.map_values(|p: Vec<char>| p@),
            out@.map_values(|p: Vec<char>| p@) == nonempty_pieces(views.take(i as int)),
    {
        assert(views.take(i + 1).drop_last() == views.take(i as int));
        if pieces[i].len() > 0 {
            let ghost before = out@.map_values(|p: Vec<char>| p@);
            out.push(slice_vec(&pieces[i], 0, pieces[i].len()));
            assert(pieces@[i as int]@.subrange(0, pieces@[i as int]@.len() as int) == pieces@[i as int]@);
            assert(out@.map_values(|p: Vec<char>| p@) =~= before.push(views[i as int]));
        }
    }
    assert(views.take(pieces.len() as int) == views);
    out
}

/// Index of the first `c` in `s`.
pub open spec fn first_index(s: Seq<char>, c: char) -> Option<int>
    decreases s.len(),
{
    if s.len() == 0 {
        None
    } else {
        match first_index(s.drop_last(), c) {
            Some(i) => Some(i),
            None => if s.last() == c {
                Some(s.len() - 1)
            } else {
                None
            },
        }
    }
}

/// `str::split_once` with a character: the text before and after the first `c`.
pub open spec fn split_once_spec(s: Seq<char>, c: char) -> Option<(Seq<char>, Seq<char>)> {
    match first_index(s, c) {
        Some(i) => Some((s.subrange(0, i), s.subrange(i + 1, s.len() as int))),
        None => None,
    }
}

pub proof fn lemma_first_index(s: Seq<char>, c: char)
    ensures
        first_index(s, c) matches Some(i) ==> 0 <= i < s.len() && s[i] == c && forall|k: int|
            0 <= k < i ==> s[k] != c,
        first_index(s, c) is None ==> forall|k: int| 0 <= k < s.len() ==> s[k] != c,
    decreases s.len(),
{
    if s.len() > 0 {
        lemma_first_index(s.drop_last(), c);
        assert forall|k: int| 0 <= k < s.len() - 1 implies s[k] == s.drop_last()[k] by {}
    }
}

/// Splits `v` at its first `c`.
pub fn split_once_vec(v: &Vec<char>, c: char) -> (r: Option<(Vec<char>, Vec<char>)>)
    ensures
        match r {
            Some((a, b)) => split_once_spec(v@, c) == Some((a@, b@)),
            None => split_once_spec(v@, c) is None,
        },
{
    proof {
        lemma_first_index(v@, c);
    }
    let mut i: usize = 0;
    while i < v.len() && v[i] != c
        invariant
            i <= v@.len(),
            forall|k: int| 0 <= k < i ==> v@[k] != c,
        decreases v@.len() - i,
    {
        i = i + 1;
    }
    if i == v.len() {
        assert(first_index(v@, c) is None) by {
            if first_index(v@, c) is Some {
                let j = first_index(v@, c)->0;
                assert(v@[j] == c);
            }
        }
        return None;
    }
    assert(first_index(v@, c) == Some(i as int)) by {
        match first_index(v@, c) {
            Some(j) => {
                if j < i {
                    assert(v@[j] != c);
                } else if j > i {
                    assert(v@[i as int] != c);
                }
            },
            None => {
                assert(v@[i as int] != c);
            },
        }
    }
    Some((slice_vec(v, 0, i), slice_vec(v, i + 1, v.len())))
}

/// Appending text free of the separator extends the last piece.
pub proof fn lemma_split_append_plain(a: Seq<char>, b: Seq<char>, c: char)
    requires
        forall|i: int| 0 <= i < b.len() ==> b[i] != c,
    ensures
        split_pieces(a + b, Sep::One(c)) == split_pieces(a, Sep::One(c)).update(
            split_pieces(a, Sep::One(c)).len() - 1,
            split_pieces(a, Sep::One(c)).last() + b,
        ),
    decreases b.len(),
{
    lemma_split_nonempty(a, Sep::One(c));
    if b.len() == 0 {
        assert(a + b =~= a);
        assert(split_pieces(a, Sep::One(c)).last() + b =~= split_pieces(a, Sep::One(c)).last());
        assert(split_pieces(a, Sep::One(c)).update(
            split_pieces(a, Sep::One(c)).len() - 1,
            split_pieces(a, Sep::One(c)).last(),
        ) =~= split_pieces(a, Sep::One(c)));
    } else {
        let b0 = b.drop_last();
        lemma_split_append_plain(a, b0, c);
        assert((a + b).drop_last() =~= a + b0);
        assert((a + b).last() == b.last());
        let w = split_pieces(a + b0, Sep::One(c));
        assert(split_pieces(a + b, Sep::One(c)) == w.update(w.len() - 1, w.last().push(b.last())));
        assert(split_pieces(a, Sep::One(c)).last() + b =~= (split_pieces(a, Sep::One(c)).last() + b0).push(b.last()));
        assert(split_pieces(a + b, Sep::One(c)) =~= split_pieces(a, Sep::One(c)).update(
            split_pieces(a, Sep::One(c)).len() - 1,
            split_pieces(a, Sep::One(c)).last() + b,
        ));
    }
}

/// The first `c` in `s` is at `i` when `s[i]` is `c` and none comes before.
pub proof fn lemma_first_index_at(s: Seq<char>, c: char, i: int)
    requires
        0 <= i < s.len(),
        s[i] == c,
        forall|k: int| 0 <= k < i ==> s[k] != c,
    ensures
        first_index(s, c) == Some(i),
{
    lemma_first_index(s, c);
}

/// A line without its `\r` ending, if any.
pub open spec fn strip_cr(p: Seq<char>) -> Seq<char> {
    if p.len() > 0 && p.last() == '\r' {
        p.drop_last()
    } else {
        p
    }
}

/// The lines of a text (`str::lines`): split at `\n`, a `\r` before the
/// `\n` removed, and no empty line after a final `\n`.
pub open spec fn lines_spec(s: Seq<char>) -> Seq<Seq<char>> {
    let ps = split_pieces(s, Sep::One('\n'));
    let full = Seq::new((ps.len() - 1) as nat, |i: int| strip_cr(ps[i]));
    if ps.last().len() > 0 {
        full.push(ps.last())
    } else {
        full
    }
}


/// The lines of `text`, as `str::lines` gives them.
pub fn lines_vec(text: &str) -> (r: Vec<Vec<char>>)
    ensures
        r@.map_values(|p: Vec<char>| p@) == lines_spec(text@),
{
    let v = chars_of(text);
    let pieces = split_vec(&v, Sep::One('\n'));
    let ghost ps = pieces@.map_values(|p: Vec<char>| p@);
    proof {
        lemma_split_nonempty(v@, Sep::One('\n'));
    }
    let n = pieces.len();
    let ghost full = Seq::new((ps.len() - 1) as nat, |i: int| strip_cr(ps[i]));
    let mut out: Vec<Vec<char>> = Vec::new();
    for i in 0..n - 1
        invariant
            n == pieces@.len(),
            n >= 1,
            ps == pieces@.map_values(|p: Vec<char>| p@),
            ps == split_pieces(text@, Sep::One('\n')),
            full == Seq::new((ps.len() - 1) as nat, |i: int| strip_cr(ps[i])),
            out@.map_values(|p: Vec<char>| p@) == full.take(i as int),
    {
        let p = &pieces[i];
        let line = if p.len() > 0 && p[p.len() - 1] == '\r' {
            slice_vec(p, 0, p.len() - 1)
        } else {
            slice_vec(p, 0, p.len())
        };
        assert(line@ == strip_cr(ps[i as int]));
        let ghost before = out@.map_values(|p: Vec<char>| p@);
        out.push(line);
        assert(out@.map_values(|p: Vec<char>| p@) =~= before.push(full[i as int]));
        assert(full.take(i + 1) =~= full.take(i as int).push(full[i as int]));
    }
    assert(full.take((n - 1) as int) == full);
    let last = &pieces[n - 1];
    assert(ps.last() == last@);
    if last.len() > 0 {
        let ghost before = out@.map_values(|p: Vec<char>| p@);
        out.push(slice_vec(last, 0, last.len()));
        assert(last@.subrange(0, last@.len() as int) == last@);
        assert(out@.map_values(|p: Vec<char>| p@) =~= before.push(last@));
    }
    out
}

/// No piece of a split holds a separator.
pub proof fn lemma_split_no_sep(s: Seq<char>, sep: Sep)
    ensures
        forall|i: int, j: int|
            0 <= i < split_pieces(s, sep).len() && 0 <= j < split_pieces(s, sep)[i].len() ==> !is_sep(
                sep,
                #[trigger] split_pieces(s, sep)[i][j],
            ),
    decreases s.len(),
{
    if s.len() > 0 {
        lemma_split_no_sep(s.drop_last(), sep);
        lemma_split_nonempty(s.drop_last(), sep);
        let w = split_pieces(s.drop_last(), sep);
        let r = split_pieces(s, sep);
        assert forall|i: int, j: int| 0 <= i < r.len() && 0 <= j < r[i].len() implies !is_sep(sep, #[trigger] r[i][j]) by {
            if is_sep(sep, s.last()) {
                if i < w.len() {
                    assert(r[i] == w[i]);
                }
            } else {
                if i < w.len() - 1 {
                    assert(r[i] == w[i]);
                } else {
                    assert(r[i] == w.last().push(s.last()));
                    if j < w.last().len() {
                        assert(r[i][j] == w[w.len() - 1][j]);
                    }
                }
            }
        }
    }
}


/// Trimming the start leaves a suffix whose first character is kept.
pub proof fn lemma_trim_start_suffix(s: Seq<char>, t: Trim)
    ensures
        trim_start_spec(s, t).len() <= s.len(),
        trim_start_spec(s, t) == s.subrange(s.len() - trim_start_spec(s, t).len(), s.len() as int),
        trim_start_spec(s, t).len() > 0 ==> !trimmed(t, trim_start_spec(s, t)[0]),
    decreases s.len(),
{
    if s.len() > 0 && trimmed(t, s[0]) {
        lemma_trim_start_suffix(s.drop_first(), t);
        let r = trim_start_spec(s, t);
        assert(s.drop_first().subrange(s.drop_first().len() - r.len(), s.drop_first().len() as int)
            =~= s.subrange(s.len() - r.len(), s.len() as int));
    } else {
        assert(s.subrange(0, s.len() as int) =~= s);
    }
}

/// Trimming the end leaves a prefix whose last character is kept.
pub proof fn lemma_trim_end_prefix(s: Seq<char>, t: Trim)
    ensures
        trim_end_spec(s, t).len() <= s.len(),
        trim_end_spec(s, t) == s.subrange(0, trim_end_spec(s, t).len() as int),
        trim_end_spec(s, t).len() > 0 ==> !trimmed(t, trim_end_spec(s, t).last()),
    decreases s.len(),
{
    if s.len() > 0 && trimmed(t, s.last()) {
        lemma_trim_end_prefix(s.drop_last(), t);
        let r = trim_end_spec(s, t);
        assert(s.drop_last().subrange(0, r.len() as int) =~= s.subrange(0, r.len() as int));
    } else {
        assert(s.subrange(0, s.len() as int) =~= s);
    }
}

/// A trimmed text is a piece of the text: each of its characters is one
/// of the text's. Trimming it again changes nothing, and its ends are kept
/// characters.
pub proof fn lemma_trim_facts(s: Seq<char>, t: Trim)
    ensures
        forall|k: int| 0 <= k < trim_spec(s, t).len() ==> exists|j: int|
            0 <= j < s.len() && s[j] == #[trigger] trim_spec(s, t)[k],
        trim_spec(trim_spec(s, t), t) == trim_spec(s, t),
        trim_spec(s, t).len() > 0 ==> !trimmed(t, trim_spec(s, t).last()),
{
    let u = trim_start_spec(s, t);
    let v = trim_end_spec(u, t);
    lemma_trim_start_suffix(s, t);
    lemma_trim_end_prefix(u, t);
    let off = s.len() - u.len();
    assert forall|k: int| 0 <= k < v.len() implies exists|j: int|
        0 <= j < s.len() && s[j] == #[trigger] v[k] by {
        assert(v[k] == u[k]);
        assert(u[k] == s[off + k]);
    }
    if v.len() > 0 {
        assert(v[0] == u[0]);
    }
    assert(trim_start_spec(v, t) == v);
    assert(trim_end_spec(v, t) == v);
}

/// The lines of a text that is empty or ends with a newline, followed by
/// one more line without a newline and a newline, include that line.
pub proof fn lemma_lines_after_append(e: Seq<char>, line: Seq<char>)
    requires
        e.len() == 0 || e.last() == '\n',
        forall|i: int| 0 <= i < line.len() ==> line[i] != '\n',
        strip_cr(line) == line,
    ensures
        exists|k: int| 0 <= k < lines_spec(e + line + seq!['\n']).len() && #[trigger] lines_spec(
            e + line + seq!['\n'],
        )[k] == line,
{
    let sep = Sep::One('\n');
    let w = split_pieces(e, sep);
    lemma_split_nonempty(e, sep);
    if e.len() > 0 {
        assert(e =~= e.drop_last().push(e.last()));
    }
    assert(w.last() =~= Seq::<char>::empty());
    lemma_split_append_plain(e, line, '\n');
    assert(w.last() + line =~= line);
    let w2 = w.update(w.len() - 1, line);
    assert(split_pieces(e + line, sep) == w2);
    let all = e + line + seq!['\n'];
    assert(all.drop_last() =~= e + line);
    let ps = split_pieces(all, sep);
    assert(ps == w2.push(Seq::<char>::empty()));
    let k = w.len() - 1;
    assert(ps[k] == line);
    assert(lines_spec(all)[k] == strip_cr(ps[k]));
}


/// Appending text free of separators extends the last piece.
pub proof fn lemma_split_plain(a: Seq<char>, b: Seq<char>, sep: Sep)
    requires
        forall|i: int| 0 <= i < b.len() ==> !is_sep(sep, #[trigger] b[i]),
    ensures
        split_pieces(a + b, sep) == split_pieces(a, sep).update(
            split_pieces(a, sep).len() - 1,
            split_pieces(a, sep).last() + b,
        ),
    decreases b.len(),
{
    lemma_split_nonempty(a, sep);
    let w0 = split_pieces(a, sep);
    if b.len() == 0 {
        assert(a + b =~= a);
        assert(w0.last() + b =~= w0.last());
        assert(w0.update(w0.len() - 1, w0.last()) =~= w0);
    } else {
        let b0 = b.drop_last();
        lemma_split_plain(a, b0, sep);
        assert((a + b).drop_last() =~= a + b0);
        assert((a + b).last() == b.last());
        assert(!is_sep(sep, b.last()));
        let w = split_pieces(a + b0, sep);
        assert(split_pieces(a + b, sep) == w.update(w.len() - 1, w.last().push(b.last())));
        assert(w0.last() + b =~= (w0.last() + b0).push(b.last()));
        assert(split_pieces(a + b, sep) =~= w0.update(w0.len() - 1, w0.last() + b));
    }
}

} // verus!
