//! mDNS / DNS-SD wire format: name encoding, queries, responses, and the
//! parsers that read A/AAAA and PTR answers out of received packets.

use vstd::prelude::*;
use crate::text::{
    chars_of, push_str, string_of, strip_suffixes, strip_suffixes_vec,
    eq_ignore_ascii_case_bytes, join_dot, join_with_dot, lossy_string, lossy_text, str_eq_ignore_ascii_case,
};

verus! {

/// Big-endian 16-bit value at `p[i..i+2]`.
pub open spec fn be16(p: Seq<u8>, i: int) -> int {
    p[i] * 256 + p[i + 1]
}

/// Big-endian bytes of a 16-bit value.
pub open spec fn u16_bytes(x: int) -> Seq<u8> {
    seq![(x / 256) as u8, (x % 256) as u8]
}

/// Big-endian bytes of a 32-bit value.
pub open spec fn u32_bytes(x: int) -> Seq<u8> {
    seq![(x / 16777216) as u8, ((x / 65536) % 256) as u8, ((x / 256) % 256) as u8, (x % 256) as u8]
}

/// Appends the big-endian bytes of `x`.
pub fn push_u16(out: &mut Vec<u8>, x: u16)
    ensures
        final(out)@ == old(out)@ + u16_bytes(x as int),
{
    out.push((x / 256) as u8);
    out.push((x % 256) as u8);
    assert(final(out)@ =~= old(out)@ + u16_bytes(x as int));
}

/// Appends the big-endian bytes of `x`.
pub fn push_u32(out: &mut Vec<u8>, x: u32)
    ensures
        final(out)@ == old(out)@ + u32_bytes(x as int),
{
    out.push((x / 16777216) as u8);
    out.push(((x / 65536) % 256) as u8);
    out.push(((x / 256) % 256) as u8);
    out.push((x % 256) as u8);
    assert(final(out)@ =~= old(out)@ + u32_bytes(x as int));
}

/// Appends `src[from..to]`.
pub fn push_range(out: &mut Vec<u8>, src: &[u8], from: usize, to: usize)
    requires
        from <= to <= src@.len(),
    ensures
        final(out)@ == old(out)@ + src@.subrange(from as int, to as int),
{
    let ghost start = out@;
    for i in from..to
        invariant
            from <= to <= src@.len(),
            out@ == start + src@.subrange(from as int, i as int),
    {
        out.push(src[i]);
        assert(src@.subrange(from as int, i + 1) == src@.subrange(from as int, i as int).push(
            src@[i as int],
        ));
    }
}

// ---------------------------------------------------------------------------
// Name encoding
// ---------------------------------------------------------------------------

/// Index of the first `.` in `b` at or after `i` (or `b.len()`).
pub open spec fn first_dot(b: Seq<u8>, i: int) -> int
    decreases b.len() - i,
{
    if i >= b.len() {
        b.len() as int
    } else if b[i] == 46 {
        i
    } else {
        first_dot(b, i + 1)
    }
}

pub proof fn lemma_first_dot(b: Seq<u8>, i: int)
    requires
        0 <= i <= b.len(),
    ensures
        i <= first_dot(b, i) <= b.len(),
        first_dot(b, i) < b.len() ==> b[first_dot(b, i)] == 46,
        forall|k: int| i <= k < first_dot(b, i) ==> b[k] != 46,
    decreases b.len() - i,
{
    if i < b.len() && b[i] != 46 {
        lemma_first_dot(b, i + 1);
    }
}

/// DNS label encoding of the dot-separated labels of `b[i..]`: each label is
/// prefixed by its length (taken modulo 256, one byte) and a zero byte ends
/// the name.
pub open spec fn encode_labels_from(b: Seq<u8>, i: int) -> Seq<u8>
    decreases b.len() - i,
    when 0 <= i <= b.len()
{
    let j = first_dot(b, i);
    proof {
        lemma_first_dot(b, i);
    }
    let head = seq![((j - i) % 256) as u8] + b.subrange(i, j);
    if j >= b.len() {
        head + seq![0u8]
    } else {
        head + encode_labels_from(b, j + 1)
    }
}

/// DNS label encoding of a dotted name given by its bytes.
pub open spec fn encode_name_spec(b: Seq<u8>) -> Seq<u8> {
    encode_labels_from(b, 0)
}

/// Encodes a domain name into DNS label format:
/// `tumbleweed.local` -> `\x0atumbleweed\x05local\x00`.
pub fn encode_name(name: &str) -> (out: Vec<u8>)
    ensures
        out@ == encode_name_spec(vstd::utf8::encode_utf8(name@)),
{
    let b = name.as_bytes();
    let mut out: Vec<u8> = Vec::new();
    let mut i: usize = 0;
    loop
        invariant
            b@ == vstd::utf8::encode_utf8(name@),
            i <= b@.len(),
            out@ + encode_labels_from(b@, i as int) == encode_labels_from(b@, 0),
        decreases b@.len() - i,
    {
        let mut j = i;
        while j < b.len() && b[j] != 46
            invariant
                i <= j <= b@.len(),
                first_dot(b@, i as int) == first_dot(b@, j as int),
            decreases b@.len() - j,
        {
            j = j + 1;
        }
        proof {
            lemma_first_dot(b@, i as int);
        }
        let ghost before = out@;
        out.push(((j - i) % 256) as u8);
        push_range(&mut out, b, i, j);
        if j >= b.len() {
            out.push(0);
            assert(out@ =~= before + encode_labels_from(b@, i as int));
            return out;
        }
        assert(before + encode_labels_from(b@, i as int) =~= out@ + encode_labels_from(
            b@,
            j + 1,
        ));
        i = j + 1;
    }
}

/// A 12-byte DNS header.
pub open spec fn header_bytes(id: int, flags: int, qd: int, an: int, ns: int, ar: int) -> Seq<u8> {
    u16_bytes(id) + u16_bytes(flags) + u16_bytes(qd) + u16_bytes(an) + u16_bytes(ns) + u16_bytes(
        ar,
    )
}

/// A one-question query for the name with bytes `b` and record type `qtype`,
/// class IN with the unicast-response (QU) bit set.
pub open spec fn query_packet(b: Seq<u8>, qtype: int) -> Seq<u8> {
    header_bytes(0, 0, 1, 0, 0, 0) + encode_name_spec(b) + u16_bytes(qtype) + u16_bytes(0x8001)
}

/// Builds a DNS query packet for `name` with the given record `qtype`.
pub fn build_query(name: &str, qtype: u16) -> (pkt: Vec<u8>)
    ensures
        pkt@ == query_packet(vstd::utf8::encode_utf8(name@), qtype as int),
{
    let mut pkt: Vec<u8> = Vec::new();
    push_u16(&mut pkt, 0);
    push_u16(&mut pkt, 0);
    push_u16(&mut pkt, 1);
    push_u16(&mut pkt, 0);
    push_u16(&mut pkt, 0);
    push_u16(&mut pkt, 0);
    let enc = encode_name(name);
    push_range(&mut pkt, enc.as_slice(), 0, enc.len());
    assert(enc@.subrange(0, enc@.len() as int) == enc@);
    push_u16(&mut pkt, qtype);
    push_u16(&mut pkt, 0x8001);
    assert(pkt@ =~= query_packet(vstd::utf8::encode_utf8(name@), qtype as int));
    pkt
}

// ---------------------------------------------------------------------------
// Name decoding
// ---------------------------------------------------------------------------

/// Bytes consumed at `start` by the (possibly compressed) name walked from
/// `pos`: a compression pointer or the root label ends the walk.
pub open spec fn skip_from(p: Seq<u8>, pos: int, start: int) -> Option<int>
    decreases p.len() - pos,
{
    if pos < 0 || pos >= p.len() {
        None
    } else if p[pos] >= 0xC0 {
        Some(pos + 2 - start)
    } else if p[pos] == 0 {
        Some(pos + 1 - start)
    } else if pos + 1 + p[pos] >= p.len() {
        None
    } else {
        skip_from(p, pos + 1 + p[pos], start)
    }
}

/// Skips a (possibly compressed) DNS name, returning the bytes consumed at `start`.
pub fn skip_name(pkt: &[u8], start: usize) -> (r: Option<usize>)
    requires
        pkt@.len() <= isize::MAX,
    ensures
        r matches Some(c) ==> skip_from(pkt@, start as int, start as int) == Some(c as int),
        r is None ==> skip_from(pkt@, start as int, start as int) is None,
{
    let mut pos = start;
    loop
        invariant
            start <= pos,
            pkt@.len() <= isize::MAX,
            skip_from(pkt@, pos as int, start as int) == skip_from(
                pkt@,
                start as int,
                start as int,
            ),
        decreases pkt@.len() - pos,
    {
        if pos >= pkt.len() {
            return None;
        }
        let len = pkt[pos] as usize;
        if len >= 0xC0 {
            return Some(pos + 2 - start);
        }
        if len == 0 {
            return Some(pos + 1 - start);
        }
        if len + 1 >= pkt.len() - pos {
            return None;
        }
        pos = pos + 1 + len;
    }
}

/// Positions a name walk may visit: a finite set of in-bounds indices.
pub open spec fn walk_ok(p: Seq<u8>, visited: Set<int>) -> bool {
    &&& visited.finite()
    &&& forall|i: int| visited.contains(i) ==> 0 <= i < p.len()
}

pub proof fn lemma_walk_step(p: Seq<u8>, visited: Set<int>, pos: int)
    requires
        walk_ok(p, visited),
        0 <= pos < p.len(),
        !visited.contains(pos),
    ensures
        walk_ok(p, visited.insert(pos)),
        visited.insert(pos).len() == visited.len() + 1,
        visited.insert(pos).len() <= p.len(),
{
    vstd::set_lib::lemma_int_range(0, p.len() as int);
    vstd::set_lib::lemma_len_subset(visited.insert(pos), vstd::set_lib::set_int_range(0, p.len() as int));
}

/// Walk of a (possibly compressed) name: the raw labels collected and the
/// bytes consumed at `start`. A revisited position (pointer loop) or any
/// out-of-bounds read makes the name malformed.
pub open spec fn name_walk(
    p: Seq<u8>,
    pos: int,
    visited: Set<int>,
    labels: Seq<Seq<u8>>,
    consumed: Option<int>,
    start: int,
) -> Option<(Seq<Seq<u8>>, int)>
    decreases p.len() - visited.len(),
    when walk_ok(p, visited)
{
    if pos < 0 || pos >= p.len() {
        None
    } else if visited.contains(pos) {
        None
    } else {
        proof {
            lemma_walk_step(p, visited, pos);
        }
        let l = p[pos];
        if l >= 0xC0 {
            if pos + 1 >= p.len() {
                None
            } else {
                let ptr = (l - 0xC0) * 256 + p[pos + 1];
                let c = match consumed {
                    Some(c) => Some(c),
                    None => Some(pos + 2 - start),
                };
                name_walk(p, ptr, visited.insert(pos), labels, c, start)
            }
        } else if l == 0 {
            Some(
                (
                    labels,
                    match consumed {
                        Some(c) => c,
                        None => pos + 1 - start,
                    },
                ),
            )
        } else if pos + 1 + l > p.len() {
            None
        } else {
            name_walk(
                p,
                pos + 1 + l,
                visited.insert(pos),
                labels.push(p.subrange(pos + 1, pos + 1 + l)),
                consumed,
                start,
            )
        }
    }
}

/// The dotted name at `start` (each label decoded as `from_utf8_lossy` does)
/// and the bytes it occupies at `start`.
pub open spec fn read_name_spec(p: Seq<u8>, start: int) -> Option<(Seq<char>, int)> {
    match name_walk(p, start, Set::empty(), Seq::empty(), None, start) {
        Some((labels, c)) => Some((join_dot(labels.map_values(|l: Seq<u8>| lossy_text(l))), c)),
        None => None,
    }
}

/// Reads a (possibly compressed) DNS name starting at `start`. Returns the
/// dotted name and the number of bytes consumed at `start` (a compression
/// pointer ends the local walk even though the name continues elsewhere).
pub fn read_name(pkt: &[u8], start: usize) -> (r: Option<(String, usize)>)
    requires
        pkt@.len() <= isize::MAX,
    ensures
        match r {
            Some((name, c)) => read_name_spec(pkt@, start as int) == Some((name@, c as int)),
            None => read_name_spec(pkt@, start as int) is None,
        },
{
    let mut labels: Vec<String> = Vec::new();
    let ghost mut raw: Seq<Seq<u8>> = Seq::empty();
    let mut pos = start;
    let mut consumed: Option<usize> = None;
    let ghost mut visited: Set<int> = Set::empty();
    let mut seen: Vec<bool> = Vec::new();
    for k in 0..pkt.len()
        invariant
            seen@.len() == k,
            forall|j: int| 0 <= j < k ==> !seen@[j],
    {
        seen.push(false);
    }
    let ghost goal = name_walk(pkt@, start as int, Set::empty(), Seq::empty(), None, start as int);
    loop
        invariant
            pkt@.len() <= isize::MAX,
            goal == name_walk(pkt@, start as int, Set::empty(), Seq::empty(), None, start as int),
            seen@.len() == pkt@.len(),
            walk_ok(pkt@, visited),
            forall|j: int| 0 <= j < pkt@.len() ==> (seen@[j] <==> visited.contains(j)),
            labels@.map_values(|s: String| s@) == raw.map_values(|l: Seq<u8>| lossy_text(l)),
            consumed matches Some(c) ==> c <= pkt@.len() + 1,
            consumed is None ==> start <= pos,
            name_walk(
                pkt@,
                pos as int,
                visited,
                raw,
                match consumed {
                    Some(c) => Some(c as int),
                    None => None,
                },
                start as int,
            ) == goal,
        decreases pkt@.len() - visited.len(),
    {
        if pos >= pkt.len() {
            assert(goal is None);
            return None;
        }
        if seen[pos] {
            assert(goal is None);
            return None;
        }
        proof {
            lemma_walk_step(pkt@, visited, pos as int);
        }
        let len = pkt[pos] as usize;
        if len >= 0xC0 {
            if pos + 1 >= pkt.len() {
                return None;
            }
            let ptr = (len - 0xC0) * 256 + pkt[pos + 1] as usize;
            if consumed.is_none() {
                consumed = Some(pos + 2 - start);
            }
            seen.set(pos, true);
            proof {
                visited = visited.insert(pos as int);
            }
            pos = ptr;
        } else if len == 0 {
            let c = match consumed {
                Some(c) => c,
                None => pos + 1 - start,
            };
            let name = join_with_dot(&labels);
            return Some((name, c));
        } else {
            if len + 1 > pkt.len() - pos {
                return None;
            }
            let label = lossy_string(&pkt[pos + 1..pos + 1 + len]);
            let ghost l = pkt@.subrange(pos + 1, pos + 1 + len);
            labels.push(label);
            proof {
                assert(raw.push(l).map_values(|x: Seq<u8>| lossy_text(x)) =~= raw.map_values(
                    |x: Seq<u8>| lossy_text(x),
                ).push(lossy_text(l)));
                raw = raw.push(l);
                visited = visited.insert(pos as int);
            }
            seen.set(pos, true);
            pos = pos + 1 + len;
        }
    }
}

// ---------------------------------------------------------------------------
// Addresses and resource records
// ---------------------------------------------------------------------------

/// An IPv4 or IPv6 address by its octets.
#[derive(Clone, Copy, Debug, PartialEq, Eq)]
pub enum IpAddress {
    V4([u8; 4]),
    V6([u8; 16]),
}

/// The octets of an address, by family.
pub enum IpView {
    V4(Seq<u8>),
    V6(Seq<u8>),
}

impl View for IpAddress {
    type V = IpView;

    open spec fn view(&self) -> IpView {
        match self {
            IpAddress::V4(a) => IpView::V4(a@),
            IpAddress::V6(a) => IpView::V6(a@),
        }
    }
}

/// Whether two addresses are the same (family and octets).
pub fn ip_eq(a: &IpAddress, b: &IpAddress) -> (r: bool)
    ensures
        r == (a@ == b@),
{
    match (a, b) {
        (IpAddress::V4(x), IpAddress::V4(y)) => {
            let r = x[0] == y[0] && x[1] == y[1] && x[2] == y[2] && x[3] == y[3];
            proof {
                if r {
                    assert(x@ =~= y@);
                } else {
                    assert(!(x@ =~= y@));
                }
            }
            r
        },
        (IpAddress::V6(x), IpAddress::V6(y)) => {
            let mut k: usize = 0;
            while k < 16
                invariant
                    k <= 16,
                    a@ == IpView::V6(x@),
                    b@ == IpView::V6(y@),
                    forall|j: int| 0 <= j < k ==> x@[j] == y@[j],
                decreases 16 - k,
            {
                if x[k] != y[k] {
                    assert(x@[k as int] != y@[k as int]);
                    assert(x@ != y@);
                    return false;
                }
                k = k + 1;
            }
            assert(x@ =~= y@);
            true
        },
        _ => false,
    }
}

/// A resource record header read at some position: owner name, type, class,
/// start of the record data and its length.
pub type RecordHead = (Seq<char>, int, int, int, int);

/// The resource record at `pos`, if it fits in `p`.
pub open spec fn record_at(p: Seq<u8>, pos: int) -> Option<RecordHead> {
    match read_name_spec(p, pos) {
        None => None,
        Some((owner, c)) => {
            let q = pos + c;
            if q + 10 > p.len() {
                None
            } else {
                let rd = q + 10;
                let rdlen = be16(p, q + 8);
                if rd + rdlen > p.len() {
                    None
                } else {
                    Some((owner, be16(p, q), be16(p, q + 2), rd, rdlen))
                }
            }
        },
    }
}

/// Reads the resource record header at `pos`: owner, type, class, data
/// start and data length.
pub fn read_record(pkt: &[u8], pos: usize) -> (r: Option<(String, u16, u16, usize, usize)>)
    requires
        pkt@.len() <= isize::MAX,
    ensures
        match r {
            Some((owner, rtype, rclass, rd, rdlen)) => record_at(pkt@, pos as int) == Some(
                (owner@, rtype as int, rclass as int, rd as int, rdlen as int),
            ),
            None => record_at(pkt@, pos as int) is None,
        },
{
    let (owner, consumed) = match read_name(pkt, pos) {
        Some(v) => v,
        None => return None,
    };
    if pos >= pkt.len() || consumed > pkt.len() - pos {
        return None;
    }
    let q = pos + consumed;
    if pkt.len() - q < 10 {
        return None;
    }
    let rtype = pkt[q] as u16 * 256 + pkt[q + 1] as u16;
    let rclass = pkt[q + 2] as u16 * 256 + pkt[q + 3] as u16;
    let rdlen = pkt[q + 8] as usize * 256 + pkt[q + 9] as usize;
    let rd = q + 10;
    if rdlen > pkt.len() - rd {
        return None;
    }
    Some((owner, rtype, rclass, rd, rdlen))
}

/// Position after skipping `n` question entries starting at `pos`.
pub open spec fn skip_questions(p: Seq<u8>, pos: int, n: nat) -> Option<int>
    decreases n,
{
    if n == 0 {
        Some(pos)
    } else {
        match skip_from(p, pos, pos) {
            None => None,
            Some(c) => if pos + c + 4 > p.len() {
                None
            } else {
                skip_questions(p, pos + c + 4, (n - 1) as nat)
            },
        }
    }
}

/// Skips the question section (QDCOUNT entries after the header).
fn skip_question_section(pkt: &[u8]) -> (r: Option<usize>)
    requires
        pkt@.len() <= isize::MAX,
        pkt@.len() >= 12,
    ensures
        match r {
            Some(pos) => skip_questions(pkt@, 12, be16(pkt@, 4) as nat) == Some(pos as int)
                && pos <= pkt@.len(),
            None => skip_questions(pkt@, 12, be16(pkt@, 4) as nat) is None,
        },
{
    let qdcount = pkt[4] as usize * 256 + pkt[5] as usize;
    let mut pos: usize = 12;
    let mut k: usize = 0;
    while k < qdcount
        invariant
            pkt@.len() <= isize::MAX,
            k <= qdcount,
            pos <= pkt@.len(),
            qdcount == be16(pkt@, 4),
            skip_questions(pkt@, 12, qdcount as nat) == skip_questions(
                pkt@,
                pos as int,
                (qdcount - k) as nat,
            ),
        decreases qdcount - k,
    {
        let consumed = match skip_name(pkt, pos) {
            Some(c) => c,
            None => return None,
        };
        if consumed > pkt.len() - pos || pkt.len() - pos - consumed < 4 {
            return None;
        }
        pos = pos + consumed + 4;
        k = k + 1;
    }
    Some(pos)
}

/// The A / AAAA address a record contributes for the owner name `want`.
pub open spec fn record_addrs(p: Seq<u8>, rec: RecordHead, want: Seq<u8>) -> Seq<IpView> {
    let (owner, rtype, rclass, rd, rdlen) = rec;
    if rclass % 32768 != 1 || !eq_ignore_ascii_case_bytes(
        vstd::utf8::encode_utf8(owner),
        want,
    ) {
        Seq::empty()
    } else if rtype == 1 && rdlen == 4 {
        seq![IpView::V4(p.subrange(rd, rd + 4))]
    } else if rtype == 28 && rdlen == 16 {
        seq![IpView::V6(p.subrange(rd, rd + 16))]
    } else {
        Seq::empty()
    }
}

/// Addresses for `want` in the `n` answer records from `pos`, up to the first
/// record that does not fit.
pub open spec fn addrs_from(p: Seq<u8>, pos: int, n: nat, want: Seq<u8>) -> Seq<IpView>
    decreases n,
{
    if n == 0 {
        Seq::empty()
    } else {
        match record_at(p, pos) {
            None => Seq::empty(),
            Some(rec) => record_addrs(p, rec, want) + addrs_from(
                p,
                rec.3 + rec.4,
                (n - 1) as nat,
                want,
            ),
        }
    }
}

/// The A/AAAA addresses a response packet gives for the name `want`.
pub open spec fn response_addrs(p: Seq<u8>, want: Seq<u8>) -> Seq<IpView> {
    if p.len() < 12 {
        Seq::empty()
    } else {
        match skip_questions(p, 12, be16(p, 4) as nat) {
            None => Seq::empty(),
            Some(pos) => addrs_from(p, pos, be16(p, 6) as nat, want),
        }
    }
}

/// Views of a list of addresses.
pub open spec fn ip_views(v: Seq<IpAddress>) -> Seq<IpView> {
    v.map_values(|a: IpAddress| a@)
}

/// Copies the 4 bytes at `pkt[rd..]`.
fn ipv4_at(pkt: &[u8], rd: usize) -> (a: IpAddress)
    requires
        rd + 4 <= pkt@.len(),
    ensures
        a@ == IpView::V4(pkt@.subrange(rd as int, rd + 4)),
{
    let o = [pkt[rd], pkt[rd + 1], pkt[rd + 2], pkt[rd + 3]];
    assert(o@ =~= pkt@.subrange(rd as int, rd + 4));
    IpAddress::V4(o)
}

/// Copies the 16 bytes at `pkt[rd..]`.
fn ipv6_at(pkt: &[u8], rd: usize) -> (a: IpAddress)
    requires
        rd + 16 <= pkt@.len(),
    ensures
        a@ == IpView::V6(pkt@.subrange(rd as int, rd + 16)),
{
    let o = [
        pkt[rd],
        pkt[rd + 1],
        pkt[rd + 2],
        pkt[rd + 3],
        pkt[rd + 4],
        pkt[rd + 5],
        pkt[rd + 6],
        pkt[rd + 7],
        pkt[rd + 8],
        pkt[rd + 9],
        pkt[rd + 10],
        pkt[rd + 11],
        pkt[rd + 12],
        pkt[rd + 13],
        pkt[rd + 14],
        pkt[rd + 15],
    ];
    assert(o@ =~= pkt@.subrange(rd as int, rd + 16));
    IpAddress::V6(o)
}

/// Parses one DNS/mDNS response, appending A/AAAA records for `want` to `out`.
pub fn parse_response(pkt: &[u8], want: &str, out: &mut Vec<IpAddress>)
    requires
        pkt@.len() <= isize::MAX,
    ensures
        ip_views(final(out)@) == ip_views(old(out)@) + response_addrs(
            pkt@,
            vstd::utf8::encode_utf8(want@),
        ),
{
    let ghost w = vstd::utf8::encode_utf8(want@);
    let ghost start = ip_views(out@);
    assert(start + Seq::<IpView>::empty() =~= start);
    if pkt.len() < 12 {
        return;
    }
    let mut pos = match skip_question_section(pkt) {
        Some(p) => p,
        None => return,
    };
    let ancount = pkt[6] as usize * 256 + pkt[7] as usize;
    let ghost goal = addrs_from(pkt@, pos as int, ancount as nat, w);
    let mut k: usize = 0;
    while k < ancount
        invariant
            pkt@.len() <= isize::MAX,
            k <= ancount,
            w == vstd::utf8::encode_utf8(want@),
            goal == response_addrs(pkt@, w),
            start == ip_views(old(out)@),
            ip_views(out@) + addrs_from(pkt@, pos as int, (ancount - k) as nat, w) == start
                + goal,
        decreases ancount - k,
    {
        let (owner, rtype, rclass, rd, rdlen) = match read_record(pkt, pos) {
            Some(v) => v,
            None => {
                assert(addrs_from(pkt@, pos as int, (ancount - k) as nat, w) == Seq::<IpView>::empty());
                assert(ip_views(out@) =~= ip_views(out@) + Seq::<IpView>::empty());
                return;
            },
        };
        let ghost before = ip_views(out@);
        let ghost rest = addrs_from(pkt@, (rd + rdlen) as int, (ancount - k - 1) as nat, w);
        pos = rd + rdlen;
        k = k + 1;
        if rclass % 32768 != 1 {
            assert(before + addrs_from(pkt@, pos as int, (ancount - k) as nat, w) =~= before
                + (Seq::<IpView>::empty() + rest));
            continue;
        }
        if !str_eq_ignore_ascii_case(owner.as_str(), want) {
            assert(before + addrs_from(pkt@, pos as int, (ancount - k) as nat, w) =~= before
                + (Seq::<IpView>::empty() + rest));
            continue;
        }
        if rtype == 1 && rdlen == 4 {
            out.push(ipv4_at(pkt, rd));
        } else if rtype == 28 && rdlen == 16 {
            out.push(ipv6_at(pkt, rd));
        }
        assert(ip_views(out@) + rest =~= before + (record_addrs(
            pkt@,
            (owner@, rtype as int, rclass as int, rd as int, rdlen as int),
            w,
        ) + rest));
    }
    assert(ip_views(out@) =~= ip_views(out@) + Seq::<IpView>::empty());
}

// ---------------------------------------------------------------------------
// Discovery responses
// ---------------------------------------------------------------------------

/// The instance name a PTR record contributes.
pub open spec fn record_instances(p: Seq<u8>, rec: RecordHead) -> Seq<Seq<char>> {
    if rec.1 == 12 {
        match read_name_spec(p, rec.3) {
            Some((inst, _)) => seq![inst],
            None => Seq::empty(),
        }
    } else {
        Seq::empty()
    }
}

/// The IPv4 address an A record contributes.
pub open spec fn record_ipv4s(p: Seq<u8>, rec: RecordHead) -> Seq<IpView> {
    if rec.1 == 1 && rec.4 == 4 {
        seq![IpView::V4(p.subrange(rec.3, rec.3 + 4))]
    } else {
        Seq::empty()
    }
}

/// PTR instance names and A-record addresses in the `n` answer records from
/// `pos`, up to the first record that does not fit.
pub open spec fn discovery_from(p: Seq<u8>, pos: int, n: nat) -> (Seq<Seq<char>>, Seq<IpView>)
    decreases n,
{
    if n == 0 {
        (Seq::empty(), Seq::empty())
    } else {
        match record_at(p, pos) {
            None => (Seq::empty(), Seq::empty()),
            Some(rec) => {
                let rest = discovery_from(p, rec.3 + rec.4, (n - 1) as nat);
                (record_instances(p, rec) + rest.0, record_ipv4s(p, rec) + rest.1)
            },
        }
    }
}

/// The PTR instance names and A-record addresses of a discovery response.
pub open spec fn discovery_spec(p: Seq<u8>) -> (Seq<Seq<char>>, Seq<IpView>) {
    if p.len() < 12 {
        (Seq::empty(), Seq::empty())
    } else {
        match skip_questions(p, 12, be16(p, 4) as nat) {
            None => (Seq::empty(), Seq::empty()),
            Some(pos) => discovery_from(p, pos, be16(p, 6) as nat),
        }
    }
}

/// Views of a list of strings.
pub open spec fn string_views(v: Seq<String>) -> Seq<Seq<char>> {
    v.map_values(|s: String| s@)
}

/// Parses a discovery response, collecting PTR instance names and A-record IPs.
pub fn parse_discovery_response(pkt: &[u8]) -> (r: (Vec<String>, Vec<IpAddress>))
    requires
        pkt@.len() <= isize::MAX,
    ensures
        string_views(r.0@) == discovery_spec(pkt@).0,
        ip_views(r.1@) == discovery_spec(pkt@).1,
{
    let mut instances: Vec<String> = Vec::new();
    let mut ips: Vec<IpAddress> = Vec::new();
    assert(string_views(instances@) =~= Seq::<Seq<char>>::empty());
    assert(ip_views(ips@) =~= Seq::<IpView>::empty());
    if pkt.len() < 12 {
        return (instances, ips);
    }
    let mut pos = match skip_question_section(pkt) {
        Some(p) => p,
        None => return (instances, ips),
    };
    let ancount = pkt[6] as usize * 256 + pkt[7] as usize;
    let ghost goal = discovery_spec(pkt@);
    let mut k: usize = 0;
    while k < ancount
        invariant
            pkt@.len() <= isize::MAX,
            k <= ancount,
            goal == discovery_spec(pkt@),
            string_views(instances@) + discovery_from(pkt@, pos as int, (ancount - k) as nat).0
                == goal.0,
            ip_views(ips@) + discovery_from(pkt@, pos as int, (ancount - k) as nat).1 == goal.1,
        decreases ancount - k,
    {
        let (_owner, rtype, _rclass, rd, rdlen) = match read_record(pkt, pos) {
            Some(v) => v,
            None => {
                assert(string_views(instances@) =~= string_views(instances@) + Seq::<
                    Seq<char>,
                >::empty());
                assert(ip_views(ips@) =~= ip_views(ips@) + Seq::<IpView>::empty());
                return (instances, ips);
            },
        };
        let ghost rec = (_owner@, rtype as int, _rclass as int, rd as int, rdlen as int);
        let ghost rest = discovery_from(pkt@, (rd + rdlen) as int, (ancount - k - 1) as nat);
        let ghost before_i = string_views(instances@);
        let ghost before_a = ip_views(ips@);
        if rtype == 12 {
            match read_name(pkt, rd) {
                Some((instance, _)) => {
                    instances.push(instance);
                },
                None => {},
            }
        } else if rtype == 1 && rdlen == 4 {
            ips.push(ipv4_at(pkt, rd));
        }
        assert(string_views(instances@) + rest.0 =~= before_i + (record_instances(pkt@, rec)
            + rest.0));
        assert(ip_views(ips@) + rest.1 =~= before_a + (record_ipv4s(pkt@, rec) + rest.1));
        pos = rd + rdlen;
        k = k + 1;
    }
    assert(string_views(instances@) =~= string_views(instances@) + Seq::<Seq<char>>::empty());
    assert(ip_views(ips@) =~= ip_views(ips@) + Seq::<IpView>::empty());
    (instances, ips)
}

// ---------------------------------------------------------------------------
// Advertiser: responses and announcements
// ---------------------------------------------------------------------------

/// One resource record for building mDNS responses.
#[derive(Clone, Debug, PartialEq)]
pub struct Answer {
    pub name: String,
    pub rtype: u16,
    pub class: u16,
    pub ttl: u32,
    pub rdata: Vec<u8>,
}

/// A resource record as plain values.
pub struct AnswerView {
    pub name: Seq<char>,
    pub rtype: int,
    pub class: int,
    pub ttl: int,
    pub rdata: Seq<u8>,
}

impl View for Answer {
    type V = AnswerView;

    open spec fn view(&self) -> AnswerView {
        AnswerView {
            name: self.name@,
            rtype: self.rtype as int,
            class: self.class as int,
            ttl: self.ttl as int,
            rdata: self.rdata@,
        }
    }
}

/// Views of a list of records.
pub open spec fn answer_views(v: Seq<Answer>) -> Seq<AnswerView> {
    v.map_values(|a: Answer| a@)
}

/// Wire form of one record: encoded owner, type, class, TTL, data length
/// (modulo 2^16) and data.
pub open spec fn answer_bytes(a: AnswerView) -> Seq<u8> {
    encode_name_spec(vstd::utf8::encode_utf8(a.name)) + u16_bytes(a.rtype) + u16_bytes(a.class)
        + u32_bytes(a.ttl) + u16_bytes((a.rdata.len() % 65536) as int) + a.rdata
}

/// Wire form of a list of records, in order.
pub open spec fn answers_bytes(s: Seq<AnswerView>) -> Seq<u8>
    decreases s.len(),
{
    if s.len() == 0 {
        Seq::empty()
    } else {
        answers_bytes(s.drop_last()) + answer_bytes(s.last())
    }
}

/// A response packet: header (question count 0 or 1, answer count modulo
/// 2^16), the echoed question, then the answers.
pub open spec fn response_packet(
    id: int,
    flags: int,
    question: Option<Seq<u8>>,
    answers: Seq<AnswerView>,
) -> Seq<u8> {
    header_bytes(
        id,
        flags,
        if question is Some {
            1
        } else {
            0
        },
        (answers.len() % 65536) as int,
        0,
        0,
    ) + match question {
        Some(q) => q,
        None => Seq::empty(),
    } + answers_bytes(answers)
}

/// Builds a DNS response packet. `question` (if any) is echoed verbatim.
pub fn build_response(id: u16, flags: u16, question: Option<&[u8]>, answers: &[Answer]) -> (pkt:
    Vec<u8>)
    ensures
        pkt@ == response_packet(
            id as int,
            flags as int,
            match question {
                Some(q) => Some(q@),
                None => None,
            },
            answer_views(answers@),
        ),
{
    let mut pkt: Vec<u8> = Vec::new();
    push_u16(&mut pkt, id);
    push_u16(&mut pkt, flags);
    let qd: u16 = if question.is_some() { 1 } else { 0 };
    push_u16(&mut pkt, qd);
    push_u16(&mut pkt, (answers.len() % 65536) as u16);
    push_u16(&mut pkt, 0);
    push_u16(&mut pkt, 0);
    match question {
        Some(q) => {
            push_range(&mut pkt, q, 0, q.len());
            assert(q@.subrange(0, q@.len() as int) == q@);
        },
        None => {},
    }
    let ghost head = pkt@;
    let ghost views = answer_views(answers@);
    for i in 0..answers.len()
        invariant
            views == answer_views(answers@),
            pkt@ == head + answers_bytes(views.take(i as int)),
    {
        let a = &answers[i];
        let ghost before = pkt@;
        let enc = encode_name(a.name.as_str());
        push_range(&mut pkt, enc.as_slice(), 0, enc.len());
        assert(enc@.subrange(0, enc@.len() as int) == enc@);
        push_u16(&mut pkt, a.rtype);
        push_u16(&mut pkt, a.class);
        push_u32(&mut pkt, a.ttl);
        push_u16(&mut pkt, (a.rdata.len() % 65536) as u16);
        push_range(&mut pkt, a.rdata.as_slice(), 0, a.rdata.len());
        assert(a.rdata@.subrange(0, a.rdata@.len() as int) == a.rdata@);
        assert(views.take(i + 1).drop_last() == views.take(i as int));
        assert(pkt@ =~= before + answer_bytes(views[i as int]));
    }
    assert(views.take(answers.len() as int) == views);
    assert(pkt@ =~= response_packet(
        id as int,
        flags as int,
        match question {
            Some(q) => Some(q@),
            None => None,
        },
        views,
    ));
    pkt
}

/// DNS-SD service type shared by every device.
pub open spec fn service_type_spec() -> Seq<char> {
    "_tumbleweed._tcp.local"@
}

/// DNS-SD service type shared by every tumbleweed device. This is the fixed
/// name clients query to discover all devices, regardless of each device's
/// unique instance/hostname.
pub fn service_type(_host: &str) -> (s: String)
    ensures
        s@ == service_type_spec(),
{
    "_tumbleweed._tcp.local".to_owned()
}

/// The service instance name for a host name.
pub open spec fn service_instance_spec(host: Seq<char>) -> Seq<char> {
    strip_suffixes(host, ".local"@) + "._tcp.local"@
}

/// The service instance name (derived from the hostname).
pub fn service_instance(host: &str) -> (s: String)
    ensures
        s@ == service_instance_spec(host@),
{
    let v = chars_of(host);
    let suffix = chars_of(".local");
    let stem = strip_suffixes_vec(&v, &suffix);
    let mut s = string_of(&stem);
    push_str(&mut s, "._tcp.local");
    s
}

/// One TXT string: its length byte (modulo 256), then its bytes.
pub open spec fn txt_string(b: Seq<u8>) -> Seq<u8> {
    seq![(b.len() % 256) as u8] + b
}

/// The TXT record data: the strings `txtvers=1`, `type=<kind>` and
/// `v=<version>`, so that discoverers learn the device type and the app
/// version from the announcement itself.
pub open spec fn txt_rdata(kind: Seq<char>, version: Seq<char>) -> Seq<u8> {
    txt_string(vstd::utf8::encode_utf8("txtvers=1"@)) + txt_string(
        vstd::utf8::encode_utf8("type="@ + kind),
    ) + txt_string(vstd::utf8::encode_utf8("v="@ + version))
}

/// Appends one TXT string made of `prefix` and `value`.
fn push_txt_string(out: &mut Vec<u8>, prefix: &str, value: &str)
    ensures
        final(out)@ == old(out)@ + txt_string(vstd::utf8::encode_utf8(prefix@ + value@)),
{
    let ghost start = out@;
    let a = prefix.as_bytes();
    let b = value.as_bytes();
    proof {
        crate::dns_roundtrip::lemma_encode_utf8_concat(prefix@, value@);
    }
    let n = (a.len() % 256 + b.len() % 256) % 256;
    proof {
        vstd::arithmetic::div_mod::lemma_add_mod_noop(a@.len() as int, b@.len() as int, 256);
    }
    out.push(n as u8);
    push_range(out, a, 0, a.len());
    push_range(out, b, 0, b.len());
    assert(a@.subrange(0, a@.len() as int) == a@);
    assert(b@.subrange(0, b@.len() as int) == b@);
    assert(out@ =~= start + txt_string(vstd::utf8::encode_utf8(prefix@ + value@)));
}

fn txt_data(kind: &str, version: &str) -> (v: Vec<u8>)
    ensures
        v@ == txt_rdata(kind@, version@),
{
    let mut v: Vec<u8> = Vec::new();
    push_txt_string(&mut v, "txtvers=1", "");
    push_txt_string(&mut v, "type=", kind);
    push_txt_string(&mut v, "v=", version);
    assert("txtvers=1"@ + ""@ =~= "txtvers=1"@) by {
        reveal_strlit("");
    }
    assert(v@ =~= txt_rdata(kind@, version@));
    v
}

/// SRV data: priority 0, weight 0, `port`, target host.
pub open spec fn srv_rdata(host: Seq<char>, port: int) -> Seq<u8> {
    u16_bytes(0) + u16_bytes(0) + u16_bytes(port) + encode_name_spec(vstd::utf8::encode_utf8(host))
}

fn srv_data(host: &str, port: u16) -> (v: Vec<u8>)
    ensures
        v@ == srv_rdata(host@, port as int),
{
    let mut v: Vec<u8> = Vec::new();
    push_u16(&mut v, 0);
    push_u16(&mut v, 0);
    push_u16(&mut v, port);
    let enc = encode_name(host);
    push_range(&mut v, enc.as_slice(), 0, enc.len());
    assert(enc@.subrange(0, enc@.len() as int) == enc@);
    assert(v@ =~= srv_rdata(host@, port as int));
    v
}

/// A host A record (class IN with the cache-flush bit).
pub open spec fn a_record(host: Seq<char>, ip: Seq<u8>) -> AnswerView {
    AnswerView { name: host, rtype: 1, class: 0x8001, ttl: 120, rdata: ip }
}

/// A records for each address, in order.
pub open spec fn a_records(host: Seq<char>, addrs: Seq<[u8; 4]>) -> Seq<AnswerView> {
    addrs.map_values(|ip: [u8; 4]| a_record(host, ip@))
}

/// The SRV and TXT records of the service instance.
pub open spec fn srv_txt_records(host: Seq<char>, port: int, kind: Seq<char>, version: Seq<char>) -> Seq<AnswerView> {
    let instance = service_instance_spec(host);
    seq![
        AnswerView { name: instance, rtype: 33, class: 1, ttl: 120, rdata: srv_rdata(host, port) },
        AnswerView { name: instance, rtype: 16, class: 1, ttl: 120, rdata: txt_rdata(kind, version) },
    ]
}

/// The PTR + SRV + TXT + A records that advertise a device.
pub open spec fn service_answers_spec(
    host: Seq<char>,
    port: int,
    addrs: Seq<[u8; 4]>,
    kind: Seq<char>,
    version: Seq<char>,
) -> Seq<
    AnswerView,
> {
    let instance = service_instance_spec(host);
    seq![
        AnswerView {
            name: service_type_spec(),
            rtype: 12,
            class: 1,
            ttl: 120,
            rdata: encode_name_spec(vstd::utf8::encode_utf8(instance)),
        },
    ] + srv_txt_records(host, port, kind, version) + a_records(host, addrs)
}

/// Appends an A record for each address.
fn push_a_records(answers: &mut Vec<Answer>, name: &str, addrs: &[[u8; 4]])
    ensures
        answer_views(final(answers)@) == answer_views(old(answers)@) + a_records(name@, addrs@),
{
    let ghost start = answer_views(answers@);
    for i in 0..addrs.len()
        invariant
            answer_views(answers@) == start + a_records(name@, addrs@.take(i as int)),
    {
        let ip = addrs[i];
        let rdata: Vec<u8> = vec![ip[0], ip[1], ip[2], ip[3]];
        assert(rdata@ =~= ip@);
        let ghost before = answers@;
        answers.push(Answer { name: name.to_owned(), rtype: 1, class: 0x8001, ttl: 120, rdata });
        assert(a_records(name@, addrs@.take(i + 1)) =~= a_records(name@, addrs@.take(i as int)).push(
            a_record(name@, ip@),
        ));
        assert(answer_views(answers@) =~= answer_views(before).push(a_record(name@, ip@)));
    }
    assert(addrs@.take(addrs.len() as int) == addrs@);
}

/// Appends the SRV and TXT records of the service instance.
fn push_srv_txt(answers: &mut Vec<Answer>, name: &str, service_port: u16, kind: &str, version: &str)
    ensures
        answer_views(final(answers)@) == answer_views(old(answers)@) + srv_txt_records(
            name@,
            service_port as int,
            kind@,
            version@,
        ),
{
    let instance = service_instance(name);
    answers.push(
        Answer {
            name: instance.clone(),
            rtype: 33,
            class: 1,
            ttl: 120,
            rdata: srv_data(name, service_port),
        },
    );
    answers.push(Answer { name: instance, rtype: 16, class: 1, ttl: 120, rdata: txt_data(kind, version) });
    assert(answer_views(answers@) =~= answer_views(old(answers)@) + srv_txt_records(
        name@,
        service_port as int,
        kind@,
        version@,
    ));
}

/// Builds the PTR + SRV + TXT + A answers that advertise this device.
pub fn service_answers(
    name: &str,
    service_port: u16,
    addrs: &[[u8; 4]],
    kind: &str,
    version: &str,
) -> (answers: Vec<Answer>)
    ensures
        answer_views(answers@) == service_answers_spec(name@, service_port as int, addrs@, kind@, version@),
{
    let instance = service_instance(name);
    let service = service_type(name);
    let mut answers: Vec<Answer> = Vec::new();
    answers.push(
        Answer {
            name: service,
            rtype: 12,
            class: 1,
            ttl: 120,
            rdata: encode_name(instance.as_str()),
        },
    );
    push_srv_txt(&mut answers, name, service_port, kind, version);
    push_a_records(&mut answers, name, addrs);
    assert(answer_views(answers@) =~= service_answers_spec(name@, service_port as int, addrs@, kind@, version@));
    answers
}

/// The unsolicited announcement: service PTR + SRV + TXT + host A records.
pub open spec fn announcement_spec(
    host: Seq<char>,
    port: int,
    addrs: Seq<[u8; 4]>,
    kind: Seq<char>,
    version: Seq<char>,
) -> Seq<u8> {
    response_packet(0, 0x8400, None, service_answers_spec(host, port, addrs, kind, version))
}

/// Unsolicited announcement: service PTR + SRV + TXT + host A records.
pub fn build_announcement(
    name: &str,
    service_port: u16,
    addrs: &[[u8; 4]],
    kind: &str,
    version: &str,
) -> (pkt: Vec<u8>)
    ensures
        pkt@ == announcement_spec(name@, service_port as int, addrs@, kind@, version@),
{
    let answers = service_answers(name, service_port, addrs, kind, version);
    build_response(0, 0x8400, None, answers.as_slice())
}

/// Where a query response goes: back to the querier (QU bit) or to the group.
#[derive(Clone, Copy, Debug, PartialEq, Eq)]
pub enum ReplyTo {
    Source,
    Group,
}

/// The records answering a question for `qname` of type `qtype`.
pub open spec fn query_answers(
    host: Seq<char>,
    port: int,
    addrs: Seq<[u8; 4]>,
    kind: Seq<char>,
    version: Seq<char>,
    qname: Seq<char>,
    qtype: int,
) -> Seq<AnswerView> {
    let q = vstd::utf8::encode_utf8(qname);
    if eq_ignore_ascii_case_bytes(q, vstd::utf8::encode_utf8(host)) && (qtype == 1 || qtype == 255) {
        a_records(host, addrs)
    } else if eq_ignore_ascii_case_bytes(q, vstd::utf8::encode_utf8(service_type_spec())) && (qtype
        == 12 || qtype == 255) {
        service_answers_spec(host, port, addrs, kind, version)
    } else if eq_ignore_ascii_case_bytes(q, vstd::utf8::encode_utf8(service_instance_spec(host)))
        && (qtype == 33 || qtype == 255) {
        srv_txt_records(host, port, kind, version)
    } else {
        Seq::empty()
    }
}

/// The reply to a received packet, if it is a query this device answers.
pub open spec fn query_reply(
    p: Seq<u8>,
    host: Seq<char>,
    port: int,
    addrs: Seq<[u8; 4]>,
    kind: Seq<char>,
    version: Seq<char>,
) -> Option<
    (Seq<u8>, ReplyTo),
> {
    if p.len() < 12 || be16(p, 2) >= 32768 {
        None
    } else {
        match read_name_spec(p, 12) {
            None => None,
            Some((qname, c)) => {
                let pos = 12 + c;
                if c == 0 || pos + 4 > p.len() {
                    None
                } else {
                    let answers = query_answers(host, port, addrs, kind, version, qname, be16(p, pos));
                    if answers.len() == 0 {
                        None
                    } else {
                        Some(
                            (
                                response_packet(
                                    be16(p, 0),
                                    0x8400,
                                    Some(p.subrange(12, pos + 4)),
                                    answers,
                                ),
                                if be16(p, pos + 2) >= 32768 {
                                    ReplyTo::Source
                                } else {
                                    ReplyTo::Group
                                },
                            ),
                        )
                    }
                }
            },
        }
    }
}

/// If `pkt` is a query we should answer, builds a response and says where
/// to send it (unicast back to the source when the QU bit is set, else to
/// the multicast group). Answers host A queries and DNS-SD PTR/SRV queries.
pub fn response_for_query(
    pkt: &[u8],
    name: &str,
    service_port: u16,
    addrs: &[[u8; 4]],
    kind: &str,
    version: &str,
) -> (r:
    Option<(Vec<u8>, ReplyTo)>)
    requires
        pkt@.len() <= isize::MAX,
    ensures
        match r {
            Some((resp, dest)) => query_reply(pkt@, name@, service_port as int, addrs@, kind@, version@) == Some(
                (resp@, dest),
            ),
            None => query_reply(pkt@, name@, service_port as int, addrs@, kind@, version@) is None,
        },
{
    if pkt.len() < 12 {
        return None;
    }
    let flags = pkt[2] as u16 * 256 + pkt[3] as u16;
    if flags >= 32768 {
        return None;
    }
    let (qname, consumed) = match read_name(pkt, 12) {
        Some(v) => v,
        None => return None,
    };
    if consumed == 0 {
        return None;
    }
    if consumed > pkt.len() - 12 || pkt.len() - 12 - consumed < 4 {
        return None;
    }
    let pos = 12 + consumed;
    let qtype = pkt[pos] as u16 * 256 + pkt[pos + 1] as u16;
    let qclass = pkt[pos + 2] as u16 * 256 + pkt[pos + 3] as u16;
    let q_end = pos + 4;
    let instance = service_instance(name);
    let service = service_type(name);
    let mut answers: Vec<Answer> = Vec::new();
    if str_eq_ignore_ascii_case(qname.as_str(), name) && (qtype == 1 || qtype == 255) {
        push_a_records(&mut answers, name, addrs);
    } else if str_eq_ignore_ascii_case(qname.as_str(), service.as_str()) && (qtype == 12 || qtype
        == 255) {
        answers = service_answers(name, service_port, addrs, kind, version);
    } else if str_eq_ignore_ascii_case(qname.as_str(), instance.as_str()) && (qtype == 33 || qtype
        == 255) {
        push_srv_txt(&mut answers, name, service_port, kind, version);
    }
    assert(answer_views(answers@) =~= query_answers(
        name@,
        service_port as int,
        addrs@,
        kind@,
        version@,
        qname@,
        qtype as int,
    ));
    if answers.len() == 0 {
        return None;
    }
    let id = pkt[0] as u16 * 256 + pkt[1] as u16;
    let question = &pkt[12..q_end];
    let resp = build_response(id, 0x8400, Some(question), answers.as_slice());
    let dest = if qclass >= 32768 {
        ReplyTo::Source
    } else {
        ReplyTo::Group
    };
    Some((resp, dest))
}

} // verus!
