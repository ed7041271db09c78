//! What one device's mDNS responder sends is what another device's resolver
//! and discoverer read back: an encoded name decodes to the name encoded,
//! and the answer records parse into the advertised addresses.

use vstd::prelude::*;
use vstd::utf8::{decode_utf8, encode_scalar, encode_utf8, encode_utf8_decode_utf8, encode_utf8_valid_utf8};
use crate::dns::{
    a_record, a_records, addrs_from, answer_bytes, answers_bytes, be16, encode_labels_from,
    encode_name_spec, first_dot, header_bytes, lemma_walk_step, name_walk, query_packet,
    query_reply, read_name_spec, record_at, response_addrs, response_packet, skip_from,
    skip_questions, u16_bytes, u32_bytes, walk_ok, AnswerView, IpView, ReplyTo,
    announcement_spec, discovery_from, discovery_spec, service_answers_spec, service_instance_spec,
    service_type_spec, srv_rdata, srv_txt_records, txt_rdata,
};
use crate::text::{
    eq_ignore_ascii_case_bytes, join_dot, lemma_split_append_plain, lemma_split_no_sep,
    lemma_split_nonempty, lossy_text, split_pieces, Sep,
};

verus! {

// ---------------------------------------------------------------------------
// Names and their labels
// ---------------------------------------------------------------------------

/// Wire form of a list of labels: each label as its length byte and its
/// bytes, then the zero byte that ends a name.
pub open spec fn wire(ls: Seq<Seq<u8>>) -> Seq<u8>
    decreases ls.len(),
{
    if ls.len() == 0 {
        seq![0u8]
    } else {
        seq![(ls[0].len() % 256) as u8] + ls[0] + wire(ls.drop_first())
    }
}

/// The labels of a dotted name (`name.split('.')`), each as its UTF-8 bytes.
pub open spec fn dns_labels(name: Seq<char>) -> Seq<Seq<u8>> {
    split_pieces(name, Sep::One('.')).map_values(|l: Seq<char>| encode_utf8(l))
}

/// Every label of the name is a single wire label: not empty, and shorter
/// than 192 bytes (a length byte of 192 or more reads as a compression
/// pointer).
pub open spec fn labels_fit(name: Seq<char>) -> bool {
    forall|k: int|
        0 <= k < dns_labels(name).len() ==> 0 < #[trigger] dns_labels(name)[k].len() < 192
}

/// UTF-8 encoding distributes over concatenation.
pub proof fn lemma_encode_utf8_concat(a: Seq<char>, b: Seq<char>)
    ensures
        encode_utf8(a + b) == encode_utf8(a) + encode_utf8(b),
    decreases a.len(),
{
    if a.len() == 0 {
        assert(a + b =~= b);
        assert(encode_utf8(a) =~= Seq::<u8>::empty());
        assert(encode_utf8(a) + encode_utf8(b) =~= encode_utf8(b));
    } else {
        lemma_encode_utf8_concat(a.drop_first(), b);
        assert((a + b).drop_first() =~= a.drop_first() + b);
        assert((a + b)[0] == a[0]);
        assert(encode_utf8(a + b) =~= encode_scalar(a[0] as u32) + encode_utf8(a.drop_first() + b));
        assert(encode_utf8(a) =~= encode_scalar(a[0] as u32) + encode_utf8(a.drop_first()));
    }
}

/// Only `.` encodes to a byte 46; it encodes to that byte alone.
proof fn lemma_scalar_dot_byte(c: char)
    ensures
        c == '.' ==> encode_scalar(c as u32) == seq![46u8],
        c != '.' ==> forall|k: int|
            0 <= k < encode_scalar(c as u32).len() ==> #[trigger] encode_scalar(c as u32)[k] != 46,
{
    let s = c as u32;
    vstd::utf8::char_is_scalar(c);
    if s <= 0x7F {
        assert(((s & 0x7F) as u8 == 46u8) == (s == 46u32)) by (bit_vector)
            requires
                s <= 0x7F,
        ;
        if c == '.' {
            assert(s == 46);
        } else {
            assert(s != 46) by {
                vstd::utf8::char_u32_cast(c, s);
                if s == 46 {
                    vstd::utf8::char_u32_cast('.', 46u32);
                }
            }
        }
    } else {
        assert((0xC0u8 | ((s >> 6) & 0x1F) as u8) != 46u8) by (bit_vector);
        assert((0xE0u8 | ((s >> 12) & 0x0F) as u8) != 46u8) by (bit_vector);
        assert((0xF0u8 | ((s >> 18) & 0x7) as u8) != 46u8) by (bit_vector);
        assert((0x80u8 | (s & 0x3F) as u8) != 46u8) by (bit_vector);
        assert((0x80u8 | ((s >> 6) & 0x3F) as u8) != 46u8) by (bit_vector);
        assert((0x80u8 | ((s >> 12) & 0x3F) as u8) != 46u8) by (bit_vector);
        assert(c != '.');
    }
}

/// Text without `.` encodes to bytes without 46.
proof fn lemma_encode_no_dot(a: Seq<char>)
    requires
        forall|k: int| 0 <= k < a.len() ==> a[k] != '.',
    ensures
        forall|k: int| 0 <= k < encode_utf8(a).len() ==> #[trigger] encode_utf8(a)[k] != 46,
    decreases a.len(),
{
    if a.len() > 0 {
        lemma_scalar_dot_byte(a[0]);
        lemma_encode_no_dot(a.drop_first());
        let e = encode_scalar(a[0] as u32);
        let r = encode_utf8(a.drop_first());
        assert(encode_utf8(a) =~= e + r);
        assert forall|k: int| 0 <= k < encode_utf8(a).len() implies encode_utf8(a)[k] != 46 by {
            if k < e.len() {
                assert(encode_utf8(a)[k] == e[k]);
            } else {
                assert(encode_utf8(a)[k] == r[k - e.len()]);
            }
        }
    }
}

/// The first `.` byte at or after `i` is at `j` when none lies in between
/// and `j` ends the bytes or holds one.
proof fn lemma_first_dot_at(b: Seq<u8>, i: int, j: int)
    requires
        0 <= i <= j <= b.len(),
        forall|k: int| i <= k < j ==> b[k] != 46,
        j == b.len() || b[j] == 46,
    ensures
        first_dot(b, i) == j,
    decreases j - i,
{
    if i < j {
        lemma_first_dot_at(b, i + 1, j);
    }
}

/// A dotted name's labels joined with `.` give the name back.
pub proof fn lemma_join_split_dot(s: Seq<char>)
    ensures
        join_dot(split_pieces(s, Sep::One('.'))) == s,
    decreases s.len(),
{
    if s.len() > 0 {
        let t = s.drop_last();
        lemma_join_split_dot(t);
        lemma_split_nonempty(t, Sep::One('.'));
        let w = split_pieces(t, Sep::One('.'));
        assert(s =~= t.push(s.last()));
        if s.last() == '.' {
            let r = w.push(Seq::<char>::empty());
            assert(r.drop_last() =~= w);
            assert(join_dot(r) =~= join_dot(w) + seq!['.'] + Seq::<char>::empty());
        } else {
            let r = w.update(w.len() - 1, w.last().push(s.last()));
            if w.len() == 1 {
                assert(join_dot(r) == r[0]);
                assert(join_dot(w) == w[0]);
            } else {
                assert(r.drop_last() =~= w.drop_last());
                assert(join_dot(r) == join_dot(w.drop_last()) + seq!['.'] + r.last());
                assert(join_dot(w) == join_dot(w.drop_last()) + seq!['.'] + w.last());
            }
        }
    }
}

/// `join_dot` read from the front: the first label, `.`, then the rest.
proof fn lemma_join_dot_front(ls: Seq<Seq<char>>)
    requires
        ls.len() >= 2,
    ensures
        join_dot(ls) == ls[0] + seq!['.'] + join_dot(ls.drop_first()),
    decreases ls.len(),
{
    assert(join_dot(ls) == join_dot(ls.drop_last()) + seq!['.'] + ls.last());
    if ls.len() == 2 {
        assert(ls.drop_last() =~= seq![ls[0]]);
        assert(ls.drop_first() =~= seq![ls[1]]);
        assert(join_dot(ls.drop_first()) == ls[1]);
        assert(join_dot(ls.drop_last()) == ls[0]);
    } else {
        let d = ls.drop_first();
        lemma_join_dot_front(ls.drop_last());
        assert(ls.drop_last().drop_first() =~= d.drop_last());
        assert(d.last() == ls.last());
        assert(ls.drop_last()[0] == ls[0]);
        assert(join_dot(d) == join_dot(d.drop_last()) + seq!['.'] + d.last());
        assert(join_dot(ls) =~= ls[0] + seq!['.'] + join_dot(d));
    }
}

/// The label encoding of `pre` followed by the UTF-8 of dot-joined labels
/// (none holding `.`), read from the end of `pre`, is the wire form of the
/// labels' bytes.
#[verifier::spinoff_prover]
#[verifier::rlimit(50)]
proof fn lemma_encode_labels_join(pre: Seq<u8>, ls: Seq<Seq<char>>)
    requires
        ls.len() >= 1,
        forall|k: int, m: int| 0 <= k < ls.len() && 0 <= m < ls[k].len() ==> #[trigger] ls[k][m] != '.',
    ensures
        encode_labels_from(pre + encode_utf8(join_dot(ls)), pre.len() as int) == wire(
            ls.map_values(|l: Seq<char>| encode_utf8(l)),
        ),
    decreases ls.len(),
{
    let es = ls.map_values(|l: Seq<char>| encode_utf8(l));
    let e0 = encode_utf8(ls[0]);
    assert(es[0] == e0);
    assert forall|m: int| 0 <= m < ls[0].len() implies ls[0][m] != '.' by {
        assert(ls[0][m] != '.');
    }
    lemma_encode_no_dot(ls[0]);
    let i = pre.len() as int;
    let j = i + e0.len();
    if ls.len() == 1 {
        let b = pre + e0;
        assert(join_dot(ls) == ls[0]);
        assert forall|k: int| i <= k < j implies b[k] != 46 by {
            assert(b[k] == e0[k - i]);
        }
        lemma_first_dot_at(b, i, j);
        assert(b.subrange(i, j) =~= e0);
        assert(es.drop_first() =~= Seq::<Seq<u8>>::empty());
        assert(wire(es.drop_first()) == seq![0u8]);
        assert(wire(es) =~= seq![(e0.len() % 256) as u8] + e0 + seq![0u8]);
    } else {
        let rest = ls.drop_first();
        lemma_join_dot_front(ls);
        lemma_encode_utf8_concat(ls[0] + seq!['.'], join_dot(rest));
        lemma_encode_utf8_concat(ls[0], seq!['.']);
        lemma_scalar_dot_byte('.');
        assert(encode_utf8(seq!['.']) =~= seq![46u8]) by {
            let d = seq!['.'];
            assert(d[0] == '.');
            assert(d.drop_first() =~= Seq::<char>::empty());
            assert(encode_utf8(d) == encode_scalar(d[0] as u32) + encode_utf8(d.drop_first()));
        }
        let pre2 = pre + e0 + seq![46u8];
        let b = pre + encode_utf8(join_dot(ls));
        assert(b =~= pre2 + encode_utf8(join_dot(rest)));
        assert forall|k: int| i <= k < j implies b[k] != 46 by {
            assert(b[k] == e0[k - i]);
        }
        assert(b[j] == 46);
        lemma_first_dot_at(b, i, j);
        assert(b.subrange(i, j) =~= e0);
        assert forall|k: int, m: int| 0 <= k < rest.len() && 0 <= m < rest[k].len() implies #[trigger] rest[k][m] != '.' by {
            assert(rest[k] == ls[k + 1]);
        }
        lemma_encode_labels_join(pre2, rest);
        assert(es.drop_first() =~= rest.map_values(|l: Seq<char>| encode_utf8(l)));
        assert(pre2.len() == j + 1);
    }
}

/// A dotted name encodes to the wire form of its labels, and the labels
/// read back (as `from_utf8_lossy` reads them) and joined with `.` give the
/// name.
pub proof fn lemma_name_encoding(name: Seq<char>)
    ensures
        encode_name_spec(encode_utf8(name)) == wire(dns_labels(name)),
        join_dot(dns_labels(name).map_values(|l: Seq<u8>| lossy_text(l))) == name,
{
    let ps = split_pieces(name, Sep::One('.'));
    lemma_split_nonempty(name, Sep::One('.'));
    lemma_split_no_sep(name, Sep::One('.'));
    lemma_join_split_dot(name);
    assert forall|k: int, m: int| 0 <= k < ps.len() && 0 <= m < ps[k].len() implies #[trigger] ps[k][m] != '.' by {
        assert(!crate::text::is_sep(Sep::One('.'), ps[k][m]));
    }
    lemma_encode_labels_join(Seq::empty(), ps);
    assert(Seq::<u8>::empty() + encode_utf8(join_dot(ps)) =~= encode_utf8(name));
    let back = dns_labels(name).map_values(|l: Seq<u8>| lossy_text(l));
    assert forall|k: int| 0 <= k < ps.len() implies back[k] == ps[k] by {
        encode_utf8_valid_utf8(ps[k]);
        encode_utf8_decode_utf8(ps[k]);
        assert(lossy_text(encode_utf8(ps[k])) == decode_utf8(encode_utf8(ps[k])));
    }
    assert(back =~= ps);
}


// ---------------------------------------------------------------------------
// Reading a name back
// ---------------------------------------------------------------------------

/// Every label fits a wire label: not empty and below 192 bytes.
pub open spec fn wire_labels_ok(ls: Seq<Seq<u8>>) -> bool {
    forall|k: int| 0 <= k < ls.len() ==> 0 < #[trigger] ls[k].len() < 192
}

/// `p` holds `w` at `pos`.
pub open spec fn holds_at(p: Seq<u8>, pos: int, w: Seq<u8>) -> bool {
    &&& 0 <= pos
    &&& pos + w.len() <= p.len()
    &&& p.subrange(pos, pos + w.len()) == w
}

/// What `p` holds at `pos` it holds part by part.
proof fn lemma_holds_part(p: Seq<u8>, pos: int, w: Seq<u8>, from: int, to: int)
    requires
        holds_at(p, pos, w),
        0 <= from <= to <= w.len(),
    ensures
        holds_at(p, pos + from, w.subrange(from, to)),
{
    assert forall|k: int| 0 <= k < to - from implies p.subrange(pos + from, pos + to)[k] == w.subrange(
        from,
        to,
    )[k] by {
        assert(p.subrange(pos, pos + w.len())[from + k] == w[from + k]);
    }
    assert(p.subrange(pos + from, pos + to) =~= w.subrange(from, to));
}

/// `p` holding `a + b` at `pos` holds `a` there and `b` right after it.
proof fn lemma_holds_split(p: Seq<u8>, pos: int, a: Seq<u8>, b: Seq<u8>)
    requires
        holds_at(p, pos, a + b),
    ensures
        holds_at(p, pos, a),
        holds_at(p, pos + a.len(), b),
{
    lemma_holds_part(p, pos, a + b, 0, a.len() as int);
    lemma_holds_part(p, pos, a + b, a.len() as int, (a + b).len() as int);
    assert((a + b).subrange(0, a.len() as int) =~= a);
    assert((a + b).subrange(a.len() as int, (a + b).len() as int) =~= b);
}

/// The parts of a wire form after its first label.
proof fn lemma_wire_step(p: Seq<u8>, pos: int, ls: Seq<Seq<u8>>)
    requires
        ls.len() > 0,
        wire_labels_ok(ls),
        holds_at(p, pos, wire(ls)),
    ensures
        p[pos] == ls[0].len(),
        p.subrange(pos + 1, pos + 1 + ls[0].len()) == ls[0],
        holds_at(p, pos + 1 + ls[0].len(), wire(ls.drop_first())),
        wire(ls).len() == 1 + ls[0].len() + wire(ls.drop_first()).len(),
        wire_labels_ok(ls.drop_first()),
{
    let w = wire(ls);
    let l = ls[0].len() as int;
    let rest = wire(ls.drop_first());
    assert(w =~= seq![(l % 256) as u8] + ls[0] + rest);
    assert(p[pos] == p.subrange(pos, pos + w.len())[0]);
    assert(p.subrange(pos + 1, pos + 1 + l) =~= w.subrange(1, 1 + l));
    assert(w.subrange(1, 1 + l) =~= ls[0]);
    assert(p.subrange(pos + 1 + l, pos + 1 + l + rest.len()) =~= w.subrange(1 + l, w.len() as int));
    assert(w.subrange(1 + l, w.len() as int) =~= rest);
    assert forall|k: int| 0 <= k < ls.drop_first().len() implies 0 < #[trigger] ls.drop_first()[k].len() < 192 by {
        assert(ls.drop_first()[k] == ls[k + 1]);
    }
}

/// The name walk over a wire form collects its labels and consumes it whole.
proof fn lemma_walk_wire(
    p: Seq<u8>,
    pos: int,
    visited: Set<int>,
    acc: Seq<Seq<u8>>,
    start: int,
    ls: Seq<Seq<u8>>,
)
    requires
        walk_ok(p, visited),
        0 <= start <= pos,
        forall|v: int| visited.contains(v) ==> start <= v < pos,
        wire_labels_ok(ls),
        holds_at(p, pos, wire(ls)),
    ensures
        name_walk(p, pos, visited, acc, None, start) == Some((acc + ls, pos + wire(ls).len() - start)),
    decreases ls.len(),
{
    if ls.len() == 0 {
        assert(p[pos] == p.subrange(pos, pos + 1)[0]);
        assert(acc + ls =~= acc);
    } else {
        lemma_wire_step(p, pos, ls);
        lemma_walk_step(p, visited, pos);
        let l = ls[0].len();
        let next = pos + 1 + l;
        lemma_walk_wire(p, next, visited.insert(pos), acc.push(ls[0]), start, ls.drop_first());
        assert(acc.push(ls[0]) + ls.drop_first() =~= acc + ls);
    }
}

/// Skipping over a wire form consumes it whole.
proof fn lemma_skip_wire(p: Seq<u8>, pos: int, start: int, ls: Seq<Seq<u8>>)
    requires
        0 <= start <= pos,
        wire_labels_ok(ls),
        holds_at(p, pos, wire(ls)),
    ensures
        skip_from(p, pos, start) == Some(pos + wire(ls).len() - start),
    decreases ls.len(),
{
    if ls.len() == 0 {
        assert(p[pos] == p.subrange(pos, pos + 1)[0]);
    } else {
        lemma_wire_step(p, pos, ls);
        lemma_skip_wire(p, pos + 1 + ls[0].len(), start, ls.drop_first());
    }
}

/// The encoded form of a dotted name.
pub open spec fn encoded_name(name: Seq<char>) -> Seq<u8> {
    encode_name_spec(encode_utf8(name))
}

/// An encoded name reads back as the name, and is consumed whole, both by
/// the name reader and by the name skipper.
pub proof fn law_encoded_name_reads_back(p: Seq<u8>, pos: int, name: Seq<char>)
    requires
        labels_fit(name),
        holds_at(p, pos, encoded_name(name)),
    ensures
        read_name_spec(p, pos) == Some((name, encoded_name(name).len() as int)),
        skip_from(p, pos, pos) == Some(encoded_name(name).len() as int),
        encoded_name(name).len() >= 1,
{
    lemma_name_encoding(name);
    let ls = dns_labels(name);
    assert(wire_labels_ok(ls));
    lemma_walk_wire(p, pos, Set::empty(), Seq::empty(), pos, ls);
    assert(Seq::<Seq<u8>>::empty() + ls =~= ls);
    lemma_skip_wire(p, pos, pos, ls);
    if ls.len() > 0 {
        lemma_wire_step(p, pos, ls);
    }
}


// ---------------------------------------------------------------------------
// Answer records
// ---------------------------------------------------------------------------

/// The wire form of a record list, read from the front.
proof fn lemma_answers_bytes_front(s: Seq<AnswerView>)
    requires
        s.len() >= 1,
    ensures
        answers_bytes(s) == answer_bytes(s[0]) + answers_bytes(s.drop_first()),
    decreases s.len(),
{
    assert(answers_bytes(s) == answers_bytes(s.drop_last()) + answer_bytes(s.last()));
    if s.len() == 1 {
        assert(s.drop_last() =~= Seq::<AnswerView>::empty());
        assert(s.drop_first() =~= Seq::<AnswerView>::empty());
        assert(answers_bytes(s) =~= answer_bytes(s[0]) + answers_bytes(s.drop_first()));
    } else {
        let d = s.drop_last();
        let t = s.drop_first();
        lemma_answers_bytes_front(d);
        assert(d.drop_first() =~= t.drop_last());
        assert(t.last() == s.last());
        assert(d[0] == s[0]);
        assert(answers_bytes(t) == answers_bytes(t.drop_last()) + answer_bytes(t.last()));
        assert(answers_bytes(s) =~= answer_bytes(s[0]) + answers_bytes(t));
    }
}

/// The addresses of a list, as the parsers report them.
pub open spec fn v4_views(addrs: Seq<[u8; 4]>) -> Seq<IpView> {
    addrs.map_values(|a: [u8; 4]| IpView::V4(a@))
}

/// Big-endian bytes of a 16-bit value read back as the value.
proof fn lemma_u16_bytes(x: int)
    requires
        0 <= x < 65536,
    ensures
        u16_bytes(x).len() == 2,
        u16_bytes(x)[0] * 256 + u16_bytes(x)[1] == x,
{
    vstd::arithmetic::div_mod::lemma_fundamental_div_mod(x, 256);
    assert(0 <= x / 256 < 256);
}

/// A record reads back as its owner, type, class, and the position and
/// length of its data, which `p` holds there.
#[verifier::spinoff_prover]
#[verifier::rlimit(50)]
proof fn lemma_record_at(p: Seq<u8>, pos: int, a: AnswerView)
    requires
        labels_fit(a.name),
        0 <= a.rtype < 65536,
        0 <= a.class < 65536,
        a.rdata.len() < 65536,
        holds_at(p, pos, answer_bytes(a)),
    ensures
        record_at(p, pos) == Some(
            (a.name, a.rtype, a.class, pos + encoded_name(a.name).len() + 10, a.rdata.len() as int),
        ),
        holds_at(p, pos + encoded_name(a.name).len() + 10, a.rdata),
        answer_bytes(a).len() == encoded_name(a.name).len() + 10 + a.rdata.len(),
{
    let e = encoded_name(a.name);
    let len = a.rdata.len() as int;
    let t = u16_bytes(a.rtype);
    let c = u16_bytes(a.class);
    let l = u16_bytes(len);
    let ttl = u32_bytes(a.ttl);
    lemma_u16_bytes(a.rtype);
    lemma_u16_bytes(a.class);
    lemma_u16_bytes(len);
    assert(len % 65536 == len);
    let fixed = seq![t[0], t[1], c[0], c[1], ttl[0], ttl[1], ttl[2], ttl[3], l[0], l[1]];
    assert(t + c + ttl + u16_bytes(len % 65536) =~= fixed);
    assert(answer_bytes(a) =~= e + (fixed + a.rdata));
    lemma_holds_split(p, pos, e, fixed + a.rdata);
    law_encoded_name_reads_back(p, pos, a.name);
    let q = pos + e.len();
    lemma_holds_split(p, q, fixed, a.rdata);
    assert forall|k: int| 0 <= k < 10 implies p[q + k] == fixed[k] by {
        assert(p[q + k] == p.subrange(q, q + 10)[k]);
    }
    assert(p[q] == t[0] && p[q + 1] == t[1] && p[q + 2] == c[0] && p[q + 3] == c[1]);
    assert(p[q + 8] == l[0] && p[q + 9] == l[1]);
}

/// A list of A records reads back as its addresses, for its owner.
proof fn lemma_addrs_from_a_records(p: Seq<u8>, pos: int, host: Seq<char>, addrs: Seq<[u8; 4]>)
    requires
        labels_fit(host),
        holds_at(p, pos, answers_bytes(a_records(host, addrs))),
    ensures
        addrs_from(p, pos, addrs.len(), encode_utf8(host)) == v4_views(addrs),
    decreases addrs.len(),
{
    if addrs.len() > 0 {
        let rs = a_records(host, addrs);
        lemma_answers_bytes_front(rs);
        let ip = addrs[0]@;
        assert(rs[0] == a_record(host, ip));
        assert(rs.drop_first() =~= a_records(host, addrs.drop_first()));
        let r0 = answer_bytes(rs[0]);
        let rest = answers_bytes(rs.drop_first());
        lemma_holds_split(p, pos, r0, rest);
        lemma_record_at(p, pos, a_record(host, ip));
        assert(a_record(host, ip).rdata == ip);
        lemma_addrs_from_a_records(p, pos + r0.len(), host, addrs.drop_first());
        assert(eq_ignore_ascii_case_bytes(encode_utf8(host), encode_utf8(host)));
        assert(v4_views(addrs) =~= seq![IpView::V4(ip)] + v4_views(addrs.drop_first()));
    }
}


// ---------------------------------------------------------------------------
// Resolving an advertised host
// ---------------------------------------------------------------------------

/// `p` holds itself from its start.
proof fn lemma_holds_whole(p: Seq<u8>)
    ensures
        holds_at(p, 0, p),
{
    assert(p.subrange(0, p.len() as int) =~= p);
}

/// The query bytes after the name: type A, class IN with the
/// unicast-response bit.
spec fn a_question_tail() -> Seq<u8> {
    seq![0u8, 1u8, 128u8, 1u8]
}

/// How a device answers an A query for its own host name.
#[verifier::spinoff_prover]
#[verifier::rlimit(50)]
proof fn lemma_reply_to_own_a_query(
    host: Seq<char>,
    port: int,
    addrs: Seq<[u8; 4]>,
    kind: Seq<char>,
    version: Seq<char>,
)
    requires
        labels_fit(host),
    ensures
        query_reply(query_packet(encode_utf8(host), 1), host, port, addrs, kind, version) == (if addrs.len() == 0 {
            None
        } else {
            Some(
                (
                    response_packet(
                        0,
                        0x8400,
                        Some(encoded_name(host) + a_question_tail()),
                        a_records(host, addrs),
                    ),
                    ReplyTo::Source,
                ),
            )
        }),
{
    let b = encode_utf8(host);
    let e = encoded_name(host);
    let rs = a_records(host, addrs);
    let h = seq![0u8, 0u8, 0u8, 0u8, 0u8, 1u8, 0u8, 0u8, 0u8, 0u8, 0u8, 0u8];
    let qt = a_question_tail();
    assert(u16_bytes(0) =~= seq![0u8, 0u8]);
    assert(u16_bytes(1) =~= seq![0u8, 1u8]);
    assert(u16_bytes(0x8001) =~= seq![128u8, 1u8]);
    assert(header_bytes(0, 0, 1, 0, 0, 0) =~= h);
    let qp = query_packet(b, 1);
    assert(qp =~= h + (e + qt));
    lemma_holds_whole(qp);
    lemma_holds_split(qp, 0, h, e + qt);
    lemma_holds_split(qp, 12, e, qt);
    law_encoded_name_reads_back(qp, 12, host);
    let pos = 12 + e.len() as int;
    assert(qp[2] == 0 && qp[3] == 0 && qp[0] == 0 && qp[1] == 0);
    assert forall|k: int| 0 <= k < 4 implies qp[pos + k] == qt[k] by {
        assert(qp[pos + k] == qp.subrange(pos, pos + 4)[k]);
    }
    assert(be16(qp, pos) == 1);
    assert(be16(qp, pos + 2) == 0x8001) by {
        assert(qt[2] == 128 && qt[3] == 1);
    }
    assert(eq_ignore_ascii_case_bytes(b, b));
    assert(crate::dns::query_answers(host, port, addrs, kind, version, host, 1) == rs);
    assert(qp.subrange(12, pos + 4) =~= e + qt) by {
        lemma_holds_part(qp, 0, qp, 12, pos + 4);
        assert(qp.subrange(12, pos + 4) =~= (h + (e + qt)).subrange(12, pos + 4));
    }
}

/// What the resolver reads out of that answer.
#[verifier::spinoff_prover]
#[verifier::rlimit(50)]
proof fn lemma_addrs_in_a_answer(host: Seq<char>, addrs: Seq<[u8; 4]>)
    requires
        labels_fit(host),
        addrs.len() < 65536,
    ensures
        response_addrs(
            response_packet(0, 0x8400, Some(encoded_name(host) + a_question_tail()), a_records(host, addrs)),
            encode_utf8(host),
        ) == v4_views(addrs),
{
    let e = encoded_name(host);
    let qt = a_question_tail();
    let rs = a_records(host, addrs);
    let n = addrs.len() as int;
    let resp = response_packet(0, 0x8400, Some(e + qt), rs);
    let pos = 12 + e.len() as int;
    lemma_u16_bytes(n);
    let hl = u16_bytes(n);
    assert(n % 65536 == n);
    assert(u16_bytes(0) =~= seq![0u8, 0u8]);
    assert(u16_bytes(1) =~= seq![0u8, 1u8]);
    assert(u16_bytes(0x8400) =~= seq![132u8, 0u8]);
    let h2 = seq![0u8, 0u8, 132u8, 0u8, 0u8, 1u8, hl[0], hl[1], 0u8, 0u8, 0u8, 0u8];
    assert(header_bytes(0, 0x8400, 1, n, 0, 0) =~= h2);
    assert(rs.len() == n);
    let ab = answers_bytes(rs);
    assert(resp =~= h2 + (e + (qt + ab)));
    lemma_holds_whole(resp);
    lemma_holds_split(resp, 0, h2, e + (qt + ab));
    lemma_holds_split(resp, 12, e, qt + ab);
    lemma_holds_split(resp, pos, qt, ab);
    law_encoded_name_reads_back(resp, 12, host);
    assert(resp[4] == 0 && resp[5] == 1 && resp[6] == hl[0] && resp[7] == hl[1]) by {
        assert(h2[4] == 0 && h2[5] == 1 && h2[6] == hl[0] && h2[7] == hl[1]);
    }
    assert(be16(resp, 6) == n);
    assert(skip_questions(resp, pos + 4, 0) == Some(pos + 4));
    assert(skip_questions(resp, 12, 1) == Some(pos + 4));
    lemma_addrs_from_a_records(resp, pos + 4, host, addrs);
}

/// Resolving an advertised host finds its addresses: the responder answers
/// an A query for its own host name, built as the resolver builds it, with
/// one A record per advertised IPv4 address, sent back to the asker, and
/// the resolver reads exactly those addresses, in order, out of that answer.
/// A device with no address to advertise does not answer. This holds for
/// every host name whose labels are each 1 to 191 bytes long and every
/// address list short enough for a packet to count.
pub proof fn law_resolve_finds_advertised(
    host: Seq<char>,
    port: int,
    addrs: Seq<[u8; 4]>,
    kind: Seq<char>,
    version: Seq<char>,
)
    requires
        labels_fit(host),
        addrs.len() < 65536,
    ensures
        addrs.len() == 0 ==> query_reply(query_packet(encode_utf8(host), 1), host, port, addrs, kind, version)
            is None,
        addrs.len() > 0 ==> (query_reply(query_packet(encode_utf8(host), 1), host, port, addrs, kind, version)
            matches Some((resp, to)) && to == ReplyTo::Source && response_addrs(
            resp,
            encode_utf8(host),
        ) == v4_views(addrs)),
{
    lemma_reply_to_own_a_query(host, port, addrs, kind, version);
    lemma_addrs_in_a_answer(host, addrs);
}


// ---------------------------------------------------------------------------
// Discovering an advertised device
// ---------------------------------------------------------------------------

/// Each character takes one to four bytes in UTF-8.
proof fn lemma_encode_len(a: Seq<char>)
    ensures
        a.len() <= encode_utf8(a).len() <= 4 * a.len(),
    decreases a.len(),
{
    if a.len() > 0 {
        lemma_encode_len(a.drop_first());
    }
}

/// The shared service type `_tumbleweed._tcp.local` is made of wire labels.
#[verifier::spinoff_prover]
#[verifier::rlimit(50)]
proof fn lemma_service_type_labels()
    ensures
        labels_fit(service_type_spec()),
{
    reveal_strlit("_tumbleweed._tcp.local");
    reveal_strlit("_tumbleweed");
    reveal_strlit("_tcp");
    reveal_strlit("local");
    let a = "_tumbleweed"@;
    let b = "_tcp"@;
    let c = "local"@;
    let d = seq!['.'];
    let e = Seq::<char>::empty();
    let sep = Sep::One('.');
    assert(service_type_spec() =~= a + d + b + d + c);
    assert(split_pieces(e, sep) == seq![e]);
    lemma_split_append_plain(e, a, '.');
    assert(e + a =~= a);
    assert(split_pieces(a, sep) =~= seq![a]);
    assert((a + d).drop_last() =~= a);
    assert(split_pieces(a + d, sep) =~= seq![a, e]);
    lemma_split_append_plain(a + d, b, '.');
    assert(split_pieces(a + d + b, sep) =~= seq![a, b]);
    assert((a + d + b + d).drop_last() =~= a + d + b);
    assert(split_pieces(a + d + b + d, sep) =~= seq![a, b, e]);
    lemma_split_append_plain(a + d + b + d, c, '.');
    assert(split_pieces(a + d + b + d + c, sep) =~= seq![a, b, c]);
    lemma_encode_len(a);
    lemma_encode_len(b);
    lemma_encode_len(c);
    let ls = dns_labels(service_type_spec());
    assert(ls =~= seq![encode_utf8(a), encode_utf8(b), encode_utf8(c)]);
}

/// A list of A records gives the discoverer no instance and its addresses.
proof fn lemma_discovery_a_records(p: Seq<u8>, pos: int, host: Seq<char>, addrs: Seq<[u8; 4]>)
    requires
        labels_fit(host),
        holds_at(p, pos, answers_bytes(a_records(host, addrs))),
    ensures
        discovery_from(p, pos, addrs.len()) == (Seq::<Seq<char>>::empty(), v4_views(addrs)),
    decreases addrs.len(),
{
    if addrs.len() > 0 {
        let rs = a_records(host, addrs);
        lemma_answers_bytes_front(rs);
        let ip = addrs[0]@;
        assert(rs[0] == a_record(host, ip));
        assert(rs.drop_first() =~= a_records(host, addrs.drop_first()));
        let r0 = answer_bytes(rs[0]);
        let rest = answers_bytes(rs.drop_first());
        lemma_holds_split(p, pos, r0, rest);
        lemma_record_at(p, pos, a_record(host, ip));
        assert(a_record(host, ip).rdata == ip);
        lemma_discovery_a_records(p, pos + r0.len(), host, addrs.drop_first());
        assert(v4_views(addrs) =~= seq![IpView::V4(ip)] + v4_views(addrs.drop_first()));
        assert(Seq::<Seq<char>>::empty() + Seq::<Seq<char>>::empty() =~= Seq::<Seq<char>>::empty());
    }
}

/// The records that advertise a device, in wire order.
proof fn lemma_announcement_records(
    host: Seq<char>,
    port: int,
    addrs: Seq<[u8; 4]>,
    kind: Seq<char>,
    version: Seq<char>,
)
    ensures
        service_answers_spec(host, port, addrs, kind, version).len() == addrs.len() + 3,
        answers_bytes(service_answers_spec(host, port, addrs, kind, version)) == answer_bytes(
            service_answers_spec(host, port, addrs, kind, version)[0],
        ) + (answer_bytes(srv_txt_records(host, port, kind, version)[0]) + (answer_bytes(
            srv_txt_records(host, port, kind, version)[1],
        ) + answers_bytes(a_records(host, addrs)))),
{
    let all = service_answers_spec(host, port, addrs, kind, version);
    let st = srv_txt_records(host, port, kind, version);
    let rs = a_records(host, addrs);
    lemma_answers_bytes_front(all);
    let t1 = all.drop_first();
    assert(t1 =~= st + rs);
    lemma_answers_bytes_front(t1);
    let t2 = t1.drop_first();
    assert(t2 =~= seq![st[1]] + rs);
    lemma_answers_bytes_front(t2);
    assert(t2.drop_first() =~= rs);
}

/// A record that is neither PTR nor A adds nothing to what the discoverer
/// reads.
proof fn lemma_discovery_skips(p: Seq<u8>, pos: int, a: AnswerView, n: nat)
    requires
        labels_fit(a.name),
        0 <= a.rtype < 65536,
        a.rtype != 1,
        a.rtype != 12,
        0 <= a.class < 65536,
        a.rdata.len() < 65536,
        holds_at(p, pos, answer_bytes(a)),
    ensures
        discovery_from(p, pos, n + 1) == discovery_from(p, pos + answer_bytes(a).len(), n),
{
    lemma_record_at(p, pos, a);
    let rest = discovery_from(p, pos + answer_bytes(a).len(), n);
    assert(Seq::<Seq<char>>::empty() + rest.0 =~= rest.0);
    assert(Seq::<IpView>::empty() + rest.1 =~= rest.1);
}

/// A PTR record adds the instance it points to.
proof fn lemma_discovery_ptr(p: Seq<u8>, pos: int, a: AnswerView, inst: Seq<char>, n: nat)
    requires
        labels_fit(a.name),
        labels_fit(inst),
        a.rtype == 12,
        0 <= a.class < 65536,
        a.rdata == encoded_name(inst),
        a.rdata.len() < 65536,
        holds_at(p, pos, answer_bytes(a)),
    ensures
        discovery_from(p, pos, n + 1) == (
            seq![inst] + discovery_from(p, pos + answer_bytes(a).len(), n).0,
            discovery_from(p, pos + answer_bytes(a).len(), n).1,
        ),
{
    lemma_record_at(p, pos, a);
    law_encoded_name_reads_back(p, pos + encoded_name(a.name).len() + 10, inst);
    let rest = discovery_from(p, pos + answer_bytes(a).len(), n);
    assert(Seq::<IpView>::empty() + rest.1 =~= rest.1);
}

/// The bytes of the announcement's PTR, SRV and TXT records.
spec fn ptr_bytes(host: Seq<char>, port: int, addrs: Seq<[u8; 4]>, kind: Seq<char>, version: Seq<char>) -> Seq<u8> {
    answer_bytes(service_answers_spec(host, port, addrs, kind, version)[0])
}

spec fn srv_bytes(host: Seq<char>, port: int, kind: Seq<char>, version: Seq<char>) -> Seq<u8> {
    answer_bytes(srv_txt_records(host, port, kind, version)[0])
}

spec fn txt_bytes(host: Seq<char>, port: int, kind: Seq<char>, version: Seq<char>) -> Seq<u8> {
    answer_bytes(srv_txt_records(host, port, kind, version)[1])
}

/// The announcement: a header with no question and the record count, then
/// the PTR, SRV, TXT and A records one after the other.
#[verifier::spinoff_prover]
#[verifier::rlimit(50)]
proof fn lemma_announcement_layout(
    host: Seq<char>,
    port: int,
    addrs: Seq<[u8; 4]>,
    kind: Seq<char>,
    version: Seq<char>,
)
    requires
        addrs.len() + 3 < 65536,
    ensures
        ({
            let p = announcement_spec(host, port, addrs, kind, version);
            let p1 = 12 + ptr_bytes(host, port, addrs, kind, version).len() as int;
            let p2 = p1 + srv_bytes(host, port, kind, version).len() as int;
            let p3 = p2 + txt_bytes(host, port, kind, version).len() as int;
            &&& p.len() >= 12
            &&& be16(p, 4) == 0
            &&& be16(p, 6) == addrs.len() + 3
            &&& holds_at(p, 12, ptr_bytes(host, port, addrs, kind, version))
            &&& holds_at(p, p1, srv_bytes(host, port, kind, version))
            &&& holds_at(p, p2, txt_bytes(host, port, kind, version))
            &&& holds_at(p, p3, answers_bytes(a_records(host, addrs)))
        }),
{
    let m = addrs.len() + 3;
    lemma_announcement_records(host, port, addrs, kind, version);
    let b0 = ptr_bytes(host, port, addrs, kind, version);
    let b1 = srv_bytes(host, port, kind, version);
    let b2 = txt_bytes(host, port, kind, version);
    let ab = answers_bytes(a_records(host, addrs));
    lemma_u16_bytes(m as int);
    let hm = u16_bytes(m as int);
    assert((m as int) % 65536 == m);
    assert(u16_bytes(0) =~= seq![0u8, 0u8]);
    assert(u16_bytes(0x8400) =~= seq![132u8, 0u8]);
    let h = seq![0u8, 0u8, 132u8, 0u8, 0u8, 0u8, hm[0], hm[1], 0u8, 0u8, 0u8, 0u8];
    assert(header_bytes(0, 0x8400, 0, m as int, 0, 0) =~= h);
    let p = announcement_spec(host, port, addrs, kind, version);
    assert(p =~= h + (b0 + (b1 + (b2 + ab))));
    lemma_holds_whole(p);
    lemma_holds_split(p, 0, h, b0 + (b1 + (b2 + ab)));
    lemma_holds_split(p, 12, b0, b1 + (b2 + ab));
    let p1 = 12 + b0.len() as int;
    lemma_holds_split(p, p1, b1, b2 + ab);
    let p2 = p1 + b1.len() as int;
    lemma_holds_split(p, p2, b2, ab);
    assert(p[4] == 0 && p[5] == 0 && p[6] == hm[0] && p[7] == hm[1]) by {
        assert(h[4] == 0 && h[5] == 0 && h[6] == hm[0] && h[7] == hm[1]);
    }
}

/// Discovering an advertised device finds it: reading the announcement a
/// device sends gives exactly one service instance, the device's, and the
/// device's IPv4 addresses, in order. This holds for every host name whose
/// labels, and those of its instance name, are each 1 to 191 bytes long,
/// whose records' data fit a 16-bit length, and every address list short
/// enough for a packet to count with the three service records.
#[verifier::spinoff_prover]
#[verifier::rlimit(50)]
pub proof fn law_discovery_finds_advertised(
    host: Seq<char>,
    port: int,
    addrs: Seq<[u8; 4]>,
    kind: Seq<char>,
    version: Seq<char>,
)
    requires
        labels_fit(host),
        labels_fit(service_instance_spec(host)),
        0 <= port < 65536,
        encoded_name(host).len() + 6 < 65536,
        encoded_name(service_instance_spec(host)).len() < 65536,
        txt_rdata(kind, version).len() < 65536,
        addrs.len() + 3 < 65536,
    ensures
        discovery_spec(announcement_spec(host, port, addrs, kind, version)) == (
            seq![service_instance_spec(host)],
            v4_views(addrs),
        ),
{
    let inst = service_instance_spec(host);
    let all = service_answers_spec(host, port, addrs, kind, version);
    let st = srv_txt_records(host, port, kind, version);
    let p = announcement_spec(host, port, addrs, kind, version);
    let n = addrs.len();
    lemma_announcement_layout(host, port, addrs, kind, version);
    lemma_service_type_labels();
    let p1 = 12 + ptr_bytes(host, port, addrs, kind, version).len() as int;
    let p2 = p1 + srv_bytes(host, port, kind, version).len() as int;
    let p3 = p2 + txt_bytes(host, port, kind, version).len() as int;
    assert(skip_questions(p, 12, 0) == Some(12int));
    assert(all[0].name == service_type_spec() && all[0].rtype == 12 && all[0].class == 1);
    assert(all[0].rdata == encoded_name(inst));
    assert(srv_rdata(host, port).len() == 6 + encoded_name(host).len());
    lemma_discovery_a_records(p, p3, host, addrs);
    lemma_discovery_skips(p, p2, st[1], n);
    lemma_discovery_skips(p, p1, st[0], (n + 1) as nat);
    lemma_discovery_ptr(p, 12, all[0], inst, (n + 2) as nat);
    assert(seq![inst] + Seq::<Seq<char>>::empty() =~= seq![inst]);
}


// ---------------------------------------------------------------------------
// Reading and skipping a name agree
// ---------------------------------------------------------------------------

/// Once a compression pointer has fixed the bytes consumed, the walk keeps
/// them.
proof fn lemma_walk_keeps_consumed(
    p: Seq<u8>,
    pos: int,
    visited: Set<int>,
    labels: Seq<Seq<u8>>,
    c: int,
    start: int,
)
    requires
        walk_ok(p, visited),
    ensures
        name_walk(p, pos, visited, labels, Some(c), start) matches Some((_, c2)) ==> c2 == c,
    decreases p.len() - visited.len(),
{
    if 0 <= pos < p.len() && !visited.contains(pos) {
        lemma_walk_step(p, visited, pos);
        let l = p[pos];
        if l >= 0xC0 {
            if pos + 1 < p.len() {
                let ptr = (l - 0xC0) * 256 + p[pos + 1];
                lemma_walk_keeps_consumed(p, ptr, visited.insert(pos), labels, c, start);
            }
        } else if l != 0 && pos + 1 + l <= p.len() {
            lemma_walk_keeps_consumed(
                p,
                pos + 1 + l,
                visited.insert(pos),
                labels.push(p.subrange(pos + 1, pos + 1 + l)),
                c,
                start,
            );
        }
    }
}

/// A walk that has not met a pointer yet ends where skipping ends.
proof fn lemma_walk_skip(p: Seq<u8>, pos: int, visited: Set<int>, labels: Seq<Seq<u8>>, start: int)
    requires
        walk_ok(p, visited),
        0 <= start <= pos,
    ensures
        name_walk(p, pos, visited, labels, None, start) matches Some((_, c)) ==> skip_from(
            p,
            pos,
            start,
        ) == Some(c) && 1 <= c && start + c <= p.len(),
    decreases p.len() - visited.len(),
{
    if 0 <= pos < p.len() && !visited.contains(pos) {
        lemma_walk_step(p, visited, pos);
        let l = p[pos];
        if l >= 0xC0 {
            if pos + 1 < p.len() {
                let ptr = (l - 0xC0) * 256 + p[pos + 1];
                lemma_walk_keeps_consumed(p, ptr, visited.insert(pos), labels, pos + 2 - start, start);
            }
        } else if l != 0 && pos + 1 + l <= p.len() {
            lemma_walk_skip(
                p,
                pos + 1 + l,
                visited.insert(pos),
                labels.push(p.subrange(pos + 1, pos + 1 + l)),
                start,
            );
        }
    }
}

/// Reading a name and skipping it agree on where it ends: a name that reads
/// takes at least one byte, within the packet, and skipping it consumes the
/// same bytes.
pub proof fn law_read_and_skip_agree(p: Seq<u8>, start: int)
    requires
        0 <= start,
    ensures
        read_name_spec(p, start) matches Some((_, c)) ==> skip_from(p, start, start) == Some(c)
            && 1 <= c && start + c <= p.len(),
{
    lemma_walk_skip(p, start, Set::empty(), Seq::empty(), start);
}


// ---------------------------------------------------------------------------
// Parsing reads back what building writes
// ---------------------------------------------------------------------------

/// A record the wire form can carry: its owner made of wire labels, and
/// type, class and data length fitting 16 bits.
pub open spec fn answer_fits(a: AnswerView) -> bool {
    &&& labels_fit(a.name)
    &&& 0 <= a.rtype < 65536
    &&& 0 <= a.class < 65536
    &&& a.rdata.len() < 65536
}

/// The address one record gives for the name `want`: its data as an IPv4 or
/// IPv6 address when it is an A or AAAA record of class IN (cache-flush bit
/// aside) owned by `want` (ignoring ASCII case).
pub open spec fn answer_addr(a: AnswerView, want: Seq<u8>) -> Seq<IpView> {
    if a.class % 32768 != 1 || !eq_ignore_ascii_case_bytes(encode_utf8(a.name), want) {
        Seq::empty()
    } else if a.rtype == 1 && a.rdata.len() == 4 {
        seq![IpView::V4(a.rdata)]
    } else if a.rtype == 28 && a.rdata.len() == 16 {
        seq![IpView::V6(a.rdata)]
    } else {
        Seq::empty()
    }
}

/// The addresses a list of records gives for `want`, in order.
pub open spec fn answers_addrs(s: Seq<AnswerView>, want: Seq<u8>) -> Seq<IpView>
    decreases s.len(),
{
    if s.len() == 0 {
        Seq::empty()
    } else {
        answer_addr(s[0], want) + answers_addrs(s.drop_first(), want)
    }
}

/// Records on the wire read back as their addresses for `want`.
proof fn lemma_addrs_from_answers(p: Seq<u8>, pos: int, s: Seq<AnswerView>, want: Seq<u8>)
    requires
        forall|k: int| 0 <= k < s.len() ==> answer_fits(#[trigger] s[k]),
        holds_at(p, pos, answers_bytes(s)),
    ensures
        addrs_from(p, pos, s.len(), want) == answers_addrs(s, want),
    decreases s.len(),
{
    if s.len() > 0 {
        lemma_answers_bytes_front(s);
        let r0 = answer_bytes(s[0]);
        let rest = answers_bytes(s.drop_first());
        lemma_holds_split(p, pos, r0, rest);
        assert(answer_fits(s[0]));
        lemma_record_at(p, pos, s[0]);
        let rd = pos + encoded_name(s[0].name).len() + 10;
        assert(p.subrange(rd, rd + s[0].rdata.len()) == s[0].rdata);
        assert forall|k: int| 0 <= k < s.drop_first().len() implies answer_fits(#[trigger] s.drop_first()[k]) by {
            assert(s.drop_first()[k] == s[k + 1]);
        }
        lemma_addrs_from_answers(p, pos + r0.len(), s.drop_first(), want);
    }
}

/// Parsing a response reads back what building it wrote: with no question
/// echoed, the addresses found for `want` are those of the A and AAAA
/// records of class IN owned by `want`, in order; other records give
/// nothing. For records whose owners are made of 1 to 191-byte labels,
/// whose type, class and data length fit 16 bits, and lists short enough
/// for a packet to count.
#[verifier::spinoff_prover]
#[verifier::rlimit(50)]
pub proof fn law_parse_reads_built_response(id: int, flags: int, answers: Seq<AnswerView>, want: Seq<u8>)
    requires
        forall|k: int| 0 <= k < answers.len() ==> answer_fits(#[trigger] answers[k]),
        answers.len() < 65536,
    ensures
        response_addrs(response_packet(id, flags, None, answers), want) == answers_addrs(
            answers,
            want,
        ),
{
    let n = answers.len() as int;
    let p = response_packet(id, flags, None, answers);
    lemma_u16_bytes(n);
    assert(n % 65536 == n);
    let hn = u16_bytes(n);
    let h = header_bytes(id, flags, 0, n, 0, 0);
    assert(u16_bytes(0) =~= seq![0u8, 0u8]);
    let ab = answers_bytes(answers);
    assert(p =~= h + ab);
    assert(h.len() == 12);
    assert(h[4] == 0 && h[5] == 0 && h[6] == hn[0] && h[7] == hn[1]);
    assert(p[4] == h[4] && p[5] == h[5] && p[6] == h[6] && p[7] == h[7]);
    lemma_holds_whole(p);
    lemma_holds_split(p, 0, h, ab);
    assert(skip_questions(p, 12, 0) == Some(12int));
    lemma_addrs_from_answers(p, 12, answers, want);
}

/// The name walk over a wire form reached through a pointer collects its
/// labels and keeps the bytes counted where the pointer stood.
proof fn lemma_walk_wire_after_pointer(
    p: Seq<u8>,
    pos: int,
    visited: Set<int>,
    acc: Seq<Seq<u8>>,
    c: int,
    start: int,
    ls: Seq<Seq<u8>>,
)
    requires
        walk_ok(p, visited),
        forall|v: int|
            #[trigger] visited.contains(v) ==> v < pos || v >= pos + wire(ls).len() || p[v] >= 0xC0,
        wire_labels_ok(ls),
        holds_at(p, pos, wire(ls)),
    ensures
        name_walk(p, pos, visited, acc, Some(c), start) == Some((acc + ls, c)),
    decreases ls.len(),
{
    if ls.len() == 0 {
        assert(p[pos] == p.subrange(pos, pos + 1)[0]);
        assert(acc + ls =~= acc);
        assert(!visited.contains(pos));
    } else {
        lemma_wire_step(p, pos, ls);
        assert(!visited.contains(pos));
        lemma_walk_step(p, visited, pos);
        let l = ls[0].len();
        let next = pos + 1 + l;
        let rest = ls.drop_first();
        assert forall|v: int| #[trigger] visited.insert(pos).contains(v) implies v < next || v >= next
            + wire(rest).len() || p[v] >= 0xC0 by {
            if v != pos {
                assert(visited.contains(v));
            }
        }
        lemma_walk_wire_after_pointer(p, next, visited.insert(pos), acc.push(ls[0]), c, start, ls.drop_first());
        assert(acc.push(ls[0]) + ls.drop_first() =~= acc + ls);
    }
}

/// A compression pointer names the 14-bit offset its two bytes hold: where
/// a packet holds an encoded name at offset `o` (any `o` below 16384), the
/// bytes `0xC0 | o >> 8` and `o & 0xFF` at `pos` read back as that name,
/// taking the 2 bytes of the pointer.
pub proof fn law_pointer_reads_target(p: Seq<u8>, pos: int, o: int, name: Seq<char>)
    requires
        labels_fit(name),
        0 <= o < 16384,
        holds_at(p, o, encoded_name(name)),
        0 <= pos,
        pos + 2 <= p.len(),
        p[pos] == 0xC0 + o / 256,
        p[pos + 1] == o % 256,
    ensures
        read_name_spec(p, pos) == Some((name, 2int)),
{
    lemma_name_encoding(name);
    let ls = dns_labels(name);
    assert(wire_labels_ok(ls));
    let visited = Set::<int>::empty().insert(pos);
    lemma_walk_step(p, Set::<int>::empty(), pos);
    assert((p[pos] - 0xC0) * 256 + p[pos + 1] == o);
    assert forall|v: int| #[trigger] visited.contains(v) implies v < o || v >= o + wire(ls).len() || p[v]
        >= 0xC0 by {}
    lemma_walk_wire_after_pointer(p, o, visited, Seq::empty(), 2, pos, ls);
    assert(Seq::<Seq<u8>>::empty() + ls =~= ls);
    assert(name_walk(p, pos, Set::empty(), Seq::empty(), None, pos) == Some((ls, 2int)));
}

/// Joining two runs of labels with dots puts a dot between their joins.
proof fn lemma_join_dot_concat(a: Seq<Seq<char>>, b: Seq<Seq<char>>)
    requires
        a.len() >= 1,
        b.len() >= 1,
    ensures
        join_dot(a + b) == join_dot(a) + seq!['.'] + join_dot(b),
    decreases b.len(),
{
    let ab = a + b;
    if b.len() == 1 {
        assert(ab.drop_last() =~= a);
        assert(ab.last() == b[0]);
    } else {
        lemma_join_dot_concat(a, b.drop_last());
        assert(ab.drop_last() =~= a + b.drop_last());
        assert(ab.last() == b.last());
        assert(join_dot(ab) =~= join_dot(a) + seq!['.'] + join_dot(b));
    }
}

/// The name walk over labels without their root byte goes past them,
/// collecting them, and visits only positions between `start` and where
/// they end.
proof fn lemma_walk_run(
    p: Seq<u8>,
    pos: int,
    visited: Set<int>,
    acc: Seq<Seq<u8>>,
    start: int,
    front: Seq<Seq<u8>>,
) -> (vs: Set<int>)
    requires
        walk_ok(p, visited),
        0 <= start <= pos,
        forall|v: int| #[trigger] visited.contains(v) ==> start <= v < pos,
        wire_labels_ok(front),
        holds_at(p, pos, wire(front).drop_last()),
    ensures
        walk_ok(p, vs),
        forall|v: int| #[trigger] vs.contains(v) ==> start <= v < pos + wire(front).len() - 1,
        name_walk(p, pos, visited, acc, None, start) == name_walk(
            p,
            pos + wire(front).len() - 1,
            vs,
            acc + front,
            None,
            start,
        ),
    decreases front.len(),
{
    if front.len() == 0 {
        assert(acc + front =~= acc);
        visited
    } else {
        let l = front[0].len() as int;
        let rest = front.drop_first();
        let head = seq![(l % 256) as u8] + front[0];
        assert(wire(front).drop_last() =~= head + wire(rest).drop_last());
        lemma_holds_split(p, pos, head, wire(rest).drop_last());
        assert(p[pos] == head[0]) by {
            assert(p.subrange(pos, pos + head.len())[0] == head[0]);
        }
        assert(p.subrange(pos + 1, pos + 1 + l) =~= front[0]) by {
            assert forall|k: int| 0 <= k < l implies p.subrange(pos + 1, pos + 1 + l)[k] == front[0][k] by {
                assert(p.subrange(pos, pos + head.len())[1 + k] == head[1 + k]);
            }
        }
        assert(wire_labels_ok(rest)) by {
            assert forall|k: int| 0 <= k < rest.len() implies 0 < #[trigger] rest[k].len() < 192 by {
                assert(rest[k] == front[k + 1]);
            }
        }
        assert(0 < l < 192);
        assert(!visited.contains(pos));
        lemma_walk_step(p, visited, pos);
        let next = pos + 1 + l;
        assert(name_walk(p, pos, visited, acc, None, start) == name_walk(
            p,
            next,
            visited.insert(pos),
            acc.push(front[0]),
            None,
            start,
        ));
        let vs = lemma_walk_run(p, next, visited.insert(pos), acc.push(front[0]), start, rest);
        assert(acc.push(front[0]) + rest =~= acc + front);
        vs
    }
}

/// A name written as labels followed by a compression pointer reads as
/// those labels, a dot, and the name the pointer leads to, and takes the
/// labels' bytes and the pointer's 2 where it stands. For a target name
/// (at any offset below 16384) lying outside the labels and the pointer.
pub proof fn law_labels_then_pointer(p: Seq<u8>, pos: int, prefix: Seq<char>, o: int, name: Seq<char>)
    requires
        labels_fit(prefix),
        labels_fit(name),
        0 <= o < 16384,
        0 <= pos,
        holds_at(p, o, encoded_name(name)),
        holds_at(p, pos, encoded_name(prefix).drop_last()),
        pos + encoded_name(prefix).len() + 1 <= p.len(),
        p[pos + encoded_name(prefix).len() - 1] == 0xC0 + o / 256,
        p[pos + encoded_name(prefix).len()] == o % 256,
        pos + encoded_name(prefix).len() + 1 <= o || o + encoded_name(name).len() <= pos,
    ensures
        read_name_spec(p, pos) == Some((prefix + seq!['.'] + name, encoded_name(prefix).len() as int + 1)),
{
    lemma_name_encoding(prefix);
    lemma_name_encoding(name);
    let front = dns_labels(prefix);
    let ls = dns_labels(name);
    assert(wire_labels_ok(front));
    assert(wire_labels_ok(ls));
    let vs = lemma_walk_run(p, pos, Set::empty(), Seq::empty(), pos, front);
    assert(Seq::<Seq<u8>>::empty() + front =~= front);
    let q = pos + wire(front).len() - 1;
    assert(!vs.contains(q));
    lemma_walk_step(p, vs, q);
    assert((p[q] - 0xC0) * 256 + p[q + 1] == o);
    assert(name_walk(p, q, vs, front, None, pos) == name_walk(p, o, vs.insert(q), front, Some(q + 2 - pos), pos));
    assert forall|v: int| #[trigger] vs.insert(q).contains(v) implies v < o || v >= o + wire(ls).len() || p[v]
        >= 0xC0 by {
        if v != q {
            assert(vs.contains(v));
        }
    }
    lemma_walk_wire_after_pointer(p, o, vs.insert(q), front, q + 2 - pos, pos, ls);
    lemma_split_nonempty(prefix, Sep::One('.'));
    lemma_split_nonempty(name, Sep::One('.'));
    let fa = front.map_values(|l: Seq<u8>| lossy_text(l));
    let fb = ls.map_values(|l: Seq<u8>| lossy_text(l));
    assert((front + ls).map_values(|l: Seq<u8>| lossy_text(l)) =~= fa + fb);
    lemma_join_dot_concat(fa, fb);
}

} // verus!
