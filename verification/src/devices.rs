//! The Devices page's rules: which discovered devices are already paired,
//! and the texts and glyphs of a device card.

use vstd::prelude::*;
use crate::text::{chars_of, push_str, vec_eq_str};
use crate::transfer::str_equal;

verus! {

/// The glyph (Segoe Fluent Icons) for a device type: a phone for `phone`,
/// a desktop PC for anything else.
pub fn kind_icon(kind: &str) -> (r: &'static str)
    ensures
        r@ == (if kind@ == "phone"@ {
            "\u{E8EA}"@
        } else {
            "\u{E977}"@
        }),
{
    let k = chars_of(kind);
    if vec_eq_str(&k, "phone") {
        "\u{E8EA}"
    } else {
        "\u{E977}"
    }
}

/// The version a card shows: `unknown` while the peer has not reported one.
pub fn shown_version(version: &str) -> (r: String)
    ensures
        r@ == (if version@.len() == 0 {
            "unknown"@
        } else {
            version@
        }),
{
    if chars_of(version).len() == 0 {
        String::from_str("unknown")
    } else {
        String::from_str(version)
    }
}

/// The card's version tag: `v<version>`.
pub fn version_tag(version: &str) -> (r: String)
    ensures
        r@ == "v"@ + version@,
{
    let mut s = String::from_str("v");
    push_str(&mut s, version);
    s
}

/// The reachability indicator of a paired device.
pub fn online_label(online: bool) -> (r: &'static str)
    ensures
        r@ == (if online {
            "\u{25CF} Online"@
        } else {
            "\u{25CF} Offline"@
        }),
{
    if online {
        "\u{25CF} Online"
    } else {
        "\u{25CF} Offline"
    }
}

/// The texts joined by `, `.
pub open spec fn join_comma(ts: Seq<Seq<char>>) -> Seq<char>
    decreases ts.len(),
{
    if ts.len() == 0 {
        Seq::empty()
    } else if ts.len() == 1 {
        ts[0]
    } else {
        join_comma(ts.drop_last()) + ", "@ + ts.last()
    }
}

/// A card's address line: the addresses joined by `, `.
pub fn ips_caption(ips: &Vec<String>) -> (r: String)
    ensures
        r@ == join_comma(ips@.map_values(|s: String| s@)),
{
    let ghost v = ips@.map_values(|s: String| s@);
    let mut s = String::new();
    for i in 0..ips.len()
        invariant
            v == ips@.map_values(|s: String| s@),
            s@ == join_comma(v.take(i as int)),
    {
        assert(v.take(i + 1).drop_last() == v.take(i as int));
        assert(v[i as int] == ips@[i as int]@);
        if i > 0 {
            push_str(&mut s, ", ");
        }
        push_str(&mut s, ips[i].as_str());
        assert(s@ =~= join_comma(v.take(i + 1)));
    }
    assert(v.take(ips.len() as int) == v);
    s
}

/// Whether `t` is one of `ts`.
pub open spec fn listed(ts: Seq<Seq<char>>, t: Seq<char>) -> bool {
    exists|i: int| 0 <= i < ts.len() && #[trigger] ts[i] == t
}

/// The positions of the devices whose address is (`want`) or is not
/// (`!want`) among the paired addresses, in order.
pub open spec fn positions(ips: Seq<Seq<char>>, paired: Seq<Seq<char>>, want: bool) -> Seq<int>
    decreases ips.len(),
{
    if ips.len() == 0 {
        Seq::empty()
    } else {
        let w = positions(ips.drop_last(), paired, want);
        if listed(paired, ips.last()) == want {
            w.push(ips.len() - 1)
        } else {
            w
        }
    }
}

fn is_listed(paired: &Vec<String>, ip: &str) -> (r: bool)
    ensures
        r == listed(paired@.map_values(|s: String| s@), ip@),
{
    let ghost pv = paired@.map_values(|s: String| s@);
    for i in 0..paired.len()
        invariant
            pv == paired@.map_values(|s: String| s@),
            forall|k: int| 0 <= k < i ==> pv[k] != ip@,
    {
        if str_equal(paired[i].as_str(), ip) {
            assert(pv[i as int] == ip@);
            return true;
        }
    }
    false
}

/// Splits the discovered devices (given by their address texts) into those
/// already paired and the new ones, as positions in discovery order.
pub fn partition_paired(ips: &Vec<String>, paired: &Vec<String>) -> (r: (Vec<usize>, Vec<usize>))
    ensures
        r.0@.map_values(|i: usize| i as int) == positions(
            ips@.map_values(|s: String| s@),
            paired@.map_values(|s: String| s@),
            true,
        ),
        r.1@.map_values(|i: usize| i as int) == positions(
            ips@.map_values(|s: String| s@),
            paired@.map_values(|s: String| s@),
            false,
        ),
{
    let ghost iv = ips@.map_values(|s: String| s@);
    let ghost pv = paired@.map_values(|s: String| s@);
    let mut yes: Vec<usize> = Vec::new();
    let mut no: Vec<usize> = Vec::new();
    for i in 0..ips.len()
        invariant
            iv == ips@.map_values(|s: String| s@),
            pv == paired@.map_values(|s: String| s@),
            yes@.map_values(|i: usize| i as int) == positions(iv.take(i as int), pv, true),
            no@.map_values(|i: usize| i as int) == positions(iv.take(i as int), pv, false),
    {
        assert(iv.take(i + 1).drop_last() == iv.take(i as int));
        assert(iv.take(i + 1).last() == ips@[i as int]@);
        let ghost y0 = yes@.map_values(|i: usize| i as int);
        let ghost n0 = no@.map_values(|i: usize| i as int);
        if is_listed(paired, ips[i].as_str()) {
            yes.push(i);
            assert(yes@.map_values(|i: usize| i as int) =~= y0.push(i as int));
        } else {
            no.push(i);
            assert(no@.map_values(|i: usize| i as int) =~= n0.push(i as int));
        }
    }
    assert(iv.take(ips.len() as int) == iv);
    (yes, no)
}

proof fn lemma_positions(ips: Seq<Seq<char>>, paired: Seq<Seq<char>>, want: bool)
    ensures
        forall|k: int| 0 <= k < positions(ips, paired, want).len() ==> 0 <= #[trigger] positions(ips, paired, want)[k] < ips.len(),
        forall|j: int|
            0 <= j < ips.len() ==> (positions(ips, paired, want).contains(j) <==> listed(
                paired,
                #[trigger] ips[j],
            ) == want),
    decreases ips.len(),
{
    if ips.len() > 0 {
        let i0 = ips.drop_last();
        lemma_positions(i0, paired, want);
        let w = positions(i0, paired, want);
        let r = positions(ips, paired, want);
        assert forall|j: int| 0 <= j < ips.len() implies (r.contains(j) <==> listed(paired, #[trigger] ips[j]) == want) by {
            if j < i0.len() {
                assert(i0[j] == ips[j]);
                if w.contains(j) {
                    let k = choose|k: int| 0 <= k < w.len() && w[k] == j;
                    assert(r[k] == j);
                }
                if r.contains(j) {
                    let k = choose|k: int| 0 <= k < r.len() && r[k] == j;
                    if k < w.len() {
                        assert(w[k] == j);
                    }
                }
            } else {
                if listed(paired, ips[j]) == want {
                    assert(r[r.len() - 1] == j);
                } else if r.contains(j) {
                    let k = choose|k: int| 0 <= k < r.len() && r[k] == j;
                    assert(w[k] == j);
                }
            }
        }
    }
}

/// The Devices page lists every discovered device exactly once: under
/// "Paired devices" when its address is a paired one, under "New devices"
/// otherwise.
pub proof fn law_devices_partitioned(ips: Seq<Seq<char>>, paired: Seq<Seq<char>>)
    ensures
        forall|j: int|
            0 <= j < ips.len() ==> (positions(ips, paired, true).contains(j) <==> listed(paired, #[trigger] ips[j])),
        forall|j: int|
            0 <= j < ips.len() ==> (positions(ips, paired, false).contains(j) <==> !listed(paired, #[trigger] ips[j])),
{
    lemma_positions(ips, paired, true);
    lemma_positions(ips, paired, false);
}

} // verus!
