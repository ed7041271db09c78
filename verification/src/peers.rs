//! Device naming, local address selection and the registry of peers seen on
//! the LAN.

use vstd::prelude::*;
use crate::dns::{discovery_spec, ip_eq, parse_discovery_response, IpAddress, IpView};
use crate::text::{
    ascii_lower, chars_of, decimal, is_ascii_alnum, push_char, push_str, slice_vec,
    starts_with_vec, string_of, strip_prefix_opt, strip_suffixes, strip_suffixes_vec,
    to_ascii_lower, trim_end_spec, trim_spec, trim_vec, u64_decimal, Trim,
};

verus! {

// ---------------------------------------------------------------------------
// Host names
// ---------------------------------------------------------------------------

/// A character of a DNS label: ASCII letters and digits lower-cased, any
/// other character replaced by `-`.
pub open spec fn label_char(c: char) -> char {
    if is_ascii_alnum(c) {
        ascii_lower(c)
    } else {
        '-'
    }
}

/// The valid single DNS label made of `s`: mapped characters with the outer
/// dashes trimmed; when that is longer than 63 characters, its first 63 with
/// the dashes they end in trimmed again; `None` when nothing is left.
pub open spec fn sanitize_label_spec(s: Seq<char>) -> Option<Seq<char>> {
    let t = trim_spec(s.map_values(|c: char| label_char(c)), Trim::Char('-'));
    let u = if t.len() > 63 {
        trim_end_spec(t.subrange(0, 63), Trim::Char('-'))
    } else {
        t
    };
    if u.len() == 0 {
        None
    } else {
        Some(u)
    }
}

/// A valid single DNS label: 1 to 63 characters from `a`-`z`, `0`-`9` and
/// `-`, neither starting nor ending with `-`.
pub open spec fn dns_label_ok(l: Seq<char>) -> bool {
    &&& 1 <= l.len() <= 63
    &&& forall|i: int| 0 <= i < l.len() ==> ('a' <= #[trigger] l[i] <= 'z' || '0' <= l[i] <= '9'
        || l[i] == '-')
    &&& l[0] != '-'
    &&& l.last() != '-'
}

/// Trimming the end of a text whose first character is kept keeps it.
proof fn lemma_trim_end_keeps_first(c: Seq<char>, t: Trim)
    requires
        c.len() > 0,
        !crate::text::trimmed(t, c[0]),
    ensures
        trim_end_spec(c, t).len() >= 1,
    decreases c.len(),
{
    if crate::text::trimmed(t, c.last()) {
        assert(c.len() > 1);
        assert(c.drop_last()[0] == c[0]);
        lemma_trim_end_keeps_first(c.drop_last(), t);
    }
}

/// A text whose start-trimming of dashes leaves nothing is all dashes.
proof fn lemma_trim_start_all(m: Seq<char>, i: int)
    requires
        0 <= i < m.len(),
        crate::text::trim_start_spec(m, Trim::Char('-')).len() == 0,
    ensures
        m[i] == '-',
    decreases m.len(),
{
    if m[0] == '-' {
        if i > 0 {
            assert(m.drop_first()[i - 1] == m[i]);
            lemma_trim_start_all(m.drop_first(), i - 1);
        }
    }
}

/// What `sanitize_label` gives is a valid DNS label, and nothing is given
/// exactly when the text holds no ASCII letter or digit.
pub proof fn lemma_sanitized_label_ok(s: Seq<char>)
    ensures
        sanitize_label_spec(s) matches Some(l) ==> dns_label_ok(l),
        sanitize_label_spec(s) is None <==> forall|i: int| 0 <= i < s.len() ==> !is_ascii_alnum(
            #[trigger] s[i],
        ),
{
    let m = s.map_values(|c: char| label_char(c));
    let dash = Trim::Char('-');
    let a = crate::text::trim_start_spec(m, dash);
    crate::text::lemma_trim_start_suffix(m, dash);
    crate::text::lemma_trim_end_prefix(a, dash);
    crate::text::lemma_trim_facts(m, dash);
    let t = trim_spec(m, dash);
    let off = m.len() - a.len();
    assert forall|k: int| 0 <= k < t.len() implies ('a' <= #[trigger] t[k] <= 'z' || '0' <= t[k]
        <= '9' || t[k] == '-') by {
        assert(t[k] == a[k]);
        assert(a[k] == m[off + k]);
    }
    if t.len() == 0 {
        if a.len() > 0 {
            lemma_trim_end_keeps_first(a, dash);
        }
        assert forall|i: int| 0 <= i < s.len() implies !is_ascii_alnum(#[trigger] s[i]) by {
            lemma_trim_start_all(m, i);
            assert(m[i] == label_char(s[i]));
        }
    } else {
        assert(t[0] == a[0]);
        assert(a[0] == m[off]);
        assert(is_ascii_alnum(s[off]));
        if t.len() > 63 {
            let c = t.subrange(0, 63);
            let u = trim_end_spec(c, dash);
            crate::text::lemma_trim_end_prefix(c, dash);
            assert(c[0] == t[0]);
            lemma_trim_end_keeps_first(c, dash);
            assert(u[0] == c[0]);
            assert forall|k: int| 0 <= k < u.len() implies ('a' <= #[trigger] u[k] <= 'z' || '0'
                <= u[k] <= '9' || u[k] == '-') by {
                assert(u[k] == c[k]);
                assert(c[k] == t[k]);
            }
        }
    }
}

/// Sanitizes a hostname-ish string into a valid single DNS label.
pub fn sanitize_label(s: &str) -> (r: Option<String>)
    ensures
        match r {
            Some(l) => sanitize_label_spec(s@) == Some(l@) && dns_label_ok(l@),
            None => sanitize_label_spec(s@) is None,
        },
        r is None <==> forall|i: int| 0 <= i < s@.len() ==> !is_ascii_alnum(#[trigger] s@[i]),
{
    proof {
        lemma_sanitized_label_ok(s@);
    }
    let v = chars_of(s);
    let mut mapped: Vec<char> = Vec::new();
    for i in 0..v.len()
        invariant
            mapped@ == v@.take(i as int).map_values(|c: char| label_char(c)),
    {
        let c = v[i];
        let m = if ('0' <= c && c <= '9') || ('a' <= c && c <= 'z') || ('A' <= c && c <= 'Z') {
            to_ascii_lower(c)
        } else {
            '-'
        };
        mapped.push(m);
        assert(v@.take(i + 1).map_values(|c: char| label_char(c)) =~= v@.take(i as int).map_values(
            |c: char| label_char(c),
        ).push(label_char(c)));
    }
    assert(v@.take(v.len() as int) == v@);
    let t = trim_vec(&mapped, Trim::Char('-'), true, true);
    let u = if t.len() > 63 {
        trim_vec(&slice_vec(&t, 0, 63), Trim::Char('-'), false, true)
    } else {
        t
    };
    if u.len() == 0 {
        None
    } else {
        Some(string_of(&u))
    }
}

/// The label of a computer name, or `host` when none is left.
pub open spec fn host_label(computer_name: Seq<char>) -> Seq<char> {
    match sanitize_label_spec(computer_name) {
        Some(l) => l,
        None => "host"@,
    }
}

/// This machine's plain host name from its computer name (`COMPUTERNAME`),
/// e.g. `desktop-abc123`.
pub fn device_host_name(computer_name: &str) -> (s: String)
    ensures
        s@ == host_label(computer_name@),
{
    match sanitize_label(computer_name) {
        Some(l) => l,
        None => "host".to_owned(),
    }
}

/// A unique, per-machine `.local` hostname derived from the computer name,
/// e.g. `tumbleweed-desktop-abc123.local`.
pub fn device_hostname(computer_name: &str) -> (s: String)
    ensures
        s@ == "tumbleweed-"@ + host_label(computer_name@) + ".local"@,
{
    let label = device_host_name(computer_name);
    let mut s = "tumbleweed-".to_owned();
    push_str(&mut s, label.as_str());
    push_str(&mut s, ".local");
    s
}

/// The display form of an advertised instance name.
pub open spec fn display_name_spec(instance: Seq<char>) -> Seq<char> {
    let t = trim_end_spec(
        strip_suffixes(
            strip_suffixes(strip_suffixes(instance, "._tumbleweed._tcp.local"@), "._tcp.local"@),
            ".local"@,
        ),
        Trim::Char('.'),
    );
    match strip_prefix_opt(t, "tumbleweed-"@) {
        Some(rest) => rest,
        None => t,
    }
}

/// Strips the `tumbleweed-` prefix and the `._tumbleweed._tcp.local` /
/// `._tcp.local` / `.local` suffix for a clean display name
/// (e.g. `tumbleweed-oneplus-8t._tumbleweed._tcp.local` -> `oneplus-8t`).
pub fn display_name(instance: &str) -> (s: String)
    ensures
        s@ == display_name_spec(instance@),
{
    let v = chars_of(instance);
    let a = strip_suffixes_vec(&v, &chars_of("._tumbleweed._tcp.local"));
    let b = strip_suffixes_vec(&a, &chars_of("._tcp.local"));
    let c = strip_suffixes_vec(&b, &chars_of(".local"));
    let t = trim_vec(&c, Trim::Char('.'), false, true);
    let pre = chars_of("tumbleweed-");
    if starts_with_vec(&t, &pre) {
        string_of(&slice_vec(&t, pre.len(), t.len()))
    } else {
        string_of(&t)
    }
}

// ---------------------------------------------------------------------------
// Local addresses
// ---------------------------------------------------------------------------

/// An address usable for advertising: neither 0.0.0.0 nor loopback (127/8).
pub open spec fn usable_ipv4(ip: Seq<u8>) -> bool {
    !(ip[0] == 0 && ip[1] == 0 && ip[2] == 0 && ip[3] == 0) && ip[0] != 127
}

/// The usable addresses among the route probes, in order, without repeats.
pub open spec fn usable_ipv4s(cands: Seq<Option<[u8; 4]>>) -> Seq<[u8; 4]>
    decreases cands.len(),
{
    if cands.len() == 0 {
        Seq::empty()
    } else {
        let acc = usable_ipv4s(cands.drop_last());
        match cands.last() {
            Some(ip) => if usable_ipv4(ip@) && !acc.contains(ip) {
                acc.push(ip)
            } else {
                acc
            },
            None => acc,
        }
    }
}

/// This machine's usable IPv4 addresses from the outcomes of the route
/// probes (the local address each probe socket was given, if any).
pub fn local_ipv4_addrs(candidates: &[Option<[u8; 4]>]) -> (addrs: Vec<[u8; 4]>)
    ensures
        addrs@ == usable_ipv4s(candidates@),
{
    let mut addrs: Vec<[u8; 4]> = Vec::new();
    for i in 0..candidates.len()
        invariant
            addrs@ == usable_ipv4s(candidates@.take(i as int)),
    {
        assert(candidates@.take(i + 1).drop_last() == candidates@.take(i as int));
        if let Some(v4) = candidates[i] {
            let usable = !(v4[0] == 0 && v4[1] == 0 && v4[2] == 0 && v4[3] == 0) && v4[0] != 127;
            if usable && !contains_ipv4(&addrs, v4) {
                addrs.push(v4);
            }
        }
    }
    assert(candidates@.take(candidates.len() as int) == candidates@);
    addrs
}

fn contains_ipv4(v: &Vec<[u8; 4]>, ip: [u8; 4]) -> (r: bool)
    ensures
        r == v@.contains(ip),
{
    for i in 0..v.len()
        invariant
            forall|j: int| 0 <= j < i ==> v@[j] != ip,
    {
        let x = v[i];
        if x[0] == ip[0] && x[1] == ip[1] && x[2] == ip[2] && x[3] == ip[3] {
            assert(x@ =~= ip@);
            assert(v@[i as int] == ip);
            return true;
        }
        assert(x@[0] != ip@[0] || x@[1] != ip@[1] || x@[2] != ip@[2] || x@[3] != ip@[3]);
    }
    false
}

/// The machine's primary LAN IPv4 (first usable address).
pub fn lan_ipv4(candidates: &[Option<[u8; 4]>]) -> (r: Option<[u8; 4]>)
    ensures
        r == (if usable_ipv4s(candidates@).len() > 0 {
            Some(usable_ipv4s(candidates@)[0])
        } else {
            None
        }),
{
    let addrs = local_ipv4_addrs(candidates);
    if addrs.len() > 0 {
        Some(addrs[0])
    } else {
        None
    }
}

/// Dotted-decimal text of an IPv4 address (`Ipv4Addr`'s display form).
pub open spec fn ipv4_text(ip: Seq<u8>) -> Seq<char> {
    decimal(ip[0] as nat) + seq!['.'] + decimal(ip[1] as nat) + seq!['.'] + decimal(ip[2] as nat)
        + seq!['.'] + decimal(ip[3] as nat)
}

/// Formats an IPv4 address as `a.b.c.d`.
pub fn ipv4_to_string(ip: [u8; 4]) -> (s: String)
    ensures
        s@ == ipv4_text(ip@),
{
    let mut s = u64_decimal(ip[0] as u64);
    push_char(&mut s, '.');
    push_str(&mut s, u64_decimal(ip[1] as u64).as_str());
    push_char(&mut s, '.');
    push_str(&mut s, u64_decimal(ip[2] as u64).as_str());
    push_char(&mut s, '.');
    push_str(&mut s, u64_decimal(ip[3] as u64).as_str());
    s
}

/// This machine's non-loopback IPv4 addresses as display strings, for the
/// "This device" entry, from the outcomes of the route probes.
pub fn local_ip_addrs(candidates: &[Option<[u8; 4]>]) -> (v: Vec<String>)
    ensures
        v@.len() == usable_ipv4s(candidates@).len(),
        forall|i: int|
            0 <= i < v@.len() ==> #[trigger] v@[i]@ == ipv4_text(usable_ipv4s(candidates@)[i]@),
{
    let addrs = local_ipv4_addrs(candidates);
    let mut out: Vec<String> = Vec::new();
    for i in 0..addrs.len()
        invariant
            addrs@ == usable_ipv4s(candidates@),
            out@.len() == i,
            forall|j: int| 0 <= j < i ==> #[trigger] out@[j]@ == ipv4_text(addrs@[j]@),
    {
        out.push(ipv4_to_string(addrs[i]));
    }
    out
}

// ---------------------------------------------------------------------------
// Peer registry
// ---------------------------------------------------------------------------

/// A device discovered on the LAN via mDNS.
#[derive(Clone, Debug, PartialEq)]
pub struct DiscoveredDevice {
    pub name: String,
    pub ip: IpAddress,
    /// Device type reported over HTTP (`/info`): "pc", "phone" or "" while
    /// unknown/pending.
    pub kind: String,
    /// App version reported over HTTP (`/info`), "" while unknown/pending.
    pub version: String,
}

/// A discovered device as plain values.
pub struct DeviceView {
    pub name: Seq<char>,
    pub ip: IpView,
    pub kind: Seq<char>,
    pub version: Seq<char>,
}

impl View for DiscoveredDevice {
    type V = DeviceView;

    open spec fn view(&self) -> DeviceView {
        DeviceView { name: self.name@, ip: self.ip@, kind: self.kind@, version: self.version@ }
    }
}

/// Copies a device record.
pub fn clone_device(d: &DiscoveredDevice) -> (r: DiscoveredDevice)
    ensures
        r@ == d@,
{
    DiscoveredDevice {
        name: d.name.clone(),
        ip: d.ip,
        kind: d.kind.clone(),
        version: d.version.clone(),
    }
}

/// How long, in milliseconds, a peer stays listed without a new packet.
pub const PEER_TTL_MS: u64 = 15000;

/// Whether an entry last seen at `seen` is still alive at `now` (a clock
/// reading before `seen` counts as no time elapsed).
pub open spec fn fresh(seen: int, now: int) -> bool {
    seen > now || now - seen < PEER_TTL_MS
}

/// Registry entries as plain values: device and last-seen time.
pub type PeerEntries = Seq<(DeviceView, int)>;

/// No two entries share an address.
pub open spec fn unique_ips(v: PeerEntries) -> bool {
    forall|i: int, j: int| 0 <= i < v.len() && 0 <= j < v.len() && i != j ==> v[i].0.ip != v[j].0.ip
}

/// Index of the first entry with address `ip`.
pub open spec fn find_ip(v: PeerEntries, ip: IpView) -> Option<int>
    decreases v.len(),
{
    if v.len() == 0 {
        None
    } else {
        match find_ip(v.drop_last(), ip) {
            Some(i) => Some(i),
            None => if v.last().0.ip == ip {
                Some(v.len() - 1)
            } else {
                None
            },
        }
    }
}

/// Refreshes the entry for `ip` (new name, seen now) or adds a new one
/// whose kind and version are still unknown.
pub open spec fn upsert(v: PeerEntries, ip: IpView, name: Seq<char>, now: int) -> PeerEntries {
    match find_ip(v, ip) {
        Some(i) => v.update(i, (DeviceView { name: name, ..v[i].0 }, now)),
        None => v.push((DeviceView { name: name, ip: ip, kind: Seq::empty(), version: Seq::empty() }, now)),
    }
}

/// The display name for the `i`-th advertised address: the `i`-th PTR
/// instance, else the first one, else `tumbleweed`.
pub open spec fn peer_name(instances: Seq<Seq<char>>, i: int) -> Seq<char> {
    display_name_spec(
        if i < instances.len() {
            instances[i]
        } else if instances.len() > 0 {
            instances[0]
        } else {
            "tumbleweed"@
        },
    )
}

/// Whether `ip` is one of this machine's own IPv4 addresses.
pub open spec fn is_own(ip: IpView, own: Seq<[u8; 4]>) -> bool {
    match ip {
        IpView::V4(o) => exists|k: int| 0 <= k < own.len() && #[trigger] own[k]@ == o,
        IpView::V6(_) => false,
    }
}

/// The registry after the first `k` advertised addresses are recorded.
pub open spec fn apply_ips(
    v: PeerEntries,
    instances: Seq<Seq<char>>,
    ips: Seq<IpView>,
    own: Seq<[u8; 4]>,
    now: int,
    k: nat,
) -> PeerEntries
    decreases k,
{
    if k == 0 {
        v
    } else {
        let w = apply_ips(v, instances, ips, own, now, (k - 1) as nat);
        let ip = ips[k - 1];
        if is_own(ip, own) {
            w
        } else {
            upsert(w, ip, peer_name(instances, k - 1), now)
        }
    }
}

/// The entries still alive at `now`, in order.
pub open spec fn prune(v: PeerEntries, now: int) -> PeerEntries
    decreases v.len(),
{
    if v.len() == 0 {
        Seq::empty()
    } else {
        let w = prune(v.drop_last(), now);
        if fresh(v.last().1, now) {
            w.push(v.last())
        } else {
            w
        }
    }
}

/// The registry after a received packet: when it advertises addresses, each
/// one that is not this machine's own is refreshed or added, then stale
/// entries are dropped; otherwise the registry is unchanged.
pub open spec fn record_spec(v: PeerEntries, pkt: Seq<u8>, own: Seq<[u8; 4]>, now: int) -> PeerEntries {
    let (instances, ips) = discovery_spec(pkt);
    if ips.len() == 0 {
        v
    } else {
        prune(apply_ips(v, instances, ips, own, now, ips.len()), now)
    }
}

/// Peers discovered on the LAN, keyed by address, with last-seen times.
pub struct PeerRegistry {
    entries: Vec<(DiscoveredDevice, u64)>,
}

/// Views of registry entries.
pub open spec fn entry_views(v: Seq<(DiscoveredDevice, u64)>) -> PeerEntries {
    v.map_values(|e: (DiscoveredDevice, u64)| (e.0@, e.1 as int))
}

impl View for PeerRegistry {
    type V = PeerEntries;

    closed spec fn view(&self) -> PeerEntries {
        entry_views(self.entries@)
    }
}

impl PeerRegistry {
    /// The registry's invariant: addresses are unique.
    pub closed spec fn wf(&self) -> bool {
        unique_ips(self@)
    }

    /// An empty registry.
    pub fn new() -> (r: Self)
        ensures
            r.wf(),
            r@ == Seq::<(DeviceView, int)>::empty(),
    {
        let r = PeerRegistry { entries: Vec::new() };
        assert(r@ =~= Seq::<(DeviceView, int)>::empty());
        r
    }

    /// The devices currently listed, in registry order.
    pub fn snapshot(&self) -> (v: Vec<DiscoveredDevice>)
        ensures
            v@.len() == self@.len(),
            forall|i: int| 0 <= i < v@.len() ==> #[trigger] v@[i]@ == self@[i].0,
    {
        let mut v: Vec<DiscoveredDevice> = Vec::new();
        for i in 0..self.entries.len()
            invariant
                v@.len() == i,
                self@ == entry_views(self.entries@),
                forall|j: int| 0 <= j < i ==> #[trigger] v@[j]@ == self@[j].0,
        {
            v.push(clone_device(&self.entries[i].0));
        }
        v
    }

    /// Index of the entry with address `ip`, if any.
    fn find(&self, ip: &IpAddress) -> (r: Option<usize>)
        ensures
            match r {
                Some(i) => find_ip(self@, ip@) == Some(i as int),
                None => find_ip(self@, ip@) is None,
            },
    {
        let ghost views = self@;
        for i in 0..self.entries.len()
            invariant
                views == self@,
                views == entry_views(self.entries@),
                find_ip(views.take(i as int), ip@) is None,
        {
            assert(views.take(i + 1).drop_last() == views.take(i as int));
            if ip_eq(&self.entries[i].0.ip, ip) {
                proof {
                    lemma_find_ip_prefix(views, ip@, i + 1);
                }
                return Some(i);
            }
        }
        assert(views.take(self.entries.len() as int) == views);
        None
    }

    /// Refreshes or adds the entry for `ip`.
    fn upsert_entry(&mut self, ip: &IpAddress, name: String, now: u64)
        requires
            old(self).wf(),
        ensures
            final(self).wf(),
            final(self)@ == upsert(old(self)@, ip@, name@, now as int),
    {
        proof {
            lemma_upsert_unique(self@, ip@, name@, now as int);
        }
        match self.find(ip) {
            Some(i) => {
                proof {
                    lemma_find_ip_found(self@, ip@);
                }
                let old_dev = &self.entries[i].0;
                let dev = DiscoveredDevice {
                    name: name,
                    ip: old_dev.ip,
                    kind: old_dev.kind.clone(),
                    version: old_dev.version.clone(),
                };
                self.entries.set(i, (dev, now));
                assert(self@ =~= upsert(old(self)@, ip@, name@, now as int));
            },
            None => {
                let dev = DiscoveredDevice {
                    name: name,
                    ip: *ip,
                    kind: String::new(),
                    version: String::new(),
                };
                self.entries.push((dev, now));
                assert(self@ =~= upsert(old(self)@, ip@, name@, now as int));
            },
        }
    }

    /// Drops the entries that are no longer alive at `now`.
    fn prune_stale(&mut self, now: u64)
        requires
            old(self).wf(),
        ensures
            final(self).wf(),
            final(self)@ == prune(old(self)@, now as int),
    {
        proof {
            lemma_prune_unique(self@, now as int);
        }
        let ghost views = self@;
        let mut kept: Vec<(DiscoveredDevice, u64)> = Vec::new();
        let mut old_entries: Vec<(DiscoveredDevice, u64)> = Vec::new();
        std::mem::swap(&mut old_entries, &mut self.entries);
        assert(entry_views(old_entries@) == views);
        for e in it: old_entries
            invariant
                it.seq() == old_entries@,
                views == entry_views(old_entries@),
                entry_views(kept@) == prune(views.take(it.index() as int), now as int),
        {
            let ghost k = it.index();
            assert(views.take(k + 1).drop_last() == views.take(k as int));
            assert(views.take(k + 1).last() == (e.0@, e.1 as int));
            if !(e.1 <= now && now - e.1 >= PEER_TTL_MS) {
                kept.push(e);
                assert(entry_views(kept@) =~= prune(views.take(k as int), now as int).push(
                    (e.0@, e.1 as int),
                ));
            }
        }
        assert(views.take(views.len() as int) == views);
        self.entries = kept;
    }

    /// Records the peers advertised in `pkt` (PTR instances + A records),
    /// skipping this machine's own addresses `own`, then drops entries that
    /// have gone stale at `now` (milliseconds of a monotonic clock).
    pub fn record_peer_packet(&mut self, pkt: &[u8], own: &[[u8; 4]], now: u64)
        requires
            old(self).wf(),
            pkt@.len() <= isize::MAX,
        ensures
            final(self).wf(),
            final(self)@ == record_spec(old(self)@, pkt@, own@, now as int),
    {
        let (instances, ips) = parse_discovery_response(pkt);
        if ips.len() == 0 {
            return;
        }
        let ghost inst_v = discovery_spec(pkt@).0;
        let ghost ips_v = discovery_spec(pkt@).1;
        let ghost start = self@;
        for i in 0..ips.len()
            invariant
                self.wf(),
                crate::dns::ip_views(ips@) == ips_v,
                crate::dns::string_views(instances@) == inst_v,
                self@ == apply_ips(start, inst_v, ips_v, own@, now as int, i as nat),
        {
            let ip = ips[i];
            let own_ip = match ip {
                IpAddress::V4(v4) => contains_in(own, v4),
                IpAddress::V6(_) => false,
            };
            assert(ips_v[i as int] == ip@);
            if !own_ip {
                let raw = if i < instances.len() {
                    instances[i].clone()
                } else if instances.len() > 0 {
                    instances[0].clone()
                } else {
                    "tumbleweed".to_owned()
                };
                let name = display_name(raw.as_str());
                self.upsert_entry(&ip, name, now);
            }
        }
        self.prune_stale(now);
    }

    /// Stores the kind and version learned over HTTP for the entry with
    /// address `ip`; other entries and all names are unchanged.
    pub fn set_info(&mut self, ip: &IpAddress, kind: &str, version: &str)
        requires
            old(self).wf(),
        ensures
            final(self).wf(),
            final(self)@ == (match find_ip(old(self)@, ip@) {
                Some(i) => old(self)@.update(
                    i,
                    (DeviceView { kind: kind@, version: version@, ..old(self)@[i].0 }, old(self)@[i].1),
                ),
                None => old(self)@,
            }),
    {
        match self.find(ip) {
            Some(i) => {
                proof {
                    lemma_find_ip_found(self@, ip@);
                    lemma_set_info_unique(self@, i as int, kind@, version@);
                }
                let (dev, seen) = (&self.entries[i].0, self.entries[i].1);
                let updated = DiscoveredDevice {
                    name: dev.name.clone(),
                    ip: dev.ip,
                    kind: kind.to_owned(),
                    version: version.to_owned(),
                };
                self.entries.set(i, (updated, seen));
                assert(self@ =~= old(self)@.update(
                    i as int,
                    (DeviceView { kind: kind@, version: version@, ..old(self)@[i as int].0 }, old(self)@[i as int].1),
                ));
            },
            None => {},
        }
    }
}

fn contains_in(own: &[[u8; 4]], ip: [u8; 4]) -> (r: bool)
    ensures
        r == (exists|k: int| 0 <= k < own@.len() && #[trigger] own@[k]@ == ip@),
{
    for i in 0..own.len()
        invariant
            forall|j: int| 0 <= j < i ==> own@[j]@ != ip@,
    {
        let x = own[i];
        if x[0] == ip[0] && x[1] == ip[1] && x[2] == ip[2] && x[3] == ip[3] {
            assert(x@ =~= ip@);
            assert(own@[i as int]@ == ip@);
            return true;
        }
        assert(x@[0] != ip@[0] || x@[1] != ip@[1] || x@[2] != ip@[2] || x@[3] != ip@[3]);
    }
    false
}

/// `find_ip` on a prefix whose last entry matches and whose shorter prefix
/// has no match.
pub proof fn lemma_find_ip_prefix(v: PeerEntries, ip: IpView, n: int)
    requires
        0 < n <= v.len(),
        find_ip(v.take(n - 1), ip) is None,
        v[n - 1].0.ip == ip,
    ensures
        find_ip(v, ip) == Some(n - 1),
    decreases v.len() - n,
{
    assert(v.take(n).drop_last() == v.take(n - 1));
    assert(find_ip(v.take(n), ip) == Some(n - 1));
    if n < v.len() {
        assert(v.take(n + 1).drop_last() == v.take(n));
        lemma_find_ip_prefix_grow(v, ip, n);
    } else {
        assert(v.take(n) == v);
    }
}

/// Once a prefix has a match, longer prefixes report the same index.
pub proof fn lemma_find_ip_prefix_grow(v: PeerEntries, ip: IpView, n: int)
    requires
        0 < n <= v.len(),
        find_ip(v.take(n), ip) is Some,
    ensures
        find_ip(v, ip) == find_ip(v.take(n), ip),
    decreases v.len() - n,
{
    if n < v.len() {
        assert(v.take(n + 1).drop_last() == v.take(n));
        lemma_find_ip_prefix_grow(v, ip, n + 1);
    } else {
        assert(v.take(n) == v);
    }
}

/// What `find_ip` reports: an in-range index whose entry has the address,
/// or no entry with the address at all.
pub proof fn lemma_find_ip_found(v: PeerEntries, ip: IpView)
    ensures
        match find_ip(v, ip) {
            Some(i) => 0 <= i < v.len() && v[i].0.ip == ip,
            None => forall|j: int| 0 <= j < v.len() ==> v[j].0.ip != ip,
        },
    decreases v.len(),
{
    if v.len() > 0 {
        lemma_find_ip_found(v.drop_last(), ip);
        match find_ip(v.drop_last(), ip) {
            Some(i) => {
                assert(v[i] == v.drop_last()[i]);
            },
            None => {
                assert forall|j: int| 0 <= j < v.len() - 1 implies v[j].0.ip != ip by {
                    assert(v[j] == v.drop_last()[j]);
                }
            },
        }
    }
}

/// Refreshing or adding an entry keeps addresses unique.
pub proof fn lemma_upsert_unique(v: PeerEntries, ip: IpView, name: Seq<char>, now: int)
    requires
        unique_ips(v),
    ensures
        unique_ips(upsert(v, ip, name, now)),
{
    lemma_find_ip_found(v, ip);
    let w = upsert(v, ip, name, now);
    match find_ip(v, ip) {
        Some(i) => {
            assert forall|a: int, b: int|
                0 <= a < w.len() && 0 <= b < w.len() && a != b implies w[a].0.ip != w[b].0.ip by {
                assert(w[a].0.ip == v[a].0.ip);
                assert(w[b].0.ip == v[b].0.ip);
            }
        },
        None => {
            assert forall|a: int, b: int|
                0 <= a < w.len() && 0 <= b < w.len() && a != b implies w[a].0.ip != w[b].0.ip by {
                if a < v.len() && b < v.len() {
                    assert(w[a] == v[a]);
                    assert(w[b] == v[b]);
                }
            }
        },
    }
}

/// Every entry kept by `prune` is an entry of the input, in the same order.
pub proof fn lemma_prune_subseq(v: PeerEntries, now: int)
    ensures
        prune(v, now).len() <= v.len(),
        exists|m: Seq<int>|
            #![trigger m.len()]
            m.len() == prune(v, now).len() && (forall|i: int|
                0 <= i < m.len() ==> 0 <= #[trigger] m[i] < v.len() && prune(v, now)[i] == v[m[i]])
                && (forall|i: int, j: int| 0 <= i < j < m.len() ==> m[i] < m[j]),
    decreases v.len(),
{
    if v.len() == 0 {
        let m: Seq<int> = Seq::empty();
        assert(m.len() == prune(v, now).len());
    } else {
        lemma_prune_subseq(v.drop_last(), now);
        let w = prune(v.drop_last(), now);
        let m0 = choose|m: Seq<int>|
            #![trigger m.len()]
            m.len() == w.len() && (forall|i: int|
                0 <= i < m.len() ==> 0 <= #[trigger] m[i] < v.drop_last().len() && w[i] == v.drop_last()[m[i]])
                && (forall|i: int, j: int| 0 <= i < j < m.len() ==> m[i] < m[j]);
        if fresh(v.last().1, now) {
            let m = m0.push(v.len() - 1);
            assert(m.len() == prune(v, now).len());
            assert forall|i: int| 0 <= i < m.len() implies 0 <= #[trigger] m[i] < v.len()
                && prune(v, now)[i] == v[m[i]] by {
                if i < m0.len() {
                    assert(v.drop_last()[m0[i]] == v[m0[i]]);
                }
            }
        } else {
            assert(m0.len() == prune(v, now).len());
            assert forall|i: int| 0 <= i < m0.len() implies 0 <= #[trigger] m0[i] < v.len()
                && prune(v, now)[i] == v[m0[i]] by {
                assert(v.drop_last()[m0[i]] == v[m0[i]]);
            }
        }
    }
}

/// Changing an entry's kind and version keeps addresses unique.
pub proof fn lemma_set_info_unique(v: PeerEntries, i: int, kind: Seq<char>, version: Seq<char>)
    requires
        unique_ips(v),
        0 <= i < v.len(),
    ensures
        unique_ips(v.update(i, (DeviceView { kind: kind, version: version, ..v[i].0 }, v[i].1))),
{
    let w = v.update(i, (DeviceView { kind: kind, version: version, ..v[i].0 }, v[i].1));
    assert forall|a: int, b: int|
        0 <= a < w.len() && 0 <= b < w.len() && a != b implies w[a].0.ip != w[b].0.ip by {
        assert(w[a].0.ip == v[a].0.ip);
        assert(w[b].0.ip == v[b].0.ip);
    }
}

/// Dropping stale entries keeps addresses unique.
pub proof fn lemma_prune_unique(v: PeerEntries, now: int)
    requires
        unique_ips(v),
    ensures
        unique_ips(prune(v, now)),
{
    lemma_prune_subseq(v, now);
    let w = prune(v, now);
    let m = choose|m: Seq<int>|
        #![trigger m.len()]
        m.len() == w.len() && (forall|i: int|
            0 <= i < m.len() ==> 0 <= #[trigger] m[i] < v.len() && w[i] == v[m[i]])
            && (forall|i: int, j: int| 0 <= i < j < m.len() ==> m[i] < m[j]);
    assert forall|a: int, b: int|
        0 <= a < w.len() && 0 <= b < w.len() && a != b implies w[a].0.ip != w[b].0.ip by {
        if a < b {
            assert(m[a] < m[b]);
        } else {
            assert(m[b] < m[a]);
        }
        assert(w[a] == v[m[a]]);
        assert(w[b] == v[m[b]]);
    }
}

// ---------------------------------------------------------------------------
// Laws of the registry
// ---------------------------------------------------------------------------

/// No entry has one of this machine's own addresses.
pub open spec fn no_own_entries(v: PeerEntries, own: Seq<[u8; 4]>) -> bool {
    forall|i: int| 0 <= i < v.len() ==> !is_own(#[trigger] v[i].0.ip, own)
}

/// Some entry has address `ip` and was seen at `now`.
pub open spec fn listed_at(v: PeerEntries, ip: IpView, now: int) -> bool {
    exists|i: int| 0 <= i < v.len() && #[trigger] v[i].0.ip == ip && v[i].1 == now
}

proof fn lemma_prune_members(v: PeerEntries, now: int)
    ensures
        forall|i: int| 0 <= i < prune(v, now).len() ==> fresh(#[trigger] prune(v, now)[i].1, now),
        forall|i: int|
            0 <= i < prune(v, now).len() ==> exists|j: int|
                0 <= j < v.len() && #[trigger] v[j] == #[trigger] prune(v, now)[i],
        forall|j: int|
            0 <= j < v.len() && fresh(#[trigger] v[j].1, now) ==> exists|i: int|
                0 <= i < prune(v, now).len() && #[trigger] prune(v, now)[i] == v[j],
    decreases v.len(),
{
    if v.len() > 0 {
        let v0 = v.drop_last();
        let w = prune(v0, now);
        lemma_prune_members(v0, now);
        let r = prune(v, now);
        assert forall|i: int| 0 <= i < r.len() implies exists|j: int|
            0 <= j < v.len() && #[trigger] v[j] == #[trigger] r[i] by {
            if i < w.len() {
                assert(r[i] == w[i]);
                let j = choose|j: int| 0 <= j < v0.len() && #[trigger] v0[j] == #[trigger] w[i];
                assert(v[j] == v0[j]);
            } else {
                assert(r[i] == v[v.len() - 1]);
            }
        }
        assert forall|i: int| 0 <= i < r.len() implies fresh(#[trigger] r[i].1, now) by {
            if i < w.len() {
                assert(r[i] == w[i]);
            }
        }
        assert forall|j: int| 0 <= j < v.len() && fresh(#[trigger] v[j].1, now) implies exists|i: int|
            0 <= i < r.len() && #[trigger] r[i] == v[j] by {
            if j < v0.len() {
                assert(v0[j] == v[j]);
                let i = choose|i: int| 0 <= i < w.len() && #[trigger] w[i] == v0[j];
                assert(r[i] == w[i]);
            } else {
                assert(r[r.len() - 1] == v[j]);
            }
        }
    }
}

proof fn lemma_apply_no_own(
    v: PeerEntries,
    instances: Seq<Seq<char>>,
    ips: Seq<IpView>,
    own: Seq<[u8; 4]>,
    now: int,
    k: nat,
)
    requires
        no_own_entries(v, own),
        k <= ips.len(),
    ensures
        no_own_entries(apply_ips(v, instances, ips, own, now, k), own),
    decreases k,
{
    if k > 0 {
        lemma_apply_no_own(v, instances, ips, own, now, (k - 1) as nat);
        let w = apply_ips(v, instances, ips, own, now, (k - 1) as nat);
        let ip = ips[k - 1];
        if !is_own(ip, own) {
            lemma_find_ip_found(w, ip);
            let u = upsert(w, ip, peer_name(instances, k - 1), now);
            assert forall|i: int| 0 <= i < u.len() implies !is_own(#[trigger] u[i].0.ip, own) by {
                match find_ip(w, ip) {
                    Some(f) => {
                        assert(u[i].0.ip == w[i].0.ip);
                    },
                    None => {
                        if i < w.len() {
                            assert(u[i] == w[i]);
                        }
                    },
                }
            }
        }
    }
}

proof fn lemma_apply_lists(
    v: PeerEntries,
    instances: Seq<Seq<char>>,
    ips: Seq<IpView>,
    own: Seq<[u8; 4]>,
    now: int,
    k: nat,
)
    requires
        k <= ips.len(),
    ensures
        forall|m: int|
            0 <= m < k && !is_own(#[trigger] ips[m], own) ==> listed_at(
                apply_ips(v, instances, ips, own, now, k),
                ips[m],
                now,
            ),
    decreases k,
{
    if k > 0 {
        lemma_apply_lists(v, instances, ips, own, now, (k - 1) as nat);
        let w = apply_ips(v, instances, ips, own, now, (k - 1) as nat);
        let ip = ips[k - 1];
        let a = apply_ips(v, instances, ips, own, now, k);
        if !is_own(ip, own) {
            lemma_find_ip_found(w, ip);
            assert forall|m: int| 0 <= m < k && !is_own(#[trigger] ips[m], own) implies listed_at(a, ips[m], now) by {
                match find_ip(w, ip) {
                    Some(f) => {
                        if ips[m] == ip {
                            assert(a[f].0.ip == ips[m] && a[f].1 == now);
                        } else {
                            let j = choose|j: int| 0 <= j < w.len() && #[trigger] w[j].0.ip == ips[m] && w[j].1 == now;
                            assert(j != f);
                            assert(a[j] == w[j]);
                        }
                    },
                    None => {
                        if ips[m] == ip {
                            assert(a[w.len() as int].0.ip == ips[m] && a[w.len() as int].1 == now);
                        } else {
                            let j = choose|j: int| 0 <= j < w.len() && #[trigger] w[j].0.ip == ips[m] && w[j].1 == now;
                            assert(a[j] == w[j]);
                        }
                    },
                }
            }
        }
    }
}

/// Recording a packet never lists one of this machine's own addresses: a
/// registry free of them stays free of them.
pub proof fn law_record_skips_own(v: PeerEntries, pkt: Seq<u8>, own: Seq<[u8; 4]>, now: int)
    requires
        no_own_entries(v, own),
    ensures
        no_own_entries(record_spec(v, pkt, own, now), own),
{
    let (instances, ips) = discovery_spec(pkt);
    if ips.len() > 0 {
        let a = apply_ips(v, instances, ips, own, now, ips.len());
        lemma_apply_no_own(v, instances, ips, own, now, ips.len());
        lemma_prune_members(a, now);
        let r = prune(a, now);
        assert forall|i: int| 0 <= i < r.len() implies !is_own(#[trigger] r[i].0.ip, own) by {
            let j = choose|j: int| 0 <= j < a.len() && #[trigger] a[j] == #[trigger] r[i];
            assert(!is_own(a[j].0.ip, own));
        }
    }
}

/// After a packet that advertises addresses, every listed peer is fresh,
/// and every advertised address that is not this machine's own is listed as
/// seen at that moment.
pub proof fn law_record_lists_advertised(v: PeerEntries, pkt: Seq<u8>, own: Seq<[u8; 4]>, now: int)
    ensures
        discovery_spec(pkt).1.len() > 0 ==> forall|i: int|
            0 <= i < record_spec(v, pkt, own, now).len() ==> fresh(
                #[trigger] record_spec(v, pkt, own, now)[i].1,
                now,
            ),
        forall|m: int|
            0 <= m < discovery_spec(pkt).1.len() && !is_own(#[trigger] discovery_spec(pkt).1[m], own)
                ==> listed_at(record_spec(v, pkt, own, now), discovery_spec(pkt).1[m], now),
{
    let (instances, ips) = discovery_spec(pkt);
    if ips.len() > 0 {
        let a = apply_ips(v, instances, ips, own, now, ips.len());
        lemma_apply_lists(v, instances, ips, own, now, ips.len());
        lemma_prune_members(a, now);
        let r = prune(a, now);
        assert forall|m: int| 0 <= m < ips.len() && !is_own(#[trigger] ips[m], own) implies listed_at(r, ips[m], now) by {
            assert(listed_at(a, ips[m], now));
            let j = choose|j: int| 0 <= j < a.len() && #[trigger] a[j].0.ip == ips[m] && a[j].1 == now;
            assert(fresh(a[j].1, now));
            let i = choose|i: int| 0 <= i < r.len() && #[trigger] r[i] == a[j];
            assert(r[i].0.ip == ips[m] && r[i].1 == now);
        }
    }
}

/// Recording keeps the entries at an own address where they are and adds
/// none: every entry at an own address afterwards was there, at the same
/// place, before.
proof fn lemma_apply_own_kept(
    v: PeerEntries,
    instances: Seq<Seq<char>>,
    ips: Seq<IpView>,
    own: Seq<[u8; 4]>,
    now: int,
    k: nat,
)
    requires
        k <= ips.len(),
    ensures
        apply_ips(v, instances, ips, own, now, k).len() >= v.len(),
        forall|j: int|
            0 <= j < v.len() && is_own(#[trigger] v[j].0.ip, own) ==> apply_ips(
                v,
                instances,
                ips,
                own,
                now,
                k,
            )[j] == v[j],
        forall|i: int|
            0 <= i < apply_ips(v, instances, ips, own, now, k).len() && is_own(
                #[trigger] apply_ips(v, instances, ips, own, now, k)[i].0.ip,
                own,
            ) ==> i < v.len() && apply_ips(v, instances, ips, own, now, k)[i] == v[i],
    decreases k,
{
    if k > 0 {
        lemma_apply_own_kept(v, instances, ips, own, now, (k - 1) as nat);
        let w = apply_ips(v, instances, ips, own, now, (k - 1) as nat);
        let ip = ips[k - 1];
        let a = apply_ips(v, instances, ips, own, now, k);
        if !is_own(ip, own) {
            lemma_find_ip_found(w, ip);
            assert forall|j: int| 0 <= j < v.len() && is_own(#[trigger] v[j].0.ip, own) implies a[j] == v[j] by {
                assert(w[j] == v[j]);
                match find_ip(w, ip) {
                    Some(f) => {
                        assert(f != j);
                    },
                    None => {},
                }
            }
            assert forall|i: int| 0 <= i < a.len() && is_own(#[trigger] a[i].0.ip, own) implies i < v.len() && a[i] == v[i] by {
                match find_ip(w, ip) {
                    Some(f) => {
                        assert(i != f);
                        assert(a[i] == w[i]);
                    },
                    None => {
                        assert(i != w.len());
                        assert(a[i] == w[i]);
                    },
                }
            }
        }
    }
}

/// Recording a packet never adds or refreshes an entry at one of this
/// machine's own addresses: each such entry afterwards was there before,
/// unchanged, and each one that was there stays unless it has gone stale
/// and the packet advertised addresses (then stale entries are pruned).
pub proof fn law_record_leaves_own_entries(v: PeerEntries, pkt: Seq<u8>, own: Seq<[u8; 4]>, now: int)
    ensures
        forall|i: int|
            0 <= i < record_spec(v, pkt, own, now).len() && is_own(
                #[trigger] record_spec(v, pkt, own, now)[i].0.ip,
                own,
            ) ==> exists|j: int| 0 <= j < v.len() && #[trigger] v[j] == record_spec(v, pkt, own, now)[i],
        forall|j: int|
            0 <= j < v.len() && is_own(#[trigger] v[j].0.ip, own) && (discovery_spec(pkt).1.len()
                == 0 || fresh(v[j].1, now)) ==> exists|i: int|
                0 <= i < record_spec(v, pkt, own, now).len() && record_spec(v, pkt, own, now)[i]
                    == v[j],
{
    let (instances, ips) = discovery_spec(pkt);
    let r = record_spec(v, pkt, own, now);
    if ips.len() == 0 {
        assert forall|i: int| 0 <= i < r.len() && is_own(#[trigger] r[i].0.ip, own) implies exists|j: int| 0 <= j < v.len() && #[trigger] v[j] == r[i] by {
            assert(v[i] == r[i]);
        }
        assert forall|j: int| 0 <= j < v.len() && is_own(#[trigger] v[j].0.ip, own) && (ips.len() == 0 || fresh(v[j].1, now)) implies exists|i: int| 0 <= i < r.len() && r[i] == v[j] by {
            assert(r[j] == v[j]);
        }
    } else {
        let a = apply_ips(v, instances, ips, own, now, ips.len());
        lemma_apply_own_kept(v, instances, ips, own, now, ips.len());
        lemma_prune_members(a, now);
        assert forall|i: int| 0 <= i < r.len() && is_own(#[trigger] r[i].0.ip, own) implies exists|j: int| 0 <= j < v.len() && #[trigger] v[j] == r[i] by {
            let j = choose|j: int| 0 <= j < a.len() && #[trigger] a[j] == #[trigger] r[i];
            assert(is_own(a[j].0.ip, own));
            assert(v[j] == a[j]);
        }
        assert forall|j: int| 0 <= j < v.len() && is_own(#[trigger] v[j].0.ip, own) && (ips.len() == 0 || fresh(v[j].1, now)) implies exists|i: int| 0 <= i < r.len() && r[i] == v[j] by {
            assert(a[j] == v[j]);
            assert(fresh(a[j].1, now));
            let i = choose|i: int| 0 <= i < r.len() && #[trigger] r[i] == a[j];
        }
    }
}

/// The last of the first `k` advertised addresses that is `ip`.
pub open spec fn last_mention(ips: Seq<IpView>, ip: IpView, k: nat) -> Option<int>
    decreases k,
{
    if k == 0 {
        None
    } else if ips[k - 1] == ip {
        Some(k - 1)
    } else {
        last_mention(ips, ip, (k - 1) as nat)
    }
}

/// The entry an advertised address gets: its new name and the time, with
/// the kind and version it had, or none for a new peer.
pub open spec fn entry_after(v: PeerEntries, ip: IpView, name: Seq<char>, now: int) -> (DeviceView, int) {
    match find_ip(v, ip) {
        Some(i) => (DeviceView { name: name, ..v[i].0 }, now),
        None => (DeviceView { name: name, ip: ip, kind: Seq::empty(), version: Seq::empty() }, now),
    }
}

/// Recording addresses keeps them unrepeated.
proof fn lemma_apply_unique(
    v: PeerEntries,
    instances: Seq<Seq<char>>,
    ips: Seq<IpView>,
    own: Seq<[u8; 4]>,
    now: int,
    k: nat,
)
    requires
        unique_ips(v),
        k <= ips.len(),
    ensures
        unique_ips(apply_ips(v, instances, ips, own, now, k)),
    decreases k,
{
    if k > 0 {
        lemma_apply_unique(v, instances, ips, own, now, (k - 1) as nat);
        let w = apply_ips(v, instances, ips, own, now, (k - 1) as nat);
        if !is_own(ips[k - 1], own) {
            lemma_upsert_unique(w, ips[k - 1], peer_name(instances, k - 1), now);
        }
    }
}

/// In a registry without repeated addresses, an entry at `ip` is the one
/// `find_ip` finds.
proof fn lemma_find_unique(v: PeerEntries, ip: IpView, i: int)
    requires
        unique_ips(v),
        0 <= i < v.len(),
        v[i].0.ip == ip,
    ensures
        find_ip(v, ip) == Some(i),
{
    lemma_find_ip_found(v, ip);
}

/// How recording the first `k` advertised addresses leaves the entry at a
/// non-own address `ip`.
proof fn lemma_apply_entry(
    v: PeerEntries,
    instances: Seq<Seq<char>>,
    ips: Seq<IpView>,
    own: Seq<[u8; 4]>,
    now: int,
    k: nat,
    ip: IpView,
)
    requires
        unique_ips(v),
        k <= ips.len(),
        !is_own(ip, own),
    ensures
        unique_ips(apply_ips(v, instances, ips, own, now, k)),
        match last_mention(ips, ip, k) {
            Some(m) => find_ip(apply_ips(v, instances, ips, own, now, k), ip) matches Some(i)
                && apply_ips(v, instances, ips, own, now, k)[i] == entry_after(
                v,
                ip,
                peer_name(instances, m),
                now,
            ),
            None => find_ip(apply_ips(v, instances, ips, own, now, k), ip) == find_ip(v, ip) && (
            find_ip(v, ip) matches Some(i) ==> apply_ips(v, instances, ips, own, now, k)[i]
                == v[i]),
        },
    decreases k,
{
    if k > 0 {
        lemma_apply_entry(v, instances, ips, own, now, (k - 1) as nat, ip);
        let w = apply_ips(v, instances, ips, own, now, (k - 1) as nat);
        let a = apply_ips(v, instances, ips, own, now, k);
        let ip2 = ips[k - 1];
        lemma_find_ip_found(w, ip);
        lemma_find_ip_found(v, ip);
        if !is_own(ip2, own) {
            let name = peer_name(instances, k - 1);
            lemma_upsert_unique(w, ip2, name, now);
            lemma_find_ip_found(w, ip2);
            lemma_find_ip_found(a, ip);
            if ip2 == ip {
                match find_ip(w, ip) {
                    Some(f) => {
                        assert(a[f].0.ip == ip);
                        lemma_find_unique(a, ip, f);
                    },
                    None => {
                        assert(a[w.len() as int].0.ip == ip);
                        lemma_find_unique(a, ip, w.len() as int);
                    },
                }
            } else {
                match find_ip(w, ip) {
                    Some(i) => {
                        match find_ip(w, ip2) {
                            Some(f) => {
                                assert(i != f);
                            },
                            None => {},
                        }
                        assert(a[i] == w[i]);
                        lemma_find_unique(a, ip, i);
                    },
                    None => {
                        assert forall|j: int| 0 <= j < a.len() implies a[j].0.ip != ip by {
                            if j < w.len() {
                                assert(a[j].0.ip == w[j].0.ip);
                            }
                        }
                    },
                }
            }
        } else {
            assert(ip2 != ip);
        }
    }
}

/// What recording a packet does to the registry, as a whole: addresses
/// stay unrepeated; a packet without addresses changes nothing; otherwise
/// every advertised address that is not this machine's own has the entry
/// named after its last mention, seen now, with the kind and version it had
/// (none for a new peer), and every entry left is fresh.
pub proof fn law_record_updates_registry(v: PeerEntries, pkt: Seq<u8>, own: Seq<[u8; 4]>, now: int)
    requires
        unique_ips(v),
    ensures
        unique_ips(record_spec(v, pkt, own, now)),
        discovery_spec(pkt).1.len() == 0 ==> record_spec(v, pkt, own, now) == v,
        forall|m: int|
            0 <= m < discovery_spec(pkt).1.len() && !is_own(#[trigger] discovery_spec(pkt).1[m], own)
                && last_mention(discovery_spec(pkt).1, discovery_spec(pkt).1[m], discovery_spec(pkt).1.len())
                == Some(m) ==> exists|i: int|
                0 <= i < record_spec(v, pkt, own, now).len() && record_spec(v, pkt, own, now)[i]
                    == entry_after(v, discovery_spec(pkt).1[m], peer_name(discovery_spec(pkt).0, m), now),
        discovery_spec(pkt).1.len() > 0 ==> forall|i: int|
            0 <= i < record_spec(v, pkt, own, now).len() ==> fresh(
                #[trigger] record_spec(v, pkt, own, now)[i].1,
                now,
            ),
{
    let (instances, ips) = discovery_spec(pkt);
    if ips.len() > 0 {
        let a = apply_ips(v, instances, ips, own, now, ips.len());
        let r = prune(a, now);
        lemma_apply_unique(v, instances, ips, own, now, ips.len());
        lemma_prune_unique(a, now);
        lemma_prune_members(a, now);
        assert forall|m: int|
            0 <= m < ips.len() && !is_own(#[trigger] ips[m], own) && last_mention(ips, ips[m], ips.len())
                == Some(m) implies exists|i: int| 0 <= i < r.len() && r[i] == entry_after(
                v,
                ips[m],
                peer_name(instances, m),
                now,
            ) by {
            lemma_apply_entry(v, instances, ips, own, now, ips.len(), ips[m]);
            lemma_find_ip_found(a, ips[m]);
            let j = find_ip(a, ips[m])->0;
            assert(0 <= j < a.len());
            assert(a[j].1 == now);
            assert(fresh(a[j].1, now));
            let i = choose|i: int| 0 <= i < r.len() && #[trigger] r[i] == a[j];
            assert(r[i] == entry_after(v, ips[m], peer_name(instances, m), now));
        }
        law_record_lists_advertised(v, pkt, own, now);
    }
}

// ---------------------------------------------------------------------------
// The advertiser's timer and the discovery log
// ---------------------------------------------------------------------------

/// The advertiser re-announces (and probes) this often, in milliseconds.
pub const ANNOUNCE_INTERVAL_MS: u64 = 3000;

/// When the advertiser last announced.
pub struct AnnounceTimer {
    last: u64,
}

impl AnnounceTimer {
    /// Just announced at `now`.
    pub fn new(now: u64) -> (t: Self)
        ensures
            t.last_announce() == now,
    {
        AnnounceTimer { last: now }
    }

    /// The time of the last announcement.
    pub closed spec fn last_announce(&self) -> u64 {
        self.last
    }

    /// Whether to announce again at `now`: when at least the interval has
    /// passed since the last announcement (a clock reading before it counts
    /// as no time passed); the timer restarts then.
    pub fn due(&mut self, now: u64) -> (r: bool)
        ensures
            r == (now >= old(self).last_announce() && now - old(self).last_announce()
                >= ANNOUNCE_INTERVAL_MS),
            final(self).last_announce() == (if r {
                now
            } else {
                old(self).last_announce()
            }),
    {
        if now >= self.last && now - self.last >= ANNOUNCE_INTERVAL_MS {
            self.last = now;
            true
        } else {
            false
        }
    }
}

/// Whether a device's type is still to be asked over HTTP (`/info`).
pub fn needs_info(d: &DiscoveredDevice) -> (r: bool)
    ensures
        r == (d.kind@.len() == 0),
{
    chars_of(d.kind.as_str()).len() == 0
}

/// Views of a device list.
pub open spec fn device_views(v: Seq<DiscoveredDevice>) -> Seq<DeviceView> {
    v.map_values(|d: DiscoveredDevice| d@)
}

/// The device list last written to the log, so that a line is logged only
/// when the discovered set changes.
pub struct SnapshotLog {
    last: Option<Vec<DiscoveredDevice>>,
}

fn same_device(a: &DiscoveredDevice, b: &DiscoveredDevice) -> (r: bool)
    ensures
        r == (a@ == b@),
{
    crate::transfer::str_equal(a.name.as_str(), b.name.as_str()) && crate::dns::ip_eq(&a.ip, &b.ip)
        && crate::transfer::str_equal(a.kind.as_str(), b.kind.as_str()) && crate::transfer::str_equal(
        a.version.as_str(),
        b.version.as_str(),
    )
}

fn same_devices(a: &Vec<DiscoveredDevice>, b: &Vec<DiscoveredDevice>) -> (r: bool)
    ensures
        r == (device_views(a@) == device_views(b@)),
{
    if a.len() != b.len() {
        assert(device_views(a@).len() != device_views(b@).len());
        return false;
    }
    for i in 0..a.len()
        invariant
            a@.len() == b@.len(),
            forall|k: int| 0 <= k < i ==> a@[k]@ == b@[k]@,
    {
        if !same_device(&a[i], &b[i]) {
            assert(device_views(a@)[i as int] != device_views(b@)[i as int]);
            return false;
        }
    }
    assert(device_views(a@) =~= device_views(b@));
    true
}

impl SnapshotLog {
    /// Nothing logged yet.
    pub fn new() -> (l: Self)
        ensures
            l.logged() is None,
    {
        SnapshotLog { last: None }
    }

    /// The list last logged.
    pub closed spec fn logged(&self) -> Option<Seq<DeviceView>> {
        match self.last {
            Some(v) => Some(device_views(v@)),
            None => None,
        }
    }

    /// Whether `snapshot` differs from the list last logged; when it does,
    /// it becomes the list last logged.
    pub fn changed(&mut self, snapshot: &Vec<DiscoveredDevice>) -> (r: bool)
        ensures
            r == (old(self).logged() != Some(device_views(snapshot@))),
            final(self).logged() == Some(device_views(snapshot@)),
    {
        let differs = match &self.last {
            Some(v) => !same_devices(v, snapshot),
            None => true,
        };
        if differs {
            let mut copy: Vec<DiscoveredDevice> = Vec::new();
            for i in 0..snapshot.len()
                invariant
                    copy@.len() == i,
                    forall|k: int| 0 <= k < i ==> copy@[k]@ == snapshot@[k]@,
            {
                copy.push(clone_device(&snapshot[i]));
            }
            assert(device_views(copy@) =~= device_views(snapshot@));
            self.last = Some(copy);
        }
        differs
    }
}

} // verus!
