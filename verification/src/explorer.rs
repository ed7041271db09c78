//! The Explorer page's rules: how a folder's entries are ordered, fuzzy
//! search over them, breadcrumbs of a Windows path, the default folder, and
//! the texts and gestures of the listing.

use vstd::prelude::*;
use crate::settings::{lex_lt, lemma_lex_trans, lemma_lex_trichotomy, str_lt};
use crate::text::{
    chars_of, push_char, push_str, slice_vec, split_pieces, split_vec, string_of, to_lower, trim_spec, trim_ws,
    unicode_lower, vec_eq_str, is_sep, lemma_split_plain, Sep, Trim,
};

verus! {

/// One entry of a folder listing.
#[derive(Clone, Debug, PartialEq)]
pub struct FsEntry {
    pub name: String,
    pub path: String,
    pub is_dir: bool,
}

/// An entry as plain values: name, path, whether it is a folder.
pub type EntryView = (Seq<char>, Seq<char>, bool);

/// Views of entries.
pub open spec fn entry_views(v: Seq<FsEntry>) -> Seq<EntryView> {
    v.map_values(|e: FsEntry| (e.name@, e.path@, e.is_dir))
}

/// `a` is listed before `b`: folders first, then by lower-cased name.
pub open spec fn goes_before(a: EntryView, b: EntryView) -> bool {
    (a.2 && !b.2) || (a.2 == b.2 && lex_lt(unicode_lower(a.0), unicode_lower(b.0)))
}

/// Where `e` goes in the ordered `s`: before the first entry it goes before.
pub open spec fn insert_pos(s: Seq<EntryView>, e: EntryView) -> int
    decreases s.len(),
{
    if s.len() == 0 {
        0
    } else if goes_before(e, s[0]) {
        0
    } else {
        1 + insert_pos(s.drop_first(), e)
    }
}

/// The listing order: folders first, then alphabetically ignoring case;
/// entries that compare equal keep their order (a stable sort).
pub open spec fn sorted_entries(v: Seq<EntryView>) -> Seq<EntryView>
    decreases v.len(),
{
    if v.len() == 0 {
        Seq::empty()
    } else {
        let s = sorted_entries(v.drop_last());
        s.insert(insert_pos(s, v.last()), v.last())
    }
}

proof fn lemma_insert_pos(s: Seq<EntryView>, e: EntryView, p: int)
    requires
        0 <= p <= s.len(),
        forall|j: int| 0 <= j < p ==> !goes_before(e, #[trigger] s[j]),
        p < s.len() ==> goes_before(e, s[p]),
    ensures
        insert_pos(s, e) == p,
    decreases s.len(),
{
    if s.len() > 0 && p > 0 {
        assert(!goes_before(e, s[0]));
        assert forall|j: int| 0 <= j < p - 1 implies !goes_before(e, #[trigger] s.drop_first()[j]) by {
            assert(s.drop_first()[j] == s[j + 1]);
        }
        lemma_insert_pos(s.drop_first(), e, p - 1);
    }
}

fn entry_before(a_dir: bool, a_key: &Vec<char>, b_dir: bool, b_key: &Vec<char>) -> (r: bool)
    ensures
        r == ((a_dir && !b_dir) || (a_dir == b_dir && lex_lt(a_key@, b_key@))),
{
    if a_dir && !b_dir {
        true
    } else if a_dir == b_dir {
        str_lt(a_key, b_key)
    } else {
        false
    }
}

/// Orders a folder's entries: folders first, then alphabetically by
/// lower-cased name, equal names keeping their order.
pub fn sort_entries(entries: Vec<FsEntry>) -> (r: Vec<FsEntry>)
    ensures
        entry_views(r@) == sorted_entries(entry_views(entries@)),
{
    let ghost input = entry_views(entries@);
    let mut out: Vec<FsEntry> = Vec::new();
    let mut keys: Vec<Vec<char>> = Vec::new();
    for e in it: entries
        invariant
            it.seq() == entries@,
            input == entry_views(entries@),
            entry_views(out@) == sorted_entries(input.take(it.index() as int)),
            keys@.len() == out@.len(),
            forall|j: int| 0 <= j < out@.len() ==> (#[trigger] keys@[j])@ == unicode_lower(out@[j].name@),
    {
        let ghost i = it.index();
        let ghost s = entry_views(out@);
        let ghost ev = (e.name@, e.path@, e.is_dir);
        assert(input.take(i + 1).drop_last() == input.take(i as int));
        assert(input.take(i + 1).last() == ev);
        let k = chars_of(to_lower(e.name.as_str()).as_str());
        let mut p: usize = 0;
        while p < out.len() && !entry_before(e.is_dir, &k, out[p].is_dir, &keys[p])
            invariant
                p <= out@.len(),
                keys@.len() == out@.len(),
                s == entry_views(out@),
                k@ == unicode_lower(ev.0),
                ev == (e.name@, e.path@, e.is_dir),
                forall|j: int| 0 <= j < out@.len() ==> (#[trigger] keys@[j])@ == unicode_lower(out@[j].name@),
                forall|j: int| 0 <= j < p ==> !goes_before(ev, #[trigger] s[j]),
            decreases out@.len() - p,
        {
            assert(s[p as int] == (out@[p as int].name@, out@[p as int].path@, out@[p as int].is_dir));
            p = p + 1;
        }
        proof {
            if p < out@.len() {
                assert(s[p as int] == (out@[p as int].name@, out@[p as int].path@, out@[p as int].is_dir));
            }
            lemma_insert_pos(s, ev, p as int);
        }
        let ghost kb = keys@;
        let ghost ob = out@;
        out.insert(p, e);
        keys.insert(p, k);
        assert(entry_views(out@) =~= s.insert(p as int, ev));
        assert forall|j: int| 0 <= j < out@.len() implies (#[trigger] keys@[j])@ == unicode_lower(out@[j].name@) by {
            if j < p {
                assert(keys@[j] == kb[j] && out@[j] == ob[j]);
            } else if j > p {
                assert(keys@[j] == kb[j - 1] && out@[j] == ob[j - 1]);
            }
        }
    }
    assert(input.take(input.len() as int) == input);
    out
}

proof fn lemma_before_asym(a: EntryView, b: EntryView)
    ensures
        !(goes_before(a, b) && goes_before(b, a)),
        !goes_before(a, a),
{
    lemma_lex_trichotomy(unicode_lower(a.0), unicode_lower(b.0));
    lemma_lex_trichotomy(unicode_lower(a.0), unicode_lower(a.0));
}

proof fn lemma_before_trans(a: EntryView, b: EntryView, c: EntryView)
    requires
        goes_before(a, b),
        goes_before(b, c),
    ensures
        goes_before(a, c),
{
    if a.2 == b.2 && b.2 == c.2 {
        lemma_lex_trans(unicode_lower(a.0), unicode_lower(b.0), unicode_lower(c.0));
    }
}

proof fn lemma_insert_pos_props(s: Seq<EntryView>, e: EntryView)
    ensures
        0 <= insert_pos(s, e) <= s.len(),
        forall|j: int| 0 <= j < insert_pos(s, e) ==> !goes_before(e, #[trigger] s[j]),
        insert_pos(s, e) < s.len() ==> goes_before(e, s[insert_pos(s, e)]),
    decreases s.len(),
{
    if s.len() > 0 && !goes_before(e, s[0]) {
        lemma_insert_pos_props(s.drop_first(), e);
        assert forall|j: int| 0 <= j < insert_pos(s, e) implies !goes_before(e, #[trigger] s[j]) by {
            if j > 0 {
                assert(s[j] == s.drop_first()[j - 1]);
            }
        }
        if insert_pos(s, e) < s.len() {
            assert(s[insert_pos(s, e)] == s.drop_first()[insert_pos(s.drop_first(), e)]);
        }
    }
}

/// No entry of a listing goes before an entry listed ahead of it.
pub open spec fn listing_ordered(r: Seq<EntryView>) -> bool {
    forall|i: int, j: int| 0 <= i < j < r.len() ==> !goes_before(#[trigger] r[j], #[trigger] r[i])
}

/// The listing order is sorted: folders come first and names ascend
/// (ignoring case); no entry is listed after one it goes before.
pub proof fn law_listing_sorted(v: Seq<EntryView>)
    ensures
        listing_ordered(sorted_entries(v)),
    decreases v.len(),
{
    if v.len() > 0 {
        law_listing_sorted(v.drop_last());
        let s = sorted_entries(v.drop_last());
        let e = v.last();
        let p = insert_pos(s, e);
        lemma_insert_pos_props(s, e);
        let r = s.insert(p, e);
        assert(r == sorted_entries(v));
        assert forall|i: int, j: int| 0 <= i < j < r.len() implies !goes_before(#[trigger] r[j], #[trigger] r[i]) by {
            if j < p {
                assert(r[i] == s[i] && r[j] == s[j]);
            } else if j == p {
                assert(r[i] == s[i] && r[j] == e);
            } else if i < p {
                assert(r[i] == s[i] && r[j] == s[j - 1]);
            } else if i == p {
                assert(r[i] == e && r[j] == s[j - 1]);
                lemma_before_asym(e, s[p]);
                if j - 1 > p {
                    if goes_before(s[j - 1], e) {
                        lemma_before_trans(s[j - 1], e, s[p]);
                    }
                }
            } else {
                assert(r[i] == s[i - 1] && r[j] == s[j - 1]);
            }
        }
    }
}

/// Ordering a listing keeps every entry, each as often as before.
pub proof fn law_listing_permutation(v: Seq<EntryView>)
    ensures
        sorted_entries(v).to_multiset() == v.to_multiset(),
    decreases v.len(),
{
    broadcast use vstd::seq_lib::to_multiset_insert, vstd::seq_lib::to_multiset_build;

    if v.len() == 0 {
        assert(sorted_entries(v) =~= v);
    } else {
        law_listing_permutation(v.drop_last());
        let s = sorted_entries(v.drop_last());
        lemma_insert_pos_props(s, v.last());
        assert(v.drop_last().push(v.last()) =~= v);
    }
}

// ---------------------------------------------------------------------------
// Fuzzy search
// ---------------------------------------------------------------------------

/// How many characters of `q` a left-to-right scan of `n` matches, each
/// character of `n` matching the next unmatched character of `q`.
pub open spec fn greedy_matched(q: Seq<char>, n: Seq<char>) -> int
    decreases n.len(),
{
    if n.len() == 0 {
        0
    } else {
        let m = greedy_matched(q, n.drop_last());
        if m < q.len() && n.last() == q[m] {
            m + 1
        } else {
            m
        }
    }
}

/// Case-insensitive subsequence match: every character of the lower-cased
/// query appears in the lower-cased name, in order; an empty query matches
/// everything.
pub open spec fn fuzzy_spec(query: Seq<char>, name: Seq<char>) -> bool {
    let q = unicode_lower(query);
    q.len() == 0 || greedy_matched(q, unicode_lower(name)) == q.len()
}

proof fn lemma_greedy_bounds(q: Seq<char>, n: Seq<char>)
    ensures
        0 <= greedy_matched(q, n) <= q.len(),
    decreases n.len(),
{
    if n.len() > 0 {
        lemma_greedy_bounds(q, n.drop_last());
    }
}

proof fn lemma_greedy_full(q: Seq<char>, n: Seq<char>, k: int)
    requires
        0 <= k <= n.len(),
        greedy_matched(q, n.take(k)) == q.len(),
    ensures
        greedy_matched(q, n) == q.len(),
    decreases n.len() - k,
{
    if k < n.len() {
        assert(n.take(k + 1).drop_last() == n.take(k));
        lemma_greedy_full(q, n, k + 1);
    } else {
        assert(n.take(k) == n);
    }
}

/// `f` places the characters of `q`, in order, at increasing positions of
/// `n`.
pub open spec fn embeds(q: Seq<char>, n: Seq<char>, f: Seq<int>) -> bool {
    &&& f.len() == q.len()
    &&& forall|k: int| 0 <= k < f.len() ==> 0 <= #[trigger] f[k] < n.len() && n[f[k]] == q[k]
    &&& forall|a: int, b: int| 0 <= a < b < f.len() ==> #[trigger] f[a] < #[trigger] f[b]
}

/// Every character of `q` appears in `n`, in order.
pub open spec fn is_subsequence(q: Seq<char>, n: Seq<char>) -> bool {
    exists|f: Seq<int>| embeds(q, n, f)
}

proof fn lemma_greedy_sound(q: Seq<char>, n: Seq<char>) -> (f: Seq<int>)
    ensures
        0 <= greedy_matched(q, n) <= q.len(),
        embeds(q.take(greedy_matched(q, n)), n, f),
    decreases n.len(),
{
    if n.len() == 0 {
        Seq::empty()
    } else {
        let n0 = n.drop_last();
        let f0 = lemma_greedy_sound(q, n0);
        let m = greedy_matched(q, n0);
        assert forall|k: int| 0 <= k < f0.len() implies 0 <= #[trigger] f0[k] < n.len() && n[f0[k]]
            == q.take(m)[k] by {
            assert(n0[f0[k]] == n[f0[k]]);
        }
        if m < q.len() && n.last() == q[m] {
            let f = f0.push(n.len() - 1);
            assert(q.take(m + 1) =~= q.take(m).push(q[m]));
            assert forall|k: int| 0 <= k < f.len() implies 0 <= #[trigger] f[k] < n.len() && n[f[k]]
                == q.take(m + 1)[k] by {
                if k < f0.len() {
                    assert(f[k] == f0[k]);
                }
            }
            assert forall|a: int, b: int| 0 <= a < b < f.len() implies #[trigger] f[a] < #[trigger] f[b] by {
                if b < f0.len() {
                    assert(f[a] == f0[a] && f[b] == f0[b]);
                } else {
                    assert(f[a] == f0[a]);
                }
            }
            f
        } else {
            f0
        }
    }
}

proof fn lemma_greedy_mono(q: Seq<char>, n: Seq<char>)
    requires
        n.len() > 0,
    ensures
        greedy_matched(q, n) >= greedy_matched(q, n.drop_last()),
{
}

proof fn lemma_greedy_complete(q: Seq<char>, n: Seq<char>, f: Seq<int>, m: int)
    requires
        0 <= m <= q.len(),
        embeds(q.take(m), n, f),
    ensures
        greedy_matched(q, n) >= m,
    decreases n.len(),
{
    lemma_greedy_bounds(q, n);
    if m > 0 {
        assert(0 <= f[m - 1] < n.len() && n[f[m - 1]] == q.take(m)[m - 1]);
        let n0 = n.drop_last();
        lemma_greedy_bounds(q, n0);
        if f[m - 1] == n.len() - 1 {
            let g = f.drop_last();
            assert forall|k: int| 0 <= k < g.len() implies 0 <= #[trigger] g[k] < n0.len() && n0[g[k]]
                == q.take(m - 1)[k] by {
                assert(g[k] == f[k]);
                assert(f[k] < f[m - 1]);
                assert(q.take(m)[k] == q.take(m - 1)[k]);
            }
            assert forall|a: int, b: int| 0 <= a < b < g.len() implies #[trigger] g[a] < #[trigger] g[b] by {
                assert(g[a] == f[a] && g[b] == f[b]);
            }
            lemma_greedy_complete(q, n0, g, m - 1);
            assert(n.last() == q[m - 1]);
            let g0 = greedy_matched(q, n0);
            if g0 < m {
                assert(g0 == m - 1);
                assert(greedy_matched(q, n) == g0 + 1);
            }
        } else {
            assert forall|k: int| 0 <= k < f.len() implies 0 <= #[trigger] f[k] < n0.len() && n0[f[k]]
                == q.take(m)[k] by {
                if k < m - 1 {
                    assert(f[k] < f[m - 1]);
                }
            }
            lemma_greedy_complete(q, n0, f, m);
            lemma_greedy_mono(q, n);
        }
    }
}

/// Fuzzy matching is exactly the documented rule: a name matches a query
/// when every character of the lower-cased query appears in the lower-cased
/// name, in order.
pub proof fn law_fuzzy_is_subsequence(query: Seq<char>, name: Seq<char>)
    ensures
        fuzzy_spec(query, name) <==> is_subsequence(unicode_lower(query), unicode_lower(name)),
{
    let q = unicode_lower(query);
    let n = unicode_lower(name);
    if fuzzy_spec(query, name) {
        if q.len() == 0 {
            let f: Seq<int> = Seq::empty();
            assert(embeds(q, n, f));
        } else {
            let f = lemma_greedy_sound(q, n);
            assert(q.take(q.len() as int) == q);
            assert(embeds(q, n, f));
        }
    }
    if is_subsequence(q, n) {
        let f = choose|f: Seq<int>| embeds(q, n, f);
        assert(q.take(q.len() as int) == q);
        lemma_greedy_complete(q, n, f, q.len() as int);
        lemma_greedy_bounds(q, n);
    }
}

/// Whether `name` fuzzy-matches `query`.
pub fn fuzzy_match(query: &str, name: &str) -> (r: bool)
    ensures
        r == fuzzy_spec(query@, name@),
        query@.len() == 0 ==> r,
{
    let q = chars_of(to_lower(query).as_str());
    if q.len() == 0 {
        return true;
    }
    let n = chars_of(to_lower(name).as_str());
    let mut qi: usize = 0;
    for i in 0..n.len()
        invariant
            q@ == unicode_lower(query@),
            n@ == unicode_lower(name@),
            q@.len() > 0,
            qi == greedy_matched(q@, n@.take(i as int)),
            qi < q@.len(),
            q@.len() == q.len(),
    {
        assert(n@.take(i + 1).drop_last() == n@.take(i as int));
        assert(n@.take(i + 1).last() == n@[i as int]);
        if n[i] == q[qi] {
            qi = qi + 1;
            if qi == q.len() {
                proof {
                    lemma_greedy_full(q@, n@, i + 1);
                }
                return true;
            }
        }
    }
    assert(n@.take(n@.len() as int) == n@);
    false
}

/// The entries whose names fuzzy-match `q`, as names, in listing order.
pub open spec fn matching_names(v: Seq<EntryView>, q: Seq<char>) -> Seq<Seq<char>>
    decreases v.len(),
{
    if v.len() == 0 {
        Seq::empty()
    } else {
        let w = matching_names(v.drop_last(), q);
        if fuzzy_spec(q, v.last().0) {
            w.push(v.last().0)
        } else {
            w
        }
    }
}

/// At most the first ten of `s`.
pub open spec fn first_ten(s: Seq<Seq<char>>) -> Seq<Seq<char>> {
    if s.len() <= 10 {
        s
    } else {
        s.take(10)
    }
}

/// The search suggestions: for a query that is not blank, the first ten
/// names (in listing order) that fuzzy-match the trimmed query.
pub open spec fn suggestions_spec(v: Seq<EntryView>, query: Seq<char>) -> Seq<Seq<char>> {
    let q = trim_spec(query, Trim::Whitespace);
    if q.len() == 0 {
        Seq::empty()
    } else {
        first_ten(matching_names(v, q))
    }
}

/// Names of entries that fuzzy-match `query`, for the search box.
pub fn search_suggestions(entries: &Vec<FsEntry>, query: &str) -> (r: Vec<String>)
    ensures
        r@.map_values(|s: String| s@) == suggestions_spec(entry_views(entries@), query@),
{
    let q = trim_ws(query);
    if chars_of(q.as_str()).len() == 0 {
        return Vec::new();
    }
    let ghost v = entry_views(entries@);
    let mut out: Vec<String> = Vec::new();
    for i in 0..entries.len()
        invariant
            v == entry_views(entries@),
            q@ == trim_spec(query@, Trim::Whitespace),
            out@.map_values(|s: String| s@) == first_ten(matching_names(v.take(i as int), q@)),
    {
        let ghost m0 = matching_names(v.take(i as int), q@);
        assert(v.take(i + 1).drop_last() == v.take(i as int));
        assert(v.take(i + 1).last() == v[i as int]);
        assert(v[i as int].0 == entries@[i as int].name@);
        if fuzzy_match(q.as_str(), entries[i].name.as_str()) {
            if out.len() < 10 {
                let ghost before = out@.map_values(|s: String| s@);
                out.push(entries[i].name.clone());
                assert(out@.map_values(|s: String| s@) =~= before.push(entries@[i as int].name@));
                assert(first_ten(m0.push(v[i as int].0)) =~= m0.push(v[i as int].0));
            } else {
                assert(first_ten(m0.push(v[i as int].0)) =~= first_ten(m0));
            }
        }
    }
    assert(v.take(entries.len() as int) == v);
    out
}

/// Whether `q` starts the lower-cased `name`.
pub open spec fn lower_starts_with(name: Seq<char>, q: Seq<char>) -> bool {
    let l = unicode_lower(name);
    l.len() >= q.len() && l.subrange(0, q.len() as int) == q
}

/// The best match so far and whether its name starts with the query: the
/// first fuzzy match, replaced once by the first match that starts with the
/// query when the earlier one does not.
pub open spec fn best_spec(v: Seq<EntryView>, q: Seq<char>) -> Option<(int, bool)>
    decreases v.len(),
{
    if v.len() == 0 {
        None
    } else {
        let prev = best_spec(v.drop_last(), q);
        let e = v.last();
        if !fuzzy_spec(q, e.0) {
            prev
        } else {
            let is_prefix = lower_starts_with(e.0, q);
            match prev {
                None => Some((v.len() - 1, is_prefix)),
                Some((b, bp)) => if is_prefix && !bp {
                    Some((v.len() - 1, is_prefix))
                } else {
                    prev
                },
            }
        }
    }
}

/// The index of the best match for a query: none for a blank query; else,
/// with the trimmed, lower-cased query, the first entry whose lower-cased
/// name starts with it, or failing that the first fuzzy match.
pub open spec fn best_index_spec(v: Seq<EntryView>, query: Seq<char>) -> Option<int> {
    let q = unicode_lower(trim_spec(query, Trim::Whitespace));
    if q.len() == 0 {
        None
    } else {
        match best_spec(v, q) {
            Some((i, _)) => Some(i),
            None => None,
        }
    }
}

/// Index of the best fuzzy match for `query` among the entries.
pub fn search_best_index(entries: &Vec<FsEntry>, query: &str) -> (r: Option<usize>)
    ensures
        match r {
            Some(i) => best_index_spec(entry_views(entries@), query@) == Some(i as int),
            None => best_index_spec(entry_views(entries@), query@) is None,
        },
{
    let t = trim_ws(query);
    let q = to_lower(t.as_str());
    let qc = chars_of(q.as_str());
    if qc.len() == 0 {
        return None;
    }
    let ghost v = entry_views(entries@);
    let mut best: Option<usize> = None;
    let mut best_is_prefix = false;
    for i in 0..entries.len()
        invariant
            v == entry_views(entries@),
            qc@ == q@,
            q@ == unicode_lower(trim_spec(query@, Trim::Whitespace)),
            match best_spec(v.take(i as int), q@) {
                Some((b, bp)) => best == Some(b as usize) && best_is_prefix == bp && 0 <= b < i,
                None => best is None,
            },
    {
        assert(v.take(i + 1).drop_last() == v.take(i as int));
        assert(v.take(i + 1).last() == v[i as int]);
        assert(v[i as int].0 == entries@[i as int].name@);
        if fuzzy_match(q.as_str(), entries[i].name.as_str()) {
            let lower = chars_of(to_lower(entries[i].name.as_str()).as_str());
            let is_prefix = crate::text::starts_with_vec(&lower, &qc);
            let take = match best {
                None => true,
                Some(_) => is_prefix && !best_is_prefix,
            };
            if take {
                best = Some(i);
                best_is_prefix = is_prefix;
            }
        }
    }
    assert(v.take(entries.len() as int) == v);
    best
}

/// The best match for a query is chosen as documented: the entry it names
/// fuzzy-matches; no earlier match starts with the query; and when the best
/// does not start with the query, no match does and the best is the first
/// match. Without any match there is no best.
pub proof fn law_best_match(v: Seq<EntryView>, q: Seq<char>)
    ensures
        match best_spec(v, q) {
            Some((i, p)) => {
                &&& 0 <= i < v.len()
                &&& fuzzy_spec(q, v[i].0)
                &&& p == lower_starts_with(v[i].0, q)
                &&& forall|j: int| 0 <= j < i && fuzzy_spec(q, #[trigger] v[j].0) ==> !lower_starts_with(v[j].0, q)
                &&& !p ==> (forall|j: int|
                    0 <= j < v.len() && fuzzy_spec(q, #[trigger] v[j].0) ==> !lower_starts_with(v[j].0, q))
                &&& !p ==> (forall|j: int| 0 <= j < i ==> !fuzzy_spec(q, #[trigger] v[j].0))
            },
            None => forall|j: int| 0 <= j < v.len() ==> !fuzzy_spec(q, #[trigger] v[j].0),
        },
    decreases v.len(),
{
    if v.len() > 0 {
        let v0 = v.drop_last();
        law_best_match(v0, q);
        let n = v.len() - 1;
        let e = v.last();
        assert(e == v[n]);
        assert forall|j: int| 0 <= j < v0.len() implies #[trigger] v0[j] == v[j] by {}
        let prev = best_spec(v0, q);
        if !fuzzy_spec(q, e.0) {
            match prev {
                Some((b, bp)) => {
                    assert forall|j: int| 0 <= j < b && fuzzy_spec(q, #[trigger] v[j].0) implies !lower_starts_with(v[j].0, q) by {
                        assert(v0[j] == v[j]);
                    }
                    if !bp {
                        assert forall|j: int| 0 <= j < v.len() && fuzzy_spec(q, #[trigger] v[j].0) implies !lower_starts_with(v[j].0, q) by {
                            if j < n {
                                assert(v0[j] == v[j]);
                            }
                        }
                        assert forall|j: int| 0 <= j < b implies !fuzzy_spec(q, #[trigger] v[j].0) by {
                            assert(v0[j] == v[j]);
                        }
                    }
                    assert(v[b] == v0[b]);
                },
                None => {
                    assert forall|j: int| 0 <= j < v.len() implies !fuzzy_spec(q, #[trigger] v[j].0) by {
                        if j < n {
                            assert(v0[j] == v[j]);
                        }
                    }
                },
            }
        } else {
            let pre = lower_starts_with(e.0, q);
            match prev {
                None => {
                    assert forall|j: int| 0 <= j < n implies !fuzzy_spec(q, #[trigger] v[j].0) by {
                        assert(v0[j] == v[j]);
                    }
                },
                Some((b, bp)) => {
                    assert(v[b] == v0[b]);
                    if pre && !bp {
                        assert forall|j: int| 0 <= j < n && fuzzy_spec(q, #[trigger] v[j].0) implies !lower_starts_with(v[j].0, q) by {
                            assert(v0[j] == v[j]);
                        }
                    } else {
                        assert forall|j: int| 0 <= j < b && fuzzy_spec(q, #[trigger] v[j].0) implies !lower_starts_with(v[j].0, q) by {
                            assert(v0[j] == v[j]);
                        }
                        if !bp {
                            assert forall|j: int| 0 <= j < v.len() && fuzzy_spec(q, #[trigger] v[j].0) implies !lower_starts_with(v[j].0, q) by {
                                if j < n {
                                    assert(v0[j] == v[j]);
                                }
                            }
                            assert forall|j: int| 0 <= j < b implies !fuzzy_spec(q, #[trigger] v[j].0) by {
                                assert(v0[j] == v[j]);
                            }
                        }
                    }
                },
            }
        }
    }
}

// ---------------------------------------------------------------------------
// Breadcrumbs and folders
// ---------------------------------------------------------------------------

/// The named pieces of a path: empty, `.` and `..` pieces dropped.
pub open spec fn crumb_pieces(ps: Seq<Seq<char>>) -> Seq<Seq<char>>
    decreases ps.len(),
{
    if ps.len() == 0 {
        Seq::empty()
    } else {
        let w = crumb_pieces(ps.drop_last());
        let p = ps.last();
        if p.len() == 0 || p == "."@ || p == ".."@ {
            w
        } else {
            w.push(p)
        }
    }
}

/// A Windows path separator: `\`, and `/` outside verbatim (`\\?\`) paths.
pub open spec fn path_sep(c: char, verbatim: bool) -> bool {
    c == '\\' || (!verbatim && c == '/')
}

/// Where the path component starting at `i` ends: the next separator, or
/// the end of the text.
pub open spec fn comp_end(s: Seq<char>, i: int, verbatim: bool) -> int
    decreases s.len() - i,
{
    if i >= s.len() {
        s.len() as int
    } else if path_sep(s[i], verbatim) {
        i
    } else {
        comp_end(s, i + 1, verbatim)
    }
}

/// Where the next component starts after one ending at `e`.
pub open spec fn after_sep(s: Seq<char>, e: int) -> int {
    if e < s.len() {
        e + 1
    } else {
        s.len() as int
    }
}

/// A drive (`C:`) at `i`: an ASCII letter and a colon.
pub open spec fn drive_at(s: Seq<char>, i: int) -> bool {
    &&& 0 <= i
    &&& i + 2 <= s.len()
    &&& ('a' <= s[i] <= 'z' || 'A' <= s[i] <= 'Z')
    &&& s[i + 1] == ':'
}

/// A verbatim path's start: `\\?\`, written with backslashes.
pub open spec fn verbatim_start(s: Seq<char>) -> bool {
    &&& s.len() >= 4
    &&& s[0] == '\\' && s[1] == '\\' && s[2] == '?' && s[3] == '\\'
}

/// The length of a Windows path's prefix (0 when it has none) and whether
/// the path is verbatim, as `std::path::Path::components` reads it on
/// Windows: `\\?\UNC\server\share`, `\\?\C:`, `\\?\name`, `\\.\device`,
/// `\\server\share` (both names present) or `C:`.
pub open spec fn path_prefix(s: Seq<char>) -> (int, bool) {
    if s.len() >= 2 && path_sep(s[0], false) && path_sep(s[1], false) {
        if verbatim_start(s) {
            if s.len() >= 8 && s[4] == 'U' && s[5] == 'N' && s[6] == 'C' && path_sep(s[7], false) {
                let e1 = comp_end(s, 8, true);
                let b2 = after_sep(s, e1);
                let e2 = comp_end(s, b2, true);
                (
                    if e2 > b2 {
                        e2
                    } else {
                        e1
                    },
                    true,
                )
            } else if drive_at(s, 4) && (s.len() == 6 || s[6] == '\\') {
                (6, true)
            } else {
                (comp_end(s, 4, true), true)
            }
        } else if s.len() >= 4 && s[2] == '.' && path_sep(s[3], false) {
            (comp_end(s, 4, false), false)
        } else {
            let e1 = comp_end(s, 2, false);
            let b2 = after_sep(s, e1);
            let e2 = comp_end(s, b2, false);
            if e1 > 2 && e2 > b2 {
                (e2, false)
            } else {
                (0, false)
            }
        }
    } else if drive_at(s, 0) {
        (2, false)
    } else {
        (0, false)
    }
}

/// The separators a path's components are split at.
pub open spec fn crumb_sep(verbatim: bool) -> Sep {
    if verbatim {
        Sep::One('\\')
    } else {
        Sep::Two('\\', '/')
    }
}

/// The breadcrumbs of a Windows path such as `C:\Users\Anna\Downloads`, as
/// `Path::components` gives them: the prefix (`C:`, `\\server\share`, ...)
/// as one crumb, then the folder names (`["C:", "Users", "Anna",
/// "Downloads"]`).
pub open spec fn crumbs_spec(path: Seq<char>) -> Seq<Seq<char>> {
    let (n, verbatim) = path_prefix(path);
    if n == 0 {
        crumb_pieces(split_pieces(path, Sep::Two('\\', '/')))
    } else {
        seq![path.subrange(0, n)] + crumb_pieces(
            split_pieces(path.subrange(n, path.len() as int), crumb_sep(verbatim)),
        )
    }
}

/// Where the component at `i` ends.
fn comp_end_vec(v: &Vec<char>, i: usize, verbatim: bool) -> (e: usize)
    requires
        i <= v@.len(),
    ensures
        e as int == comp_end(v@, i as int, verbatim),
        i <= e <= v@.len(),
{
    let mut j = i;
    while j < v.len() && !(v[j] == '\\' || (!verbatim && v[j] == '/'))
        invariant
            i <= j <= v@.len(),
            comp_end(v@, j as int, verbatim) == comp_end(v@, i as int, verbatim),
        decreases v@.len() - j,
    {
        j = j + 1;
    }
    j
}

fn after_sep_vec(v: &Vec<char>, e: usize) -> (b: usize)
    requires
        e <= v@.len(),
    ensures
        b as int == after_sep(v@, e as int),
        b <= v@.len(),
{
    if e < v.len() {
        e + 1
    } else {
        v.len()
    }
}

fn drive_at_vec(v: &Vec<char>, i: usize) -> (r: bool)
    ensures
        r == drive_at(v@, i as int),
{
    i < v.len() && v.len() - i >= 2 && (('a' <= v[i] && v[i] <= 'z') || ('A' <= v[i] && v[i] <= 'Z'))
        && v[i + 1] == ':'
}

fn verbatim_start_vec(v: &Vec<char>) -> (r: bool)
    ensures
        r == verbatim_start(v@),
{
    v.len() >= 4 && v[0] == '\\' && v[1] == '\\' && v[2] == '?' && v[3] == '\\'
}

/// The length of a path's prefix and whether it is verbatim.
fn path_prefix_vec(v: &Vec<char>) -> (r: (usize, bool))
    ensures
        (r.0 as int, r.1) == path_prefix(v@),
        r.0 <= v@.len(),
{
    let sep0 = v.len() >= 2 && (v[0] == '\\' || v[0] == '/') && (v[1] == '\\' || v[1] == '/');
    if sep0 {
        if verbatim_start_vec(v) {
            if v.len() >= 8 && v[4] == 'U' && v[5] == 'N' && v[6] == 'C' && (v[7] == '\\' || v[7] == '/') {
                let e1 = comp_end_vec(v, 8, true);
                let b2 = after_sep_vec(v, e1);
                let e2 = comp_end_vec(v, b2, true);
                (if e2 > b2 { e2 } else { e1 }, true)
            } else if drive_at_vec(v, 4) && (v.len() == 6 || v[6] == '\\') {
                (6, true)
            } else {
                (comp_end_vec(v, 4, true), true)
            }
        } else if v.len() >= 4 && v[2] == '.' && (v[3] == '\\' || v[3] == '/') {
            (comp_end_vec(v, 4, false), false)
        } else {
            let e1 = comp_end_vec(v, 2, false);
            let b2 = after_sep_vec(v, e1);
            let e2 = comp_end_vec(v, b2, false);
            if e1 > 2 && e2 > b2 {
                (e2, false)
            } else {
                (0, false)
            }
        }
    } else if drive_at_vec(v, 0) {
        (2, false)
    } else {
        (0, false)
    }
}

/// The named pieces of split path text, as crumbs.
fn keep_crumbs(pieces: &Vec<Vec<char>>) -> (out: Vec<String>)
    ensures
        out@.map_values(|s: String| s@) == crumb_pieces(pieces@.map_values(|p: Vec<char>| p@)),
{
    let ghost views = pieces@.map_values(|p: Vec<char>| p@);
    let mut out: Vec<String> = Vec::new();
    for i in 0..pieces.len()
        invariant
            views == pieces@.map_values(|p: Vec<char>| p@),
            out@.map_values(|s: String| s@) == crumb_pieces(views.take(i as int)),
    {
        assert(views.take(i + 1).drop_last() == views.take(i as int));
        assert(views[i as int] == pieces@[i as int]@);
        let p = &pieces[i];
        if !(p.len() == 0 || vec_eq_str(p, ".") || vec_eq_str(p, "..")) {
            let ghost before = out@.map_values(|s: String| s@);
            out.push(string_of(p));
            assert(out@.map_values(|s: String| s@) =~= before.push(p@));
        }
    }
    assert(views.take(pieces.len() as int) == views);
    out
}

/// The breadcrumbs of a path.
pub fn path_to_crumbs(path: &str) -> (r: Vec<String>)
    ensures
        r@.map_values(|s: String| s@) == crumbs_spec(path@),
{
    let c = chars_of(path);
    let (n, verbatim) = path_prefix_vec(&c);
    if n == 0 {
        let pieces = split_vec(&c, Sep::Two('\\', '/'));
        return keep_crumbs(&pieces);
    }
    let rest = slice_vec(&c, n, c.len());
    let sep = if verbatim { Sep::One('\\') } else { Sep::Two('\\', '/') };
    let pieces = split_vec(&rest, sep);
    let mut out = keep_crumbs(&pieces);
    let ghost names = out@.map_values(|s: String| s@);
    let first = string_of(&slice_vec(&c, 0, n));
    out.insert(0, first);
    assert(out@.map_values(|s: String| s@) =~= seq![first@] + names);
    out
}

/// Whether a path text ends in a separator.
pub open spec fn ends_with_sep(p: Seq<char>) -> bool {
    p.len() > 0 && (p.last() == '\\' || p.last() == '/')
}

/// A path component as `PathBuf::push` sees it: a kind and its text.
pub type CompView = (u8, Seq<char>);

/// The root directory component.
pub const ROOT_COMP: u8 = 0;

/// A folder or file name.
pub const NAME_COMP: u8 = 1;

/// A prefix, `.` or `..`.
pub const OTHER_COMP: u8 = 2;

/// Views of components.
pub open spec fn comp_views(v: Seq<(u8, Vec<char>)>) -> Seq<CompView> {
    v.map_values(|c: (u8, Vec<char>)| (c.0, c.1@))
}

/// The components of a verbatim path's body: `.` and `..` kept, empty
/// pieces dropped.
pub open spec fn verbatim_body(ps: Seq<Seq<char>>) -> Seq<CompView>
    decreases ps.len(),
{
    if ps.len() == 0 {
        Seq::empty()
    } else {
        let w = verbatim_body(ps.drop_last());
        let p = ps.last();
        if p.len() == 0 {
            w
        } else if p == "."@ || p == ".."@ {
            w.push((OTHER_COMP, p))
        } else {
            w.push((NAME_COMP, p))
        }
    }
}

/// Whether a separator follows the prefix (a root).
pub open spec fn root_after(s: Seq<char>, n: int) -> bool {
    0 <= n < s.len() && path_sep(s[n], false)
}

/// The components of a verbatim path whose prefix is `n` long: the prefix,
/// the root if a separator follows it, then the pieces split at `\`.
pub open spec fn verbatim_comps(s: Seq<char>, n: int) -> Seq<CompView> {
    if root_after(s, n) {
        seq![(OTHER_COMP, s.subrange(0, n)), (ROOT_COMP, seq!['\\'])] + verbatim_body(
            split_pieces(s.subrange(n + 1, s.len() as int), Sep::One('\\')),
        )
    } else {
        seq![(OTHER_COMP, s.subrange(0, n))] + verbatim_body(
            split_pieces(s.subrange(n, s.len() as int), Sep::One('\\')),
        )
    }
}

/// The pieces of a pushed relative path walked onto components: empty and
/// `.` pieces skipped, `..` drops a trailing name, a name is added.
pub open spec fn join_pieces(buf: Seq<CompView>, ps: Seq<Seq<char>>) -> Seq<CompView>
    decreases ps.len(),
{
    if ps.len() == 0 {
        buf
    } else {
        let b = join_pieces(buf, ps.drop_last());
        let p = ps.last();
        if p.len() == 0 || p == "."@ {
            b
        } else if p == ".."@ {
            if b.len() > 0 && b.last().0 == NAME_COMP {
                b.drop_last()
            } else {
                b
            }
        } else {
            b.push((NAME_COMP, p))
        }
    }
}

/// Components written out: a `\` between two of them unless one is the root.
pub open spec fn render_comps(cs: Seq<CompView>) -> Seq<char>
    decreases cs.len(),
{
    if cs.len() == 0 {
        Seq::empty()
    } else {
        let r = render_comps(cs.drop_last());
        let c = cs.last();
        if cs.len() >= 2 && cs[cs.len() - 2].0 != ROOT_COMP && c.0 != ROOT_COMP {
            r + seq!['\\'] + c.1
        } else {
            r + c.1
        }
    }
}

/// Whether pushing onto `base` puts a `\` first: it does not end in a
/// separator and is not a bare drive (`C:`).
pub open spec fn push_needs_sep(base: Seq<char>) -> bool {
    base.len() > 0 && !path_sep(base.last(), false) && !(base.len() == 2 && drive_at(base, 0))
}

/// `PathBuf::push` on Windows: a part with a prefix replaces the path; onto
/// a verbatim path the part's components are walked in (`.` and `..`
/// resolved); a part with a root keeps only the path's prefix; otherwise the
/// part is appended, after a `\` where one is needed.
pub open spec fn push_spec(base: Seq<char>, part: Seq<char>) -> Seq<char> {
    let (bn, bv) = path_prefix(base);
    if path_prefix(part).0 > 0 {
        part
    } else if bv && part.len() > 0 {
        let comps = verbatim_comps(base, bn);
        let start = if path_sep(part[0], false) {
            seq![comps[0], (ROOT_COMP, seq!['\\'])]
        } else {
            comps
        };
        render_comps(join_pieces(start, split_pieces(part, Sep::Two('\\', '/'))))
    } else if part.len() > 0 && path_sep(part[0], false) {
        base.subrange(0, bn) + part
    } else if push_needs_sep(base) {
        base + seq!['\\'] + part
    } else {
        base + part
    }
}

/// The path of the first crumbs: the first one with `\` after it (the drive
/// root, `C:\`), then each further one pushed on.
pub open spec fn crumbs_path(cs: Seq<Seq<char>>) -> Seq<char>
    decreases cs.len(),
{
    if cs.len() == 0 {
        Seq::empty()
    } else if cs.len() == 1 {
        cs[0] + seq!['\\']
    } else {
        push_spec(crumbs_path(cs.drop_last()), cs.last())
    }
}

/// The crumbs joined as text: the first with `\` after it, then each further
/// one after a `\` unless the text already ends in a separator.
pub open spec fn joined_path(cs: Seq<Seq<char>>) -> Seq<char>
    decreases cs.len(),
{
    if cs.len() == 0 {
        Seq::empty()
    } else if cs.len() == 1 {
        cs[0] + seq!['\\']
    } else {
        let p = joined_path(cs.drop_last());
        if ends_with_sep(p) {
            p + cs.last()
        } else {
            p + seq!['\\'] + cs.last()
        }
    }
}

/// The text of the root component, `\\`.
fn root_text() -> (r: Vec<char>)
    ensures
        r@ == seq!['\\'],
{
    let mut r: Vec<char> = Vec::new();
    r.push('\\');
    assert(r@ =~= seq!['\\']);
    r
}

/// Copies a component.
fn copy_comp(c: &(u8, Vec<char>)) -> (r: (u8, Vec<char>))
    ensures
        (r.0, r.1@) == (c.0, c.1@),
{
    (c.0, slice_vec(&c.1, 0, c.1.len()))
}

/// The components of a verbatim body.
fn verbatim_body_vec(pieces: &Vec<Vec<char>>) -> (out: Vec<(u8, Vec<char>)>)
    ensures
        comp_views(out@) == verbatim_body(pieces@.map_values(|p: Vec<char>| p@)),
{
    let ghost views = pieces@.map_values(|p: Vec<char>| p@);
    let mut out: Vec<(u8, Vec<char>)> = Vec::new();
    for i in 0..pieces.len()
        invariant
            views == pieces@.map_values(|p: Vec<char>| p@),
            comp_views(out@) == verbatim_body(views.take(i as int)),
    {
        assert(views.take(i + 1).drop_last() == views.take(i as int));
        assert(views[i as int] == pieces@[i as int]@);
        let p = &pieces[i];
        if p.len() > 0 {
            let ghost before = comp_views(out@);
            let kind = if vec_eq_str(p, ".") || vec_eq_str(p, "..") { OTHER_COMP } else { NAME_COMP };
            let cp = slice_vec(p, 0, p.len());
            assert(cp@ =~= p@);
            out.push((kind, cp));
            assert(comp_views(out@) =~= before.push((kind, p@)));
        }
    }
    assert(views.take(pieces.len() as int) == views);
    out
}

/// The components of a verbatim path whose prefix is `n` long.
fn verbatim_comps_vec(s: &Vec<char>, n: usize) -> (out: Vec<(u8, Vec<char>)>)
    requires
        n <= s@.len(),
    ensures
        comp_views(out@) == verbatim_comps(s@, n as int),
{
    let mut head: Vec<(u8, Vec<char>)> = Vec::new();
    head.push((OTHER_COMP, slice_vec(s, 0, n)));
    let root = n < s.len() && (s[n] == '\\' || s[n] == '/');
    let from = if root { n + 1 } else { n };
    if root {
        head.push((ROOT_COMP, root_text()));
    }
    let ghost h = comp_views(head@);
    let pieces = split_vec(&slice_vec(s, from, s.len()), Sep::One('\\'));
    let mut body = verbatim_body_vec(&pieces);
    let ghost b = comp_views(body@);
    head.append(&mut body);
    assert(comp_views(head@) =~= h + b);
    proof {
        if root {
            assert(h =~= seq![(OTHER_COMP, s@.subrange(0, n as int)), (ROOT_COMP, seq!['\\'])]);
        } else {
            assert(h =~= seq![(OTHER_COMP, s@.subrange(0, n as int))]);
        }
    }
    head
}

/// Walks the pieces of a pushed path onto components.
fn join_pieces_vec(buf: Vec<(u8, Vec<char>)>, pieces: &Vec<Vec<char>>) -> (out: Vec<(u8, Vec<char>)>)
    ensures
        comp_views(out@) == join_pieces(comp_views(buf@), pieces@.map_values(|p: Vec<char>| p@)),
{
    let ghost views = pieces@.map_values(|p: Vec<char>| p@);
    let ghost b0 = comp_views(buf@);
    let mut out = buf;
    for i in 0..pieces.len()
        invariant
            views == pieces@.map_values(|p: Vec<char>| p@),
            comp_views(out@) == join_pieces(b0, views.take(i as int)),
    {
        assert(views.take(i + 1).drop_last() == views.take(i as int));
        assert(views[i as int] == pieces@[i as int]@);
        let p = &pieces[i];
        let ghost before = comp_views(out@);
        if p.len() == 0 || vec_eq_str(p, ".") {
        } else if vec_eq_str(p, "..") {
            if out.len() > 0 && out[out.len() - 1].0 == NAME_COMP {
                out.pop();
                assert(comp_views(out@) =~= before.drop_last());
            }
        } else {
            let cp = slice_vec(p, 0, p.len());
            assert(cp@ =~= p@);
            out.push((NAME_COMP, cp));
            assert(comp_views(out@) =~= before.push((NAME_COMP, p@)));
        }
    }
    assert(views.take(pieces.len() as int) == views);
    out
}

/// Writes components out as text.
fn render_comps_vec(cs: &Vec<(u8, Vec<char>)>) -> (r: Vec<char>)
    ensures
        r@ == render_comps(comp_views(cs@)),
{
    let ghost views = comp_views(cs@);
    let mut r: Vec<char> = Vec::new();
    for i in 0..cs.len()
        invariant
            views == comp_views(cs@),
            r@ == render_comps(views.take(i as int)),
    {
        let ghost t = views.take(i + 1);
        assert(t.drop_last() == views.take(i as int));
        assert(views[i as int] == (cs@[i as int].0, cs@[i as int].1@));
        if i >= 1 {
            assert(t[i - 1] == views[i - 1]);
            assert(views[i - 1] == (cs@[i - 1].0, cs@[i - 1].1@));
        }
        let ghost before = r@;
        if i >= 1 && cs[i - 1].0 != ROOT_COMP && cs[i].0 != ROOT_COMP {
            r.push('\\');
        }
        let c = &cs[i].1;
        for j in 0..c.len()
            invariant
                c@ == cs@[i as int].1@,
                r@ == (if i >= 1 && cs@[i - 1].0 != ROOT_COMP && cs@[i as int].0 != ROOT_COMP {
                    before + seq!['\\']
                } else {
                    before
                }) + c@.take(j as int),
        {
            r.push(c[j]);
            assert(c@.take(j + 1) == c@.take(j as int).push(c@[j as int]));
        }
        assert(c@.take(c@.len() as int) == c@);
        assert(r@ == render_comps(t));
    }
    assert(views.take(cs.len() as int) == views);
    r
}

/// `PathBuf::push` on Windows, on path text.
fn push_path(base: &Vec<char>, part: &Vec<char>) -> (r: Vec<char>)
    ensures
        r@ == push_spec(base@, part@),
{
    let (pn, _) = path_prefix_vec(part);
    let (bn, bv) = path_prefix_vec(base);
    if pn > 0 {
        return slice_vec(part, 0, part.len());
    }
    if bv && part.len() > 0 {
        let comps = verbatim_comps_vec(base, bn);
        let ghost cv = comp_views(comps@);
        let start = if part[0] == '\\' || part[0] == '/' {
            assert(verbatim_comps(base@, bn as int).len() >= 1) by {
                if root_after(base@, bn as int) {
                } else {
                }
            }
            assert(cv.len() == comps@.len());
            assert(cv[0] == (comps@[0].0, comps@[0].1@));
            let mut st: Vec<(u8, Vec<char>)> = Vec::new();
            st.push(copy_comp(&comps[0]));
            st.push((ROOT_COMP, root_text()));
            assert(comp_views(st@) =~= seq![cv[0], (ROOT_COMP, seq!['\\'])]);
            st
        } else {
            comps
        };
        let pieces = split_vec(part, Sep::Two('\\', '/'));
        let joined = join_pieces_vec(start, &pieces);
        return render_comps_vec(&joined);
    }
    if part.len() > 0 && (part[0] == '\\' || part[0] == '/') {
        let mut r = slice_vec(base, 0, bn);
        let ghost h = r@;
        let mut rest = slice_vec(part, 0, part.len());
        r.append(&mut rest);
        assert(r@ =~= h + part@);
        return r;
    }
    let need = base.len() > 0 && !(base[base.len() - 1] == '\\' || base[base.len() - 1] == '/')
        && !(base.len() == 2 && drive_at_vec(base, 0));
    let mut r = slice_vec(base, 0, base.len());
    assert(r@ =~= base@);
    if need {
        r.push('\\');
    }
    let ghost h = r@;
    let mut rest = slice_vec(part, 0, part.len());
    r.append(&mut rest);
    assert(r@ =~= h + part@);
    r
}

/// Rebuilds the path of the first `upto + 1` crumbs (a breadcrumb click).
pub fn path_from_crumbs(crumbs: &Vec<String>, upto: usize) -> (p: String)
    requires
        upto < usize::MAX,
    ensures
        p@ == crumbs_path(crumbs@.map_values(|s: String| s@).take(
            if upto + 1 < crumbs@.len() {
                upto + 1
            } else {
                crumbs@.len() as int
            },
        )),
{
    let ghost cv = crumbs@.map_values(|s: String| s@);
    let n: usize = if upto + 1 < crumbs.len() { upto + 1 } else { crumbs.len() };
    let mut p: Vec<char> = Vec::new();
    for i in 0..n
        invariant
            n <= crumbs@.len(),
            cv == crumbs@.map_values(|s: String| s@),
            p@ == crumbs_path(cv.take(i as int)),
    {
        assert(cv.take(i + 1).drop_last() == cv.take(i as int));
        assert(cv[i as int] == crumbs@[i as int]@);
        let part = chars_of(crumbs[i].as_str());
        if i == 0 {
            p = part;
            p.push('\\');
            assert(p@ =~= cv[0] + seq!['\\']);
        } else {
            p = push_path(&p, &part);
        }
    }
    string_of(&p)
}

/// The folder shown on first launch: the saved folder if it still exists;
/// else, with a user profile, its Downloads folder if that exists, or the
/// profile itself; else the working folder, or `C:\`.
pub fn default_folder(
    saved: Option<String>,
    profile: Option<String>,
    downloads: Option<String>,
    current_dir: Option<String>,
) -> (r: String)
    ensures
        r@ == (match saved {
            Some(s) => s@,
            None => match profile {
                Some(p) => match downloads {
                    Some(d) => d@,
                    None => p@,
                },
                None => match current_dir {
                    Some(c) => c@,
                    None => "C:\\"@,
                },
            },
        }),
{
    match saved {
        Some(s) => s,
        None => match profile {
            Some(p) => match downloads {
                Some(d) => d,
                None => p,
            },
            None => match current_dir {
                Some(c) => c,
                None => String::from_str("C:\\"),
            },
        },
    }
}

/// The drive roots probed for the drive picker: `A:\` through `Z:\`.
pub fn drive_candidates() -> (r: Vec<String>)
    ensures
        r@.len() == 26,
        forall|i: int| 0 <= i < 26 ==> (#[trigger] r@[i])@ == seq![(65 + i) as char, ':', '\\'],
{
    let mut out: Vec<String> = Vec::new();
    let mut b: u8 = 65;
    while b <= 90
        invariant
            65 <= b <= 91,
            out@.len() == b - 65,
            forall|i: int| 0 <= i < out@.len() ==> (#[trigger] out@[i])@ == seq![(65 + i) as char, ':', '\\'],
        decreases 91 - b,
    {
        let mut s = String::new();
        push_char(&mut s, crate::text::char_from_ascii(b as u32));
        push_char(&mut s, ':');
        push_char(&mut s, '\\');
        assert(s@ =~= seq![(65 + (b - 65)) as char, ':', '\\']);
        out.push(s);
        b = b + 1;
    }
    out
}

/// A drive root's label in the picker: the root without trailing `\`.
pub fn drive_label(root: &str) -> (r: String)
    ensures
        r@ == crate::text::trim_end_spec(root@, Trim::Char('\\')),
{
    let v = chars_of(root);
    string_of(&crate::text::trim_vec(&v, Trim::Char('\\'), false, true))
}

/// The folder a picked drive label opens: the label with `\` appended.
pub fn drive_path(label: &str) -> (r: String)
    ensures
        r@ == label@ + seq!['\\'],
{
    let mut s = String::new();
    push_str(&mut s, label);
    push_char(&mut s, '\\');
    s
}

// ---------------------------------------------------------------------------
// The listing's texts and gestures
// ---------------------------------------------------------------------------

/// A listing row's text: a folder or file glyph, two spaces, the name.
pub fn entry_label(e: &FsEntry) -> (r: String)
    ensures
        r@ == (if e.is_dir {
            "\u{1F4C1}  "@
        } else {
            "\u{1F4C4}  "@
        }) + e.name@,
{
    let mut s = String::new();
    if e.is_dir {
        push_str(&mut s, "\u{1F4C1}  ");
    } else {
        push_str(&mut s, "\u{1F4C4}  ");
    }
    push_str(&mut s, e.name.as_str());
    s
}

/// Two presses on the same row within this many milliseconds are a double
/// click.
pub const DOUBLE_PRESS_MS: u64 = 500;

/// The last left-button press on the listing: its row and time (ms).
pub struct PressTracker {
    last: Option<(usize, u64)>,
}

impl PressTracker {
    /// No press yet.
    pub fn new() -> (t: Self)
        ensures
            t.last_press() is None,
    {
        PressTracker { last: None }
    }

    /// The last press.
    pub closed spec fn last_press(&self) -> Option<(usize, u64)> {
        self.last
    }

    /// A press on `row` at `now`: a double press when the previous press was
    /// on the same row at most `DOUBLE_PRESS_MS` earlier (no time passed if
    /// the clock reads earlier). The press is remembered either way.
    pub fn press(&mut self, row: usize, now: u64) -> (double: bool)
        ensures
            double == (match old(self).last_press() {
                Some((r, t)) => r == row && (if now >= t {
                    now - t
                } else {
                    0
                }) <= DOUBLE_PRESS_MS,
                None => false,
            }),
            final(self).last_press() == Some((row, now)),
    {
        let double = match self.last {
            Some((r, t)) => r == row && (if now >= t { now - t } else { 0 }) <= DOUBLE_PRESS_MS,
            None => false,
        };
        self.last = Some((row, now));
        double
    }
}

/// Whether a press opens its row: a double press on a folder.
pub fn opens_folder(double: bool, is_dir: bool) -> (r: bool)
    ensures
        r == (double && is_dir),
{
    double && is_dir
}

/// How sending a file to a device ended.
#[derive(Clone, Debug, PartialEq)]
pub enum UploadOutcome {
    /// The named file was delivered.
    Success(String),
    /// The send failed with this message.
    Error(String),
}

impl UploadOutcome {
    /// The result bar's title: `Sent <name>` or `Upload failed`.
    pub fn title(&self) -> (s: String)
        ensures
            s@ == (match self {
                UploadOutcome::Success(n) => "Sent "@ + n@,
                UploadOutcome::Error(_) => "Upload failed"@,
            }),
    {
        match self {
            UploadOutcome::Success(n) => {
                let mut s = String::from_str("Sent ");
                push_str(&mut s, n.as_str());
                s
            },
            UploadOutcome::Error(_) => String::from_str("Upload failed"),
        }
    }

    /// The result bar's message.
    pub fn message(&self) -> (s: String)
        ensures
            s@ == (match self {
                UploadOutcome::Success(_) => "File delivered to the picked device."@,
                UploadOutcome::Error(m) => m@,
            }),
    {
        match self {
            UploadOutcome::Success(_) => String::from_str("File delivered to the picked device."),
            UploadOutcome::Error(m) => m.clone(),
        }
    }

    /// The name of a delivered file, to record as uploaded.
    pub fn delivered(&self) -> (r: Option<String>)
        ensures
            match self {
                UploadOutcome::Success(n) => r matches Some(x) && x@ == n@,
                UploadOutcome::Error(_) => r is None,
            },
    {
        match self {
            UploadOutcome::Success(n) => Some(n.clone()),
            UploadOutcome::Error(_) => None,
        }
    }
}

/// The failure for a device name that is no longer discovered.
pub fn device_not_found(label: &str) -> (o: UploadOutcome)
    ensures
        o matches UploadOutcome::Error(m) && m@ == "Device not found: "@ + label@,
{
    let mut s = String::from_str("Device not found: ");
    push_str(&mut s, label);
    UploadOutcome::Error(s)
}

/// The failure of a send: `Could not send <name> to <ip>: <error>`.
pub fn send_failed(name: &str, ip: &str, error: &str) -> (o: UploadOutcome)
    ensures
        o matches UploadOutcome::Error(m) && m@ == "Could not send "@ + name@ + " to "@ + ip@ + ": "@
            + error@,
{
    let mut s = String::from_str("Could not send ");
    push_str(&mut s, name);
    push_str(&mut s, " to ");
    push_str(&mut s, ip);
    push_str(&mut s, ": ");
    push_str(&mut s, error);
    UploadOutcome::Error(s)
}

/// The first device named `label`.
pub fn find_device(devices: &Vec<crate::peers::DiscoveredDevice>, label: &str) -> (r: Option<usize>)
    ensures
        match r {
            Some(i) => i < devices@.len() && devices@[i as int].name@ == label@ && forall|j: int|
                0 <= j < i ==> devices@[j].name@ != label@,
            None => forall|j: int| 0 <= j < devices@.len() ==> devices@[j].name@ != label@,
        },
{
    for i in 0..devices.len()
        invariant
            forall|j: int| 0 <= j < i ==> devices@[j].name@ != label@,
    {
        if crate::transfer::str_equal(devices[i].name.as_str(), label) {
            return Some(i);
        }
    }
    None
}


/// A folder name as a crumb: not empty, `.` or `..`, and without `\` or `/`.
pub open spec fn crumb_name(c: Seq<char>) -> bool {
    &&& c.len() > 0
    &&& c != "."@
    &&& c != ".."@
    &&& forall|i: int| 0 <= i < c.len() ==> #[trigger] c[i] != '\\' && c[i] != '/'
}

/// Crumbs that are all folder names are kept as they are.
proof fn lemma_crumb_pieces_names(cs: Seq<Seq<char>>)
    requires
        forall|k: int| 0 <= k < cs.len() ==> crumb_name(#[trigger] cs[k]),
    ensures
        crumb_pieces(cs) == cs,
    decreases cs.len(),
{
    if cs.len() > 0 {
        let d = cs.drop_last();
        assert forall|k: int| 0 <= k < d.len() implies crumb_name(#[trigger] d[k]) by {
            assert(d[k] == cs[k]);
        }
        lemma_crumb_pieces_names(d);
        assert(crumb_name(cs[cs.len() - 1]));
        assert(d.push(cs.last()) =~= cs);
    }
}

/// The pieces of the joined crumbs: the crumbs themselves, with an empty
/// piece after the drive's `\` when there is only the drive.
proof fn lemma_split_joined_path(cs: Seq<Seq<char>>)
    requires
        cs.len() >= 1,
        forall|k: int| 1 <= k < cs.len() ==> crumb_name(#[trigger] cs[k]),
        forall|i: int| 0 <= i < cs[0].len() ==> #[trigger] cs[0][i] != '\\' && cs[0][i] != '/',
    ensures
        split_pieces(joined_path(cs), Sep::Two('\\', '/')) == (if cs.len() == 1 {
            seq![cs[0], Seq::<char>::empty()]
        } else {
            cs
        }),
        cs.len() >= 2 ==> joined_path(cs).len() > 0 && joined_path(cs).last() == cs.last().last(),
    decreases cs.len(),
{
    let sep = Sep::Two('\\', '/');
    let e = Seq::<char>::empty();
    if cs.len() == 1 {
        let c0 = cs[0];
        assert forall|i: int| 0 <= i < c0.len() implies !is_sep(sep, #[trigger] c0[i]) by {}
        lemma_split_plain(e, c0, sep);
        assert(e + c0 =~= c0);
        assert(split_pieces(e, sep) == seq![e]);
        assert(split_pieces(c0, sep) =~= seq![c0]);
        let p = c0 + seq!['\\'];
        assert(p.drop_last() =~= c0);
        assert(split_pieces(p, sep) =~= seq![c0, e]);
    } else {
        let d = cs.drop_last();
        let last = cs.last();
        assert forall|k: int| 1 <= k < d.len() implies crumb_name(#[trigger] d[k]) by {
            assert(d[k] == cs[k]);
        }
        assert(d[0] == cs[0]);
        lemma_split_joined_path(d);
        assert(crumb_name(cs[cs.len() - 1]));
        assert forall|i: int| 0 <= i < last.len() implies !is_sep(sep, #[trigger] last[i]) by {}
        let pp = joined_path(d);
        if d.len() == 1 {
            assert(ends_with_sep(pp));
            lemma_split_plain(pp, last, sep);
            assert(e + last =~= last);
            assert(split_pieces(pp + last, sep) =~= cs);
        } else {
            assert(!ends_with_sep(pp)) by {
                assert(pp.last() == d.last().last());
                assert(crumb_name(d[d.len() - 1]));
            }
            let q = pp + seq!['\\'];
            assert(q.drop_last() =~= pp);
            assert(split_pieces(q, sep) == split_pieces(pp, sep).push(e));
            lemma_split_plain(q, last, sep);
            assert(e + last =~= last);
            assert(joined_path(cs) == q + last);
            assert(split_pieces(q + last, sep) =~= cs);
        }
    }
}

/// The joined crumbs are the first crumb followed by the same crumbs joined
/// with an empty first one.
proof fn lemma_joined_path_first(cs: Seq<Seq<char>>)
    requires
        cs.len() >= 1,
    ensures
        joined_path(cs) == cs[0] + joined_path(cs.update(0, Seq::<char>::empty())),
        joined_path(cs.update(0, Seq::<char>::empty())).len() >= 1,
    decreases cs.len(),
{
    let e = Seq::<char>::empty();
    let u = cs.update(0, e);
    if cs.len() == 1 {
        assert(joined_path(u) =~= seq!['\\']);
        assert(joined_path(cs) =~= cs[0] + seq!['\\']);
    } else {
        let d = cs.drop_last();
        lemma_joined_path_first(d);
        assert(u.drop_last() =~= d.update(0, e));
        assert(u.last() == cs.last());
        let p = joined_path(d);
        let q = joined_path(d.update(0, e));
        assert(p =~= cs[0] + q);
        assert(ends_with_sep(p) == ends_with_sep(q)) by {
            assert(p.last() == q.last());
        }
        if ends_with_sep(p) {
            assert(joined_path(cs) =~= cs[0] + (q + cs.last()));
        } else {
            assert(joined_path(cs) =~= cs[0] + (q + seq!['\\'] + cs.last()));
        }
    }
}

/// Crumbs joined after an empty first one start with a separator.
proof fn lemma_joined_path_starts_sep(cs: Seq<Seq<char>>)
    requires
        cs.len() >= 1,
        cs[0].len() == 0,
    ensures
        joined_path(cs).len() >= 1,
        joined_path(cs)[0] == '\\',
    decreases cs.len(),
{
    if cs.len() == 1 {
        assert(joined_path(cs) =~= seq!['\\']);
    } else {
        let d = cs.drop_last();
        assert(d[0] == cs[0]);
        lemma_joined_path_starts_sep(d);
        let p = joined_path(d);
        if ends_with_sep(p) {
            assert((p + cs.last())[0] == p[0]);
        } else {
            assert((p + seq!['\\'] + cs.last())[0] == p[0]);
        }
    }
}

/// Crumb pieces after an empty first piece are the folder names that follow.
proof fn lemma_crumb_pieces_skip_empty(cs: Seq<Seq<char>>)
    requires
        cs.len() >= 1,
        cs[0].len() == 0,
        forall|k: int| 1 <= k < cs.len() ==> crumb_name(#[trigger] cs[k]),
    ensures
        crumb_pieces(cs) == cs.drop_first(),
    decreases cs.len(),
{
    if cs.len() == 1 {
        assert(cs.drop_last() =~= Seq::<Seq<char>>::empty());
        assert(cs.last().len() == 0);
        assert(crumb_pieces(cs) == crumb_pieces(cs.drop_last()));
        assert(crumb_pieces(Seq::<Seq<char>>::empty()) == Seq::<Seq<char>>::empty());
        assert(cs.drop_first() =~= Seq::<Seq<char>>::empty());
    } else {
        let d = cs.drop_last();
        assert forall|k: int| 1 <= k < d.len() implies crumb_name(#[trigger] d[k]) by {
            assert(d[k] == cs[k]);
        }
        assert(d[0] == cs[0]);
        lemma_crumb_pieces_skip_empty(d);
        assert(crumb_name(cs[cs.len() - 1]));
        let l = cs.last();
        assert(l.len() > 0 && l != "."@ && l != ".."@);
        assert(crumb_pieces(cs) == crumb_pieces(d).push(l));
        assert(d.drop_first().push(cs.last()) =~= cs.drop_first());
    }
}

/// A crumb that `PathBuf::push` appends: it has no prefix and does not
/// start with a separator.
pub open spec fn appended_part(p: Seq<char>) -> bool {
    path_prefix(p).0 == 0 && !(p.len() > 0 && path_sep(p[0], false))
}

/// The joined text starts with the first crumb and a `\`.
proof fn lemma_joined_head(cs: Seq<Seq<char>>)
    requires
        cs.len() >= 1,
    ensures
        joined_path(cs).len() > cs[0].len(),
        joined_path(cs).subrange(0, cs[0].len() as int + 1) == cs[0] + seq!['\\'],
    decreases cs.len(),
{
    let n = cs[0].len() as int + 1;
    if cs.len() == 1 {
        assert((cs[0] + seq!['\\']).subrange(0, n) =~= cs[0] + seq!['\\']);
    } else {
        let d = cs.drop_last();
        assert(d[0] == cs[0]);
        lemma_joined_head(d);
        let p = joined_path(d);
        if ends_with_sep(p) {
            assert((p + cs.last()).subrange(0, n) =~= p.subrange(0, n));
        } else {
            assert((p + seq!['\\'] + cs.last()).subrange(0, n) =~= p.subrange(0, n));
        }
    }
}

/// Pushing crumbs that are appended onto paths that are not verbatim joins
/// them as text.
proof fn lemma_crumbs_path_joined(cs: Seq<Seq<char>>)
    requires
        cs.len() >= 1,
        forall|k: int| 1 <= k < cs.len() ==> appended_part(#[trigger] cs[k]),
        forall|k: int|
            1 <= k < cs.len() ==> !verbatim_start(#[trigger] crumbs_path(cs.take(k))) || !verbatim_start(
                joined_path(cs.take(k)),
            ),
    ensures
        crumbs_path(cs) == joined_path(cs),
    decreases cs.len(),
{
    if cs.len() >= 2 {
        let d = cs.drop_last();
        assert forall|k: int| 1 <= k < d.len() implies appended_part(#[trigger] d[k]) by {
            assert(d[k] == cs[k]);
        }
        assert forall|k: int|
            1 <= k < d.len() implies !verbatim_start(#[trigger] crumbs_path(d.take(k))) || !verbatim_start(
                joined_path(d.take(k)),
            ) by {
            assert(d.take(k) == cs.take(k));
        }
        lemma_crumbs_path_joined(d);
        assert(cs.take(cs.len() - 1) == d);
        let base = joined_path(d);
        assert(!verbatim_start(crumbs_path(cs.take(cs.len() - 1))) || !verbatim_start(
            joined_path(cs.take(cs.len() - 1)),
        ));
        assert(!verbatim_start(base));
        assert(!path_prefix(base).1);
        let part = cs.last();
        assert(appended_part(cs[cs.len() - 1]));
        assert(d[0] == cs[0]);
        lemma_joined_head(d);
        let n = cs[0].len() as int;
        assert(base.subrange(0, n + 1)[n] == '\\');
        assert(base[n] == '\\');
        assert(base.len() > 0);
        assert(!(base.len() == 2 && drive_at(base, 0)));
        assert(push_needs_sep(base) == !ends_with_sep(base));
    }
}

/// Breadcrumb navigation is stable: the folder that a click on a crumb
/// opens shows as its breadcrumbs exactly the crumbs up to the one clicked.
/// For crumbs that are folder names (not empty, `.` or `..`, and without
/// `\` or `/`) whose first one is a drive (`C:`) or does not start like one
/// (`C:x` reads as the drive `C:` and the folder `x`), and none of the
/// others starts like a drive (pushing `D:x` replaces the path).
pub proof fn law_crumbs_stable(cs: Seq<Seq<char>>, upto: int)
    requires
        forall|k: int| 0 <= k < cs.len() ==> crumb_name(#[trigger] cs[k]),
        0 <= upto < cs.len(),
        !(cs[0].len() > 2 && drive_at(cs[0], 0)),
        forall|k: int| 1 <= k < cs.len() ==> !drive_at(#[trigger] cs[k], 0),
    ensures
        crumbs_spec(crumbs_path(cs.take(upto + 1))) == cs.take(upto + 1),
{
    let t = cs.take(upto + 1);
    let e = Seq::<char>::empty();
    assert forall|k: int| 0 <= k < t.len() implies crumb_name(#[trigger] t[k]) by {
        assert(t[k] == cs[k]);
    }
    assert(t[0] == cs[0]);
    assert(crumb_name(t[0]));
    assert forall|k: int| 1 <= k < t.len() implies appended_part(#[trigger] t[k]) by {
        assert(t[k] == cs[k]);
        assert(crumb_name(t[k]));
        assert(!drive_at(cs[k], 0));
        if t[k].len() >= 2 {
            assert(!path_sep(t[k][0], false));
        }
    }
    assert forall|k: int|
        1 <= k < t.len() implies !verbatim_start(#[trigger] crumbs_path(t.take(k))) || !verbatim_start(
            joined_path(t.take(k)),
        ) by {
        let tk = t.take(k);
        assert(tk[0] == t[0]);
        lemma_joined_head(tk);
        assert(joined_path(tk).subrange(0, t[0].len() as int + 1)[0] == t[0][0]);
        assert(joined_path(tk)[0] == t[0][0]);
    }
    lemma_crumbs_path_joined(t);
    let path = joined_path(t);
    lemma_joined_path_first(t);
    let u = t.update(0, e);
    let rest = joined_path(u);
    assert(path =~= t[0] + rest);
    assert(path[0] == t[0][0]);
    assert(!path_sep(path[0], false));
    assert(rest.len() >= 1);
    assert(rest[0] == '\\') by {
        lemma_joined_path_starts_sep(u);
    }
    if t[0].len() == 2 && drive_at(t[0], 0) {
        assert(path[1] == t[0][1]);
        assert(drive_at(path, 0));
        assert(path_prefix(path) == (2int, false));
        assert(path.subrange(0, 2) =~= t[0]);
        assert(path.subrange(2, path.len() as int) =~= rest);
        assert forall|k: int| 1 <= k < u.len() implies crumb_name(#[trigger] u[k]) by {
            assert(u[k] == t[k]);
        }
        lemma_split_joined_path(u);
        if t.len() == 1 {
            let ps = seq![e, e];
            let one = seq![e];
            assert(ps.drop_last() =~= one);
            assert(ps.last() == e);
            assert(one.drop_last() =~= Seq::<Seq<char>>::empty());
            assert(one.last() == e);
            assert(crumb_pieces(Seq::<Seq<char>>::empty()) == Seq::<Seq<char>>::empty());
            assert(crumb_pieces(one) == crumb_pieces(one.drop_last()));
            assert(crumb_pieces(ps) == crumb_pieces(one));
            assert(crumb_pieces(ps) =~= Seq::<Seq<char>>::empty());
            assert(seq![t[0]] + Seq::<Seq<char>>::empty() =~= t);
        } else {
            lemma_crumb_pieces_skip_empty(u);
            assert(seq![t[0]] + u.drop_first() =~= t);
        }
    } else {
        if t[0].len() >= 2 {
            assert(path[1] == t[0][1]);
            if t[0].len() == 2 {
                assert(!drive_at(t[0], 0));
            }
            assert(!(('a' <= path[0] <= 'z' || 'A' <= path[0] <= 'Z') && path[1] == ':')) by {
                if ('a' <= path[0] <= 'z' || 'A' <= path[0] <= 'Z') && path[1] == ':' {
                    assert(drive_at(t[0], 0));
                }
            }
        } else {
            assert(path[1] == rest[0]);
        }
        assert(!drive_at(path, 0));
        assert(path_prefix(path) == (0int, false));
        lemma_split_joined_path(t);
        if t.len() == 1 {
            let ps = seq![t[0], e];
            assert(ps.drop_last() =~= seq![t[0]]);
            lemma_crumb_pieces_names(seq![t[0]]);
            assert(crumb_pieces(ps) == crumb_pieces(seq![t[0]]));
        } else {
            lemma_crumb_pieces_names(t);
        }
    }
}


/// The first `k` crumbs joined start all of them joined, and end where a
/// separator ends or comes next.
proof fn lemma_joined_path_prefix(cs: Seq<Seq<char>>, k: int)
    requires
        1 <= k <= cs.len(),
    ensures
        joined_path(cs.take(k)).len() <= joined_path(cs).len(),
        joined_path(cs).subrange(0, joined_path(cs.take(k)).len() as int) == joined_path(cs.take(k)),
        joined_path(cs.take(k)).len() < joined_path(cs).len() ==> ends_with_sep(
            joined_path(cs.take(k)),
        ) || joined_path(cs)[joined_path(cs.take(k)).len() as int] == '\\',
    decreases cs.len(),
{
    let a = joined_path(cs.take(k));
    let b = joined_path(cs);
    if k == cs.len() {
        assert(cs.take(k) =~= cs);
        assert(b.subrange(0, b.len() as int) =~= b);
    } else {
        let d = cs.drop_last();
        lemma_joined_path_prefix(d, k);
        assert(d.take(k) =~= cs.take(k));
        let pp = joined_path(d);
        let q = if ends_with_sep(pp) {
            pp
        } else {
            pp + seq!['\\']
        };
        assert(b =~= q + cs.last());
        assert(b.subrange(0, pp.len() as int) =~= pp);
        assert(b.subrange(0, a.len() as int) =~= pp.subrange(0, a.len() as int));
        if a.len() < b.len() && a.len() < pp.len() {
            assert(b[a.len() as int] == pp[a.len() as int]);
        }
    }
}

/// A crumb click opens an ancestor of the folder shown: the path it
/// rebuilds is the start of the current folder's path and ends at a
/// separator, so the current folder lies below it. For crumbs after the
/// first that are appended (no prefix, no leading separator) onto paths
/// that are not verbatim (`\\?\`).
pub proof fn law_crumb_opens_ancestor(cs: Seq<Seq<char>>, upto: int)
    requires
        0 <= upto < cs.len(),
        forall|k: int| 1 <= k < cs.len() ==> appended_part(#[trigger] cs[k]),
        forall|k: int| 1 <= k < cs.len() ==> !verbatim_start(#[trigger] crumbs_path(cs.take(k))),
    ensures
        crumbs_path(cs).subrange(0, crumbs_path(cs.take(upto + 1)).len() as int) == crumbs_path(
            cs.take(upto + 1),
        ),
        crumbs_path(cs.take(upto + 1)).len() < crumbs_path(cs).len() ==> ends_with_sep(
            crumbs_path(cs.take(upto + 1)),
        ) || crumbs_path(cs)[crumbs_path(cs.take(upto + 1)).len() as int] == '\\',
{
    let t = cs.take(upto + 1);
    assert forall|k: int| 1 <= k < t.len() implies appended_part(#[trigger] t[k]) by {
        assert(t[k] == cs[k]);
    }
    assert forall|k: int|
        1 <= k < t.len() implies !verbatim_start(#[trigger] crumbs_path(t.take(k))) || !verbatim_start(
            joined_path(t.take(k)),
        ) by {
        assert(t.take(k) == cs.take(k));
    }
    lemma_crumbs_path_joined(t);
    lemma_crumbs_path_joined(cs);
    lemma_joined_path_prefix(cs, upto + 1);
}

} // verus!
