//! The INI-like settings text: one `key=value` line per key, keys in
//! order, later lines overriding earlier ones; and the values stored for
//! the theme and the mDNS switch.

use vstd::prelude::*;
use crate::text::{
    chars_of, is_ws, lines_spec, push_char, push_str, split_once_spec, split_once_vec, split_pieces, split_vec,
    string_of, strip_cr, trim_end_spec, trim_spec, trim_start_spec, trim_vec, trimmed, vec_eq_str, Sep, Trim,
    first_index, lemma_first_index, lemma_trim_facts,
};

verus! {

/// Lexicographic order of strings by character code (the byte order of
/// their UTF-8 form, as `String`'s `Ord`).
pub open spec fn lex_lt(a: Seq<char>, b: Seq<char>) -> bool
    decreases a.len(),
{
    if a.len() == 0 {
        b.len() > 0
    } else if b.len() == 0 {
        false
    } else if a[0] < b[0] {
        true
    } else if a[0] > b[0] {
        false
    } else {
        lex_lt(a.drop_first(), b.drop_first())
    }
}

/// Exactly one of `a < b`, `a == b`, `b < a` holds.
pub proof fn lemma_lex_trichotomy(a: Seq<char>, b: Seq<char>)
    ensures
        lex_lt(a, b) || a == b || lex_lt(b, a),
        !(lex_lt(a, b) && lex_lt(b, a)),
        !(lex_lt(a, b) && a == b),
    decreases a.len(),
{
    if a.len() > 0 && b.len() > 0 {
        if a[0] == b[0] {
            lemma_lex_trichotomy(a.drop_first(), b.drop_first());
            if a.drop_first() == b.drop_first() {
                assert(a =~= seq![a[0]] + a.drop_first());
                assert(b =~= seq![b[0]] + b.drop_first());
            }
        }
    } else if a.len() == 0 && b.len() == 0 {
        assert(a =~= b);
    }
}

/// `<` on strings is transitive.
pub proof fn lemma_lex_trans(a: Seq<char>, b: Seq<char>, c: Seq<char>)
    requires
        lex_lt(a, b),
        lex_lt(b, c),
    ensures
        lex_lt(a, c),
    decreases a.len(),
{
    if a.len() > 0 && b.len() > 0 && c.len() > 0 {
        if a[0] == b[0] && b[0] == c[0] {
            lemma_lex_trans(a.drop_first(), b.drop_first(), c.drop_first());
        }
    }
}

/// Compares two strings by `lex_lt`.
pub fn str_lt(a: &Vec<char>, b: &Vec<char>) -> (r: bool)
    ensures
        r == lex_lt(a@, b@),
{
    let mut i: usize = 0;
    assert(a@.subrange(0, a@.len() as int) == a@);
    assert(b@.subrange(0, b@.len() as int) == b@);
    while i < a.len() && i < b.len() && a[i] == b[i]
        invariant
            i <= a@.len(),
            i <= b@.len(),
            lex_lt(a@, b@) == lex_lt(a@.subrange(i as int, a@.len() as int), b@.subrange(i as int, b@.len() as int)),
        decreases a@.len() - i,
    {
        assert(a@.subrange(i as int, a@.len() as int).drop_first() == a@.subrange(i + 1, a@.len() as int));
        assert(b@.subrange(i as int, b@.len() as int).drop_first() == b@.subrange(i + 1, b@.len() as int));
        i = i + 1;
    }
    if i == a.len() {
        i < b.len()
    } else if i == b.len() {
        false
    } else {
        assert(a@.subrange(i as int, a@.len() as int)[0] == a@[i as int]);
        assert(b@.subrange(i as int, b@.len() as int)[0] == b@[i as int]);
        a[i] < b[i]
    }
}

/// Settings entries as plain values, in key order.
pub type Entries = Seq<(Seq<char>, Seq<char>)>;

/// Keys strictly increase.
pub open spec fn sorted_keys(v: Entries) -> bool {
    forall|i: int, j: int| 0 <= i < j < v.len() ==> lex_lt(v[i].0, v[j].0)
}

/// The key-value map of the entries.
pub open spec fn map_of(v: Entries) -> Map<Seq<char>, Seq<char>>
    decreases v.len(),
{
    if v.len() == 0 {
        Map::empty()
    } else {
        map_of(v.drop_last()).insert(v.last().0, v.last().1)
    }
}

/// The settings file's text: `key=value\n` per entry, in order.
pub open spec fn settings_text(v: Entries) -> Seq<char>
    decreases v.len(),
{
    if v.len() == 0 {
        Seq::empty()
    } else {
        settings_text(v.drop_last()) + v.last().0 + seq!['='] + v.last().1 + seq!['\n']
    }
}

/// The key-value pair a settings line holds: both sides of the first `=`,
/// trimmed.
pub open spec fn settings_line(line: Seq<char>) -> Option<(Seq<char>, Seq<char>)> {
    match split_once_spec(line, '=') {
        Some((k, v)) => Some((trim_spec(k, Trim::Whitespace), trim_spec(v, Trim::Whitespace))),
        None => None,
    }
}

/// The map the lines describe; later lines override earlier ones.
pub open spec fn settings_of_lines(ls: Seq<Seq<char>>) -> Map<Seq<char>, Seq<char>>
    decreases ls.len(),
{
    if ls.len() == 0 {
        Map::empty()
    } else {
        let m = settings_of_lines(ls.drop_last());
        match settings_line(ls.last()) {
            Some((k, v)) => m.insert(k, v),
            None => m,
        }
    }
}

/// The settings a settings text holds.
pub open spec fn parse_settings_spec(text: Seq<char>) -> Map<Seq<char>, Seq<char>> {
    settings_of_lines(lines_spec(text))
}

/// The persisted settings, kept in key order.
pub struct Settings {
    entries: Vec<(String, String)>,
}

/// Views of entries.
pub open spec fn entry_views(v: Seq<(String, String)>) -> Entries {
    v.map_values(|e: (String, String)| (e.0@, e.1@))
}

impl View for Settings {
    type V = Entries;

    closed spec fn view(&self) -> Entries {
        entry_views(self.entries@)
    }
}

proof fn lemma_map_of_keys(v: Entries, k: Seq<char>)
    ensures
        map_of(v).contains_key(k) <==> exists|i: int| 0 <= i < v.len() && #[trigger] v[i].0 == k,
    decreases v.len(),
{
    if v.len() > 0 {
        lemma_map_of_keys(v.drop_last(), k);
        if exists|i: int| 0 <= i < v.len() && #[trigger] v[i].0 == k {
            let i = choose|i: int| 0 <= i < v.len() && #[trigger] v[i].0 == k;
            if i < v.len() - 1 {
                assert(v.drop_last()[i].0 == k);
            }
        }
        if exists|i: int| 0 <= i < v.drop_last().len() && #[trigger] v.drop_last()[i].0 == k {
            let i = choose|i: int| 0 <= i < v.drop_last().len() && #[trigger] v.drop_last()[i].0 == k;
            assert(v[i].0 == k);
        }
    }
}

proof fn lemma_map_of_index(v: Entries, i: int)
    requires
        sorted_keys(v),
        0 <= i < v.len(),
    ensures
        map_of(v).contains_key(v[i].0),
        map_of(v)[v[i].0] == v[i].1,
    decreases v.len(),
{
    if i < v.len() - 1 {
        assert(sorted_keys(v.drop_last()));
        lemma_map_of_index(v.drop_last(), i);
        assert(v.drop_last()[i] == v[i]);
        assert(lex_lt(v[i].0, v.last().0));
        lemma_lex_trichotomy(v[i].0, v.last().0);
    }
}

impl Settings {
    /// Keys are in strictly increasing order.
    pub open spec fn wf(&self) -> bool {
        sorted_keys(self@)
    }

    /// No settings.
    pub fn new() -> (s: Self)
        ensures
            s.wf(),
            s@ == Seq::<(Seq<char>, Seq<char>)>::empty(),
    {
        let s = Settings { entries: Vec::new() };
        assert(s@ =~= Seq::<(Seq<char>, Seq<char>)>::empty());
        s
    }

    /// Sets one key, preserving the other keys.
    pub fn set(&mut self, key: &str, value: &str)
        requires
            old(self).wf(),
        ensures
            final(self).wf(),
            map_of(final(self)@) == map_of(old(self)@).insert(key@, value@),
            entries_from(final(self)@, old(self)@, (key@, value@)),
    {
        let k = chars_of(key);
        let ghost v = self@;
        let mut i = self.entries.len();
        while i > 0 && str_lt(&k, &chars_of(self.entries[i - 1].0.as_str()))
            invariant
                i <= self.entries@.len(),
                v == self@,
                v == entry_views(self.entries@),
                k@ == key@,
                forall|j: int| i <= j < v.len() ==> lex_lt(key@, #[trigger] v[j].0),
            decreases i,
        {
            i = i - 1;
        }
        proof {
            lemma_set_position(v, key@, i as int);
        }
        if i > 0 && str_eq_vec(&k, self.entries[i - 1].0.as_str()) {
            self.entries.set(i - 1, (key.to_owned(), value.to_owned()));
            proof {
                lemma_set_update(v, key@, value@, i - 1);
            }
            assert(self@ =~= v.update(i - 1, (key@, value@)));
            assert forall|j: int| 0 <= j < self@.len() implies self@[j] == (key@, value@) || v.contains(
                #[trigger] self@[j],
            ) by {
                if j != i - 1 {
                    assert(self@[j] == v[j]);
                }
            }
        } else {
            self.entries.insert(i, (key.to_owned(), value.to_owned()));
            proof {
                lemma_set_insert(v, key@, value@, i as int);
            }
            assert(self@ =~= v.insert(i as int, (key@, value@)));
            assert forall|j: int| 0 <= j < self@.len() implies self@[j] == (key@, value@) || v.contains(
                #[trigger] self@[j],
            ) by {
                if j < i {
                    assert(self@[j] == v[j]);
                } else if j > i {
                    assert(self@[j] == v[j - 1]);
                }
            }
        }
    }

    /// Reads one key's value, if present.
    pub fn get(&self, key: &str) -> (r: Option<String>)
        requires
            self.wf(),
        ensures
            match r {
                Some(v) => map_of(self@).contains_key(key@) && map_of(self@)[key@] == v@,
                None => !map_of(self@).contains_key(key@),
            },
    {
        let k = chars_of(key);
        for i in 0..self.entries.len()
            invariant
                k@ == key@,
                self.wf(),
                forall|j: int| 0 <= j < i ==> #[trigger] self@[j].0 != key@,
        {
            if str_eq_vec(&k, self.entries[i].0.as_str()) {
                proof {
                    lemma_map_of_index(self@, i as int);
                }
                return Some(self.entries[i].1.clone());
            }
        }
        proof {
            lemma_map_of_keys(self@, key@);
        }
        None
    }

    /// The settings file's text.
    pub fn to_text(&self) -> (text: String)
        ensures
            text@ == settings_text(self@),
    {
        let ghost v = self@;
        let mut text = String::new();
        for i in 0..self.entries.len()
            invariant
                v == self@,
                v == entry_views(self.entries@),
                text@ == settings_text(v.take(i as int)),
        {
            assert(v.take(i + 1).drop_last() == v.take(i as int));
            push_str(&mut text, self.entries[i].0.as_str());
            push_char(&mut text, '=');
            push_str(&mut text, self.entries[i].1.as_str());
            push_char(&mut text, '\n');
            assert(text@ =~= settings_text(v.take(i + 1)));
        }
        assert(v.take(v.len() as int) == v);
        text
    }

    /// Reads a settings text: each line with a `=` sets its trimmed key to
    /// its trimmed value, later lines overriding earlier ones.
    pub fn parse(text: &str) -> (s: Self)
        ensures
            s.wf(),
            map_of(s@) == parse_settings_spec(text@),
            forall|j: int| 0 <= j < s@.len() ==> storable_entry(#[trigger] s@[j]),
    {
        let v = chars_of(text);
        let pieces = split_vec(&v, Sep::One('\n'));
        let ghost ps = pieces@.map_values(|p: Vec<char>| p@);
        proof {
            crate::text::lemma_split_nonempty(v@, Sep::One('\n'));
            crate::text::lemma_split_no_sep(v@, Sep::One('\n'));
        }
        let n = pieces.len();
        let ghost full = Seq::new((ps.len() - 1) as nat, |i: int| strip_cr(ps[i]));
        let ghost ls = lines_spec(text@);
        let mut s = Settings::new();
        let mut i: usize = 0;
        while i < n
            invariant
                n == pieces@.len(),
                n >= 1,
                i <= n,
                ps == pieces@.map_values(|p: Vec<char>| p@),
                ps == split_pieces(text@, Sep::One('\n')),
                full == Seq::new((ps.len() - 1) as nat, |i: int| strip_cr(ps[i])),
                ls == lines_spec(text@),
                ls == (if ps.last().len() > 0 { full.push(ps.last()) } else { full }),
                s.wf(),
                i < n ==> map_of(s@) == settings_of_lines(full.take(i as int)),
                i == n ==> map_of(s@) == settings_of_lines(ls),
                forall|j: int| 0 <= j < s@.len() ==> storable_entry(#[trigger] s@[j]),
                forall|a: int, b: int|
                    0 <= a < ps.len() && 0 <= b < ps[a].len() ==> #[trigger] ps[a][b] != '\n',
            decreases n - i,
        {
            let p = &pieces[i];
            let is_last = i == n - 1;
            if is_last && p.len() == 0 {
                assert(ls == full);
                assert(full.take((n - 1) as int) == full);
                i = i + 1;
                continue;
            }
            let line = if !is_last && p.len() > 0 && p[p.len() - 1] == '\r' {
                crate::text::slice_vec(p, 0, p.len() - 1)
            } else {
                crate::text::slice_vec(p, 0, p.len())
            };
            proof {
                if is_last {
                    assert(full.take((n - 1) as int) == full);
                    assert(ls.drop_last() == full);
                    assert(line@ == ls.last());
                } else {
                    assert(line@ == full[i as int]);
                    assert(full.take(i + 1).drop_last() == full.take(i as int));
                }
            }
            proof {
                assert(ps[i as int] == p@);
                assert forall|b: int| 0 <= b < line@.len() implies #[trigger] line@[b] != '\n' by {
                    assert(line@[b] == ps[i as int][b]);
                }
            }
            match split_once_vec(&line, '=') {
                Some((k, val)) => {
                    let kt = string_of(&trim_vec(&k, Trim::Whitespace, true, true));
                    let vt = string_of(&trim_vec(&val, Trim::Whitespace, true, true));
                    let ghost before = s@;
                    proof {
                        lemma_line_storable(line@);
                    }
                    s.set(kt.as_str(), vt.as_str());
                    assert forall|j: int| 0 <= j < s@.len() implies storable_entry(#[trigger] s@[j]) by {
                        if s@[j] != (kt@, vt@) {
                            let x = choose|x: int| 0 <= x < before.len() && before[x] == s@[j];
                            assert(storable_entry(before[x]));
                        }
                    }
                },
                None => {},
            }
            i = i + 1;
        }
        s
    }
}

/// Whether the characters of `v` are those of `s`.
fn str_eq_vec(v: &Vec<char>, s: &str) -> (r: bool)
    ensures
        r == (v@ == s@),
{
    let w = chars_of(s);
    if v.len() != w.len() {
        return false;
    }
    for i in 0..v.len()
        invariant
            v@.len() == w@.len(),
            w@ == s@,
            forall|k: int| 0 <= k < i ==> v@[k] == w@[k],
    {
        if v[i] != w[i] {
            assert(v@[i as int] != w@[i as int]);
            return false;
        }
    }
    assert(v@ =~= w@);
    true
}

/// Where a key goes: everything from `i` on is greater, so the entry before
/// `i` (if any) is the key itself or smaller.
proof fn lemma_set_position(v: Entries, k: Seq<char>, i: int)
    requires
        sorted_keys(v),
        0 <= i <= v.len(),
        forall|j: int| i <= j < v.len() ==> lex_lt(k, #[trigger] v[j].0),
        i > 0 ==> !lex_lt(k, v[i - 1].0),
    ensures
        forall|j: int| 0 <= j < i - 1 ==> lex_lt(#[trigger] v[j].0, k),
        i > 0 ==> (v[i - 1].0 == k || lex_lt(v[i - 1].0, k)),
{
    if i > 0 {
        lemma_lex_trichotomy(k, v[i - 1].0);
        assert forall|j: int| 0 <= j < i - 1 implies lex_lt(#[trigger] v[j].0, k) by {
            assert(lex_lt(v[j].0, v[i - 1].0));
            if v[i - 1].0 != k {
                lemma_lex_trans(v[j].0, v[i - 1].0, k);
            }
        }
    }
}

proof fn lemma_set_update(v: Entries, k: Seq<char>, val: Seq<char>, p: int)
    requires
        sorted_keys(v),
        0 <= p < v.len(),
        v[p].0 == k,
    ensures
        sorted_keys(v.update(p, (k, val))),
        map_of(v.update(p, (k, val))) == map_of(v).insert(k, val),
{
    let w = v.update(p, (k, val));
    assert forall|a: Seq<char>| #![auto] map_of(w).contains_key(a) == map_of(v).insert(k, val).contains_key(a) by {
        lemma_map_of_keys(w, a);
        lemma_map_of_keys(v, a);
        assert(v[p].0 == k);
        assert(w[p].0 == k);
        if exists|i: int| 0 <= i < v.len() && #[trigger] v[i].0 == a {
            let i = choose|i: int| 0 <= i < v.len() && #[trigger] v[i].0 == a;
            assert(w[i].0 == a);
        }
        if exists|i: int| 0 <= i < w.len() && #[trigger] w[i].0 == a {
            let i = choose|i: int| 0 <= i < w.len() && #[trigger] w[i].0 == a;
            assert(v[i].0 == a);
        }
    }
    assert forall|a: Seq<char>| map_of(w).contains_key(a) implies map_of(w)[a] == map_of(v).insert(k, val)[a] by {
        lemma_map_of_keys(w, a);
        let i = choose|i: int| 0 <= i < w.len() && #[trigger] w[i].0 == a;
        lemma_map_of_index(w, i);
        if i != p {
            lemma_map_of_index(v, i);
            assert(a != k) by {
                if i < p { assert(lex_lt(v[i].0, v[p].0)); } else { assert(lex_lt(v[p].0, v[i].0)); }
                lemma_lex_trichotomy(v[i].0, v[p].0);
            }
        }
    }
    assert(map_of(w) =~= map_of(v).insert(k, val));
}

proof fn lemma_set_insert(v: Entries, k: Seq<char>, val: Seq<char>, p: int)
    requires
        sorted_keys(v),
        0 <= p <= v.len(),
        forall|j: int| p <= j < v.len() ==> lex_lt(k, #[trigger] v[j].0),
        forall|j: int| 0 <= j < p ==> lex_lt(#[trigger] v[j].0, k),
    ensures
        sorted_keys(v.insert(p, (k, val))),
        map_of(v.insert(p, (k, val))) == map_of(v).insert(k, val),
{
    let w = v.insert(p, (k, val));
    assert forall|i: int, j: int| 0 <= i < j < w.len() implies lex_lt(w[i].0, w[j].0) by {
        if j < p {
        } else if j == p {
        } else if i < p {
            lemma_lex_trans(v[i].0, k, v[j - 1].0);
        } else if i == p {
        } else {
        }
    }
    assert forall|a: Seq<char>| #![auto] map_of(w).contains_key(a) == map_of(v).insert(k, val).contains_key(a) by {
        lemma_map_of_keys(w, a);
        lemma_map_of_keys(v, a);
        assert(w[p].0 == k);
        if exists|i: int| 0 <= i < v.len() && #[trigger] v[i].0 == a {
            let i = choose|i: int| 0 <= i < v.len() && #[trigger] v[i].0 == a;
            if i < p { assert(w[i].0 == a); } else { assert(w[i + 1].0 == a); }
        }
        if exists|i: int| 0 <= i < w.len() && #[trigger] w[i].0 == a {
            let i = choose|i: int| 0 <= i < w.len() && #[trigger] w[i].0 == a;
            if i < p { assert(v[i].0 == a); } else if i > p { assert(v[i - 1].0 == a); }
        }
    }
    assert forall|a: Seq<char>| map_of(w).contains_key(a) implies map_of(w)[a] == map_of(v).insert(k, val)[a] by {
        lemma_map_of_keys(w, a);
        let i = choose|i: int| 0 <= i < w.len() && #[trigger] w[i].0 == a;
        lemma_map_of_index(w, i);
        if i < p {
            lemma_map_of_index(v, i);
            lemma_lex_trichotomy(v[i].0, k);
        } else if i > p {
            lemma_map_of_index(v, i - 1);
            lemma_lex_trichotomy(k, v[i - 1].0);
        }
    }
    assert(map_of(w) =~= map_of(v).insert(k, val));
}

// ---------------------------------------------------------------------------

/// Entries that survive the settings file: keys without `=`, neither side
/// with a newline or with surrounding whitespace.
pub open spec fn storable_entry(e: (Seq<char>, Seq<char>)) -> bool {
    &&& forall|i: int| 0 <= i < e.0.len() ==> e.0[i] != '=' && e.0[i] != '\n'
    &&& forall|i: int| 0 <= i < e.1.len() ==> e.1[i] != '\n'
    &&& trim_spec(e.0, Trim::Whitespace) == e.0
    &&& trim_spec(e.1, Trim::Whitespace) == e.1
}

/// Every entry of `after` is `e` or an entry of `before`.
pub open spec fn entries_from(after: Entries, before: Entries, e: (Seq<char>, Seq<char>)) -> bool {
    forall|j: int| 0 <= j < after.len() ==> after[j] == e || before.contains(#[trigger] after[j])
}

/// What a line without a newline sets can be written back.
proof fn lemma_line_storable(line: Seq<char>)
    requires
        forall|b: int| 0 <= b < line.len() ==> #[trigger] line[b] != '\n',
    ensures
        settings_line(line) matches Some(e) ==> storable_entry(e),
{
    lemma_first_index(line, '=');
    if let Some((k, v)) = split_once_spec(line, '=') {
        let i = first_index(line, '=')->0;
        assert(k == line.subrange(0, i));
        assert(v == line.subrange(i + 1, line.len() as int));
        let kt = trim_spec(k, Trim::Whitespace);
        let vt = trim_spec(v, Trim::Whitespace);
        lemma_trim_facts(k, Trim::Whitespace);
        lemma_trim_facts(v, Trim::Whitespace);
        assert forall|a: int| 0 <= a < kt.len() implies kt[a] != '=' && kt[a] != '\n' by {
            let j = choose|j: int| 0 <= j < k.len() && k[j] == #[trigger] kt[a];
            assert(k[j] == line[j]);
        }
        assert forall|a: int| 0 <= a < vt.len() implies vt[a] != '\n' by {
            let j = choose|j: int| 0 <= j < v.len() && v[j] == #[trigger] vt[a];
            assert(v[j] == line[i + 1 + j]);
        }
    }
}

/// A settings line as written: `key=value`.
pub open spec fn entry_line(e: (Seq<char>, Seq<char>)) -> Seq<char> {
    e.0 + seq!['='] + e.1
}

proof fn lemma_trim_start_len(s: Seq<char>, t: Trim)
    ensures
        trim_start_spec(s, t).len() <= s.len(),
        trim_start_spec(s, t).len() == s.len() ==> trim_start_spec(s, t) == s,
    decreases s.len(),
{
    if s.len() > 0 && trimmed(t, s[0]) {
        lemma_trim_start_len(s.drop_first(), t);
    }
}

proof fn lemma_trim_end_len(s: Seq<char>, t: Trim)
    ensures
        trim_end_spec(s, t).len() <= s.len(),
        trim_end_spec(s, t).len() == s.len() ==> trim_end_spec(s, t) == s,
    decreases s.len(),
{
    if s.len() > 0 && trimmed(t, s.last()) {
        lemma_trim_end_len(s.drop_last(), t);
    }
}

/// A trimmed string does not end in whitespace.
proof fn lemma_trimmed_last(s: Seq<char>)
    requires
        trim_spec(s, Trim::Whitespace) == s,
        s.len() > 0,
    ensures
        !is_ws(s.last()),
{
    let a = trim_start_spec(s, Trim::Whitespace);
    lemma_trim_start_len(s, Trim::Whitespace);
    lemma_trim_end_len(a, Trim::Whitespace);
    assert(a == s);
    if is_ws(s.last()) {
        lemma_trim_end_len(s.drop_last(), Trim::Whitespace);
        assert(trim_end_spec(s, Trim::Whitespace) == trim_end_spec(s.drop_last(), Trim::Whitespace));
    }
}

proof fn lemma_entry_line_plain(e: (Seq<char>, Seq<char>))
    requires
        storable_entry(e),
    ensures
        forall|i: int| 0 <= i < entry_line(e).len() ==> entry_line(e)[i] != '\n',
        strip_cr(entry_line(e)) == entry_line(e),
{
    let line = entry_line(e);
    assert forall|i: int| 0 <= i < line.len() implies line[i] != '\n' by {
        if i < e.0.len() {
        } else if i > e.0.len() {
            assert(line[i] == e.1[i - e.0.len() - 1]);
        }
    }
    if e.1.len() > 0 {
        lemma_trimmed_last(e.1);
        assert(line.last() == e.1.last());
    } else {
        assert(line.last() == '=');
    }
}

proof fn lemma_settings_pieces(v: Entries)
    requires
        forall|k: int| 0 <= k < v.len() ==> storable_entry(#[trigger] v[k]),
    ensures
        split_pieces(settings_text(v), Sep::One('\n')) == v.map_values(|e: (Seq<char>, Seq<char>)| entry_line(e)).push(Seq::empty()),
    decreases v.len(),
{
    if v.len() == 0 {
        assert(v.map_values(|e: (Seq<char>, Seq<char>)| entry_line(e)).push(Seq::empty()) =~= seq![Seq::<char>::empty()]);
    } else {
        let v0 = v.drop_last();
        assert forall|k: int| 0 <= k < v0.len() implies storable_entry(#[trigger] v0[k]) by {
            assert(v0[k] == v[k]);
        }
        lemma_settings_pieces(v0);
        let e = v.last();
        assert(storable_entry(v[v.len() - 1]));
        let line = entry_line(e);
        lemma_entry_line_plain(e);
        let t0 = settings_text(v0);
        crate::text::lemma_split_append_plain(t0, line, '\n');
        assert(settings_text(v) =~= (t0 + line).push('\n'));
        let m0 = v0.map_values(|e: (Seq<char>, Seq<char>)| entry_line(e));
        assert(split_pieces(t0 + line, Sep::One('\n')) =~= m0.push(line)) by {
            assert(m0.push(Seq::empty()).last() + line =~= line);
        }
        assert(((t0 + line).push('\n')).drop_last() =~= t0 + line);
        assert(v.map_values(|e: (Seq<char>, Seq<char>)| entry_line(e)) =~= m0.push(line));
    }
}

proof fn lemma_settings_line(e: (Seq<char>, Seq<char>))
    requires
        storable_entry(e),
    ensures
        settings_line(entry_line(e)) == Some(e),
{
    let line = entry_line(e);
    crate::text::lemma_first_index_at(line, '=', e.0.len() as int);
    assert(line.subrange(0, e.0.len() as int) =~= e.0);
    assert(line.subrange(e.0.len() + 1int, line.len() as int) =~= e.1);
}

proof fn lemma_settings_of_lines(v: Entries)
    requires
        forall|k: int| 0 <= k < v.len() ==> storable_entry(#[trigger] v[k]),
    ensures
        settings_of_lines(v.map_values(|e: (Seq<char>, Seq<char>)| entry_line(e))) == map_of(v),
    decreases v.len(),
{
    if v.len() > 0 {
        let v0 = v.drop_last();
        assert forall|k: int| 0 <= k < v0.len() implies storable_entry(#[trigger] v0[k]) by {
            assert(v0[k] == v[k]);
        }
        lemma_settings_of_lines(v0);
        assert(v.map_values(|e: (Seq<char>, Seq<char>)| entry_line(e)).drop_last() =~= v0.map_values(
            |e: (Seq<char>, Seq<char>)| entry_line(e),
        ));
        assert(storable_entry(v[v.len() - 1]));
        lemma_settings_line(v.last());
    } else {
        assert(v.map_values(|e: (Seq<char>, Seq<char>)| entry_line(e)) =~= Seq::<Seq<char>>::empty());
    }
}

/// Writing settings and reading the text back gives the same key-value
/// map, for keys without `=` and entries without newlines or surrounding
/// whitespace.
pub proof fn law_settings_roundtrip(v: Entries)
    requires
        forall|k: int| 0 <= k < v.len() ==> storable_entry(#[trigger] v[k]),
    ensures
        parse_settings_spec(settings_text(v)) == map_of(v),
{
    lemma_settings_pieces(v);
    let ps = split_pieces(settings_text(v), Sep::One('\n'));
    let m = v.map_values(|e: (Seq<char>, Seq<char>)| entry_line(e));
    let full = Seq::new((ps.len() - 1) as nat, |i: int| strip_cr(ps[i]));
    assert forall|i: int| 0 <= i < m.len() implies strip_cr(ps[i]) == m[i] by {
        assert(storable_entry(v[i]));
        lemma_entry_line_plain(v[i]);
    }
    assert(full =~= m);
    assert(lines_spec(settings_text(v)) == full);
    lemma_settings_of_lines(v);
}

/// Setting a key and then reading the settings file back gives the value
/// set for that key, and every other key as it was stored before: `set`,
/// the file's text, and reading the text agree. For entries that survive
/// the file (keys without `=`, no newlines, no surrounding whitespace).
pub proof fn law_settings_file_get_after_set(
    before: Entries,
    after: Entries,
    key: Seq<char>,
    value: Seq<char>,
    other: Seq<char>,
)
    requires
        sorted_keys(before),
        sorted_keys(after),
        forall|k: int| 0 <= k < before.len() ==> storable_entry(#[trigger] before[k]),
        storable_entry((key, value)),
        map_of(after) == map_of(before).insert(key, value),
        other != key,
    ensures
        parse_settings_spec(settings_text(after)).contains_key(key),
        parse_settings_spec(settings_text(after))[key] == value,
        parse_settings_spec(settings_text(after)).contains_key(other) == map_of(before).contains_key(
            other,
        ),
        map_of(before).contains_key(other) ==> parse_settings_spec(settings_text(after))[other]
            == map_of(before)[other],
{
    assert forall|k: int| 0 <= k < after.len() implies storable_entry(#[trigger] after[k]) by {
        lemma_map_of_index(after, k);
        let a = after[k].0;
        if a != key {
            lemma_map_of_keys(before, a);
            let i = choose|i: int| 0 <= i < before.len() && #[trigger] before[i].0 == a;
            lemma_map_of_index(before, i);
            assert(storable_entry(before[i]));
            assert(after[k] == before[i]);
        } else {
            assert(after[k] == (key, value));
        }
    }
    law_settings_roundtrip(after);
}

/// Setting a key and reading it back gives the value set; every other key
/// reads as before.
pub proof fn law_settings_get_after_set(before: Entries, after: Entries, key: Seq<char>, value: Seq<char>, other: Seq<char>)
    requires
        map_of(after) == map_of(before).insert(key, value),
        other != key,
    ensures
        map_of(after).contains_key(key),
        map_of(after)[key] == value,
        map_of(after).contains_key(other) == map_of(before).contains_key(other),
        map_of(before).contains_key(other) ==> map_of(after)[other] == map_of(before)[other],
{
}

/// The requested app theme.
#[derive(Clone, Copy, Debug, PartialEq, Eq, Structural)]
pub enum Theme {
    /// Follow the system setting.
    System,
    Light,
    Dark,
}

/// The stored value of a theme.
pub fn theme_value(theme: Theme) -> (r: &'static str)
    ensures
        r@ == (match theme {
            Theme::Light => "light"@,
            Theme::Dark => "dark"@,
            Theme::System => "system"@,
        }),
{
    match theme {
        Theme::Light => "light",
        Theme::Dark => "dark",
        Theme::System => "system",
    }
}

/// The theme a stored value selects; anything else follows the system.
pub open spec fn theme_of_spec(value: Option<Seq<char>>) -> Theme {
    match value {
        Some(v) => if v == "light"@ {
            Theme::Light
        } else if v == "dark"@ {
            Theme::Dark
        } else {
            Theme::System
        },
        None => Theme::System,
    }
}

/// The theme a stored value selects.
pub fn theme_of(value: Option<&str>) -> (t: Theme)
    ensures
        t == theme_of_spec(match value {
            Some(v) => Some(v@),
            None => None,
        }),
{
    match value {
        Some(v) => {
            let c = chars_of(v);
            if vec_eq_str(&c, "light") {
                Theme::Light
            } else if vec_eq_str(&c, "dark") {
                Theme::Dark
            } else {
                Theme::System
            }
        },
        None => Theme::System,
    }
}

/// Persists the requested theme ("system" / "light" / "dark").
pub fn save_theme(settings: &mut Settings, theme: Theme)
    requires
        old(settings).wf(),
    ensures
        final(settings).wf(),
        map_of(final(settings)@) == map_of(old(settings)@).insert("theme"@, theme_value_spec(theme)),
{
    settings.set("theme", theme_value(theme));
}

/// The stored value of a theme.
pub open spec fn theme_value_spec(theme: Theme) -> Seq<char> {
    match theme {
        Theme::Light => "light"@,
        Theme::Dark => "dark"@,
        Theme::System => "system"@,
    }
}

/// Loads the saved theme, defaulting to follow-system.
pub fn load_theme(settings: &Settings) -> (t: Theme)
    requires
        settings.wf(),
    ensures
        t == theme_of_spec(stored(settings@, "theme"@)),
{
    match settings.get("theme") {
        Some(v) => theme_of(Some(v.as_str())),
        None => theme_of(None),
    }
}

/// The value stored for a key, if any.
pub open spec fn stored(v: Entries, key: Seq<char>) -> Option<Seq<char>> {
    if map_of(v).contains_key(key) {
        Some(map_of(v)[key])
    } else {
        None
    }
}

/// The stored value of the mDNS switch.
pub open spec fn mdns_value_spec(enabled: bool) -> Seq<char> {
    if enabled {
        "1"@
    } else {
        "0"@
    }
}

/// The mDNS switch a stored value gives: on unless stored as `0`.
pub open spec fn mdns_of_spec(value: Option<Seq<char>>) -> bool {
    value != Some("0"@)
}

/// Persists the mDNS discovery toggle ("1" on / "0" off).
pub fn save_mdns_enabled(settings: &mut Settings, enabled: bool)
    requires
        old(settings).wf(),
    ensures
        final(settings).wf(),
        map_of(final(settings)@) == map_of(old(settings)@).insert("mdns_enabled"@, mdns_value_spec(enabled)),
{
    settings.set("mdns_enabled", if enabled { "1" } else { "0" });
}

/// Loads the mDNS toggle: on unless stored as "0".
pub fn load_mdns_enabled(settings: &Settings) -> (on: bool)
    requires
        settings.wf(),
    ensures
        on == mdns_of_spec(stored(settings@, "mdns_enabled"@)),
{
    match settings.get("mdns_enabled") {
        Some(v) => {
            let c = chars_of(v.as_str());
            !vec_eq_str(&c, "0")
        },
        None => true,
    }
}

/// The theme picker's label for a theme.
pub open spec fn theme_label_spec(theme: Theme) -> Seq<char> {
    match theme {
        Theme::Light => "Light"@,
        Theme::Dark => "Dark"@,
        Theme::System => "System"@,
    }
}

/// The theme a picker label selects; any other label follows the system.
pub open spec fn theme_from_label_spec(label: Seq<char>) -> Theme {
    if label == "Light"@ {
        Theme::Light
    } else if label == "Dark"@ {
        Theme::Dark
    } else {
        Theme::System
    }
}

/// The theme picker's label for a theme.
pub fn theme_label(theme: Theme) -> (r: &'static str)
    ensures
        r@ == theme_label_spec(theme),
{
    match theme {
        Theme::Light => "Light",
        Theme::Dark => "Dark",
        Theme::System => "System",
    }
}

/// The theme a picker label selects; any other label follows the system.
pub fn theme_from_label(label: &str) -> (t: Theme)
    ensures
        t == theme_from_label_spec(label@),
{
    let c = chars_of(label);
    if vec_eq_str(&c, "Light") {
        Theme::Light
    } else if vec_eq_str(&c, "Dark") {
        Theme::Dark
    } else {
        Theme::System
    }
}

/// Remembers the last folder opened, so a later launch resumes there.
pub fn save_last_folder(settings: &mut Settings, path: &str)
    requires
        old(settings).wf(),
    ensures
        final(settings).wf(),
        map_of(final(settings)@) == map_of(old(settings)@).insert("last_folder"@, path@),
{
    settings.set("last_folder", path);
}

/// The last folder opened, if one was saved.
pub fn load_last_folder(settings: &Settings) -> (r: Option<String>)
    requires
        settings.wf(),
    ensures
        match r {
            Some(v) => map_of(settings@).contains_key("last_folder"@) && map_of(settings@)["last_folder"@]
                == v@,
            None => !map_of(settings@).contains_key("last_folder"@),
        },
{
    settings.get("last_folder")
}

/// Loading the theme that was saved gives it back.
pub proof fn law_theme_roundtrip(theme: Theme)
    ensures
        theme_of_spec(Some(theme_value_spec(theme))) == theme,
{
    reveal_strlit("light");
    reveal_strlit("dark");
    reveal_strlit("system");
    assert("light"@.len() == 5 && "dark"@.len() == 4 && "system"@.len() == 6);
}

/// Loading the mDNS switch that was saved gives it back.
pub proof fn law_mdns_roundtrip(enabled: bool)
    ensures
        mdns_of_spec(Some(mdns_value_spec(enabled))) == enabled,
{
    reveal_strlit("1");
    reveal_strlit("0");
    assert("1"@[0] != "0"@[0]);
}

/// The theme picker's label selects the theme it names.
pub proof fn law_theme_label_roundtrip(theme: Theme)
    ensures
        theme_from_label_spec(theme_label_spec(theme)) == theme,
{
    reveal_strlit("Light");
    reveal_strlit("Dark");
    reveal_strlit("System");
    assert("Light"@.len() == 5 && "Dark"@.len() == 4 && "System"@.len() == 6);
}

} // verus!
