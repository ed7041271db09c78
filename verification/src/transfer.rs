//! Transfer bookkeeping: in-progress transfers with byte counts, the
//! persisted transfer history, and the rows the Transfer page lists.

use vstd::prelude::*;
use crate::text::{
    chars_of, lines_spec, push_char, push_str, slice_vec, split_once_spec, split_once_vec,
    split_pieces, split_vec, string_of, strip_cr, vec_eq_str, Sep,
};

verus! {

// ---------------------------------------------------------------------------
// In-progress transfers
// ---------------------------------------------------------------------------

/// One in-progress transfer.
#[derive(Clone, Debug, PartialEq)]
pub struct TransferProgress {
    pub name: String,
    /// `true` for an upload (this app -> peer), `false` for a download.
    pub is_upload: bool,
    /// Bytes transferred so far.
    pub done: u64,
    /// Total bytes for the transfer.
    pub total: u64,
}

/// A transfer as plain values: name, direction, done, total.
pub type ProgressView = (Seq<char>, bool, u64, u64);

/// Views of a list of transfers.
pub open spec fn progress_views(v: Seq<TransferProgress>) -> Seq<ProgressView> {
    v.map_values(|t: TransferProgress| (t.name@, t.is_upload, t.done, t.total))
}

/// Index of the transfer named `name`.
pub open spec fn find_name(v: Seq<ProgressView>, name: Seq<char>) -> Option<int>
    decreases v.len(),
{
    if v.len() == 0 {
        None
    } else {
        match find_name(v.drop_last(), name) {
            Some(i) => Some(i),
            None => if v.last().0 == name {
                Some(v.len() - 1)
            } else {
                None
            },
        }
    }
}

/// No two transfers share a name.
pub open spec fn unique_names(v: Seq<ProgressView>) -> bool {
    forall|i: int, j: int| 0 <= i < v.len() && 0 <= j < v.len() && i != j ==> v[i].0 != v[j].0
}

/// The in-progress transfers, keyed by name.
pub struct TransferTable {
    entries: Vec<TransferProgress>,
}

impl View for TransferTable {
    type V = Seq<ProgressView>;

    closed spec fn view(&self) -> Seq<ProgressView> {
        progress_views(self.entries@)
    }
}

/// What `find_name` reports.
pub proof fn lemma_find_name(v: Seq<ProgressView>, name: Seq<char>)
    ensures
        match find_name(v, name) {
            Some(i) => 0 <= i < v.len() && v[i].0 == name,
            None => forall|j: int| 0 <= j < v.len() ==> v[j].0 != name,
        },
    decreases v.len(),
{
    if v.len() > 0 {
        lemma_find_name(v.drop_last(), name);
        match find_name(v.drop_last(), name) {
            Some(i) => {
                assert(v[i] == v.drop_last()[i]);
            },
            None => {
                assert forall|j: int| 0 <= j < v.len() - 1 implies v[j].0 != name by {
                    assert(v[j] == v.drop_last()[j]);
                }
            },
        }
    }
}

/// The table after `start`: the entry for `name` set to (direction, 0, total).
pub open spec fn start_spec(v: Seq<ProgressView>, name: Seq<char>, is_upload: bool, total: u64) -> Seq<ProgressView> {
    match find_name(v, name) {
        Some(i) => v.update(i, (name, is_upload, 0u64, total)),
        None => v.push((name, is_upload, 0u64, total)),
    }
}

/// The table after `update`: the entry for `name`, if any, gets new counts
/// and keeps its direction.
pub open spec fn update_spec(v: Seq<ProgressView>, name: Seq<char>, done: u64, total: u64) -> Seq<ProgressView> {
    match find_name(v, name) {
        Some(i) => v.update(i, (name, v[i].1, done, total)),
        None => v,
    }
}

/// The table after `finish`: the entry for `name`, if any, removed.
pub open spec fn finish_spec(v: Seq<ProgressView>, name: Seq<char>) -> Seq<ProgressView> {
    match find_name(v, name) {
        Some(i) => v.remove(i),
        None => v,
    }
}

impl TransferTable {
    /// Names are unique.
    pub closed spec fn wf(&self) -> bool {
        unique_names(self@)
    }

    /// An empty table.
    pub fn new() -> (t: Self)
        ensures
            t.wf(),
            t@ == Seq::<ProgressView>::empty(),
    {
        let t = TransferTable { entries: Vec::new() };
        assert(t@ =~= Seq::<ProgressView>::empty());
        t
    }

    fn find(&self, name: &str) -> (r: Option<usize>)
        ensures
            match r {
                Some(i) => find_name(self@, name@) == Some(i as int),
                None => find_name(self@, name@) is None,
            },
    {
        let ghost views = self@;
        for i in 0..self.entries.len()
            invariant
                views == self@,
                views == progress_views(self.entries@),
                find_name(views.take(i as int), name@) is None,
        {
            assert(views.take(i + 1).drop_last() == views.take(i as int));
            if str_equal(self.entries[i].name.as_str(), name) {
                assert(find_name(views.take(i + 1), name@) == Some(i as int));
                proof {
                    lemma_find_name_grow(views, name@, i + 1);
                }
                return Some(i);
            }
        }
        assert(views.take(self.entries.len() as int) == views);
        None
    }

    /// Registers `name` as starting a transfer of `total` bytes.
    pub fn start(&mut self, name: &str, is_upload: bool, total: u64)
        requires
            old(self).wf(),
        ensures
            final(self).wf(),
            final(self)@ == start_spec(old(self)@, name@, is_upload, total),
    {
        proof {
            lemma_find_name(self@, name@);
        }
        let e = TransferProgress { name: name.to_owned(), is_upload, done: 0, total };
        match self.find(name) {
            Some(i) => {
                self.entries.set(i, e);
            },
            None => {
                self.entries.push(e);
            },
        }
        assert(self@ =~= start_spec(old(self)@, name@, is_upload, total));
        proof {
            let w = self@;
            assert forall|a: int, b: int| 0 <= a < w.len() && 0 <= b < w.len() && a != b implies w[a].0 != w[b].0 by {
                if a < old(self)@.len() && b < old(self)@.len() {
                }
            }
        }
    }

    /// Updates `name`'s byte counts, preserving its direction.
    pub fn update(&mut self, name: &str, done: u64, total: u64)
        requires
            old(self).wf(),
        ensures
            final(self).wf(),
            final(self)@ == update_spec(old(self)@, name@, done, total),
    {
        proof {
            lemma_find_name(self@, name@);
        }
        match self.find(name) {
            Some(i) => {
                let is_upload = self.entries[i].is_upload;
                let e = TransferProgress { name: name.to_owned(), is_upload, done, total };
                self.entries.set(i, e);
                assert(self@ =~= update_spec(old(self)@, name@, done, total));
            },
            None => {},
        }
    }

    /// Removes `name` (transfer finished or failed).
    pub fn finish(&mut self, name: &str)
        requires
            old(self).wf(),
        ensures
            final(self).wf(),
            final(self)@ == finish_spec(old(self)@, name@),
    {
        proof {
            lemma_find_name(self@, name@);
        }
        match self.find(name) {
            Some(i) => {
                self.entries.remove(i);
                assert(self@ =~= finish_spec(old(self)@, name@));
                proof {
                    let w = self@;
                    let v = old(self)@;
                    assert forall|a: int, b: int| 0 <= a < w.len() && 0 <= b < w.len() && a != b implies w[a].0 != w[b].0 by {
                        let a2 = if a < i { a } else { a + 1 };
                        let b2 = if b < i { b } else { b + 1 };
                        assert(w[a] == v[a2]);
                        assert(w[b] == v[b2]);
                    }
                }
            },
            None => {},
        }
    }

    /// The current snapshot pushed to the UI.
    pub fn snapshot(&self) -> (v: Vec<TransferProgress>)
        ensures
            progress_views(v@) == self@,
    {
        let mut v: Vec<TransferProgress> = Vec::new();
        for i in 0..self.entries.len()
            invariant
                progress_views(v@) == progress_views(self.entries@).take(i as int),
        {
            let e = &self.entries[i];
            let ghost before = progress_views(v@);
            v.push(TransferProgress { name: e.name.clone(), is_upload: e.is_upload, done: e.done, total: e.total });
            assert(progress_views(v@) =~= before.push((e.name@, e.is_upload, e.done, e.total)));
            assert(progress_views(self.entries@).take(i + 1) =~= progress_views(self.entries@).take(i as int).push(progress_views(self.entries@)[i as int]));
        }
        assert(progress_views(self.entries@).take(self.entries@.len() as int) == progress_views(self.entries@));
        v
    }
}

/// Once a prefix contains the name, longer prefixes report the same index.
pub proof fn lemma_find_name_grow(v: Seq<ProgressView>, name: Seq<char>, n: int)
    requires
        0 < n <= v.len(),
        find_name(v.take(n), name) is Some,
    ensures
        find_name(v, name) == find_name(v.take(n), name),
    decreases v.len() - n,
{
    if n < v.len() {
        assert(v.take(n + 1).drop_last() == v.take(n));
        lemma_find_name_grow(v, name, n + 1);
    } else {
        assert(v.take(n) == v);
    }
}

/// Whether two strings are equal.
pub fn str_equal(a: &str, b: &str) -> (r: bool)
    ensures
        r == (a@ == b@),
{
    let va = chars_of(a);
    let vb = chars_of(b);
    if va.len() != vb.len() {
        return false;
    }
    for i in 0..va.len()
        invariant
            va@.len() == vb@.len(),
            va@ == a@,
            vb@ == b@,
            forall|k: int| 0 <= k < i ==> va@[k] == vb@[k],
    {
        if va[i] != vb[i] {
            assert(va@[i as int] != vb@[i as int]);
            return false;
        }
    }
    assert(va@ =~= vb@);
    true
}

// ---------------------------------------------------------------------------
// History
// ---------------------------------------------------------------------------

/// Direction of a transfer history entry.
#[derive(Clone, Copy, Debug, PartialEq, Eq, Structural)]
pub enum TransferDirection {
    Uploaded,
    Downloaded,
}

impl TransferDirection {
    /// Leading glyph (Segoe Fluent Icons) shown on the history row.
    pub fn icon(&self) -> (r: &'static str)
        ensures
            r@ == (match self {
                TransferDirection::Uploaded => "\u{E898}"@,
                TransferDirection::Downloaded => "\u{E896}"@,
            }),
    {
        match self {
            TransferDirection::Uploaded => "\u{E898}",
            TransferDirection::Downloaded => "\u{E896}",
        }
    }

    /// Short stable tag used for list keys and the history file.
    pub fn tag(&self) -> (r: &'static str)
        ensures
            r@ == tag_spec(*self),
    {
        match self {
            TransferDirection::Uploaded => "up",
            TransferDirection::Downloaded => "down",
        }
    }
}

/// The history-file tag of a direction.
pub open spec fn tag_spec(d: TransferDirection) -> Seq<char> {
    match d {
        TransferDirection::Uploaded => "up"@,
        TransferDirection::Downloaded => "down"@,
    }
}

/// One entry in the transfer history.
#[derive(Clone, Debug, PartialEq)]
pub struct TransferRecord {
    pub name: String,
    pub direction: TransferDirection,
}

/// A history entry as plain values.
pub type RecordView = (Seq<char>, TransferDirection);

/// Views of a history.
pub open spec fn record_views(v: Seq<TransferRecord>) -> Seq<RecordView> {
    v.map_values(|r: TransferRecord| (r.name@, r.direction))
}

/// The history file's text: one `<name>\t<up|down>\n` line per record.
pub open spec fn history_text(h: Seq<RecordView>) -> Seq<char>
    decreases h.len(),
{
    if h.len() == 0 {
        Seq::empty()
    } else {
        history_text(h.drop_last()) + h.last().0 + seq!['\t'] + tag_spec(h.last().1) + seq!['\n']
    }
}

/// Serializes the history for the history file.
pub fn save_history(history: &Vec<TransferRecord>) -> (text: String)
    ensures
        text@ == history_text(record_views(history@)),
{
    let ghost views = record_views(history@);
    let mut text = String::new();
    for i in 0..history.len()
        invariant
            views == record_views(history@),
            text@ == history_text(views.take(i as int)),
    {
        assert(views.take(i + 1).drop_last() == views.take(i as int));
        let r = &history[i];
        push_str(&mut text, r.name.as_str());
        push_char(&mut text, '\t');
        push_str(&mut text, r.direction.tag());
        push_char(&mut text, '\n');
        assert(text@ =~= history_text(views.take(i + 1)));
    }
    assert(views.take(history.len() as int) == views);
    text
}

/// The record a history line holds: `<name>\t<tag>` with the known tags.
pub open spec fn history_line(line: Seq<char>) -> Option<RecordView> {
    match split_once_spec(line, '\t') {
        Some((name, tag)) => if tag == "up"@ {
            Some((name, TransferDirection::Uploaded))
        } else if tag == "down"@ {
            Some((name, TransferDirection::Downloaded))
        } else {
            None
        },
        None => None,
    }
}

/// The records of the lines, in order, skipping unreadable lines.
pub open spec fn history_of_lines(ls: Seq<Seq<char>>) -> Seq<RecordView>
    decreases ls.len(),
{
    if ls.len() == 0 {
        Seq::empty()
    } else {
        let w = history_of_lines(ls.drop_last());
        match history_line(ls.last()) {
            Some(r) => w.push(r),
            None => w,
        }
    }
}

/// The history a history file's text holds.
pub open spec fn load_history_spec(text: Seq<char>) -> Seq<RecordView> {
    history_of_lines(lines_spec(text))
}

fn line_record(line: &Vec<char>) -> (r: Option<TransferRecord>)
    ensures
        match r {
            Some(rec) => history_line(line@) == Some((rec.name@, rec.direction)),
            None => history_line(line@) is None,
        },
{
    match split_once_vec(line, '\t') {
        Some((name, tag)) => {
            if vec_eq_str(&tag, "up") {
                Some(TransferRecord { name: string_of(&name), direction: TransferDirection::Uploaded })
            } else if vec_eq_str(&tag, "down") {
                Some(TransferRecord { name: string_of(&name), direction: TransferDirection::Downloaded })
            } else {
                None
            }
        },
        None => None,
    }
}

/// Parses the transfer history saved by a previous launch.
pub fn load_history(text: &str) -> (h: Vec<TransferRecord>)
    ensures
        record_views(h@) == load_history_spec(text@),
{
    let v = chars_of(text);
    let pieces = split_vec(&v, Sep::One('\n'));
    let ghost ps = pieces@.map_values(|p: Vec<char>| p@);
    proof {
        crate::text::lemma_split_nonempty(v@, Sep::One('\n'));
    }
    let n = pieces.len();
    let ghost full = Seq::new((ps.len() - 1) as nat, |i: int| strip_cr(ps[i]));
    let mut h: Vec<TransferRecord> = Vec::new();
    for i in 0..n - 1
        invariant
            n == pieces@.len(),
            n >= 1,
            ps == pieces@.map_values(|p: Vec<char>| p@),
            full == Seq::new((ps.len() - 1) as nat, |i: int| strip_cr(ps[i])),
            record_views(h@) == history_of_lines(full.take(i as int)),
    {
        assert(full.take(i + 1).drop_last() == full.take(i as int));
        let p = &pieces[i];
        let line = if p.len() > 0 && p[p.len() - 1] == '\r' {
            slice_vec(p, 0, p.len() - 1)
        } else {
            slice_vec(p, 0, p.len())
        };
        assert(line@ == strip_cr(ps[i as int]));
        match line_record(&line) {
            Some(rec) => {
                let ghost before = record_views(h@);
                h.push(rec);
                assert(record_views(h@) =~= before.push((rec.name@, rec.direction)));
            },
            None => {},
        }
    }
    assert(full.take((n - 1) as int) == full);
    let last = &pieces[n - 1];
    assert(ps.last() == last@);
    if last.len() > 0 {
        assert(full.push(last@).drop_last() == full);
        match line_record(last) {
            Some(rec) => {
                let ghost before = record_views(h@);
                h.push(rec);
                assert(record_views(h@) =~= before.push((rec.name@, rec.direction)));
            },
            None => {},
        }
    }
    h
}

// ---------------------------------------------------------------------------
// Rows of the Transfer page
// ---------------------------------------------------------------------------

/// A row shown in a transfer list: a completed record or an in-progress
/// transfer with its (done, total) byte counts.
#[derive(Clone, Debug, PartialEq)]
pub struct Row {
    pub name: String,
    pub direction: TransferDirection,
    pub progress: Option<(u64, u64)>,
}

/// A row as plain values.
pub type RowView = (Seq<char>, TransferDirection, Option<(u64, u64)>);

/// Views of rows.
pub open spec fn row_views(v: Seq<Row>) -> Seq<RowView> {
    v.map_values(|r: Row| (r.name@, r.direction, r.progress))
}

/// The direction of an in-progress transfer.
pub open spec fn dir_of(is_upload: bool) -> TransferDirection {
    if is_upload {
        TransferDirection::Uploaded
    } else {
        TransferDirection::Downloaded
    }
}

/// Whether a direction passes the optional filter.
pub open spec fn dir_matches(filter: Option<TransferDirection>, d: TransferDirection) -> bool {
    match filter {
        Some(f) => f == d,
        None => true,
    }
}

/// Rows of the in-progress transfers that pass the filter.
pub open spec fn progress_rows(t: Seq<ProgressView>, filter: Option<TransferDirection>) -> Seq<RowView>
    decreases t.len(),
{
    if t.len() == 0 {
        Seq::empty()
    } else {
        let w = progress_rows(t.drop_last(), filter);
        let e = t.last();
        if dir_matches(filter, dir_of(e.1)) {
            w.push((e.0, dir_of(e.1), Some((e.2, e.3))))
        } else {
            w
        }
    }
}

/// Whether a record is also listed as an in-progress transfer (same name
/// and direction).
pub open spec fn in_progress(t: Seq<ProgressView>, r: RecordView) -> bool {
    exists|i: int| 0 <= i < t.len() && #[trigger] t[i].0 == r.0 && dir_of(t[i].1) == r.1
}

/// Rows of the completed records that pass the filter and are not in progress.
pub open spec fn history_rows(h: Seq<RecordView>, t: Seq<ProgressView>, filter: Option<TransferDirection>) -> Seq<RowView>
    decreases h.len(),
{
    if h.len() == 0 {
        Seq::empty()
    } else {
        let w = history_rows(h.drop_last(), t, filter);
        let r = h.last();
        if dir_matches(filter, r.1) && !in_progress(t, r) {
            w.push((r.0, r.1, None))
        } else {
            w
        }
    }
}

/// Combines in-progress transfers (with progress) and completed history
/// into the rows for one list, optionally filtered by direction.
pub fn make_rows(
    history: &Vec<TransferRecord>,
    transfers: &Vec<TransferProgress>,
    direction: Option<TransferDirection>,
) -> (rows: Vec<Row>)
    ensures
        row_views(rows@) == progress_rows(progress_views(transfers@), direction) + history_rows(
            record_views(history@),
            progress_views(transfers@),
            direction,
        ),
{
    let ghost tv = progress_views(transfers@);
    let ghost hv = record_views(history@);
    let mut rows: Vec<Row> = Vec::new();
    for i in 0..transfers.len()
        invariant
            tv == progress_views(transfers@),
            row_views(rows@) == progress_rows(tv.take(i as int), direction),
    {
        assert(tv.take(i + 1).drop_last() == tv.take(i as int));
        let t = &transfers[i];
        let dir = if t.is_upload { TransferDirection::Uploaded } else { TransferDirection::Downloaded };
        let keep = match direction {
            Some(f) => f == dir,
            None => true,
        };
        if keep {
            let ghost before = row_views(rows@);
            rows.push(Row { name: t.name.clone(), direction: dir, progress: Some((t.done, t.total)) });
            assert(row_views(rows@) =~= before.push((t.name@, dir, Some((t.done, t.total)))));
        }
    }
    assert(tv.take(transfers.len() as int) == tv);
    let ghost head = row_views(rows@);
    assert(head + history_rows(hv.take(0), tv, direction) =~= head);
    for i in 0..history.len()
        invariant
            tv == progress_views(transfers@),
            hv == record_views(history@),
            row_views(rows@) == head + history_rows(hv.take(i as int), tv, direction),
    {
        assert(hv.take(i + 1).drop_last() == hv.take(i as int));
        let r = &history[i];
        let keep = match direction {
            Some(f) => f == r.direction,
            None => true,
        };
        let mut listed = false;
        for j in 0..transfers.len()
            invariant
                tv == progress_views(transfers@),
                listed == (exists|k: int| 0 <= k < j && #[trigger] tv[k].0 == r.name@ && dir_of(tv[k].1) == r.direction),
        {
            let t = &transfers[j];
            let dir = if t.is_upload { TransferDirection::Uploaded } else { TransferDirection::Downloaded };
            if str_equal(t.name.as_str(), r.name.as_str()) && dir == r.direction {
                assert(tv[j as int].0 == r.name@);
                listed = true;
            }
        }
        if keep && !listed {
            let ghost before = row_views(rows@);
            rows.push(Row { name: r.name.clone(), direction: r.direction, progress: None });
            assert(row_views(rows@) =~= before.push((r.name@, r.direction, None)));
        }
        assert(row_views(rows@) =~= head + history_rows(hv.take(i + 1), tv, direction));
    }
    assert(hv.take(history.len() as int) == hv);
    rows
}

// ---------------------------------------------------------------------------
// History persistence law
// ---------------------------------------------------------------------------
// The Transfer page
// ---------------------------------------------------------------------------

/// The direction a Transfer sub-tab lists: `downloads`, `uploads`, or all.
pub fn tab_filter(tab: &str) -> (r: Option<TransferDirection>)
    ensures
        r == (if tab@ == "downloads"@ {
            Some(TransferDirection::Downloaded)
        } else if tab@ == "uploads"@ {
            Some(TransferDirection::Uploaded)
        } else {
            None::<TransferDirection>
        }),
{
    let t = chars_of(tab);
    if vec_eq_str(&t, "downloads") {
        Some(TransferDirection::Downloaded)
    } else if vec_eq_str(&t, "uploads") {
        Some(TransferDirection::Uploaded)
    } else {
        None
    }
}

/// A row's list key: `in-` or `done-`, the name, `#` and the direction tag.
pub fn row_key(row: &Row) -> (k: String)
    ensures
        k@ == (if row.progress is Some {
            "in"@
        } else {
            "done"@
        }) + seq!['-'] + row.name@ + seq!['#'] + tag_spec(row.direction),
{
    let mut s = String::new();
    if row.progress.is_some() {
        push_str(&mut s, "in");
    } else {
        push_str(&mut s, "done");
    }
    push_char(&mut s, '-');
    push_str(&mut s, row.name.as_str());
    push_char(&mut s, '#');
    push_str(&mut s, row.direction.tag());
    s
}

/// A change to the transfer history.
#[derive(Clone, Debug, PartialEq)]
pub enum TransferAction {
    /// A file was sent to a device.
    MarkUploaded(String),
    /// An incoming file was accepted.
    MarkDownloaded(String),
}

/// Applies an action: the history gains the record at its end.
pub fn apply_action(history: &mut Vec<TransferRecord>, action: TransferAction)
    ensures
        record_views(final(history)@) == record_views(old(history)@).push(
            match action {
                TransferAction::MarkUploaded(n) => (n@, TransferDirection::Uploaded),
                TransferAction::MarkDownloaded(n) => (n@, TransferDirection::Downloaded),
            },
        ),
{
    let ghost before = record_views(history@);
    let rec = match action {
        TransferAction::MarkUploaded(name) => TransferRecord { name, direction: TransferDirection::Uploaded },
        TransferAction::MarkDownloaded(name) => TransferRecord { name, direction: TransferDirection::Downloaded },
    };
    history.push(rec);
    assert(record_views(history@) =~= before.push((rec.name@, rec.direction)));
}

// ---------------------------------------------------------------------------

/// A history line as written: `<name>\t<tag>`.
pub open spec fn line_of(r: RecordView) -> Seq<char> {
    r.0 + seq!['\t'] + tag_spec(r.1)
}

/// Names that survive the history file: no tab and no newline.
pub open spec fn storable_name(n: Seq<char>) -> bool {
    forall|i: int| 0 <= i < n.len() ==> n[i] != '\t' && n[i] != '\n'
}

proof fn lemma_tag_plain(d: TransferDirection)
    ensures
        forall|i: int| 0 <= i < tag_spec(d).len() ==> tag_spec(d)[i] != '\n' && tag_spec(d)[i] != '\t',
        tag_spec(d).len() > 0,
        tag_spec(d).last() != '\r',
{
    reveal_strlit("up");
    reveal_strlit("down");
}

proof fn lemma_history_pieces(h: Seq<RecordView>)
    requires
        forall|k: int| 0 <= k < h.len() ==> storable_name(#[trigger] h[k].0),
    ensures
        split_pieces(history_text(h), Sep::One('\n')) == h.map_values(|r: RecordView| line_of(r)).push(Seq::empty()),
    decreases h.len(),
{
    if h.len() == 0 {
        assert(h.map_values(|r: RecordView| line_of(r)).push(Seq::empty()) =~= seq![Seq::<char>::empty()]);
    } else {
        let h0 = h.drop_last();
        assert forall|k: int| 0 <= k < h0.len() implies storable_name(#[trigger] h0[k].0) by {
            assert(h0[k] == h[k]);
        }
        lemma_history_pieces(h0);
        let r = h.last();
        let line = line_of(r);
        lemma_tag_plain(r.1);
        assert(storable_name(h[h.len() - 1].0));
        assert forall|i: int| 0 <= i < line.len() implies line[i] != '\n' by {
            if i < r.0.len() {
            } else if i > r.0.len() {
                assert(line[i] == tag_spec(r.1)[i - r.0.len() - 1]);
            }
        }
        let t0 = history_text(h0);
        crate::text::lemma_split_append_plain(t0, line, '\n');
        assert(history_text(h) =~= (t0 + line).push('\n'));
        let m0 = h0.map_values(|r: RecordView| line_of(r));
        assert(split_pieces(t0 + line, Sep::One('\n')) =~= m0.push(line)) by {
            assert(m0.push(Seq::empty()).last() + line =~= line);
        }
        assert(((t0 + line).push('\n')).drop_last() =~= t0 + line);
        assert(h.map_values(|r: RecordView| line_of(r)) =~= m0.push(line));
    }
}

proof fn lemma_history_line(r: RecordView)
    requires
        storable_name(r.0),
    ensures
        history_line(line_of(r)) == Some(r),
{
    let line = line_of(r);
    crate::text::lemma_first_index_at(line, '\t', r.0.len() as int);
    assert(line.subrange(0, r.0.len() as int) =~= r.0);
    assert(line.subrange(r.0.len() + 1int, line.len() as int) =~= tag_spec(r.1));
    reveal_strlit("up");
    reveal_strlit("down");
}

proof fn lemma_history_of_lines(h: Seq<RecordView>)
    requires
        forall|k: int| 0 <= k < h.len() ==> storable_name(#[trigger] h[k].0),
    ensures
        history_of_lines(h.map_values(|r: RecordView| line_of(r))) == h,
    decreases h.len(),
{
    if h.len() > 0 {
        let h0 = h.drop_last();
        assert forall|k: int| 0 <= k < h0.len() implies storable_name(#[trigger] h0[k].0) by {
            assert(h0[k] == h[k]);
        }
        lemma_history_of_lines(h0);
        assert(h.map_values(|r: RecordView| line_of(r)).drop_last() =~= h0.map_values(|r: RecordView| line_of(r)));
        assert(storable_name(h[h.len() - 1].0));
        lemma_history_line(h.last());
        assert(h0.push(h.last()) =~= h);
    } else {
        assert(h.map_values(|r: RecordView| line_of(r)) =~= Seq::<Seq<char>>::empty());
    }
}

/// Saving the history and loading it back gives the same records, for
/// names without tabs and newlines.
pub proof fn law_history_roundtrip(h: Seq<RecordView>)
    requires
        forall|k: int| 0 <= k < h.len() ==> storable_name(#[trigger] h[k].0),
    ensures
        load_history_spec(history_text(h)) == h,
{
    lemma_history_pieces(h);
    let ps = split_pieces(history_text(h), Sep::One('\n'));
    let m = h.map_values(|r: RecordView| line_of(r));
    let full = Seq::new((ps.len() - 1) as nat, |i: int| strip_cr(ps[i]));
    assert forall|i: int| 0 <= i < m.len() implies strip_cr(ps[i]) == m[i] by {
        lemma_tag_plain(h[i].1);
        assert(m[i].last() == tag_spec(h[i].1).last());
    }
    assert(full =~= m);
    assert(lines_spec(history_text(h)) == full);
    lemma_history_of_lines(h);
}

/// A finished transfer is no longer listed: after `start` and then `finish`
/// for a name, no entry has that name (names being unique).
pub proof fn law_transfer_finish_removes(v: Seq<ProgressView>, name: Seq<char>, is_upload: bool, total: u64)
    requires
        unique_names(v),
    ensures
        forall|j: int| 0 <= j < finish_spec(start_spec(v, name, is_upload, total), name).len()
            ==> (#[trigger] finish_spec(start_spec(v, name, is_upload, total), name)[j]).0 != name,
{
    lemma_find_name(v, name);
    let s = start_spec(v, name, is_upload, total);
    lemma_find_name(s, name);
    let f = finish_spec(s, name);
    match find_name(s, name) {
        Some(i) => {
            assert forall|j: int| 0 <= j < f.len() implies (#[trigger] f[j]).0 != name by {
                if j < i {
                    assert(f[j] == s[j]);
                    assert(j != i);
                } else {
                    assert(f[j] == s[j + 1]);
                    assert(j + 1 != i);
                }
                match find_name(v, name) {
                    Some(k) => {
                        assert(s =~= v.update(k, (name, is_upload, 0u64, total)));
                    },
                    None => {
                        assert(s =~= v.push((name, is_upload, 0u64, total)));
                    },
                }
            }
        },
        None => {},
    }
}

/// Updating a transfer's counts keeps its direction; a name that is not
/// listed leaves the table unchanged.
pub proof fn law_transfer_update_keeps_direction(v: Seq<ProgressView>, name: Seq<char>, done: u64, total: u64)
    ensures
        find_name(v, name) matches Some(i) ==> update_spec(v, name, done, total)[i] == (name, v[i].1, done, total),
        find_name(v, name) is None ==> update_spec(v, name, done, total) == v,
        update_spec(v, name, done, total).len() == v.len(),
{
    lemma_find_name(v, name);
}

} // verus!
