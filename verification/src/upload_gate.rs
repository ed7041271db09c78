//! The queue of incoming uploads waiting for the user's confirmation, and
//! the registry of server connections waiting for a decision.

use vstd::prelude::*;

verus! {

/// An upload waiting for the user's confirmation in the UI.
#[derive(Clone, Debug, PartialEq)]
pub struct IncomingUpload {
    pub id: u64,
    pub name: String,
    pub size: u64,
}

/// An upload as plain values: id, name, size.
pub type UploadView = (u64, Seq<char>, u64);

/// Views of a list of uploads.
pub open spec fn upload_views(v: Seq<IncomingUpload>) -> Seq<UploadView> {
    v.map_values(|u: IncomingUpload| (u.id, u.name@, u.size))
}

/// Copies an upload record.
pub fn clone_upload(u: &IncomingUpload) -> (r: IncomingUpload)
    ensures
        (r.id, r.name@, r.size) == (u.id, u.name@, u.size),
{
    IncomingUpload { id: u.id, name: u.name.clone(), size: u.size }
}

/// The bridge between server connections and the confirmation UI: the next
/// id to hand out, the ids whose connection waits for a decision, the queue
/// shown to the user (front first) and whether the UI is listening.
pub struct UploadGate {
    next_id: u64,
    waiting: Vec<u64>,
    pending: Vec<IncomingUpload>,
    ui_ready: bool,
}

/// The bridge as plain values.
pub struct GateView {
    pub next_id: u64,
    pub waiting: Set<u64>,
    pub pending: Seq<UploadView>,
    pub ui_ready: bool,
}

/// `v` without the entries equal to `x`, in order.
pub open spec fn without_id(v: Seq<u64>, x: u64) -> Seq<u64>
    decreases v.len(),
{
    if v.len() == 0 {
        Seq::empty()
    } else {
        let w = without_id(v.drop_last(), x);
        if v.last() == x {
            w
        } else {
            w.push(v.last())
        }
    }
}

/// The queue without the uploads whose id is `x`, in order.
pub open spec fn queue_without(v: Seq<UploadView>, x: u64) -> Seq<UploadView>
    decreases v.len(),
{
    if v.len() == 0 {
        Seq::empty()
    } else {
        let w = queue_without(v.drop_last(), x);
        if v.last().0 == x {
            w
        } else {
            w.push(v.last())
        }
    }
}

proof fn lemma_without_id(v: Seq<u64>, x: u64)
    ensures
        without_id(v, x).to_set() == v.to_set().remove(x),
    decreases v.len(),
{
    if v.len() > 0 {
        lemma_without_id(v.drop_last(), x);
        assert(v.to_set() =~= v.drop_last().to_set().insert(v.last())) by {
            assert forall|y: u64| v.to_set().contains(y) <==> v.drop_last().to_set().insert(v.last()).contains(y) by {
                if v.contains(y) {
                    let k = choose|k: int| 0 <= k < v.len() && v[k] == y;
                    if k < v.len() - 1 {
                        assert(v.drop_last()[k] == y);
                    }
                }
                if v.drop_last().contains(y) {
                    let k = choose|k: int| 0 <= k < v.drop_last().len() && v.drop_last()[k] == y;
                    assert(v[k] == y);
                }
            }
        }
        let w = without_id(v.drop_last(), x);
        if v.last() != x {
            assert(w.push(v.last()).to_set() =~= w.to_set().insert(v.last())) by {
                assert forall|y: u64| w.push(v.last()).to_set().contains(y) <==> w.to_set().insert(v.last()).contains(y) by {
                    if w.push(v.last()).contains(y) {
                        let k = choose|k: int| 0 <= k < w.push(v.last()).len() && w.push(v.last())[k] == y;
                        if k < w.len() {
                            assert(w[k] == y);
                        }
                    }
                    if w.contains(y) {
                        let k = choose|k: int| 0 <= k < w.len() && w[k] == y;
                        assert(w.push(v.last())[k] == y);
                    }
                    if y == v.last() {
                        assert(w.push(v.last())[w.len() as int] == y);
                    }
                }
            }
        }
        assert(without_id(v, x).to_set() =~= v.to_set().remove(x));
    }
}


/// The id handed out after `id` (wrapping).
pub open spec fn next_after(id: u64) -> u64 {
    if id == u64::MAX {
        0
    } else {
        (id + 1) as u64
    }
}

/// The bridge after an upload is submitted: it takes the next id; when the UI
/// is listening its connection waits and it joins the back of the queue,
/// otherwise nothing waits on that id and the queue is unchanged.
pub open spec fn submit_view(g: GateView, name: Seq<char>, size: u64) -> GateView {
    if g.ui_ready {
        GateView {
            next_id: next_after(g.next_id),
            waiting: g.waiting.insert(g.next_id),
            pending: g.pending.push((g.next_id, name, size)),
            ui_ready: g.ui_ready,
        }
    } else {
        GateView {
            next_id: next_after(g.next_id),
            waiting: g.waiting.remove(g.next_id),
            pending: g.pending,
            ui_ready: g.ui_ready,
        }
    }
}

/// The bridge after the user decided the front upload: it leaves the queue.
pub open spec fn advance_view(g: GateView) -> GateView {
    GateView {
        pending: if g.pending.len() > 0 {
            g.pending.drop_first()
        } else {
            g.pending
        },
        ..g
    }
}

/// The bridge after the upload `id` failed: nothing waits on it and it leaves
/// the queue.
pub open spec fn fail_view(g: GateView, id: u64) -> GateView {
    GateView { waiting: g.waiting.remove(id), pending: queue_without(g.pending, id), ..g }
}

/// What reaches the server for a decision on `id`: the decision when a
/// connection waits on `id`.
pub open spec fn reply_spec(g: GateView, id: u64, decision: UploadDecision) -> Option<UploadDecision> {
    if g.waiting.contains(id) {
        Some(decision)
    } else {
        None
    }
}

impl View for UploadGate {
    type V = GateView;

    closed spec fn view(&self) -> GateView {
        GateView {
            next_id: self.next_id,
            waiting: self.waiting@.to_set(),
            pending: upload_views(self.pending@),
            ui_ready: self.ui_ready,
        }
    }
}

impl UploadGate {
    /// A gate with no uploads; ids start at 1 and the UI is not ready.
    pub fn new() -> (g: Self)
        ensures
            g@.next_id == 1,
            g@.waiting == Set::<u64>::empty(),
            g@.pending == Seq::<UploadView>::empty(),
            !g@.ui_ready,
    {
        let g = UploadGate { next_id: 1, waiting: Vec::new(), pending: Vec::new(), ui_ready: false };
        assert(g@.waiting =~= Set::<u64>::empty());
        assert(g@.pending =~= Seq::<UploadView>::empty());
        g
    }

    /// The UI installed its listener: from now on uploads are queued.
    /// Returns the queue to show.
    pub fn install_upload_setter(&mut self) -> (queue: Vec<IncomingUpload>)
        ensures
            final(self)@ == (GateView { ui_ready: true, ..old(self)@ }),
            upload_views(queue@) == old(self)@.pending,
    {
        self.ui_ready = true;
        self.snapshot()
    }

    fn snapshot(&self) -> (queue: Vec<IncomingUpload>)
        ensures
            upload_views(queue@) == self@.pending,
    {
        let mut queue: Vec<IncomingUpload> = Vec::new();
        for i in 0..self.pending.len()
            invariant
                upload_views(queue@) == upload_views(self.pending@).take(i as int),
        {
            let ghost before = upload_views(queue@);
            let u = clone_upload(&self.pending[i]);
            queue.push(u);
            assert(upload_views(queue@) =~= before.push((u.id, u.name@, u.size)));
            assert(upload_views(self.pending@).take(i + 1) =~= upload_views(self.pending@).take(i as int).push(upload_views(self.pending@)[i as int]));
        }
        assert(upload_views(self.pending@).take(self.pending@.len() as int) == upload_views(
            self.pending@,
        ));
        queue
    }

    /// The queue shown to the user, when the UI is listening.
    pub fn push_queue(&self) -> (r: Option<Vec<IncomingUpload>>)
        ensures
            match r {
                Some(q) => self@.ui_ready && upload_views(q@) == self@.pending,
                None => !self@.ui_ready,
            },
    {
        if self.ui_ready {
            Some(self.snapshot())
        } else {
            None
        }
    }

    /// Registers an upload: takes the next id (wrapping), and when the UI is
    /// listening registers the waiting connection, queues the upload at the
    /// back and returns the id; otherwise nothing is registered or queued.
    pub fn submit_upload(&mut self, name: String, size: u64) -> (r: Option<u64>)
        ensures
            final(self)@ == submit_view(old(self)@, name@, size),
            r == (if old(self)@.ui_ready {
                Some(old(self)@.next_id)
            } else {
                None::<u64>
            }),
    {
        let id = self.next_id;
        self.next_id = if self.next_id == u64::MAX { 0 } else { self.next_id + 1 };
        if !self.ui_ready {
            self.remove_upload(id);
            return None;
        }
        self.waiting.push(id);
        assert(self.waiting@.to_set() =~= old(self).waiting@.to_set().insert(id)) by {
            assert forall|y: u64| self.waiting@.to_set().contains(y) <==> old(self).waiting@.to_set().insert(id).contains(y) by {
                if self.waiting@.contains(y) {
                    let k = choose|k: int| 0 <= k < self.waiting@.len() && self.waiting@[k] == y;
                    if k < old(self).waiting@.len() {
                        assert(old(self).waiting@[k] == y);
                    }
                }
                if old(self).waiting@.contains(y) {
                    let k = choose|k: int| 0 <= k < old(self).waiting@.len() && old(self).waiting@[k] == y;
                    assert(self.waiting@[k] == y);
                }
                if y == id {
                    assert(self.waiting@[old(self).waiting@.len() as int] == id);
                }
            }
        }
        let ghost before = upload_views(self.pending@);
        self.pending.push(IncomingUpload { id, name, size });
        assert(upload_views(self.pending@) =~= before.push((id, name@, size)));
        Some(id)
    }

    /// Whether a server connection waits for a decision on `id` (the UI's
    /// decision is delivered only then).
    pub fn is_waiting(&self, id: u64) -> (r: bool)
        ensures
            r == self@.waiting.contains(id),
    {
        for i in 0..self.waiting.len()
            invariant
                forall|k: int| 0 <= k < i ==> self.waiting@[k] != id,
        {
            if self.waiting[i] == id {
                assert(self.waiting@.to_set().contains(id));
                return true;
            }
        }
        assert(!self.waiting@.contains(id));
        false
    }

    /// The UI's decision on upload `id`, as it reaches the server connection
    /// waiting on it: the decision when a connection waits on `id`, nothing
    /// otherwise.
    pub fn reply(&self, id: u64, decision: UploadDecision) -> (r: Option<UploadDecision>)
        ensures
            r == reply_spec(self@, id, decision),
    {
        if self.is_waiting(id) {
            Some(decision)
        } else {
            None
        }
    }

    /// The user decided the front-of-queue upload: drops it and returns the
    /// queue to show next (when the UI is listening).
    pub fn advance(&mut self) -> (r: Option<Vec<IncomingUpload>>)
        ensures
            final(self)@ == advance_view(old(self)@),
            match r {
                Some(q) => final(self)@.ui_ready && upload_views(q@) == final(self)@.pending,
                None => !final(self)@.ui_ready,
            },
    {
        if self.pending.len() > 0 {
            let ghost before = upload_views(self.pending@);
            self.pending.remove(0);
            assert(upload_views(self.pending@) =~= before.drop_first());
        }
        self.push_queue()
    }

    /// Forgets the waiting connection for `id` (it has its decision).
    pub fn remove_upload(&mut self, id: u64)
        ensures
            final(self)@ == (GateView { waiting: old(self)@.waiting.remove(id), ..old(self)@ }),
    {
        let mut kept: Vec<u64> = Vec::new();
        for i in 0..self.waiting.len()
            invariant
                kept@ == without_id(self.waiting@.take(i as int), id),
        {
            assert(self.waiting@.take(i + 1).drop_last() == self.waiting@.take(i as int));
            if self.waiting[i] != id {
                kept.push(self.waiting[i]);
            }
        }
        assert(self.waiting@.take(self.waiting@.len() as int) == self.waiting@);
        proof {
            lemma_without_id(self.waiting@, id);
        }
        self.waiting = kept;
    }

    /// The server-side transfer failed before a decision: forgets the
    /// waiting connection and drops the upload from the queue. Returns the
    /// queue to show (when the UI is listening).
    pub fn fail_upload(&mut self, id: u64) -> (r: Option<Vec<IncomingUpload>>)
        ensures
            final(self)@ == fail_view(old(self)@, id),
            match r {
                Some(q) => final(self)@.ui_ready && upload_views(q@) == final(self)@.pending,
                None => !final(self)@.ui_ready,
            },
    {
        self.remove_upload(id);
        let ghost views = upload_views(self.pending@);
        let mut kept: Vec<IncomingUpload> = Vec::new();
        let mut old_pending: Vec<IncomingUpload> = Vec::new();
        std::mem::swap(&mut old_pending, &mut self.pending);
        for u in it: old_pending
            invariant
                it.seq() == old_pending@,
                views == upload_views(old_pending@),
                upload_views(kept@) == queue_without(views.take(it.index() as int), id),
        {
            let ghost k = it.index();
            assert(views.take(k + 1).drop_last() == views.take(k as int));
            assert(views.take(k + 1).last() == (u.id, u.name@, u.size));
            if u.id != id {
                let ghost before = upload_views(kept@);
                kept.push(u);
                assert(upload_views(kept@) =~= before.push((u.id, u.name@, u.size)));
            }
        }
        assert(views.take(views.len() as int) == views);
        self.pending = kept;
        self.push_queue()
    }
}

/// The user's decision about an incoming upload.
#[derive(Clone, Debug, PartialEq)]
pub enum UploadDecision {
    /// Save the file into this folder.
    Save(String),
    /// Decline the upload.
    Reject,
}

/// The decision after the confirmation dialog: accepted with a picked
/// folder saves there; cancelled, or accepted without a folder, rejects.
pub fn dialog_decision(accepted: bool, picked: Option<String>) -> (d: UploadDecision)
    ensures
        match d {
            UploadDecision::Save(p) => accepted && (picked matches Some(x) && x@ == p@),
            UploadDecision::Reject => !accepted || picked is None,
        },
{
    if accepted {
        match picked {
            Some(p) => UploadDecision::Save(p),
            None => UploadDecision::Reject,
        }
    } else {
        UploadDecision::Reject
    }
}

/// The dialog's text for an upload: `<name>  ·  <size> bytes`, or
/// `(size unknown)` when the size is 0 (SFTP opens carry no size).
pub fn upload_prompt(u: &IncomingUpload) -> (s: String)
    ensures
        s@ == u.name@ + "  \u{B7}  "@ + (if u.size > 0 {
            crate::text::decimal(u.size as nat) + " bytes"@
        } else {
            "(size unknown)"@
        }),
{
    let mut s = u.name.clone();
    crate::text::push_str(&mut s, "  \u{B7}  ");
    if u.size > 0 {
        let n = crate::text::u64_decimal(u.size);
        crate::text::push_str(&mut s, n.as_str());
        crate::text::push_str(&mut s, " bytes");
    } else {
        crate::text::push_str(&mut s, "(size unknown)");
    }
    s
}

/// Ids are handed out from 1 up: the next id is not 0, every id a
/// connection waits on lies between 0 and the next id, every queued id is
/// below the next id, and no id is queued twice.
pub open spec fn ids_fresh(g: GateView) -> bool {
    &&& 0 < g.next_id
    &&& forall|id: u64| #[trigger] g.waiting.contains(id) ==> 0 < id < g.next_id
    &&& forall|i: int| 0 <= i < g.pending.len() ==> (#[trigger] g.pending[i]).0 < g.next_id
    &&& forall|i: int, j: int| 0 <= i < j < g.pending.len() ==> (#[trigger] g.pending[i]).0 != (#[trigger] g.pending[j]).0
}

proof fn lemma_queue_without(v: Seq<UploadView>, x: u64)
    ensures
        forall|k: int| 0 <= k < queue_without(v, x).len() ==> (#[trigger] queue_without(v, x)[k]).0 != x,
        forall|k: int|
            0 <= k < queue_without(v, x).len() ==> exists|j: int|
                0 <= j < v.len() && #[trigger] v[j] == #[trigger] queue_without(v, x)[k],
        forall|j: int|
            0 <= j < v.len() && (#[trigger] v[j]).0 != x ==> exists|k: int|
                0 <= k < queue_without(v, x).len() && #[trigger] queue_without(v, x)[k] == v[j],
    decreases v.len(),
{
    if v.len() > 0 {
        let v0 = v.drop_last();
        lemma_queue_without(v0, x);
        let w = queue_without(v0, x);
        let r = queue_without(v, x);
        assert forall|k: int| 0 <= k < r.len() implies exists|j: int| 0 <= j < v.len() && #[trigger] v[j] == #[trigger] r[k] by {
            if k < w.len() {
                assert(r[k] == w[k]);
                let j = choose|j: int| 0 <= j < v0.len() && #[trigger] v0[j] == #[trigger] w[k];
                assert(v[j] == v0[j]);
            } else {
                assert(r[k] == v[v.len() - 1]);
            }
        }
        assert forall|k: int| 0 <= k < r.len() implies (#[trigger] r[k]).0 != x by {
            if k < w.len() {
                assert(r[k] == w[k]);
            }
        }
        assert forall|j: int| 0 <= j < v.len() && (#[trigger] v[j]).0 != x implies exists|k: int|
            0 <= k < r.len() && #[trigger] r[k] == v[j] by {
            if j < v0.len() {
                assert(v0[j] == v[j]);
                let k = choose|k: int| 0 <= k < w.len() && #[trigger] w[k] == v0[j];
                assert(r[k] == w[k]);
            } else {
                assert(r[r.len() - 1] == v[j]);
            }
        }
    }
}

proof fn lemma_queue_without_distinct(v: Seq<UploadView>, x: u64)
    requires
        forall|i: int, j: int| 0 <= i < j < v.len() ==> (#[trigger] v[i]).0 != (#[trigger] v[j]).0,
    ensures
        forall|i: int, j: int|
            0 <= i < j < queue_without(v, x).len() ==> (#[trigger] queue_without(v, x)[i]).0
                != (#[trigger] queue_without(v, x)[j]).0,
    decreases v.len(),
{
    if v.len() > 0 {
        let v0 = v.drop_last();
        assert forall|i: int, j: int| 0 <= i < j < v0.len() implies (#[trigger] v0[i]).0 != (#[trigger] v0[j]).0 by {
            assert(v0[i] == v[i] && v0[j] == v[j]);
        }
        lemma_queue_without_distinct(v0, x);
        lemma_queue_without(v0, x);
        let w = queue_without(v0, x);
        let r = queue_without(v, x);
        if v.last().0 != x {
            assert forall|i: int, j: int| 0 <= i < j < r.len() implies (#[trigger] r[i]).0 != (#[trigger] r[j]).0 by {
                if j < w.len() {
                    assert(r[i] == w[i] && r[j] == w[j]);
                } else {
                    assert(r[i] == w[i]);
                    assert(r[j] == v[v.len() - 1]);
                    let k = choose|k: int| 0 <= k < v0.len() && #[trigger] v0[k] == #[trigger] w[i];
                    assert(v[k] == v0[k]);
                    assert(v[k].0 != v[v.len() - 1].0);
                }
            }
        }
    }
}

/// Queued uploads never share an id, as long as ids do not wrap around:
/// submitting, advancing and failing uploads all keep every queued or
/// waiting id below the next id and the queued ones distinct. A new gate
/// starts so.
pub proof fn law_gate_ids_distinct(g: GateView, name: Seq<char>, size: u64, failed: u64)
    requires
        ids_fresh(g),
        g.next_id < u64::MAX,
    ensures
        ids_fresh(submit_view(g, name, size)),
        ids_fresh(advance_view(g)),
        ids_fresh(fail_view(g, failed)),
        ids_fresh(GateView { next_id: 1, waiting: Set::empty(), pending: Seq::empty(), ui_ready: false }),
{
    let s = submit_view(g, name, size);
    assert forall|i: int, j: int| 0 <= i < j < s.pending.len() implies (#[trigger] s.pending[i]).0 != (#[trigger] s.pending[j]).0 by {
        if j < g.pending.len() {
            assert(s.pending[i] == g.pending[i] && s.pending[j] == g.pending[j]);
        } else {
            assert(s.pending[i] == g.pending[i]);
        }
    }
    assert forall|i: int| 0 <= i < s.pending.len() implies (#[trigger] s.pending[i]).0 < s.next_id by {
        if i < g.pending.len() {
            assert(s.pending[i] == g.pending[i]);
        }
    }
    let a = advance_view(g);
    if g.pending.len() > 0 {
        assert forall|i: int| 0 <= i < a.pending.len() implies (#[trigger] a.pending[i]).0 < a.next_id by {
            assert(a.pending[i] == g.pending[i + 1]);
        }
        assert forall|i: int, j: int| 0 <= i < j < a.pending.len() implies (#[trigger] a.pending[i]).0 != (#[trigger] a.pending[j]).0 by {
            assert(a.pending[i] == g.pending[i + 1] && a.pending[j] == g.pending[j + 1]);
        }
    }
    let f = fail_view(g, failed);
    lemma_queue_without(g.pending, failed);
    assert forall|i: int| 0 <= i < f.pending.len() implies (#[trigger] f.pending[i]).0 < f.next_id by {
        let j = choose|j: int| 0 <= j < g.pending.len() && #[trigger] g.pending[j] == #[trigger] f.pending[i];
    }
    lemma_queue_without_distinct(g.pending, failed);
}

/// A failed upload leaves the queue and nothing waits on it any more; every
/// other queued upload stays, in its order.
pub proof fn law_gate_fail_removes(g: GateView, id: u64)
    ensures
        !fail_view(g, id).waiting.contains(id),
        forall|k: int| 0 <= k < fail_view(g, id).pending.len() ==> (#[trigger] fail_view(g, id).pending[k]).0 != id,
        forall|j: int|
            0 <= j < g.pending.len() && (#[trigger] g.pending[j]).0 != id ==> fail_view(g, id).pending.contains(g.pending[j]),
{
    lemma_queue_without(g.pending, id);
    let f = fail_view(g, id);
    assert forall|j: int| 0 <= j < g.pending.len() && (#[trigger] g.pending[j]).0 != id implies f.pending.contains(g.pending[j]) by {
        let k = choose|k: int| 0 <= k < f.pending.len() && #[trigger] f.pending[k] == g.pending[j];
    }
}


/// Uploads are confirmed first come, first served: while uploads wait, the
/// decision on the front one and the arrival of a new one do not depend on
/// their order. The decision takes the oldest upload, and the new one joins
/// the back of the queue either way.
pub proof fn law_gate_first_come_first_served(g: GateView, name: Seq<char>, size: u64)
    requires
        g.ui_ready,
        g.pending.len() > 0,
    ensures
        advance_view(submit_view(g, name, size)) == submit_view(advance_view(g), name, size),
{
    let x = (g.next_id, name, size);
    assert(g.pending.push(x).drop_first() =~= g.pending.drop_first().push(x));
}


/// The upload reply delivers the user's decision: an upload submitted while
/// the UI listens gets exactly the decision the user makes on it, also after
/// the queue moved on to the next upload; once its connection is forgotten
/// (it had its decision) or its transfer failed, a decision on it reaches
/// nobody.
pub proof fn law_reply_delivers_decision(g: GateView, name: Seq<char>, size: u64, d: UploadDecision)
    requires
        g.ui_ready,
    ensures
        reply_spec(submit_view(g, name, size), g.next_id, d) == Some(d),
        reply_spec(advance_view(submit_view(g, name, size)), g.next_id, d) == Some(d),
        reply_spec(
            GateView {
                waiting: submit_view(g, name, size).waiting.remove(g.next_id),
                ..submit_view(g, name, size)
            },
            g.next_id,
            d,
        ) is None,
        reply_spec(fail_view(submit_view(g, name, size), g.next_id), g.next_id, d) is None,
{
}

/// A decision on an id that no upload has been given (0, or one at or
/// past the next id) reaches nobody.
pub proof fn law_reply_unissued(g: GateView, id: u64, d: UploadDecision)
    requires
        ids_fresh(g),
        id == 0 || g.next_id <= id,
    ensures
        reply_spec(g, id, d) is None,
{
}

} // verus!
