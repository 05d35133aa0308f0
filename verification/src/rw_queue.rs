//! A fair readers-writer queue over keys that notifies each granted access
//! through a callback.
//!
//! Each key has a creator, a set of readers, at most one writer and a queue
//! of pending requests. Pending requests are served in order when the key is
//! released: a waiting writer alone, or every reader at the head of the queue
//! together. Every grant is announced by one call of the callback.
use std::collections::{HashMap, HashSet, VecDeque};
use vstd::prelude::*;

verus! {

broadcast use vstd::std_specs::hash::group_hash_axioms;

#[non_exhaustive]
#[derive(Debug, PartialEq, Eq)]
pub enum RwQueueError {
    /// The access cannot be granted yet; the request waits in the queue.
    RequestAccess(ProcId, KeyId),
    /// The process holds no access to the key.
    ReleaseAccess(ProcId, KeyId),
    /// The key already exists.
    KeyExists(KeyId),
    /// The key does not exist.
    KeyNotFound(KeyId),
}

/// Unique identifier for a process.
pub type ProcId = usize;

/// Unique identifier for a key.
pub type KeyId = usize;

#[derive(Debug, Clone, Copy, PartialEq, Eq, Structural)]
pub enum RequestType {
    Writer,
    Reader,
}

/// Closure called when access is granted to a process.
pub type OnAccessGranted = Box<dyn Fn(ProcId, KeyId, RequestType)>;

/// One call of the grant callback: the process, the key and the access.
pub type Grant = (ProcId, KeyId, RequestType);

/// Abstract state of one key.
pub struct KeyStateView {
    pub pending: Seq<(ProcId, RequestType)>,
    pub readers: Set<ProcId>,
    pub writer: Option<ProcId>,
    pub creator: ProcId,
}

impl KeyStateView {
    /// The state of a key just created by `creator`.
    pub open spec fn fresh(creator: ProcId) -> KeyStateView {
        KeyStateView {
            pending: Seq::empty(),
            readers: Set::empty(),
            writer: None,
            creator,
        }
    }

    /// Some process reads or writes the key.
    pub open spec fn is_accessed(self) -> bool {
        !self.readers.is_empty() || self.writer is Some
    }

    /// A write request is at the head of the queue.
    pub open spec fn write_waiting(self) -> bool {
        self.pending.len() > 0 && self.pending[0].1 == RequestType::Writer
    }

    /// The invariant of a key: a writer excludes readers, and requests wait
    /// only behind an access, with a writer at the head while readers read.
    pub open spec fn wf(self) -> bool {
        &&& self.writer is Some ==> self.readers.is_empty()
        &&& (self.writer is None && self.pending.len() > 0) ==> (!self.readers.is_empty()
            && self.write_waiting())
    }

    /// The state after `proc_id` asks to read.
    pub open spec fn after_read(self, proc_id: ProcId) -> KeyStateView {
        if self.writer is Some || self.write_waiting() {
            KeyStateView { pending: self.pending.push((proc_id, RequestType::Reader)), ..self }
        } else {
            KeyStateView { readers: self.readers.insert(proc_id), ..self }
        }
    }

    /// The state after `proc_id` asks to write.
    pub open spec fn after_write(self, proc_id: ProcId) -> KeyStateView {
        if self.is_accessed() {
            KeyStateView { pending: self.pending.push((proc_id, RequestType::Writer)), ..self }
        } else {
            KeyStateView { writer: Some(proc_id), ..self }
        }
    }

    /// Grants every read at the head of the queue, in order; returns the new
    /// state and the grants.
    pub open spec fn grant_reads(self, key_id: KeyId) -> (KeyStateView, Seq<Grant>)
        decreases self.pending.len(),
    {
        if self.pending.len() > 0 && self.pending[0].1 == RequestType::Reader {
            let proc_id = self.pending[0].0;
            let next = KeyStateView {
                readers: self.readers.insert(proc_id),
                pending: self.pending.drop_first(),
                ..self
            };
            let (fin, grants) = next.grant_reads(key_id);
            (fin, seq![(proc_id, key_id, RequestType::Reader)] + grants)
        } else {
            (self, Seq::empty())
        }
    }

    /// Serves the head of the queue: a waiting writer alone, or all the
    /// readers at the head together.
    pub open spec fn grant_pending(self, key_id: KeyId) -> (KeyStateView, Seq<Grant>) {
        if self.pending.len() == 0 {
            (self, Seq::empty())
        } else if self.pending[0].1 == RequestType::Writer {
            let proc_id = self.pending[0].0;
            (
                KeyStateView { writer: Some(proc_id), pending: self.pending.drop_first(), ..self },
                seq![(proc_id, key_id, RequestType::Writer)],
            )
        } else {
            self.grant_reads(key_id)
        }
    }

    /// One round of access: every process holding the key releases it, and
    /// the head of the queue is served.
    pub open spec fn round(self, key_id: KeyId) -> (KeyStateView, Seq<Grant>) {
        KeyStateView { writer: None, readers: Set::empty(), ..self }.grant_pending(key_id)
    }

    /// `n` rounds of access in a row, with all the grants they make.
    pub open spec fn rounds(self, key_id: KeyId, n: nat) -> (KeyStateView, Seq<Grant>)
        decreases n,
    {
        if n == 0 {
            (self, Seq::empty())
        } else {
            let (next, first) = self.round(key_id);
            let (fin, rest) = next.rounds(key_id, (n - 1) as nat);
            (fin, first + rest)
        }
    }

    /// The grant each waiting request receives, in queue order.
    pub open spec fn queued_grants(self, key_id: KeyId) -> Seq<Grant> {
        self.pending.map_values(|req: (ProcId, RequestType)| (req.0, key_id, req.1))
    }

    /// `proc_id` holds an access to the key.
    pub open spec fn holds_access(self, proc_id: ProcId) -> bool {
        self.writer == Some(proc_id) || self.readers.contains(proc_id)
    }

    /// The state and the grants after `proc_id` releases its access.
    pub open spec fn released(self, proc_id: ProcId, key_id: KeyId) -> (KeyStateView, Seq<Grant>) {
        if self.writer == Some(proc_id) {
            KeyStateView { writer: None, ..self }.grant_pending(key_id)
        } else {
            let rest = KeyStateView { readers: self.readers.remove(proc_id), ..self };
            if rest.readers.is_empty() {
                rest.grant_pending(key_id)
            } else {
                (rest, Seq::empty())
            }
        }
    }
}

/// Current state of a specific key, tracking current readers and writer.
/// Pending requests are processed alternately to ensure fair access.
/// `creator` indicates the holder of the resource in case of no readers / writer.
#[derive(Debug)]
pub struct KeyState {
    pending_request: VecDeque<(ProcId, RequestType)>,
    readers: HashSet<ProcId>,
    writer: Option<ProcId>,
    pub creator: ProcId,
}

impl View for KeyState {
    type V = KeyStateView;

    closed spec fn view(&self) -> KeyStateView {
        KeyStateView {
            pending: self.pending_request@,
            readers: self.readers@,
            writer: self.writer,
            creator: self.creator,
        }
    }
}

impl KeyState {
    pub fn new(creator: ProcId) -> (ks: Self)
        ensures
            ks@ == KeyStateView::fresh(creator),
    {
        let ks = Self {
            pending_request: VecDeque::new(),
            readers: HashSet::new(),
            writer: None,
            creator,
        };
        assert(ks@.pending =~= Seq::<(ProcId, RequestType)>::empty());
        ks
    }

    /// The requests waiting for an access, oldest first.
    pub fn pending_request(&self) -> (r: &VecDeque<(ProcId, RequestType)>)
        ensures
            r@ == self@.pending,
    {
        &self.pending_request
    }

    /// The processes currently reading the key.
    pub fn readers(&self) -> (r: &HashSet<ProcId>)
        ensures
            r@ == self@.readers,
    {
        &self.readers
    }

    /// The process currently writing the key, if any.
    pub fn writer(&self) -> (r: Option<ProcId>)
        ensures
            r == self@.writer,
    {
        self.writer
    }

    /// The process that created the key.
    pub fn creator(&self) -> (r: ProcId)
        ensures
            r == self@.creator,
    {
        self.creator
    }

    fn register_reader(&mut self, proc_id: ProcId)
        ensures
            final(self)@ == (KeyStateView { readers: old(self)@.readers.insert(proc_id), ..old(self)@ }),
    {
        self.readers.insert(proc_id);
    }

    fn register_writer(&mut self, proc_id: ProcId)
        ensures
            final(self)@ == (KeyStateView { writer: Some(proc_id), ..old(self)@ }),
    {
        self.writer = Some(proc_id);
    }
}

/// Facts on serving the reads at the head of the queue.
proof fn lemma_grant_reads(ks: KeyStateView, key_id: KeyId)
    ensures
        ks.grant_reads(key_id).0.writer == ks.writer,
        ks.grant_reads(key_id).0.creator == ks.creator,
        ks.grant_reads(key_id).1.len() <= ks.pending.len(),
        ks.grant_reads(key_id).0.pending == ks.pending.skip(ks.grant_reads(key_id).1.len() as int),
        ks.grant_reads(key_id).0.pending.len() > 0 ==> ks.grant_reads(key_id).0.pending[0].1
            != RequestType::Reader,
        forall|i: int|
            0 <= i < ks.grant_reads(key_id).1.len() ==> ks.pending[i].1 == RequestType::Reader
                && #[trigger] ks.grant_reads(key_id).1[i] == (
                ks.pending[i].0,
                key_id,
                RequestType::Reader,
            ),
        forall|p: ProcId|
            #[trigger] ks.grant_reads(key_id).0.readers.contains(p) <==> (ks.readers.contains(p)
                || exists|i: int|
                0 <= i < ks.grant_reads(key_id).1.len() && ks.pending[i].0 == p),
    decreases ks.pending.len(),
{
    if ks.pending.len() > 0 && ks.pending[0].1 == RequestType::Reader {
        let proc_id = ks.pending[0].0;
        let next = KeyStateView {
            readers: ks.readers.insert(proc_id),
            pending: ks.pending.drop_first(),
            ..ks
        };
        lemma_grant_reads(next, key_id);
        let (fin, grants) = next.grant_reads(key_id);
        let all = seq![(proc_id, key_id, RequestType::Reader)] + grants;
        assert(ks.grant_reads(key_id).0 == fin);
        assert(ks.grant_reads(key_id).1 == all);
        assert(fin.pending =~= ks.pending.skip(all.len() as int));
        let out = ks.grant_reads(key_id).1;
        assert forall|i: int|
            #![trigger out[i]]
            #![trigger ks.pending[i]]
            0 <= i < out.len() implies ks.pending[i].1 == RequestType::Reader && out[i] == (
                ks.pending[i].0,
                key_id,
                RequestType::Reader,
            ) by {
            if i > 0 {
                assert(all[i] == grants[i - 1]);
                assert(next.pending[i - 1] == ks.pending[i]);
            }
        }
        assert forall|p: ProcId| #[trigger] fin.readers.contains(p) <==> (ks.readers.contains(p)
            || exists|i: int| 0 <= i < all.len() && ks.pending[i].0 == p) by {
            if fin.readers.contains(p) && !ks.readers.contains(p) && p != proc_id {
                let i = choose|i: int| 0 <= i < grants.len() && next.pending[i].0 == p;
                assert(ks.pending[i + 1].0 == p);
            }
            if p == proc_id {
                assert(ks.pending[0].0 == p);
            }
            if exists|i: int| 0 <= i < all.len() && ks.pending[i].0 == p {
                let i = choose|i: int| 0 <= i < all.len() && ks.pending[i].0 == p;
                if i > 0 {
                    assert(next.pending[i - 1].0 == p);
                }
            }
        }
    } else {
        assert(ks.pending.skip(0) =~= ks.pending);
        assert(ks.grant_reads(key_id).1.len() == 0);
    }
}

/// Releasing a held access keeps the invariant of a key.
proof fn lemma_released_wf(ks: KeyStateView, proc_id: ProcId, key_id: KeyId)
    requires
        ks.wf(),
        ks.holds_access(proc_id),
    ensures
        ks.released(proc_id, key_id).0.wf(),
        ks.released(proc_id, key_id).0.creator == ks.creator,
{
    let rest = if ks.writer == Some(proc_id) {
        KeyStateView { writer: None, ..ks }
    } else {
        KeyStateView { readers: ks.readers.remove(proc_id), ..ks }
    };
    if ks.writer == Some(proc_id) || rest.readers.is_empty() {
        assert(rest.readers.is_empty());
        assert(rest.writer is None);
        if rest.pending.len() > 0 && rest.pending[0].1 == RequestType::Reader {
            lemma_grant_reads(rest, key_id);
            let (fin, grants) = rest.grant_reads(key_id);
            assert(grants.len() > 0) by {
                assert(rest.grant_reads(key_id).1.len() > 0);
            }
            assert(fin.readers.contains(rest.pending[0].0)) by {
                assert(0 < grants.len() && rest.pending[0].0 == rest.pending[0].0);
            }
            if fin.pending.len() > 0 {
                assert(fin.pending[0] == rest.pending[grants.len() as int]);
            }
        }
    }
}

/// No reader overtakes a waiting writer: while a writer waits at the head
/// of the queue, a new read request joins the back of the queue instead of
/// being granted.
pub proof fn lemma_no_overtaking(ks: KeyStateView, proc_id: ProcId)
    requires
        ks.write_waiting(),
    ensures
        ks.after_read(proc_id).readers == ks.readers,
        ks.after_read(proc_id).pending == ks.pending.push((proc_id, RequestType::Reader)),
{
}

/// A refused request is granted in time: the request at the head of the
/// queue is the first grant made when the last process holding the key
/// releases it.
pub proof fn lemma_head_granted_on_last_release(ks: KeyStateView, proc_id: ProcId, key_id: KeyId)
    requires
        ks.wf(),
        ks.pending.len() > 0,
        ks.writer == Some(proc_id) || ks.readers == Set::<ProcId>::empty().insert(proc_id),
    ensures
        ks.released(proc_id, key_id).1.len() > 0,
        ks.released(proc_id, key_id).1[0] == (ks.pending[0].0, key_id, ks.pending[0].1),
{
    if ks.writer != Some(proc_id) {
        assert(ks.readers.contains(proc_id));
        assert(ks.readers.remove(proc_id) =~= Set::<ProcId>::empty());
    }
    let rest = if ks.writer == Some(proc_id) {
        KeyStateView { writer: None, ..ks }
    } else {
        KeyStateView { readers: ks.readers.remove(proc_id), ..ks }
    };
    assert(rest.readers.is_empty());
    assert(ks.released(proc_id, key_id) == rest.grant_pending(key_id));
    if rest.pending[0].1 != RequestType::Writer {
        assert(rest.pending[0].1 == RequestType::Reader);
        let out = rest.grant_reads(key_id);
        assert(out.1[0] == (ks.pending[0].0, key_id, ks.pending[0].1));
    }
}

/// The release of the last process holding a key is a round of access;
/// the release of a reader that is not the last one grants nothing.
pub proof fn lemma_last_release_is_round(ks: KeyStateView, proc_id: ProcId, key_id: KeyId)
    requires
        ks.wf(),
        ks.holds_access(proc_id),
    ensures
        (ks.writer == Some(proc_id) || ks.readers == Set::<ProcId>::empty().insert(proc_id))
            ==> ks.released(proc_id, key_id) == ks.round(key_id),
        !(ks.writer == Some(proc_id) || ks.readers == Set::<ProcId>::empty().insert(proc_id))
            ==> ks.released(proc_id, key_id) == (
            KeyStateView { readers: ks.readers.remove(proc_id), ..ks },
            Seq::<Grant>::empty(),
        ),
{
    let cleared = KeyStateView { writer: None, readers: Set::empty(), ..ks };
    if ks.writer == Some(proc_id) {
        assert(ks.readers =~= Set::<ProcId>::empty());
        assert(KeyStateView { writer: None, ..ks } == cleared);
    } else {
        let rest = KeyStateView { readers: ks.readers.remove(proc_id), ..ks };
        assert(ks.writer is None);
        if ks.readers == Set::<ProcId>::empty().insert(proc_id) {
            assert(rest.readers =~= Set::<ProcId>::empty());
            assert(rest == cleared);
        } else {
            assert(!rest.readers.is_empty()) by {
                if rest.readers =~= Set::<ProcId>::empty() {
                    assert(ks.readers =~= Set::<ProcId>::empty().insert(proc_id));
                }
            }
        }
    }
}

/// No request starves: within as many rounds of access as requests wait,
/// every waiting request is granted, once and in queue order, and nothing
/// waits any more.
pub proof fn lemma_all_queued_granted(ks: KeyStateView, key_id: KeyId, n: nat)
    requires
        ks.pending.len() <= n,
    ensures
        ks.rounds(key_id, n).0.pending.len() == 0,
        ks.rounds(key_id, n).1 == ks.queued_grants(key_id),
    decreases n,
{
    if n == 0 {
        assert(ks.queued_grants(key_id) =~= Seq::<Grant>::empty());
    } else {
        let cleared = KeyStateView { writer: None, readers: Set::empty(), ..ks };
        lemma_grants_follow_queue_order(cleared, key_id);
        let (next, first) = ks.round(key_id);
        assert(next.pending == ks.pending.skip(first.len() as int));
        if ks.pending.len() > 0 {
            assert(first.len() > 0);
        }
        lemma_all_queued_granted(next, key_id, (n - 1) as nat);
        let rest = next.rounds(key_id, (n - 1) as nat).1;
        assert(first + rest =~= ks.queued_grants(key_id)) by {
            assert forall|i: int| 0 <= i < ks.pending.len() implies (first + rest)[i]
                == ks.queued_grants(key_id)[i] by {
                if i < first.len() {
                    assert(first[i] == (first + rest)[i]);
                } else {
                    assert(rest[i - first.len()] == next.queued_grants(key_id)[i - first.len()]);
                    assert(next.pending[i - first.len()] == ks.pending[i]);
                }
            }
        }
    }
}

/// A key with nobody reading or writing it has no waiting request: a
/// release never leaves a request behind on an idle key.
pub proof fn lemma_idle_key_has_no_waiters(ks: KeyStateView)
    requires
        ks.wf(),
        !ks.is_accessed(),
    ensures
        ks.pending.len() == 0,
{
}

/// Every key of a queue keeps its invariant: a writer excludes readers, and
/// requests wait only behind an access.
pub proof fn lemma_keys_wf<F: Fn(ProcId, KeyId, RequestType)>(q: &RwQueue<F>)
    requires
        q.wf(),
    ensures
        forall|k: KeyId| #[trigger] q.keys().contains_key(k) ==> q.keys()[k].wf(),
{
}

/// Mutual exclusion: a key is never written while it is read.
pub proof fn lemma_writer_excludes_readers<F: Fn(ProcId, KeyId, RequestType)>(
    q: &RwQueue<F>,
    key_id: KeyId,
)
    requires
        q.wf(),
        q.keys().contains_key(key_id),
    ensures
        q.keys()[key_id].writer is Some ==> q.keys()[key_id].readers.is_empty(),
{
}

/// Requests are served first come, first served: the grants of a release
/// are the head of the queue, in order, with their own request types, and
/// the queue keeps the rest; a batch is either one write or only reads.
pub proof fn lemma_grants_follow_queue_order(ks: KeyStateView, key_id: KeyId)
    ensures
        ({
            let (fin, grants) = ks.grant_pending(key_id);
            &&& grants.len() <= ks.pending.len()
            &&& fin.pending == ks.pending.skip(grants.len() as int)
            &&& forall|i: int|
                0 <= i < grants.len() ==> (#[trigger] grants[i]).0 == ks.pending[i].0
                    && grants[i].1 == key_id && grants[i].2 == ks.pending[i].1
            &&& (exists|i: int|
                0 <= i < grants.len() && (#[trigger] grants[i]).2 == RequestType::Writer)
                ==> grants.len() == 1
            &&& fin.creator == ks.creator
            &&& ks.pending.len() > 0 ==> grants.len() > 0
        }),
{
    if ks.pending.len() == 0 {
        assert(ks.pending.skip(0) =~= ks.pending);
    } else if ks.pending[0].1 == RequestType::Writer {
        let (fin, grants) = ks.grant_pending(key_id);
        assert(grants.len() == 1);
        assert(fin.pending =~= ks.pending.skip(1));
    } else {
        lemma_grant_reads(ks, key_id);
        let (fin, grants) = ks.grant_pending(key_id);
        assert(ks.grant_reads(key_id).1.len() > 0);
        assert forall|i: int| 0 <= i < grants.len() implies (#[trigger] grants[i]).2
            != RequestType::Writer by {
            assert(grants[i] == (ks.pending[i].0, key_id, RequestType::Reader));
        }
    }
}

/// A read request is granted at once when nobody writes and no writer
/// waits: the reader joins the readers and nothing else changes. Otherwise
/// it joins the back of the queue and nothing else changes.
pub proof fn lemma_read_request(ks: KeyStateView, proc_id: ProcId)
    ensures
        !(ks.writer is Some || ks.write_waiting()) ==> {
            &&& ks.after_read(proc_id).readers == ks.readers.insert(proc_id)
            &&& ks.after_read(proc_id).pending == ks.pending
            &&& ks.after_read(proc_id).writer == ks.writer
            &&& ks.after_read(proc_id).creator == ks.creator
        },
        (ks.writer is Some || ks.write_waiting()) ==> {
            &&& ks.after_read(proc_id).pending.len() == ks.pending.len() + 1
            &&& ks.after_read(proc_id).pending.drop_last() == ks.pending
            &&& ks.after_read(proc_id).pending.last() == (proc_id, RequestType::Reader)
            &&& ks.after_read(proc_id).readers == ks.readers
            &&& ks.after_read(proc_id).writer == ks.writer
            &&& ks.after_read(proc_id).creator == ks.creator
        },
{
    if ks.writer is Some || ks.write_waiting() {
        assert(ks.after_read(proc_id).pending.drop_last() =~= ks.pending);
    }
}

/// A write request is granted at once on a key nobody holds: the writer is
/// set and nothing else changes. On a key somebody holds it joins the back
/// of the queue and nothing else changes.
pub proof fn lemma_write_request(ks: KeyStateView, proc_id: ProcId)
    ensures
        !ks.is_accessed() ==> {
            &&& ks.after_write(proc_id).writer == Some(proc_id)
            &&& ks.after_write(proc_id).readers == ks.readers
            &&& ks.after_write(proc_id).pending == ks.pending
            &&& ks.after_write(proc_id).creator == ks.creator
        },
        ks.is_accessed() ==> {
            &&& ks.after_write(proc_id).pending.len() == ks.pending.len() + 1
            &&& ks.after_write(proc_id).pending.drop_last() == ks.pending
            &&& ks.after_write(proc_id).pending.last() == (proc_id, RequestType::Writer)
            &&& ks.after_write(proc_id).readers == ks.readers
            &&& ks.after_write(proc_id).writer == ks.writer
            &&& ks.after_write(proc_id).creator == ks.creator
        },
{
    if ks.is_accessed() {
        assert(ks.after_write(proc_id).pending.drop_last() =~= ks.pending);
    }
}

/// Serving the queue of a key nobody holds hands the key exactly to the
/// processes it grants: a granted writer becomes the writer, with no reader
/// and no other grant; each granted reader becomes a reader, and nobody else
/// does; a waiting queue always grants someone; and when readers are
/// granted, the request left at the head, if any, is a write.
pub proof fn lemma_grants_hold_access(ks: KeyStateView, key_id: KeyId)
    requires
        ks.writer is None,
        ks.readers.is_empty(),
    ensures
        ks.pending.len() > 0 <==> ks.grant_pending(key_id).1.len() > 0,
        ks.grant_pending(key_id).0.creator == ks.creator,
        forall|i: int|
            0 <= i < ks.grant_pending(key_id).1.len() && (#[trigger] ks.grant_pending(
                key_id,
            ).1[i]).2 == RequestType::Writer ==> ks.grant_pending(key_id).0.writer == Some(
                ks.grant_pending(key_id).1[i].0,
            ) && ks.grant_pending(key_id).0.readers.is_empty() && ks.grant_pending(
                key_id,
            ).1.len() == 1,
        (forall|i: int|
            0 <= i < ks.grant_pending(key_id).1.len() ==> (#[trigger] ks.grant_pending(
                key_id,
            ).1[i]).2 == RequestType::Reader) ==> ks.grant_pending(key_id).0.writer is None,
        forall|p: ProcId|
            #[trigger] ks.grant_pending(key_id).0.readers.contains(p) <==> exists|i: int|
                0 <= i < ks.grant_pending(key_id).1.len() && ks.grant_pending(key_id).1[i].0 == p
                    && ks.grant_pending(key_id).1[i].2 == RequestType::Reader,
        ks.grant_pending(key_id).1.len() > 0 && ks.grant_pending(key_id).1[0].2
            == RequestType::Reader && ks.grant_pending(key_id).0.pending.len() > 0
            ==> ks.grant_pending(key_id).0.pending[0].1 == RequestType::Writer,
{
    let out = ks.grant_pending(key_id);
    let fin = out.0;
    let grants = out.1;
    if ks.pending.len() == 0 {
        assert(grants.len() == 0);
        assert(fin == ks);
    } else if ks.pending[0].1 == RequestType::Writer {
        assert(grants.len() == 1);
        assert(grants[0].2 == RequestType::Writer);
        assert forall|p: ProcId| #[trigger] fin.readers.contains(p) <==> exists|i: int|
            0 <= i < grants.len() && grants[i].0 == p && grants[i].2 == RequestType::Reader by {
            if exists|i: int| 0 <= i < grants.len() && grants[i].0 == p && grants[i].2
                == RequestType::Reader {
                let i = choose|i: int| 0 <= i < grants.len() && grants[i].0 == p && grants[i].2
                    == RequestType::Reader;
                assert(i == 0);
            }
        }
    } else {
        assert(ks.pending[0].1 == RequestType::Reader);
        lemma_grant_reads(ks, key_id);
        assert(grants == ks.grant_reads(key_id).1);
        assert(fin == ks.grant_reads(key_id).0);
        assert(grants.len() > 0);
        assert forall|i: int| 0 <= i < grants.len() implies (#[trigger] grants[i]).2
            == RequestType::Reader by {
            assert(grants[i] == (ks.pending[i].0, key_id, RequestType::Reader));
        }
        assert forall|p: ProcId| #[trigger] fin.readers.contains(p) <==> exists|i: int|
            0 <= i < grants.len() && grants[i].0 == p && grants[i].2 == RequestType::Reader by {
            if fin.readers.contains(p) {
                let i = choose|i: int| 0 <= i < grants.len() && ks.pending[i].0 == p;
                assert(grants[i] == (ks.pending[i].0, key_id, RequestType::Reader));
            }
            if exists|i: int| 0 <= i < grants.len() && grants[i].0 == p && grants[i].2
                == RequestType::Reader {
                let i = choose|i: int| 0 <= i < grants.len() && grants[i].0 == p && grants[i].2
                    == RequestType::Reader;
                assert(grants[i] == (ks.pending[i].0, key_id, RequestType::Reader));
            }
        }
        if fin.pending.len() > 0 {
            assert(fin.pending[0] == ks.pending[grants.len() as int]);
        }
    }
}

/// Every process a release grants holds access afterwards: a granted writer
/// is the writer, with no reader, and a granted reader is a reader, with no
/// writer.
pub proof fn lemma_released_grants_hold_access(ks: KeyStateView, proc_id: ProcId, key_id: KeyId)
    requires
        ks.wf(),
        ks.holds_access(proc_id),
    ensures
        forall|i: int|
            0 <= i < ks.released(proc_id, key_id).1.len() && (#[trigger] ks.released(
                proc_id,
                key_id,
            ).1[i]).2 == RequestType::Writer ==> ks.released(proc_id, key_id).0.writer == Some(
                ks.released(proc_id, key_id).1[i].0,
            ) && ks.released(proc_id, key_id).0.readers.is_empty(),
        forall|i: int|
            0 <= i < ks.released(proc_id, key_id).1.len() && (#[trigger] ks.released(
                proc_id,
                key_id,
            ).1[i]).2 == RequestType::Reader ==> ks.released(proc_id, key_id).0.readers.contains(
                ks.released(proc_id, key_id).1[i].0,
            ) && ks.released(proc_id, key_id).0.writer is None,
{
    lemma_last_release_is_round(ks, proc_id, key_id);
    if ks.writer == Some(proc_id) || ks.readers == Set::<ProcId>::empty().insert(proc_id) {
        let cleared = KeyStateView { writer: None, readers: Set::empty(), ..ks };
        lemma_grants_hold_access(cleared, key_id);
        let grants = cleared.grant_pending(key_id).1;
        lemma_grants_follow_queue_order(cleared, key_id);
        assert forall|i: int|
            0 <= i < grants.len() && (#[trigger] grants[i]).2 == RequestType::Reader implies cleared.grant_pending(
            key_id,
        ).0.writer is None by {
            assert forall|j: int| 0 <= j < grants.len() implies (#[trigger] grants[j]).2
                == RequestType::Reader by {
                if grants[j].2 != RequestType::Reader {
                    assert(grants[j].2 == cleared.pending[j].1);
                    assert(grants[j].2 == RequestType::Writer);
                    assert(grants.len() == 1);
                    assert(i == j);
                }
            }
        }
    }
}

/// Releasing takes the access away from the releaser and from nobody else:
/// afterwards the releaser holds access only if the same release grants it
/// again, every other reader still reads, the creator is kept, and the
/// queue loses exactly the requests granted, from its head.
pub proof fn lemma_release_drops_access(ks: KeyStateView, proc_id: ProcId, key_id: KeyId)
    requires
        ks.wf(),
        ks.holds_access(proc_id),
    ensures
        ks.released(proc_id, key_id).0.holds_access(proc_id) ==> exists|i: int|
            0 <= i < ks.released(proc_id, key_id).1.len() && (#[trigger] ks.released(
                proc_id,
                key_id,
            ).1[i]).0 == proc_id,
        forall|q: ProcId|
            q != proc_id && ks.readers.contains(q) ==> #[trigger] ks.released(
                proc_id,
                key_id,
            ).0.readers.contains(q),
        ks.released(proc_id, key_id).0.creator == ks.creator,
        ks.released(proc_id, key_id).1.len() <= ks.pending.len(),
        ks.released(proc_id, key_id).0.pending == ks.pending.skip(
            ks.released(proc_id, key_id).1.len() as int,
        ),
{
    lemma_last_release_is_round(ks, proc_id, key_id);
    let out = ks.released(proc_id, key_id);
    let fin = out.0;
    let grants = out.1;
    if ks.writer == Some(proc_id) || ks.readers == Set::<ProcId>::empty().insert(proc_id) {
        let cleared = KeyStateView { writer: None, readers: Set::empty(), ..ks };
        lemma_grants_hold_access(cleared, key_id);
        lemma_grants_follow_queue_order(cleared, key_id);
        assert(out == cleared.grant_pending(key_id));
        if ks.writer == Some(proc_id) {
            assert(ks.readers.is_empty());
        }
        if fin.readers.contains(proc_id) {
            let i = choose|i: int|
                0 <= i < grants.len() && grants[i].0 == proc_id && grants[i].2 == RequestType::Reader;
            assert(grants[i].0 == proc_id);
        } else if fin.writer == Some(proc_id) {
            if forall|j: int| 0 <= j < grants.len() ==> (#[trigger] grants[j]).2 == RequestType::Reader {
                assert(fin.writer is None);
            } else {
                let j = choose|j: int| !(0 <= j < grants.len() ==> (#[trigger] grants[j]).2
                    == RequestType::Reader);
                assert(grants[j].2 == cleared.pending[j].1);
                assert(grants[j].2 == RequestType::Writer);
                assert(grants[j].0 == proc_id);
            }
        }
    } else {
        assert(ks.writer is None);
        assert(ks.pending.skip(0) =~= ks.pending);
    }
}

/// A new key belongs to its creator, is held by nobody and has no waiting
/// request.
pub proof fn lemma_fresh(creator: ProcId)
    ensures
        KeyStateView::fresh(creator).creator == creator,
        KeyStateView::fresh(creator).writer is None,
        KeyStateView::fresh(creator).readers == Set::<ProcId>::empty(),
        KeyStateView::fresh(creator).pending.len() == 0,
{
}

/// Releasing an access that was just granted on a quiet key undoes it: the
/// key returns to its previous state and nobody else is granted.
pub proof fn lemma_release_undoes_grant(ks: KeyStateView, proc_id: ProcId, key_id: KeyId)
    requires
        ks.wf(),
        !ks.readers.contains(proc_id),
        ks.writer != Some(proc_id),
    ensures
        !ks.is_accessed() ==> ks.after_write(proc_id).released(proc_id, key_id) == (
            ks,
            Seq::<Grant>::empty(),
        ),
        !(ks.writer is Some || ks.write_waiting()) ==> ks.after_read(proc_id).released(
            proc_id,
            key_id,
        ) == (ks, Seq::<Grant>::empty()),
{
    if !ks.is_accessed() {
        let w = ks.after_write(proc_id);
        assert(KeyStateView { writer: None, ..w } == ks);
    }
    if !(ks.writer is Some || ks.write_waiting()) {
        let r = ks.after_read(proc_id);
        assert(r.readers.remove(proc_id) =~= ks.readers);
        assert(KeyStateView { readers: r.readers.remove(proc_id), ..r } == ks);
        if ks.readers.is_empty() {
            assert(ks.pending.len() == 0);
        }
    }
}

/// Deleting a key that was just created restores the queue.
pub proof fn lemma_delete_undoes_create(
    keys: Map<KeyId, KeyStateView>,
    creator: ProcId,
    key_id: KeyId,
)
    requires
        !keys.contains_key(key_id),
    ensures
        keys.insert(key_id, KeyStateView::fresh(creator)).remove(key_id) == keys,
{
    assert(keys.insert(key_id, KeyStateView::fresh(creator)).remove(key_id) =~= keys);
}

/// The state of every key, and the callback that announces each grant.
pub struct RwQueue<F: Fn(ProcId, KeyId, RequestType)> {
    on_access_granted: F,
    key_states: HashMap<KeyId, KeyState>,
    granted: Ghost<Seq<Grant>>,
}

impl<F: Fn(ProcId, KeyId, RequestType)> RwQueue<F> {
    /// The state of every existing key.
    pub closed spec fn keys(&self) -> Map<KeyId, KeyStateView> {
        self.key_states@.map_values(|ks: KeyState| ks@)
    }

    /// Every call made to the grant callback, in order.
    pub closed spec fn granted(&self) -> Seq<Grant> {
        self.granted@
    }

    /// The callback accepts every grant, and every key keeps its invariant.
    pub closed spec fn wf(&self) -> bool {
        &&& forall|p: ProcId, k: KeyId, t: RequestType|
            call_requires(self.on_access_granted, (p, k, t))
        &&& forall|k: KeyId|
            #[trigger] self.key_states@.contains_key(k) ==> self.key_states@[k]@.wf()
    }

    proof fn lemma_keys_insert(
        old_map: Map<KeyId, KeyState>,
        new_map: Map<KeyId, KeyState>,
        key_id: KeyId,
        ks: KeyState,
    )
        requires
            new_map == old_map.insert(key_id, ks),
        ensures
            new_map.map_values(|ks: KeyState| ks@) == old_map.map_values(|ks: KeyState| ks@).insert(
                key_id,
                ks@,
            ),
    {
        assert(new_map.map_values(|ks: KeyState| ks@) =~= old_map.map_values(|ks: KeyState| ks@).insert(
            key_id,
            ks@,
        ));
    }

    pub fn new(on_grant: F) -> (q: RwQueue<F>)
        requires
            forall|p: ProcId, k: KeyId, t: RequestType| call_requires(on_grant, (p, k, t)),
        ensures
            q.wf(),
            q.keys() == Map::<KeyId, KeyStateView>::empty(),
            q.granted() == Seq::<Grant>::empty(),
    {
        let q = RwQueue {
            on_access_granted: on_grant,
            key_states: HashMap::new(),
            granted: Ghost(Seq::empty()),
        };
        assert(q.keys() =~= Map::<KeyId, KeyStateView>::empty());
        q
    }

    /// Create a new key if it does not already exist.
    pub fn create(&mut self, proc_id: ProcId, key_id: KeyId) -> (r: Result<(), RwQueueError>)
        requires
            old(self).wf(),
        ensures
            final(self).wf(),
            final(self).granted() == old(self).granted(),
            old(self).keys().contains_key(key_id) ==> r == Err::<(), _>(
                RwQueueError::KeyExists(key_id),
            ) && final(self).keys() == old(self).keys(),
            !old(self).keys().contains_key(key_id) ==> r == Ok::<(), RwQueueError>(()) && final(self).keys() == old(self).keys().insert(key_id, KeyStateView::fresh(proc_id)),
    {
        if self.key_states.contains_key(&key_id) {
            return Err(RwQueueError::KeyExists(key_id));
        }
        let ks = KeyState::new(proc_id);
        let ghost before = self.key_states@;
        self.key_states.insert(key_id, ks);
        proof {
            Self::lemma_keys_insert(before, self.key_states@, key_id, ks);
        }
        Ok(())
    }

    pub fn delete(&mut self, key_id: KeyId) -> (r: Result<(), RwQueueError>)
        requires
            old(self).wf(),
        ensures
            final(self).wf(),
            final(self).granted() == old(self).granted(),
            !old(self).keys().contains_key(key_id) ==> r == Err::<(), _>(
                RwQueueError::KeyNotFound(key_id),
            ) && final(self).keys() == old(self).keys(),
            old(self).keys().contains_key(key_id) ==> r == Ok::<(), RwQueueError>(()) && final(self).keys() == old(self).keys().remove(key_id),
    {
        if !self.key_states.contains_key(&key_id) {
            return Err(RwQueueError::KeyNotFound(key_id));
        }
        self.key_states.remove(&key_id);
        assert(self.keys() =~= old(self).keys().remove(key_id));
        Ok(())
    }

    pub fn get_key_state(&self, key_id: KeyId) -> (r: Result<&KeyState, RwQueueError>)
        ensures
            self.keys().contains_key(key_id) <==> r is Ok,
            match r {
                Ok(ks) => ks@ == self.keys()[key_id],
                Err(e) => e == RwQueueError::KeyNotFound(key_id),
            },
    {
        match self.key_states.get(&key_id) {
            Some(ks) => Ok(ks),
            None => Err(RwQueueError::KeyNotFound(key_id)),
        }
    }

    /// Handle requesting queue for processus we could not grant access
    fn handle_requesting(&mut self, key_state: &mut KeyState, key_id: KeyId)
        requires
            forall|p: ProcId, k: KeyId, t: RequestType|
                call_requires(old(self).on_access_granted, (p, k, t)),
        ensures
            final(self).key_states@ == old(self).key_states@,
            final(self).on_access_granted == old(self).on_access_granted,
            final(key_state)@ == old(key_state)@.grant_pending(key_id).0,
            final(self).granted() == old(self).granted() + old(key_state)@.grant_pending(key_id).1,
    {
        if key_state.pending_request.len() == 0 {
            assert(self.granted() =~= old(self).granted() + Seq::<Grant>::empty());
            return;
        }
        let (proc_id, req_type) = key_state.pending_request[0];
        match req_type {
            RequestType::Writer => {
                (self.on_access_granted)(proc_id, key_id, RequestType::Writer);
                self.granted = Ghost(self.granted@.push((proc_id, key_id, RequestType::Writer)));
                key_state.register_writer(proc_id);
                key_state.pending_request.pop_front();
                assert(key_state@ == old(key_state)@.grant_pending(key_id).0);
                assert(self.granted() =~= old(self).granted() + old(key_state)@.grant_pending(
                    key_id,
                ).1);
            },
            RequestType::Reader => {
                let ghost target = old(key_state)@.grant_reads(key_id);
                while key_state.pending_request.len() > 0 && key_state.pending_request[0].1
                    == RequestType::Reader
                    invariant
                        self.key_states@ == old(self).key_states@,
                        self.on_access_granted == old(self).on_access_granted,
                        forall|p: ProcId, k: KeyId, t: RequestType|
                            call_requires(self.on_access_granted, (p, k, t)),
                        key_state@.grant_reads(key_id).0 == target.0,
                        self.granted() + key_state@.grant_reads(key_id).1 == old(self).granted()
                            + target.1,
                    decreases key_state@.pending.len(),
                {
                    let (reader, _) = key_state.pending_request[0];
                    let ghost before = key_state@;
                    let ghost before_granted = self.granted();
                    (self.on_access_granted)(reader, key_id, RequestType::Reader);
                    self.granted = Ghost(self.granted@.push((reader, key_id, RequestType::Reader)));
                    key_state.register_reader(reader);
                    key_state.pending_request.pop_front();
                    proof {
                        assert(key_state@ == (KeyStateView {
                            readers: before.readers.insert(reader),
                            pending: before.pending.drop_first(),
                            ..before
                        }));
                        let rest = key_state@.grant_reads(key_id).1;
                        assert(before.grant_reads(key_id).1 == seq![
                            (reader, key_id, RequestType::Reader),
                        ] + rest);
                        assert(self.granted() + rest =~= before_granted + before.grant_reads(
                            key_id,
                        ).1);
                    }
                }
                proof {
                    assert(key_state@.grant_reads(key_id) == (key_state@, Seq::<Grant>::empty()));
                    assert(self.granted() + Seq::<Grant>::empty() =~= self.granted());
                }
            },
        }
    }

    /// Release write / read access for a process.
    pub fn release(&mut self, proc_id: ProcId, key_id: KeyId) -> (r: Result<(), RwQueueError>)
        requires
            old(self).wf(),
        ensures
            final(self).wf(),
            !old(self).keys().contains_key(key_id) ==> r == Err::<(), _>(
                RwQueueError::KeyNotFound(key_id),
            ) && final(self).keys() == old(self).keys() && final(self).granted() == old(self).granted(),
            old(self).keys().contains_key(key_id) && !old(self).keys()[key_id].holds_access(proc_id)
                ==> r == Err::<(), _>(RwQueueError::ReleaseAccess(proc_id, key_id)) && final(self).keys() == old(self).keys() && final(self).granted() == old(self).granted(),
            old(self).keys().contains_key(key_id) && old(self).keys()[key_id].holds_access(proc_id)
                ==> {
                let (ks, grants) = old(self).keys()[key_id].released(proc_id, key_id);
                &&& r == Ok::<(), RwQueueError>(())
                &&& final(self).keys() == old(self).keys().insert(key_id, ks)
                &&& final(self).granted() == old(self).granted() + grants
            },
    {
        let ghost before = self.key_states@;
        let mut key_state = match self.key_states.remove(&key_id) {
            Some(ks) => ks,
            None => {
                assert(self.key_states@ =~= before);
                return Err(RwQueueError::KeyNotFound(key_id));
            },
        };
        let ghost ks0 = key_state@;
        assert(ks0 == old(self).keys()[key_id]);
        let writer_release = match key_state.writer {
            Some(writer) => writer == proc_id,
            None => false,
        };
        let reader_release = key_state.readers.contains(&proc_id);
        if !writer_release && !reader_release {
            self.key_states.insert(key_id, key_state);
            assert(self.key_states@ =~= before);
            return Err(RwQueueError::ReleaseAccess(proc_id, key_id));
        }
        if writer_release {
            key_state.writer = None;
            self.handle_requesting(&mut key_state, key_id);
        } else {
            key_state.readers.remove(&proc_id);
            if key_state.readers.is_empty() {
                self.handle_requesting(&mut key_state, key_id);
            } else {
                assert(self.granted() =~= old(self).granted() + Seq::<Grant>::empty());
            }
        }
        self.key_states.insert(key_id, key_state);
        proof {
            assert(key_state@ == ks0.released(proc_id, key_id).0);
            assert(self.key_states@ =~= before.insert(key_id, key_state));
            Self::lemma_keys_insert(before, self.key_states@, key_id, key_state);
            lemma_released_wf(ks0, proc_id, key_id);
            assert forall|k: KeyId| #[trigger] self.key_states@.contains_key(k) implies self.key_states@[
                k
            ]@.wf() by {
                if k != key_id {
                    assert(before.contains_key(k));
                }
            }
        }
        Ok(())
    }

    /// Request read access for a process.
    /// Multiple read are possible at the same time.
    pub fn request_read(&mut self, proc_id: ProcId, key_id: KeyId) -> (r: Result<(), RwQueueError>)
        requires
            old(self).wf(),
        ensures
            final(self).wf(),
            final(self).granted() == old(self).granted(),
            !old(self).keys().contains_key(key_id) ==> r == Err::<(), _>(
                RwQueueError::KeyNotFound(key_id),
            ) && final(self).keys() == old(self).keys(),
            old(self).keys().contains_key(key_id) ==> {
                let ks = old(self).keys()[key_id];
                &&& final(self).keys() == old(self).keys().insert(key_id, ks.after_read(proc_id))
                &&& (ks.writer is Some || ks.write_waiting()) ==> r == Err::<(), _>(
                    RwQueueError::RequestAccess(proc_id, key_id),
                )
                &&& !(ks.writer is Some || ks.write_waiting()) ==> r == Ok::<(), RwQueueError>(())
            },
    {
        let ghost before = self.key_states@;
        let mut key_state = match self.key_states.remove(&key_id) {
            Some(ks) => ks,
            None => {
                assert(self.key_states@ =~= before);
                return Err(RwQueueError::KeyNotFound(key_id));
            },
        };
        assert(key_state@ == old(self).keys()[key_id]);
        let requesting_writer = key_state.pending_request.len() > 0
            && key_state.pending_request[0].1 == RequestType::Writer;
        let result;
        if key_state.writer.is_some() || requesting_writer {
            key_state.pending_request.push_back((proc_id, RequestType::Reader));
            result = Err(RwQueueError::RequestAccess(proc_id, key_id));
        } else {
            key_state.register_reader(proc_id);
            result = Ok(());
        }
        self.key_states.insert(key_id, key_state);
        proof {
            assert(self.key_states@ =~= before.insert(key_id, key_state));
            Self::lemma_keys_insert(before, self.key_states@, key_id, key_state);
            let ks = old(self).keys()[key_id];
            assert(key_state@ == ks.after_read(proc_id));
            assert forall|k: KeyId| #[trigger] self.key_states@.contains_key(k) implies self.key_states@[
                k
            ]@.wf() by {
                if k != key_id {
                    assert(before.contains_key(k));
                } else {
                    assert(ks.wf());
                    if !(ks.writer is Some || ks.write_waiting()) {
                        assert(ks.pending.len() == 0);
                    }
                }
            }
        }
        result
    }

    /// Reqest write access for a process.
    /// Only one write access at a time.
    pub fn request_write(&mut self, proc_id: ProcId, key_id: KeyId) -> (r: Result<(), RwQueueError>)
        requires
            old(self).wf(),
        ensures
            final(self).wf(),
            final(self).granted() == old(self).granted(),
            !old(self).keys().contains_key(key_id) ==> r == Err::<(), _>(
                RwQueueError::KeyNotFound(key_id),
            ) && final(self).keys() == old(self).keys(),
            old(self).keys().contains_key(key_id) ==> {
                let ks = old(self).keys()[key_id];
                &&& final(self).keys() == old(self).keys().insert(key_id, ks.after_write(proc_id))
                &&& ks.is_accessed() ==> r == Err::<(), _>(
                    RwQueueError::RequestAccess(proc_id, key_id),
                )
                &&& !ks.is_accessed() ==> r == Ok::<(), RwQueueError>(())
            },
    {
        let ghost before = self.key_states@;
        let mut key_state = match self.key_states.remove(&key_id) {
            Some(ks) => ks,
            None => {
                assert(self.key_states@ =~= before);
                return Err(RwQueueError::KeyNotFound(key_id));
            },
        };
        assert(key_state@ == old(self).keys()[key_id]);
        let result;
        if !key_state.readers.is_empty() || key_state.writer.is_some() {
            key_state.pending_request.push_back((proc_id, RequestType::Writer));
            result = Err(RwQueueError::RequestAccess(proc_id, key_id));
        } else {
            key_state.register_writer(proc_id);
            result = Ok(());
        }
        self.key_states.insert(key_id, key_state);
        proof {
            assert(self.key_states@ =~= before.insert(key_id, key_state));
            Self::lemma_keys_insert(before, self.key_states@, key_id, key_state);
            let ks = old(self).keys()[key_id];
            assert(key_state@ == ks.after_write(proc_id));
            assert forall|k: KeyId| #[trigger] self.key_states@.contains_key(k) implies self.key_states@[
                k
            ]@.wf() by {
                if k != key_id {
                    assert(before.contains_key(k));
                } else {
                    assert(ks.wf());
                    if ks.is_accessed() && ks.writer is None && ks.pending.len() == 0 {
                        assert(key_state@.pending[0].1 == RequestType::Writer);
                    }
                }
            }
        }
        result
    }
}

} // verus!
