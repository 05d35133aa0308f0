//! The registry's fair readers-writer access manager.
//!
//! Each key has a creator, a set of readers, at most one writer and a queue
//! of pending requests. Pending requests are served in order when the key is
//! released: a waiting writer alone, or every reader at the head of the queue
//! together. Each grant is queued for the registry, which notifies the
//! granted process.
use crate::protocol::{KeyId, ProcId, RequestType};
use std::collections::{HashMap, HashSet, VecDeque};
use vstd::prelude::*;

verus! {

broadcast use vstd::std_specs::hash::group_hash_axioms;

#[non_exhaustive]
#[derive(Debug, PartialEq, Eq)]
pub enum AccessManagerError {
    /// The access cannot be granted yet; the request waits in the queue.
    RequestAccess(ProcId, KeyId),
    /// The process holds no access to the key.
    ReleaseAccess(ProcId, KeyId),
    /// The key is currently read or written.
    KeyAccessed,
    /// The key already exists.
    KeyExists(KeyId),
    /// The key does not exist.
    KeyNotFound(KeyId),
}

/// Data queued when an access is granted to a process.
///
/// Contains the following information:
/// - The granted process id.
/// - The key associated with the access.
/// - The type of request.
/// - The id of the holder.
pub type AccessGranted = (ProcId, KeyId, RequestType, ProcId);

/// Abstract state of one key.
pub struct KeyStateView {
    pub pending: Seq<(ProcId, RequestType)>,
    pub readers: Set<ProcId>,
    pub writer: Option<ProcId>,
    pub creator: ProcId,
}

impl KeyStateView {
    /// The state of a key just created by `creator`.
    pub open spec fn fresh(creator: ProcId) -> KeyStateView {
        KeyStateView {
            pending: Seq::empty(),
            readers: Set::empty(),
            writer: None,
            creator,
        }
    }

    /// A process that knows the key's data: the writer, else the creator.
    pub open spec fn holder(self) -> ProcId {
        match self.writer {
            Some(w) => w,
            None => self.creator,
        }
    }

    /// Some process reads or writes the key.
    pub open spec fn is_accessed(self) -> bool {
        !self.readers.is_empty() || self.writer is Some
    }

    /// A write request is at the head of the queue.
    pub open spec fn write_waiting(self) -> bool {
        self.pending.len() > 0 && self.pending[0].1 == RequestType::Write
    }

    /// Only reads and writes wait in the queue.
    pub open spec fn queue_well_typed(self) -> bool {
        forall|i: int|
            0 <= i < self.pending.len() ==> (#[trigger] self.pending[i]).1 == RequestType::Read
                || self.pending[i].1 == RequestType::Write
    }

    /// The invariant of a key: a writer excludes readers, and requests wait
    /// only behind an access, with a writer at the head while readers read.
    pub open spec fn wf(self) -> bool {
        &&& self.writer is Some ==> self.readers.is_empty()
        &&& (self.writer is None && self.pending.len() > 0) ==> (!self.readers.is_empty()
            && self.write_waiting())
        &&& self.queue_well_typed()
    }

    /// The state after `proc_id` asks to read.
    pub open spec fn after_read(self, proc_id: ProcId) -> KeyStateView {
        if self.writer is Some || self.write_waiting() {
            KeyStateView { pending: self.pending.push((proc_id, RequestType::Read)), ..self }
        } else {
            KeyStateView { readers: self.readers.insert(proc_id), ..self }
        }
    }

    /// The state after `proc_id` asks to write.
    pub open spec fn after_write(self, proc_id: ProcId) -> KeyStateView {
        if self.is_accessed() {
            KeyStateView { pending: self.pending.push((proc_id, RequestType::Write)), ..self }
        } else {
            KeyStateView { writer: Some(proc_id), ..self }
        }
    }

    /// Grants every read at the head of the queue, in order, each with the
    /// given holder; returns the new state and the grants.
    pub open spec fn grant_reads(self, key_id: KeyId, holder: ProcId) -> (
        KeyStateView,
        Seq<AccessGranted>,
    )
        decreases self.pending.len(),
    {
        if self.pending.len() > 0 && self.pending[0].1 == RequestType::Read {
            let proc_id = self.pending[0].0;
            let next = KeyStateView {
                readers: self.readers.insert(proc_id),
                pending: self.pending.drop_first(),
                ..self
            };
            let (fin, grants) = next.grant_reads(key_id, holder);
            (fin, seq![(proc_id, key_id, RequestType::Read, holder)] + grants)
        } else {
            (self, Seq::empty())
        }
    }

    /// Serves the head of the queue: a waiting writer alone, or all the
    /// readers at the head together.
    pub open spec fn grant_pending(self, key_id: KeyId) -> (KeyStateView, Seq<AccessGranted>) {
        if self.pending.len() == 0 {
            (self, Seq::empty())
        } else if self.pending[0].1 == RequestType::Write {
            let proc_id = self.pending[0].0;
            (
                KeyStateView { writer: Some(proc_id), pending: self.pending.drop_first(), ..self },
                seq![(proc_id, key_id, RequestType::Write, self.holder())],
            )
        } else {
            self.grant_reads(key_id, self.holder())
        }
    }

    /// One round of access: every process holding the key releases it, and
    /// the head of the queue is served.
    pub open spec fn round(self, key_id: KeyId) -> (KeyStateView, Seq<AccessGranted>) {
        KeyStateView { writer: None, readers: Set::empty(), ..self }.grant_pending(key_id)
    }

    /// `n` rounds of access in a row, with all the grants they make.
    pub open spec fn rounds(self, key_id: KeyId, n: nat) -> (KeyStateView, Seq<AccessGranted>)
        decreases n,
    {
        if n == 0 {
            (self, Seq::empty())
        } else {
            let (next, first) = self.round(key_id);
            let (fin, rest) = next.rounds(key_id, (n - 1) as nat);
            (fin, first + rest)
        }
    }

    /// The grant each waiting request receives, in queue order.
    pub open spec fn queued_grants(self, key_id: KeyId) -> Seq<AccessGranted> {
        self.pending.map_values(
            |req: (ProcId, RequestType)| (req.0, key_id, req.1, self.creator),
        )
    }

    /// `proc_id` holds an access to the key.
    pub open spec fn holds_access(self, proc_id: ProcId) -> bool {
        self.writer == Some(proc_id) || self.readers.contains(proc_id)
    }

    /// The state and the grants after `proc_id` releases its access.
    pub open spec fn released(self, proc_id: ProcId, key_id: KeyId) -> (
        KeyStateView,
        Seq<AccessGranted>,
    ) {
        if self.writer == Some(proc_id) {
            KeyStateView { writer: None, ..self }.grant_pending(key_id)
        } else {
            let rest = KeyStateView { readers: self.readers.remove(proc_id), ..self };
            if rest.readers.is_empty() {
                rest.grant_pending(key_id)
            } else {
                (rest, Seq::empty())
            }
        }
    }
}

/// Current state of a specific key, tracking current readers and writer.
/// Pending requests are processed alternately to ensure fair access.
/// `creator` indicates the holder of the resource in case of no readers / writer.
#[derive(Debug)]
pub struct KeyState {
    pending_request: VecDeque<(ProcId, RequestType)>,
    readers: HashSet<ProcId>,
    writer: Option<ProcId>,
    pub creator: ProcId,
}

impl View for KeyState {
    type V = KeyStateView;

    closed spec fn view(&self) -> KeyStateView {
        KeyStateView {
            pending: self.pending_request@,
            readers: self.readers@,
            writer: self.writer,
            creator: self.creator,
        }
    }
}

impl KeyState {
    pub fn new(creator: ProcId) -> (ks: Self)
        ensures
            ks@ == KeyStateView::fresh(creator),
    {
        let ks = Self {
            pending_request: VecDeque::new(),
            readers: HashSet::new(),
            writer: None,
            creator,
        };
        assert(ks@.pending =~= Seq::<(ProcId, RequestType)>::empty());
        ks
    }

    /// The requests waiting for an access, oldest first.
    pub fn pending_request(&self) -> (r: &VecDeque<(ProcId, RequestType)>)
        ensures
            r@ == self@.pending,
    {
        &self.pending_request
    }

    /// The processes currently reading the key.
    pub fn readers(&self) -> (r: &HashSet<ProcId>)
        ensures
            r@ == self@.readers,
    {
        &self.readers
    }

    /// The process currently writing the key, if any.
    pub fn writer(&self) -> (r: Option<ProcId>)
        ensures
            r == self@.writer,
    {
        self.writer
    }

    /// The process that created the key.
    pub fn creator(&self) -> (r: ProcId)
        ensures
            r == self@.creator,
    {
        self.creator
    }

    fn register_reader(&mut self, proc_id: ProcId)
        ensures
            final(self)@ == (KeyStateView { readers: old(self)@.readers.insert(proc_id), ..old(self)@ }),
    {
        self.readers.insert(proc_id);
    }

    fn register_writer(&mut self, proc_id: ProcId)
        ensures
            final(self)@ == (KeyStateView { writer: Some(proc_id), ..old(self)@ }),
    {
        self.writer = Some(proc_id);
    }

    // Find a processus that knows the key's data
    // The writer has the priority, because he can modify the data
    fn holder(&self) -> (r: ProcId)
        ensures
            r == self@.holder(),
    {
        if let Some(writer) = self.writer {
            return writer;
        }
        self.creator
    }
}

/// Facts on serving the reads at the head of the queue.
proof fn lemma_grant_reads(ks: KeyStateView, key_id: KeyId, holder: ProcId)
    ensures
        ks.grant_reads(key_id, holder).0.writer == ks.writer,
        ks.grant_reads(key_id, holder).0.creator == ks.creator,
        ks.grant_reads(key_id, holder).1.len() <= ks.pending.len(),
        ks.grant_reads(key_id, holder).0.pending == ks.pending.skip(
            ks.grant_reads(key_id, holder).1.len() as int,
        ),
        ks.grant_reads(key_id, holder).0.pending.len() > 0 ==> ks.grant_reads(
            key_id,
            holder,
        ).0.pending[0].1 != RequestType::Read,
        forall|i: int|
            0 <= i < ks.grant_reads(key_id, holder).1.len() ==> ks.pending[i].1 == RequestType::Read
                && #[trigger] ks.grant_reads(key_id, holder).1[i] == (
                ks.pending[i].0,
                key_id,
                RequestType::Read,
                holder,
            ),
        forall|p: ProcId|
            #[trigger] ks.grant_reads(key_id, holder).0.readers.contains(p) <==> (
            ks.readers.contains(p) || exists|i: int|
                0 <= i < ks.grant_reads(key_id, holder).1.len() && ks.pending[i].0 == p),
    decreases ks.pending.len(),
{
    if ks.pending.len() > 0 && ks.pending[0].1 == RequestType::Read {
        let proc_id = ks.pending[0].0;
        let next = KeyStateView {
            readers: ks.readers.insert(proc_id),
            pending: ks.pending.drop_first(),
            ..ks
        };
        lemma_grant_reads(next, key_id, holder);
        let (fin, grants) = next.grant_reads(key_id, holder);
        let all = seq![(proc_id, key_id, RequestType::Read, holder)] + grants;
        assert(ks.grant_reads(key_id, holder).0 == fin);
        assert(ks.grant_reads(key_id, holder).1 == all);
        assert(fin.pending =~= ks.pending.skip(all.len() as int));
        let out = ks.grant_reads(key_id, holder).1;
        assert forall|i: int|
            #![trigger out[i]]
            #![trigger ks.pending[i]]
            0 <= i < out.len() implies ks.pending[i].1 == RequestType::Read && out[i] == (ks.pending[i].0, key_id, RequestType::Read, holder) by {
            if i > 0 {
                assert(all[i] == grants[i - 1]);
                assert(next.pending[i - 1] == ks.pending[i]);
            }
        }
        assert forall|p: ProcId| #[trigger] fin.readers.contains(p) <==> (ks.readers.contains(p)
            || exists|i: int| 0 <= i < all.len() && ks.pending[i].0 == p) by {
            if fin.readers.contains(p) && !ks.readers.contains(p) && p != proc_id {
                let i = choose|i: int| 0 <= i < grants.len() && next.pending[i].0 == p;
                assert(ks.pending[i + 1].0 == p);
            }
            if p == proc_id {
                assert(ks.pending[0].0 == p);
            }
            if exists|i: int| 0 <= i < all.len() && ks.pending[i].0 == p {
                let i = choose|i: int| 0 <= i < all.len() && ks.pending[i].0 == p;
                if i > 0 {
                    assert(next.pending[i - 1].0 == p);
                }
            }
        }
    } else {
        assert(ks.pending.skip(0) =~= ks.pending);
        assert(ks.grant_reads(key_id, holder).1.len() == 0);
    }
}

/// Releasing a held access keeps the invariant of a key.
proof fn lemma_released_wf(ks: KeyStateView, proc_id: ProcId, key_id: KeyId)
    requires
        ks.wf(),
        ks.holds_access(proc_id),
    ensures
        ks.released(proc_id, key_id).0.wf(),
        ks.released(proc_id, key_id).0.creator == ks.creator,
{
    let rest = if ks.writer == Some(proc_id) {
        KeyStateView { writer: None, ..ks }
    } else {
        KeyStateView { readers: ks.readers.remove(proc_id), ..ks }
    };
    if ks.writer == Some(proc_id) || rest.readers.is_empty() {
        assert(rest.readers.is_empty());
        assert(rest.writer is None);
        if rest.pending.len() > 0 && rest.pending[0].1 == RequestType::Read {
            lemma_grant_reads(rest, key_id, rest.holder());
            let (fin, grants) = rest.grant_reads(key_id, rest.holder());
            assert(grants.len() > 0) by {
                assert(rest.grant_reads(key_id, rest.holder()).1.len() > 0);
            }
            assert(fin.readers.contains(rest.pending[0].0)) by {
                assert(0 < grants.len() && rest.pending[0].0 == rest.pending[0].0);
            }
            assert forall|i: int| 0 <= i < fin.pending.len() implies (#[trigger] fin.pending[i]).1
                == RequestType::Read || fin.pending[i].1 == RequestType::Write by {
                assert(fin.pending[i] == rest.pending[i + grants.len()]);
            }
            if fin.pending.len() > 0 {
                assert(fin.pending[0] == rest.pending[grants.len() as int]);
            }
        } else if rest.pending.len() > 0 {
            let fin = rest.grant_pending(key_id).0;
            assert forall|i: int| 0 <= i < fin.pending.len() implies (#[trigger] fin.pending[i]).1
                == RequestType::Read || fin.pending[i].1 == RequestType::Write by {
                assert(fin.pending[i] == rest.pending[i + 1]);
            }
        }
    }
}

/// A release grants only reads and writes.
proof fn lemma_released_grants_typed(ks: KeyStateView, proc_id: ProcId, key_id: KeyId)
    requires
        ks.wf(),
    ensures
        grants_well_typed(ks.released(proc_id, key_id).1),
{
    let rest = if ks.writer == Some(proc_id) {
        KeyStateView { writer: None, ..ks }
    } else {
        KeyStateView { readers: ks.readers.remove(proc_id), ..ks }
    };
    lemma_grants_follow_queue_order(rest, key_id);
    let grants = rest.grant_pending(key_id).1;
    assert forall|i: int| 0 <= i < grants.len() implies (#[trigger] grants[i]).2
        == RequestType::Read || grants[i].2 == RequestType::Write by {
        assert(grants[i].2 == rest.pending[i].1);
    }
}

/// No reader overtakes a waiting writer: while a writer waits at the head
/// of the queue, a new read request joins the back of the queue instead of
/// being granted.
pub proof fn lemma_no_overtaking(ks: KeyStateView, proc_id: ProcId)
    requires
        ks.write_waiting(),
    ensures
        ks.after_read(proc_id).readers == ks.readers,
        ks.after_read(proc_id).pending == ks.pending.push((proc_id, RequestType::Read)),
{
}

/// A refused request is granted in time: the request at the head of the
/// queue is the first grant made when the last process holding the key
/// releases it.
pub proof fn lemma_head_granted_on_last_release(ks: KeyStateView, proc_id: ProcId, key_id: KeyId)
    requires
        ks.wf(),
        ks.pending.len() > 0,
        ks.writer == Some(proc_id) || ks.readers == Set::<ProcId>::empty().insert(proc_id),
    ensures
        ks.released(proc_id, key_id).1.len() > 0,
        ks.released(proc_id, key_id).1[0] == (ks.pending[0].0, key_id, ks.pending[0].1, ks.creator),
{
    if ks.writer != Some(proc_id) {
        assert(ks.readers.contains(proc_id));
        assert(ks.readers.remove(proc_id) =~= Set::<ProcId>::empty());
    }
    let rest = if ks.writer == Some(proc_id) {
        KeyStateView { writer: None, ..ks }
    } else {
        KeyStateView { readers: ks.readers.remove(proc_id), ..ks }
    };
    assert(rest.readers.is_empty());
    assert(ks.released(proc_id, key_id) == rest.grant_pending(key_id));
    if rest.pending[0].1 != RequestType::Write {
        assert(rest.pending[0].1 == RequestType::Read);
        let out = rest.grant_reads(key_id, rest.holder());
        assert(out.1[0] == (ks.pending[0].0, key_id, ks.pending[0].1, rest.holder()));
    }
}

/// The release of the last process holding a key is a round of access;
/// the release of a reader that is not the last one grants nothing.
pub proof fn lemma_last_release_is_round(ks: KeyStateView, proc_id: ProcId, key_id: KeyId)
    requires
        ks.wf(),
        ks.holds_access(proc_id),
    ensures
        (ks.writer == Some(proc_id) || ks.readers == Set::<ProcId>::empty().insert(proc_id))
            ==> ks.released(proc_id, key_id) == ks.round(key_id),
        !(ks.writer == Some(proc_id) || ks.readers == Set::<ProcId>::empty().insert(proc_id))
            ==> ks.released(proc_id, key_id) == (
            KeyStateView { readers: ks.readers.remove(proc_id), ..ks },
            Seq::<AccessGranted>::empty(),
        ),
{
    let cleared = KeyStateView { writer: None, readers: Set::empty(), ..ks };
    if ks.writer == Some(proc_id) {
        assert(ks.readers =~= Set::<ProcId>::empty());
        assert(KeyStateView { writer: None, ..ks } == cleared);
    } else {
        let rest = KeyStateView { readers: ks.readers.remove(proc_id), ..ks };
        assert(ks.writer is None);
        if ks.readers == Set::<ProcId>::empty().insert(proc_id) {
            assert(rest.readers =~= Set::<ProcId>::empty());
            assert(rest == cleared);
        } else {
            assert(!rest.readers.is_empty()) by {
                if rest.readers =~= Set::<ProcId>::empty() {
                    assert(ks.readers =~= Set::<ProcId>::empty().insert(proc_id));
                }
            }
        }
    }
}

/// No request starves: within as many rounds of access as requests wait,
/// every waiting request is granted, once and in queue order, and nothing
/// waits any more.
pub proof fn lemma_all_queued_granted(ks: KeyStateView, key_id: KeyId, n: nat)
    requires
        ks.queue_well_typed(),
        ks.pending.len() <= n,
    ensures
        ks.rounds(key_id, n).0.pending.len() == 0,
        ks.rounds(key_id, n).1 == ks.queued_grants(key_id),
    decreases n,
{
    if n == 0 {
        assert(ks.queued_grants(key_id) =~= Seq::<AccessGranted>::empty());
    } else {
        let cleared = KeyStateView { writer: None, readers: Set::empty(), ..ks };
        lemma_grants_follow_queue_order(cleared, key_id);
        let (next, first) = ks.round(key_id);
        assert(next.pending == ks.pending.skip(first.len() as int));
        if ks.pending.len() > 0 {
            assert(first.len() > 0);
        }
        assert(next.queue_well_typed()) by {
            assert forall|i: int| 0 <= i < next.pending.len() implies (
            #[trigger] next.pending[i]).1 == RequestType::Read || next.pending[i].1
                == RequestType::Write by {
                assert(next.pending[i] == ks.pending[i + first.len()]);
            }
        }
        lemma_all_queued_granted(next, key_id, (n - 1) as nat);
        let rest = next.rounds(key_id, (n - 1) as nat).1;
        assert(first + rest =~= ks.queued_grants(key_id)) by {
            assert forall|i: int| 0 <= i < ks.pending.len() implies (first + rest)[i]
                == ks.queued_grants(key_id)[i] by {
                if i < first.len() {
                    assert(first[i] == (first + rest)[i]);
                } else {
                    assert(rest[i - first.len()] == next.queued_grants(key_id)[i - first.len()]);
                    assert(next.pending[i - first.len()] == ks.pending[i]);
                }
            }
        }
    }
}

/// A key with nobody reading or writing it has no waiting request: a
/// release never leaves a request behind on an idle key.
pub proof fn lemma_idle_key_has_no_waiters(ks: KeyStateView)
    requires
        ks.wf(),
        !ks.is_accessed(),
    ensures
        ks.pending.len() == 0,
{
}

/// Every key of a manager keeps its invariant (a writer excludes readers,
/// requests wait only behind an access, only reads and writes wait), and
/// only reads and writes are granted.
pub proof fn lemma_keys_wf(m: &AccessManager)
    requires
        m.wf(),
    ensures
        forall|k: KeyId| #[trigger] m.keys().contains_key(k) ==> m.keys()[k].wf(),
        grants_well_typed(m.granted()),
{
}

/// Mutual exclusion: a key is never written while it is read.
pub proof fn lemma_writer_excludes_readers(m: &AccessManager, key_id: KeyId)
    requires
        m.wf(),
        m.keys().contains_key(key_id),
    ensures
        m.keys()[key_id].writer is Some ==> m.keys()[key_id].readers.is_empty(),
{
}

/// Requests are served first come, first served: the grants of a release
/// are the head of the queue, in order, with their own request types, and
/// the queue keeps the rest; a batch is either one write or only reads.
pub proof fn lemma_grants_follow_queue_order(ks: KeyStateView, key_id: KeyId)
    ensures
        ({
            let (fin, grants) = ks.grant_pending(key_id);
            &&& grants.len() <= ks.pending.len()
            &&& fin.pending == ks.pending.skip(grants.len() as int)
            &&& forall|i: int|
                0 <= i < grants.len() ==> (#[trigger] grants[i]).0 == ks.pending[i].0
                    && grants[i].1 == key_id && grants[i].2 == ks.pending[i].1 && grants[i].3
                    == ks.holder()
            &&& (exists|i: int| 0 <= i < grants.len() && (#[trigger] grants[i]).2 == RequestType::Write)
                ==> grants.len() == 1
            &&& fin.creator == ks.creator
            &&& ks.queue_well_typed() && ks.pending.len() > 0 ==> grants.len() > 0
        }),
{
    if ks.pending.len() == 0 {
        assert(ks.pending.skip(0) =~= ks.pending);
    } else if ks.pending[0].1 == RequestType::Write {
        let (fin, grants) = ks.grant_pending(key_id);
        assert(grants.len() == 1);
        assert(fin.pending =~= ks.pending.skip(1));
    } else {
        lemma_grant_reads(ks, key_id, ks.holder());
        let (fin, grants) = ks.grant_pending(key_id);
        if ks.queue_well_typed() {
            assert(ks.pending[0].1 == RequestType::Read);
            assert(ks.grant_reads(key_id, ks.holder()).1.len() > 0);
        }
        assert forall|i: int| 0 <= i < grants.len() implies (#[trigger] grants[i]).2
            != RequestType::Write by {
            assert(grants[i] == (ks.pending[i].0, key_id, RequestType::Read, ks.holder()));
        }
    }
}

/// A read request is granted at once when nobody writes and no writer
/// waits: the reader joins the readers and nothing else changes. Otherwise
/// it joins the back of the queue and nothing else changes.
pub proof fn lemma_read_request(ks: KeyStateView, proc_id: ProcId)
    ensures
        !(ks.writer is Some || ks.write_waiting()) ==> {
            &&& ks.after_read(proc_id).readers == ks.readers.insert(proc_id)
            &&& ks.after_read(proc_id).pending == ks.pending
            &&& ks.after_read(proc_id).writer == ks.writer
            &&& ks.after_read(proc_id).creator == ks.creator
        },
        (ks.writer is Some || ks.write_waiting()) ==> {
            &&& ks.after_read(proc_id).pending.len() == ks.pending.len() + 1
            &&& ks.after_read(proc_id).pending.drop_last() == ks.pending
            &&& ks.after_read(proc_id).pending.last() == (proc_id, RequestType::Read)
            &&& ks.after_read(proc_id).readers == ks.readers
            &&& ks.after_read(proc_id).writer == ks.writer
            &&& ks.after_read(proc_id).creator == ks.creator
        },
{
    if ks.writer is Some || ks.write_waiting() {
        assert(ks.after_read(proc_id).pending.drop_last() =~= ks.pending);
    }
}

/// A write request is granted at once on a key nobody holds: the writer is
/// set and nothing else changes. On a key somebody holds it joins the back
/// of the queue and nothing else changes.
pub proof fn lemma_write_request(ks: KeyStateView, proc_id: ProcId)
    ensures
        !ks.is_accessed() ==> {
            &&& ks.after_write(proc_id).writer == Some(proc_id)
            &&& ks.after_write(proc_id).readers == ks.readers
            &&& ks.after_write(proc_id).pending == ks.pending
            &&& ks.after_write(proc_id).creator == ks.creator
        },
        ks.is_accessed() ==> {
            &&& ks.after_write(proc_id).pending.len() == ks.pending.len() + 1
            &&& ks.after_write(proc_id).pending.drop_last() == ks.pending
            &&& ks.after_write(proc_id).pending.last() == (proc_id, RequestType::Write)
            &&& ks.after_write(proc_id).readers == ks.readers
            &&& ks.after_write(proc_id).writer == ks.writer
            &&& ks.after_write(proc_id).creator == ks.creator
        },
{
    if ks.is_accessed() {
        assert(ks.after_write(proc_id).pending.drop_last() =~= ks.pending);
    }
}

/// Serving the queue of a key nobody holds hands the key exactly to the
/// processes it grants: a granted writer becomes the writer, with no reader
/// and no other grant; each granted reader becomes a reader, and nobody else
/// does; a waiting queue always grants someone; and when readers are
/// granted, the request left at the head, if any, is a write.
pub proof fn lemma_grants_hold_access(ks: KeyStateView, key_id: KeyId)
    requires
        ks.queue_well_typed(),
        ks.writer is None,
        ks.readers.is_empty(),
    ensures
        ks.pending.len() > 0 <==> ks.grant_pending(key_id).1.len() > 0,
        ks.grant_pending(key_id).0.creator == ks.creator,
        forall|i: int|
            0 <= i < ks.grant_pending(key_id).1.len() && (#[trigger] ks.grant_pending(
                key_id,
            ).1[i]).2 == RequestType::Write ==> ks.grant_pending(key_id).0.writer == Some(
                ks.grant_pending(key_id).1[i].0,
            ) && ks.grant_pending(key_id).0.readers.is_empty() && ks.grant_pending(
                key_id,
            ).1.len() == 1,
        (forall|i: int|
            0 <= i < ks.grant_pending(key_id).1.len() ==> (#[trigger] ks.grant_pending(
                key_id,
            ).1[i]).2 == RequestType::Read) ==> ks.grant_pending(key_id).0.writer is None,
        forall|p: ProcId|
            #[trigger] ks.grant_pending(key_id).0.readers.contains(p) <==> exists|i: int|
                0 <= i < ks.grant_pending(key_id).1.len() && ks.grant_pending(key_id).1[i].0 == p
                    && ks.grant_pending(key_id).1[i].2 == RequestType::Read,
        ks.grant_pending(key_id).1.len() > 0 && ks.grant_pending(key_id).1[0].2
            == RequestType::Read && ks.grant_pending(key_id).0.pending.len() > 0
            ==> ks.grant_pending(key_id).0.pending[0].1 == RequestType::Write,
{
    let out = ks.grant_pending(key_id);
    let fin = out.0;
    let grants = out.1;
    if ks.pending.len() == 0 {
        assert(grants.len() == 0);
        assert(fin == ks);
    } else if ks.pending[0].1 == RequestType::Write {
        assert(grants.len() == 1);
        assert(grants[0].2 == RequestType::Write);
        assert forall|p: ProcId| #[trigger] fin.readers.contains(p) <==> exists|i: int|
            0 <= i < grants.len() && grants[i].0 == p && grants[i].2 == RequestType::Read by {
            if exists|i: int| 0 <= i < grants.len() && grants[i].0 == p && grants[i].2
                == RequestType::Read {
                let i = choose|i: int| 0 <= i < grants.len() && grants[i].0 == p && grants[i].2
                    == RequestType::Read;
                assert(i == 0);
            }
        }
    } else {
        assert(ks.pending[0].1 == RequestType::Read);
        lemma_grant_reads(ks, key_id, ks.holder());
        assert(grants == ks.grant_reads(key_id, ks.holder()).1);
        assert(fin == ks.grant_reads(key_id, ks.holder()).0);
        assert(grants.len() > 0);
        assert forall|i: int| 0 <= i < grants.len() implies (#[trigger] grants[i]).2
            == RequestType::Read by {
            assert(grants[i] == (ks.pending[i].0, key_id, RequestType::Read, ks.holder()));
        }
        assert forall|p: ProcId| #[trigger] fin.readers.contains(p) <==> exists|i: int|
            0 <= i < grants.len() && grants[i].0 == p && grants[i].2 == RequestType::Read by {
            if fin.readers.contains(p) {
                let i = choose|i: int| 0 <= i < grants.len() && ks.pending[i].0 == p;
                assert(grants[i] == (ks.pending[i].0, key_id, RequestType::Read, ks.holder()));
            }
            if exists|i: int| 0 <= i < grants.len() && grants[i].0 == p && grants[i].2
                == RequestType::Read {
                let i = choose|i: int| 0 <= i < grants.len() && grants[i].0 == p && grants[i].2
                    == RequestType::Read;
                assert(grants[i] == (ks.pending[i].0, key_id, RequestType::Read, ks.holder()));
            }
        }
        if fin.pending.len() > 0 {
            assert(fin.pending[0] == ks.pending[grants.len() as int]);
        }
    }
}

/// Every process a release grants holds access afterwards: a granted writer
/// is the writer, with no reader, and a granted reader is a reader, with no
/// writer.
pub proof fn lemma_released_grants_hold_access(ks: KeyStateView, proc_id: ProcId, key_id: KeyId)
    requires
        ks.wf(),
        ks.holds_access(proc_id),
    ensures
        forall|i: int|
            0 <= i < ks.released(proc_id, key_id).1.len() && (#[trigger] ks.released(
                proc_id,
                key_id,
            ).1[i]).2 == RequestType::Write ==> ks.released(proc_id, key_id).0.writer == Some(
                ks.released(proc_id, key_id).1[i].0,
            ) && ks.released(proc_id, key_id).0.readers.is_empty(),
        forall|i: int|
            0 <= i < ks.released(proc_id, key_id).1.len() && (#[trigger] ks.released(
                proc_id,
                key_id,
            ).1[i]).2 == RequestType::Read ==> ks.released(proc_id, key_id).0.readers.contains(
                ks.released(proc_id, key_id).1[i].0,
            ) && ks.released(proc_id, key_id).0.writer is None,
{
    lemma_last_release_is_round(ks, proc_id, key_id);
    if ks.writer == Some(proc_id) || ks.readers == Set::<ProcId>::empty().insert(proc_id) {
        let cleared = KeyStateView { writer: None, readers: Set::empty(), ..ks };
        lemma_grants_hold_access(cleared, key_id);
        let grants = cleared.grant_pending(key_id).1;
        lemma_grants_follow_queue_order(cleared, key_id);
        assert forall|i: int|
            0 <= i < grants.len() && (#[trigger] grants[i]).2 == RequestType::Read implies cleared.grant_pending(
            key_id,
        ).0.writer is None by {
            assert forall|j: int| 0 <= j < grants.len() implies (#[trigger] grants[j]).2
                == RequestType::Read by {
                if grants[j].2 != RequestType::Read {
                    assert(grants[j].2 == cleared.pending[j].1);
                    assert(grants[j].2 == RequestType::Write);
                    assert(grants.len() == 1);
                    assert(i == j);
                }
            }
        }
    }
}

/// Releasing takes the access away from the releaser and from nobody else:
/// afterwards the releaser holds access only if the same release grants it
/// again, every other reader still reads, the creator is kept, and the
/// queue loses exactly the requests granted, from its head.
pub proof fn lemma_release_drops_access(ks: KeyStateView, proc_id: ProcId, key_id: KeyId)
    requires
        ks.wf(),
        ks.holds_access(proc_id),
    ensures
        ks.released(proc_id, key_id).0.holds_access(proc_id) ==> exists|i: int|
            0 <= i < ks.released(proc_id, key_id).1.len() && (#[trigger] ks.released(
                proc_id,
                key_id,
            ).1[i]).0 == proc_id,
        forall|q: ProcId|
            q != proc_id && ks.readers.contains(q) ==> #[trigger] ks.released(
                proc_id,
                key_id,
            ).0.readers.contains(q),
        ks.released(proc_id, key_id).0.creator == ks.creator,
        ks.released(proc_id, key_id).1.len() <= ks.pending.len(),
        ks.released(proc_id, key_id).0.pending == ks.pending.skip(
            ks.released(proc_id, key_id).1.len() as int,
        ),
{
    lemma_last_release_is_round(ks, proc_id, key_id);
    let out = ks.released(proc_id, key_id);
    let fin = out.0;
    let grants = out.1;
    if ks.writer == Some(proc_id) || ks.readers == Set::<ProcId>::empty().insert(proc_id) {
        let cleared = KeyStateView { writer: None, readers: Set::empty(), ..ks };
        lemma_grants_hold_access(cleared, key_id);
        lemma_grants_follow_queue_order(cleared, key_id);
        assert(out == cleared.grant_pending(key_id));
        if ks.writer == Some(proc_id) {
            assert(ks.readers.is_empty());
        }
        if fin.readers.contains(proc_id) {
            let i = choose|i: int|
                0 <= i < grants.len() && grants[i].0 == proc_id && grants[i].2 == RequestType::Read;
            assert(grants[i].0 == proc_id);
        } else if fin.writer == Some(proc_id) {
            if forall|j: int| 0 <= j < grants.len() ==> (#[trigger] grants[j]).2 == RequestType::Read {
                assert(fin.writer is None);
            } else {
                let j = choose|j: int| !(0 <= j < grants.len() ==> (#[trigger] grants[j]).2
                    == RequestType::Read);
                assert(grants[j].2 == cleared.pending[j].1);
                assert(grants[j].2 == RequestType::Write);
                assert(grants[j].0 == proc_id);
            }
        }
    } else {
        assert(ks.writer is None);
        assert(ks.pending.skip(0) =~= ks.pending);
    }
}

/// The process named as holding a key's data is its writer while one
/// writes, and its creator otherwise; a new key belongs to its creator, is
/// held by nobody and has no waiting request.
pub proof fn lemma_holder_and_fresh(ks: KeyStateView, creator: ProcId)
    ensures
        ks.writer matches Some(w) ==> ks.holder() == w,
        ks.writer is None ==> ks.holder() == ks.creator,
        KeyStateView::fresh(creator).creator == creator,
        KeyStateView::fresh(creator).writer is None,
        KeyStateView::fresh(creator).readers == Set::<ProcId>::empty(),
        KeyStateView::fresh(creator).pending.len() == 0,
{
}

/// Releasing an access that was just granted on a quiet key undoes it: the
/// key returns to its previous state and nobody else is granted.
pub proof fn lemma_release_undoes_grant(ks: KeyStateView, proc_id: ProcId, key_id: KeyId)
    requires
        ks.wf(),
        !ks.readers.contains(proc_id),
        ks.writer != Some(proc_id),
    ensures
        !ks.is_accessed() ==> ks.after_write(proc_id).released(proc_id, key_id) == (
            ks,
            Seq::<AccessGranted>::empty(),
        ),
        !(ks.writer is Some || ks.write_waiting()) ==> ks.after_read(proc_id).released(
            proc_id,
            key_id,
        ) == (ks, Seq::<AccessGranted>::empty()),
{
    if !ks.is_accessed() {
        let w = ks.after_write(proc_id);
        assert(KeyStateView { writer: None, ..w } == ks);
    }
    if !(ks.writer is Some || ks.write_waiting()) {
        let r = ks.after_read(proc_id);
        assert(r.readers.remove(proc_id) =~= ks.readers);
        assert(KeyStateView { readers: r.readers.remove(proc_id), ..r } == ks);
        if ks.readers.is_empty() {
            assert(ks.pending.len() == 0);
        }
    }
}

/// Deleting a key that was just created restores the registry, and such a
/// key can always be deleted.
pub proof fn lemma_delete_undoes_create(
    keys: Map<KeyId, KeyStateView>,
    creator: ProcId,
    key_id: KeyId,
)
    requires
        !keys.contains_key(key_id),
    ensures
        !KeyStateView::fresh(creator).is_accessed(),
        keys.insert(key_id, KeyStateView::fresh(creator)).remove(key_id) == keys,
{
    assert(keys.insert(key_id, KeyStateView::fresh(creator)).remove(key_id) =~= keys);
}

/// Every grant is a read or a write.
pub open spec fn grants_well_typed(grants: Seq<AccessGranted>) -> bool {
    forall|i: int|
        0 <= i < grants.len() ==> (#[trigger] grants[i]).2 == RequestType::Read || grants[i].2
            == RequestType::Write
}

/// The state of every key, and the grants waiting to be notified.
#[derive(Debug)]
pub struct AccessManager {
    access_granted: VecDeque<AccessGranted>,
    key_states: HashMap<KeyId, KeyState>,
}

impl AccessManager {
    /// The state of every existing key.
    pub closed spec fn keys(&self) -> Map<KeyId, KeyStateView> {
        self.key_states@.map_values(|ks: KeyState| ks@)
    }

    /// Grants made and not yet taken, oldest first.
    pub closed spec fn granted(&self) -> Seq<AccessGranted> {
        self.access_granted@
    }

    /// Every key keeps its invariant, and only reads and writes are granted.
    pub closed spec fn wf(&self) -> bool {
        &&& forall|k: KeyId| #[trigger] self.key_states@.contains_key(k) ==> self.key_states@[k]@.wf()
        &&& grants_well_typed(self.access_granted@)
    }

    proof fn lemma_keys_insert(
        old_map: Map<KeyId, KeyState>,
        new_map: Map<KeyId, KeyState>,
        key_id: KeyId,
        ks: KeyState,
    )
        requires
            new_map == old_map.insert(key_id, ks),
        ensures
            new_map.map_values(|ks: KeyState| ks@) == old_map.map_values(|ks: KeyState| ks@).insert(
                key_id,
                ks@,
            ),
    {
        assert(new_map.map_values(|ks: KeyState| ks@) =~= old_map.map_values(|ks: KeyState| ks@).insert(
            key_id,
            ks@,
        ));
    }

    pub fn new() -> (m: AccessManager)
        ensures
            m.wf(),
            m.keys() == Map::<KeyId, KeyStateView>::empty(),
            m.granted() == Seq::<AccessGranted>::empty(),
    {
        let m = AccessManager { access_granted: VecDeque::new(), key_states: HashMap::new() };
        assert(m.keys() =~= Map::<KeyId, KeyStateView>::empty());
        m
    }

    /// Create a new key if it does not already exist.
    pub fn create(&mut self, proc_id: ProcId, key_id: KeyId) -> (r: Result<(), AccessManagerError>)
        requires
            old(self).wf(),
        ensures
            final(self).wf(),
            final(self).granted() == old(self).granted(),
            old(self).keys().contains_key(key_id) ==> r == Err::<(), _>(
                AccessManagerError::KeyExists(key_id),
            ) && final(self).keys() == old(self).keys(),
            !old(self).keys().contains_key(key_id) ==> r == Ok::<(), AccessManagerError>(())
                && final(self).keys() == old(self).keys().insert(
                key_id,
                KeyStateView::fresh(proc_id),
            ),
    {
        if self.key_states.contains_key(&key_id) {
            return Err(AccessManagerError::KeyExists(key_id));
        }
        let ks = KeyState::new(proc_id);
        let ghost before = self.key_states@;
        self.key_states.insert(key_id, ks);
        proof {
            Self::lemma_keys_insert(before, self.key_states@, key_id, ks);
        }
        Ok(())
    }

    pub fn delete(&mut self, key_id: KeyId) -> (r: Result<(), AccessManagerError>)
        requires
            old(self).wf(),
        ensures
            final(self).wf(),
            final(self).granted() == old(self).granted(),
            !old(self).keys().contains_key(key_id) ==> r == Err::<(), _>(
                AccessManagerError::KeyNotFound(key_id),
            ) && final(self).keys() == old(self).keys(),
            old(self).keys().contains_key(key_id) && old(self).keys()[key_id].is_accessed() ==> r
                == Err::<(), _>(AccessManagerError::KeyAccessed) && final(self).keys() == old(self).keys(),
            old(self).keys().contains_key(key_id) && !old(self).keys()[key_id].is_accessed() ==> r
                == Ok::<(), AccessManagerError>(()) && final(self).keys() == old(self).keys().remove(
                key_id,
            ),
    {
        let key_state = self.get_key_state(key_id)?;
        if !key_state.readers.is_empty() || key_state.writer.is_some() {
            return Err(AccessManagerError::KeyAccessed);
        }
        self.key_states.remove(&key_id);
        assert(self.keys() =~= old(self).keys().remove(key_id));
        Ok(())
    }

    pub fn get_key_state(&self, key_id: KeyId) -> (r: Result<&KeyState, AccessManagerError>)
        ensures
            self.keys().contains_key(key_id) <==> r is Ok,
            match r {
                Ok(ks) => ks@ == self.keys()[key_id],
                Err(e) => e == AccessManagerError::KeyNotFound(key_id),
            },
    {
        match self.key_states.get(&key_id) {
            Some(ks) => Ok(ks),
            None => Err(AccessManagerError::KeyNotFound(key_id)),
        }
    }

    /// Handle pending request queue for a given key
    fn handle_requesting(&mut self, key_state: &mut KeyState, key_id: KeyId)
        requires
            old(key_state)@.queue_well_typed(),
        ensures
            final(self).key_states@ == old(self).key_states@,
            final(key_state)@ == old(key_state)@.grant_pending(key_id).0,
            final(self).granted() == old(self).granted() + old(key_state)@.grant_pending(key_id).1,
    {
        if key_state.pending_request.len() == 0 {
            assert(self.granted() =~= old(self).granted() + Seq::<AccessGranted>::empty());
            return;
        }
        let data_user = key_state.holder();
        let (proc_id, req_type) = key_state.pending_request[0];
        if req_type == RequestType::Write {
            self.access_granted.push_back((proc_id, key_id, RequestType::Write, data_user));
            key_state.register_writer(proc_id);
            key_state.pending_request.pop_front();
            assert(key_state@ == old(key_state)@.grant_pending(key_id).0);
            assert(self.granted() =~= old(self).granted() + old(key_state)@.grant_pending(
                key_id,
            ).1);
        } else {
            assert(req_type == RequestType::Read);
            let ghost target = old(key_state)@.grant_reads(key_id, data_user);
            while key_state.pending_request.len() > 0 && key_state.pending_request[0].1
                == RequestType::Read
                invariant
                    self.key_states@ == old(self).key_states@,
                    key_state@.grant_reads(key_id, data_user).0 == target.0,
                    self.granted() + key_state@.grant_reads(key_id, data_user).1 == old(self).granted() + target.1,
                decreases key_state@.pending.len(),
            {
                let (reader, _) = key_state.pending_request[0];
                let ghost before = key_state@;
                let ghost before_granted = self.granted();
                self.access_granted.push_back((reader, key_id, RequestType::Read, data_user));
                key_state.register_reader(reader);
                key_state.pending_request.pop_front();
                proof {
                    assert(key_state@ == (KeyStateView {
                        readers: before.readers.insert(reader),
                        pending: before.pending.drop_first(),
                        ..before
                    }));
                    let rest = key_state@.grant_reads(key_id, data_user).1;
                    assert(before.grant_reads(key_id, data_user).1 == seq![
                        (reader, key_id, RequestType::Read, data_user),
                    ] + rest);
                    assert(self.granted() + rest =~= before_granted + before.grant_reads(
                        key_id,
                        data_user,
                    ).1);
                }
            }
            proof {
                assert(key_state@.grant_reads(key_id, data_user) == (key_state@, Seq::<
                    AccessGranted,
                >::empty()));
                assert(self.granted() + Seq::<AccessGranted>::empty() =~= self.granted());
            }
        }
    }

    /// Request read access for a process.
    /// Multiple read are possible at the same time.
    pub fn read(&mut self, proc_id: ProcId, key_id: KeyId) -> (r: Result<ProcId, AccessManagerError>)
        requires
            old(self).wf(),
        ensures
            final(self).wf(),
            final(self).granted() == old(self).granted(),
            !old(self).keys().contains_key(key_id) ==> r == Err::<ProcId, _>(
                AccessManagerError::KeyNotFound(key_id),
            ) && final(self).keys() == old(self).keys(),
            old(self).keys().contains_key(key_id) ==> {
                let ks = old(self).keys()[key_id];
                &&& final(self).keys() == old(self).keys().insert(key_id, ks.after_read(proc_id))
                &&& (ks.writer is Some || ks.write_waiting()) ==> r == Err::<ProcId, _>(
                    AccessManagerError::RequestAccess(proc_id, key_id),
                )
                &&& !(ks.writer is Some || ks.write_waiting()) ==> r == Ok::<
                    ProcId,
                    AccessManagerError,
                >(ks.holder())
            },
    {
        let ghost before = self.key_states@;
        let mut key_state = match self.key_states.remove(&key_id) {
            Some(ks) => ks,
            None => {
                assert(self.key_states@ =~= before);
                return Err(AccessManagerError::KeyNotFound(key_id));
            },
        };
        assert(key_state@ == old(self).keys()[key_id]);
        let requesting_writer = key_state.pending_request.len() > 0
            && key_state.pending_request[0].1 == RequestType::Write;
        let result;
        if key_state.writer.is_some() || requesting_writer {
            key_state.pending_request.push_back((proc_id, RequestType::Read));
            result = Err(AccessManagerError::RequestAccess(proc_id, key_id));
        } else {
            key_state.register_reader(proc_id);
            let data_user = key_state.holder();
            result = Ok(data_user);
        }
        self.key_states.insert(key_id, key_state);
        proof {
            assert(self.key_states@ =~= before.insert(key_id, key_state));
            Self::lemma_keys_insert(before, self.key_states@, key_id, key_state);
            let ks = old(self).keys()[key_id];
            assert(key_state@ == ks.after_read(proc_id));
            assert forall|k: KeyId| #[trigger] self.key_states@.contains_key(k) implies self.key_states@[
                k
            ]@.wf() by {
                if k != key_id {
                    assert(before.contains_key(k));
                } else {
                    assert(ks.wf());
                    if !(ks.writer is Some || ks.write_waiting()) {
                        assert(ks.pending.len() == 0);
                    }
                }
            }
        }
        result
    }

    /// Release write / read access for a process.
    pub fn release(&mut self, proc_id: ProcId, key_id: KeyId) -> (r: Result<(), AccessManagerError>)
        requires
            old(self).wf(),
        ensures
            final(self).wf(),
            !old(self).keys().contains_key(key_id) ==> r == Err::<(), _>(
                AccessManagerError::KeyNotFound(key_id),
            ) && final(self).keys() == old(self).keys() && final(self).granted() == old(self).granted(),
            old(self).keys().contains_key(key_id) && !old(self).keys()[key_id].holds_access(proc_id)
                ==> r == Err::<(), _>(AccessManagerError::ReleaseAccess(proc_id, key_id)) && final(self).keys() == old(self).keys() && final(self).granted() == old(self).granted(),
            old(self).keys().contains_key(key_id) && old(self).keys()[key_id].holds_access(proc_id)
                ==> {
                let (ks, grants) = old(self).keys()[key_id].released(proc_id, key_id);
                &&& r == Ok::<(), AccessManagerError>(())
                &&& final(self).keys() == old(self).keys().insert(key_id, ks)
                &&& final(self).granted() == old(self).granted() + grants
            },
    {
        let ghost before = self.key_states@;
        let mut key_state = match self.key_states.remove(&key_id) {
            Some(ks) => ks,
            None => {
                assert(self.key_states@ =~= before);
                return Err(AccessManagerError::KeyNotFound(key_id));
            },
        };
        let ghost ks0 = key_state@;
        assert(ks0 == old(self).keys()[key_id]);
        let writer_release = match key_state.writer {
            Some(writer) => writer == proc_id,
            None => false,
        };
        let reader_release = key_state.readers.contains(&proc_id);
        if !writer_release && !reader_release {
            self.key_states.insert(key_id, key_state);
            assert(self.key_states@ =~= before);
            return Err(AccessManagerError::ReleaseAccess(proc_id, key_id));
        }
        if writer_release {
            key_state.writer = None;
            self.handle_requesting(&mut key_state, key_id);
        } else {
            key_state.readers.remove(&proc_id);
            if key_state.readers.is_empty() {
                self.handle_requesting(&mut key_state, key_id);
            } else {
                assert(self.granted() =~= old(self).granted() + Seq::<AccessGranted>::empty());
            }
        }
        self.key_states.insert(key_id, key_state);
        proof {
            assert(key_state@ == ks0.released(proc_id, key_id).0);
            assert(self.key_states@ =~= before.insert(key_id, key_state));
            Self::lemma_keys_insert(before, self.key_states@, key_id, key_state);
            lemma_released_wf(ks0, proc_id, key_id);
            lemma_released_grants_typed(ks0, proc_id, key_id);
            assert(grants_well_typed(self.granted())) by {
                let grants = ks0.released(proc_id, key_id).1;
                assert forall|i: int| 0 <= i < self.granted().len() implies (
                #[trigger] self.granted()[i]).2 == RequestType::Read || self.granted()[i].2
                    == RequestType::Write by {
                    if i >= old(self).granted().len() {
                        assert(self.granted()[i] == grants[i - old(self).granted().len()]);
                    }
                }
            }
            assert forall|k: KeyId| #[trigger] self.key_states@.contains_key(k) implies self.key_states@[
                k
            ]@.wf() by {
                if k != key_id {
                    assert(before.contains_key(k));
                }
            }
        }
        Ok(())
    }

    /// Reqest write access for a process.
    /// Only one write access at a time.
    pub fn write(&mut self, proc_id: ProcId, key_id: KeyId) -> (r: Result<(), AccessManagerError>)
        requires
            old(self).wf(),
        ensures
            final(self).wf(),
            final(self).granted() == old(self).granted(),
            !old(self).keys().contains_key(key_id) ==> r == Err::<(), _>(
                AccessManagerError::KeyNotFound(key_id),
            ) && final(self).keys() == old(self).keys(),
            old(self).keys().contains_key(key_id) ==> {
                let ks = old(self).keys()[key_id];
                &&& final(self).keys() == old(self).keys().insert(key_id, ks.after_write(proc_id))
                &&& ks.is_accessed() ==> r == Err::<(), _>(
                    AccessManagerError::RequestAccess(proc_id, key_id),
                )
                &&& !ks.is_accessed() ==> r == Ok::<(), AccessManagerError>(())
            },
    {
        let ghost before = self.key_states@;
        let mut key_state = match self.key_states.remove(&key_id) {
            Some(ks) => ks,
            None => {
                assert(self.key_states@ =~= before);
                return Err(AccessManagerError::KeyNotFound(key_id));
            },
        };
        assert(key_state@ == old(self).keys()[key_id]);
        let result;
        if !key_state.readers.is_empty() || key_state.writer.is_some() {
            key_state.pending_request.push_back((proc_id, RequestType::Write));
            result = Err(AccessManagerError::RequestAccess(proc_id, key_id));
        } else {
            key_state.register_writer(proc_id);
            result = Ok(());
        }
        self.key_states.insert(key_id, key_state);
        proof {
            assert(self.key_states@ =~= before.insert(key_id, key_state));
            Self::lemma_keys_insert(before, self.key_states@, key_id, key_state);
            let ks = old(self).keys()[key_id];
            assert(key_state@ == ks.after_write(proc_id));
            assert forall|k: KeyId| #[trigger] self.key_states@.contains_key(k) implies self.key_states@[
                k
            ]@.wf() by {
                if k != key_id {
                    assert(before.contains_key(k));
                } else {
                    assert(ks.wf());
                    if ks.is_accessed() && ks.writer is None && ks.pending.len() == 0 {
                        assert(key_state@.pending[0].1 == RequestType::Write);
                    }
                }
            }
        }
        result
    }

    /// Takes the oldest grant not yet taken, if any.
    pub fn try_recv_granted(&mut self) -> (r: Option<AccessGranted>)
        requires
            old(self).wf(),
        ensures
            final(self).wf(),
            final(self).keys() == old(self).keys(),
            old(self).granted().len() == 0 ==> r is None && final(self).granted() == old(self).granted(),
            old(self).granted().len() > 0 ==> r == Some(old(self).granted()[0]) && final(self).granted() == old(self).granted().drop_first(),
            r matches Some(g) ==> g.2 == RequestType::Read || g.2 == RequestType::Write,
    {
        let r = self.access_granted.pop_front();
        assert(grants_well_typed(self.granted()) && (r is Some ==> old(self).granted()[0] == r->0)) by {
            assert forall|i: int| 0 <= i < self.granted().len() implies (
            #[trigger] self.granted()[i]).2 == RequestType::Read || self.granted()[i].2
                == RequestType::Write by {
                assert(self.granted()[i] == old(self).granted()[i + 1]);
            }
        }
        r
    }

    /// Takes every grant not yet taken, oldest first.
    pub fn take_granted(&mut self) -> (r: Vec<AccessGranted>)
        requires
            old(self).wf(),
        ensures
            final(self).wf(),
            final(self).keys() == old(self).keys(),
            r@ == old(self).granted(),
            final(self).granted() == Seq::<AccessGranted>::empty(),
            grants_well_typed(r@),
    {
        let mut taken: Vec<AccessGranted> = Vec::new();
        while self.access_granted.len() > 0
            invariant
                self.wf(),
                self.keys() == old(self).keys(),
                taken@ + self.granted() == old(self).granted(),
            decreases self.granted().len(),
        {
            let ghost before = self.granted();
            match self.access_granted.pop_front() {
                Some(g) => {
                    taken.push(g);
                    assert(taken@ + self.granted() =~= old(self).granted()) by {
                        assert(before =~= seq![g] + self.granted());
                    }
                },
                None => {},
            }
        }
        assert(taken@ + self.granted() =~= taken@);
        assert forall|i: int| 0 <= i < taken@.len() implies (#[trigger] taken@[i]).2
            == RequestType::Read || taken@[i].2 == RequestType::Write by {
            assert(taken@[i] == old(self).granted()[i]);
        }
        taken
    }
}

impl Default for AccessManager {
    fn default() -> (m: Self)
        ensures
            m.wf(),
            m.keys() == Map::<KeyId, KeyStateView>::empty(),
            m.granted() == Seq::<AccessGranted>::empty(),
    {
        Self::new()
    }
}

} // verus!
