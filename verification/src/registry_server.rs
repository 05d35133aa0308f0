//! The decisions of the registry server: how it numbers connections, what it
//! answers to each message, and whom it notifies when access is granted.
//! The server around it moves the bytes.
use crate::access_manager::{
    grants_well_typed, lemma_keys_wf, lemma_read_request, lemma_write_request, AccessGranted, AccessManager, AccessManagerError,
    KeyStateView,
};
use crate::protocol::{KeyId, Message, PeerAddr, ProcId, RegistryMessage, RegistryResponse, RequestType};
use std::collections::HashMap;
use vstd::prelude::*;

verus! {

broadcast use vstd::std_specs::hash::group_hash_axioms;

/// Why the registry refuses a message.
#[derive(Debug)]
pub enum RegistryError {
    /// The message is no registry request.
    UnexpectedRequest,
    /// The access manager refused the request.
    AccessManager(AccessManagerError),
    /// No connection is known under this id.
    InvalidToken(ProcId),
    /// The address of the process holding the data is unknown.
    UnknownHolder(ProcId),
    /// A stop was requested.
    StopRequest,
}

/// Who an accepted connection comes from.
#[derive(Debug, PartialEq, Eq)]
pub enum Connection {
    /// The primary registry, mirroring its requests to this one.
    Primary,
    /// A client, under the id it was given.
    Client(ProcId),
}

/// The registry's state: the access manager, the addresses of connected
/// clients, and the counters of connections and requests.
#[derive(Debug)]
pub struct Registry {
    has_backup: bool,
    first_connection: bool,
    access_manager: AccessManager,
    addrs: HashMap<ProcId, PeerAddr>,
    id_counter: ProcId,
    request_counter: u64,
}

impl Registry {
    /// The state of every key.
    pub closed spec fn keys(&self) -> Map<KeyId, KeyStateView> {
        self.access_manager.keys()
    }

    /// Grants not yet notified, oldest first.
    pub closed spec fn granted(&self) -> Seq<AccessGranted> {
        self.access_manager.granted()
    }

    /// The address of every connected client.
    pub closed spec fn addrs(&self) -> Map<ProcId, PeerAddr> {
        self.addrs@
    }

    /// The last id given to a client.
    pub closed spec fn id_count(&self) -> ProcId {
        self.id_counter
    }

    /// The number of requests handled.
    pub closed spec fn request_count(&self) -> u64 {
        self.request_counter
    }

    /// This registry forwards its requests to a secondary one.
    pub closed spec fn forwards(&self) -> bool {
        self.has_backup
    }

    /// The next connection is taken for the primary registry's.
    pub closed spec fn awaits_primary(&self) -> bool {
        !self.has_backup && self.first_connection
    }

    pub closed spec fn wf(&self) -> bool {
        self.access_manager.wf()
    }

    /// A registry with no key and no client; `has_backup` tells whether it
    /// forwards its requests to a secondary registry.
    pub fn new(has_backup: bool) -> (r: Registry)
        ensures
            r.wf(),
            r.keys() == Map::<KeyId, KeyStateView>::empty(),
            r.granted() == Seq::<AccessGranted>::empty(),
            r.addrs() == Map::<ProcId, PeerAddr>::empty(),
            r.id_count() == 0,
            r.request_count() == 0,
            r.forwards() == has_backup,
            r.awaits_primary() == !has_backup,
    {
        Registry {
            has_backup,
            first_connection: true,
            access_manager: AccessManager::new(),
            addrs: HashMap::new(),
            id_counter: 0,
            request_counter: 0,
        }
    }

    /// The last id given to a client.
    pub fn id_counter(&self) -> (r: ProcId)
        ensures
            r == self.id_count(),
    {
        self.id_counter
    }

    /// The number of requests handled.
    pub fn request_counter(&self) -> (r: u64)
        ensures
            r == self.request_count(),
    {
        self.request_counter
    }

    /// Whether the next connection is taken for the primary registry's.
    pub fn awaits_primary_connection(&self) -> (r: bool)
        ensures
            r == self.awaits_primary(),
    {
        !self.has_backup && self.first_connection
    }

    /// The access manager of the registry.
    pub fn access_manager(&self) -> (r: &AccessManager)
        ensures
            r.keys() == self.keys(),
            r.granted() == self.granted(),
            r.wf() == self.wf(),
    {
        &self.access_manager
    }

    /// Accepts a connection from `addr`: the first one of a registry without
    /// backup comes from the primary registry; every other one is a client,
    /// given the next id.
    pub fn accept_connection(&mut self, addr: PeerAddr) -> (c: Connection)
        requires
            old(self).wf(),
            old(self).awaits_primary() || old(self).id_count() < usize::MAX,
        ensures
            final(self).wf(),
            final(self).keys() == old(self).keys(),
            final(self).granted() == old(self).granted(),
            final(self).request_count() == old(self).request_count(),
            final(self).forwards() == old(self).forwards(),
            old(self).awaits_primary() ==> {
                &&& c == Connection::Primary
                &&& !final(self).awaits_primary()
                &&& final(self).addrs() == old(self).addrs()
                &&& final(self).id_count() == old(self).id_count()
            },
            !old(self).awaits_primary() ==> {
                &&& c == Connection::Client((old(self).id_count() + 1) as ProcId)
                &&& final(self).awaits_primary() == old(self).awaits_primary()
                &&& final(self).id_count() == old(self).id_count() + 1
                &&& final(self).addrs() == old(self).addrs().insert(final(self).id_count(), addr)
            },
    {
        if !self.has_backup && self.first_connection {
            self.first_connection = false;
            return Connection::Primary;
        }
        self.id_counter = self.id_counter + 1;
        self.addrs.insert(self.id_counter, addr);
        Connection::Client(self.id_counter)
    }

    /// Forgets a client whose connection ended.
    pub fn remove_client(&mut self, proc_id: ProcId)
        requires
            old(self).wf(),
        ensures
            final(self).wf(),
            final(self).keys() == old(self).keys(),
            final(self).granted() == old(self).granted(),
            final(self).id_count() == old(self).id_count(),
            final(self).request_count() == old(self).request_count(),
            final(self).forwards() == old(self).forwards(),
            final(self).awaits_primary() == old(self).awaits_primary(),
            final(self).addrs() == old(self).addrs().remove(proc_id),
    {
        self.addrs.remove(&proc_id);
    }

    /// The address of a connected client, such as the holder named in a
    /// granted read.
    pub fn proc_id_to_addr(&self, proc_id: ProcId) -> (r: Result<PeerAddr, RegistryError>)
        ensures
            self.addrs().contains_key(proc_id) ==> r == Ok::<PeerAddr, RegistryError>(
                self.addrs()[proc_id],
            ),
            !self.addrs().contains_key(proc_id) ==> r == Err::<PeerAddr, RegistryError>(
                RegistryError::UnknownHolder(proc_id),
            ),
    {
        match self.addrs.get(&proc_id) {
            Some(addr) => Ok(*addr),
            None => Err(RegistryError::UnknownHolder(proc_id)),
        }
    }

    /// The answer of the registry to a message, and its effect on the keys.
    pub fn handle_message(&mut self, message: Message) -> (r: Result<RegistryResponse, RegistryError>)
        requires
            old(self).wf(),
        ensures
            final(self).wf(),
            final(self).addrs() == old(self).addrs(),
            final(self).id_count() == old(self).id_count(),
            final(self).request_count() == old(self).request_count(),
            final(self).forwards() == old(self).forwards(),
            final(self).awaits_primary() == old(self).awaits_primary(),
            match message {
                Message::Registry(RegistryMessage::StopRequest) => {
                    &&& r == Err::<RegistryResponse, RegistryError>(RegistryError::StopRequest)
                    &&& final(self).keys() == old(self).keys()
                    &&& final(self).granted() == old(self).granted()
                },
                Message::Registry(RegistryMessage::ConnectionEstablished(_)) => {
                    &&& r == Ok::<RegistryResponse, RegistryError>(RegistryResponse::Ack)
                    &&& final(self).keys() == old(self).keys()
                    &&& final(self).granted() == old(self).granted()
                },
                Message::Registry(RegistryMessage::Request { request_type, proc_id, key_id }) => {
                    request_outcome(
                        old(self).keys(),
                        old(self).granted(),
                        request_type,
                        proc_id,
                        key_id,
                        r,
                        final(self).keys(),
                        final(self).granted(),
                    )
                },
                _ => {
                    &&& r == Err::<RegistryResponse, RegistryError>(
                        RegistryError::UnexpectedRequest,
                    )
                    &&& final(self).keys() == old(self).keys()
                    &&& final(self).granted() == old(self).granted()
                },
            },
    {
        match message {
            Message::Registry(RegistryMessage::StopRequest) => Err(RegistryError::StopRequest),
            Message::Registry(RegistryMessage::ConnectionEstablished(_)) => Ok(
                RegistryResponse::Ack,
            ),
            Message::Registry(RegistryMessage::Request { proc_id, request_type, key_id }) => {
                match request_type {
                    RequestType::Create => match self.access_manager.create(proc_id, key_id) {
                        Ok(()) => Ok(RegistryResponse::Success(key_id)),
                        Err(e) => Err(RegistryError::AccessManager(e)),
                    },
                    RequestType::Delete => match self.access_manager.delete(key_id) {
                        Ok(()) => Ok(RegistryResponse::Success(key_id)),
                        Err(e) => Err(RegistryError::AccessManager(e)),
                    },
                    RequestType::Read => match self.access_manager.read(proc_id, key_id) {
                        Ok(holder_id) => Ok(RegistryResponse::Holder(key_id, holder_id)),
                        Err(AccessManagerError::RequestAccess(_, _)) => Ok(
                            RegistryResponse::Wait(key_id),
                        ),
                        Err(e) => Err(RegistryError::AccessManager(e)),
                    },
                    RequestType::Write => match self.access_manager.write(proc_id, key_id) {
                        Ok(()) => Ok(RegistryResponse::Success(key_id)),
                        Err(AccessManagerError::RequestAccess(_, _)) => Ok(
                            RegistryResponse::Wait(key_id),
                        ),
                        Err(e) => Err(RegistryError::AccessManager(e)),
                    },
                    RequestType::Release => match self.access_manager.release(proc_id, key_id) {
                        Ok(()) => Ok(RegistryResponse::Success(key_id)),
                        Err(e) => Err(RegistryError::AccessManager(e)),
                    },
                }
            },
            _ => Err(RegistryError::UnexpectedRequest),
        }
    }

    /// Takes the grants to notify, oldest first.
    pub fn take_granted(&mut self) -> (r: Vec<AccessGranted>)
        requires
            old(self).wf(),
        ensures
            final(self).wf(),
            r@ == old(self).granted(),
            grants_well_typed(r@),
            final(self).granted() == Seq::<AccessGranted>::empty(),
            final(self).keys() == old(self).keys(),
            final(self).addrs() == old(self).addrs(),
            final(self).id_count() == old(self).id_count(),
            final(self).request_count() == old(self).request_count(),
            final(self).forwards() == old(self).forwards(),
            final(self).awaits_primary() == old(self).awaits_primary(),
    {
        self.access_manager.take_granted()
    }

    /// The notification of a grant: the granted process, and for a read the
    /// id of the process holding the data, for a write a success.
    pub fn grant_response(&self, grant: AccessGranted) -> (r: (ProcId, RegistryResponse))
        requires
            grant.2 == RequestType::Read || grant.2 == RequestType::Write,
        ensures
            grant.2 == RequestType::Write ==> r == (grant.0, RegistryResponse::Success(grant.1)),
            grant.2 == RequestType::Read ==> r == (
                grant.0,
                RegistryResponse::Holder(grant.1, grant.3),
            ),
    {
        let (proc_id, key_id, req_type, holder_id) = grant;
        if req_type == RequestType::Read {
            (proc_id, RegistryResponse::Holder(key_id, holder_id))
        } else {
            (proc_id, RegistryResponse::Success(key_id))
        }
    }

    /// Counts a handled request; tells whether the registry now stops, which
    /// a registry that forwards its requests does after its first one.
    pub fn count_request(&mut self) -> (stop: bool)
        requires
            old(self).wf(),
            old(self).request_count() < u64::MAX,
        ensures
            final(self).wf(),
            final(self).request_count() == old(self).request_count() + 1,
            stop == (old(self).forwards() && final(self).request_count() == 1),
            final(self).keys() == old(self).keys(),
            final(self).granted() == old(self).granted(),
            final(self).addrs() == old(self).addrs(),
            final(self).id_count() == old(self).id_count(),
            final(self).forwards() == old(self).forwards(),
            final(self).awaits_primary() == old(self).awaits_primary(),
    {
        self.request_counter = self.request_counter + 1;
        self.has_backup && self.request_counter == 1
    }
}

/// Every key of the registry keeps its invariant (a writer excludes readers,
/// requests wait only behind an access, only reads and writes wait), and
/// only reads and writes are granted.
pub proof fn lemma_registry_keys_wf(r: &Registry)
    requires
        r.wf(),
    ensures
        forall|k: KeyId| #[trigger] r.keys().contains_key(k) ==> r.keys()[k].wf(),
        grants_well_typed(r.granted()),
{
    lemma_keys_wf(&r.access_manager);
}

/// A read is answered with the holder exactly when it is granted, and with
/// a wait exactly when it is queued: the answer `Holder(key, creator)` comes
/// with the reader added to the readers and the queue untouched, and the
/// answer `Wait(key)` with the read appended to the back of the queue.
pub proof fn lemma_read_answer_matches_access(
    keys: Map<KeyId, KeyStateView>,
    granted: Seq<AccessGranted>,
    proc_id: ProcId,
    key_id: KeyId,
    r: Result<RegistryResponse, RegistryError>,
    keys2: Map<KeyId, KeyStateView>,
    granted2: Seq<AccessGranted>,
)
    requires
        request_outcome(keys, granted, RequestType::Read, proc_id, key_id, r, keys2, granted2),
        keys.contains_key(key_id),
    ensures
        keys2.contains_key(key_id),
        granted2 == granted,
        r is Ok,
        r == Ok::<RegistryResponse, RegistryError>(
            RegistryResponse::Holder(key_id, keys[key_id].creator),
        ) <==> (keys2[key_id].readers == keys[key_id].readers.insert(proc_id)
            && keys2[key_id].pending == keys[key_id].pending),
        r == Ok::<RegistryResponse, RegistryError>(RegistryResponse::Wait(key_id)) <==> (
        keys2[key_id].readers == keys[key_id].readers && keys2[key_id].pending
            == keys[key_id].pending.push((proc_id, RequestType::Read))),
        keys2[key_id].writer == keys[key_id].writer,
{
    let ks = keys[key_id];
    lemma_read_request(ks, proc_id);
    assert(keys2[key_id] == ks.after_read(proc_id));
    assert(ks.pending.push((proc_id, RequestType::Read)).len() != ks.pending.len());
}

/// A write is answered with a success exactly when it is granted, and with
/// a wait exactly when it is queued: `Success(key)` comes with the writer
/// set and the queue untouched, `Wait(key)` with the write appended to the
/// back of the queue.
pub proof fn lemma_write_answer_matches_access(
    keys: Map<KeyId, KeyStateView>,
    granted: Seq<AccessGranted>,
    proc_id: ProcId,
    key_id: KeyId,
    r: Result<RegistryResponse, RegistryError>,
    keys2: Map<KeyId, KeyStateView>,
    granted2: Seq<AccessGranted>,
)
    requires
        request_outcome(keys, granted, RequestType::Write, proc_id, key_id, r, keys2, granted2),
        keys.contains_key(key_id),
    ensures
        keys2.contains_key(key_id),
        granted2 == granted,
        r is Ok,
        r == Ok::<RegistryResponse, RegistryError>(RegistryResponse::Success(key_id)) <==> (
        keys2[key_id].writer == Some(proc_id) && keys2[key_id].pending == keys[key_id].pending),
        r == Ok::<RegistryResponse, RegistryError>(RegistryResponse::Wait(key_id)) <==> (
        keys2[key_id].writer == keys[key_id].writer && keys2[key_id].pending
            == keys[key_id].pending.push((proc_id, RequestType::Write))),
        keys2[key_id].readers == keys[key_id].readers,
{
    let ks = keys[key_id];
    lemma_write_request(ks, proc_id);
    assert(keys2[key_id] == ks.after_write(proc_id));
    assert(ks.pending.push((proc_id, RequestType::Write)).len() != ks.pending.len());
}

/// Creating, deleting and releasing succeed exactly when they should: a
/// create succeeds on an unknown key, which then belongs to the creator and
/// is free; a delete succeeds on a known key nobody holds, which is then
/// gone while every other key stays; a release succeeds for a process that
/// holds the key. A refused request changes nothing, and a request on an
/// unknown key other than a create is refused as not found.
pub proof fn lemma_request_success(
    keys: Map<KeyId, KeyStateView>,
    granted: Seq<AccessGranted>,
    request_type: RequestType,
    proc_id: ProcId,
    key_id: KeyId,
    r: Result<RegistryResponse, RegistryError>,
    keys2: Map<KeyId, KeyStateView>,
    granted2: Seq<AccessGranted>,
)
    requires
        request_outcome(keys, granted, request_type, proc_id, key_id, r, keys2, granted2),
    ensures
        request_type == RequestType::Create ==> {
            &&& r == Ok::<RegistryResponse, RegistryError>(RegistryResponse::Success(key_id))
                <==> !keys.contains_key(key_id)
            &&& !keys.contains_key(key_id) ==> {
                &&& keys2.contains_key(key_id)
                &&& keys2[key_id].creator == proc_id
                &&& !keys2[key_id].is_accessed()
                &&& keys2[key_id].pending.len() == 0
            }
            &&& keys.contains_key(key_id) ==> keys2 == keys
        },
        request_type == RequestType::Delete ==> {
            &&& r == Ok::<RegistryResponse, RegistryError>(RegistryResponse::Success(key_id)) <==> (
            keys.contains_key(key_id) && !keys[key_id].is_accessed())
            &&& r is Ok ==> !keys2.contains_key(key_id) && forall|k: KeyId|
                k != key_id ==> #[trigger] keys2.contains_key(k) == keys.contains_key(k)
                    && (keys.contains_key(k) ==> keys2[k] == keys[k])
            &&& r is Err ==> keys2 == keys
        },
        request_type == RequestType::Release && keys.contains_key(key_id) ==> {
            &&& r == Ok::<RegistryResponse, RegistryError>(RegistryResponse::Success(key_id))
                <==> keys[key_id].holds_access(proc_id)
            &&& r is Err ==> keys2 == keys && granted2 == granted
        },
        request_type != RequestType::Create && !keys.contains_key(key_id) ==> r == Err::<
            RegistryResponse,
            RegistryError,
        >(RegistryError::AccessManager(AccessManagerError::KeyNotFound(key_id))) && keys2 == keys,
{
}

/// What a registry request answers and does, given the keys and pending
/// grants before it, the answer `r`, and the keys and pending grants after it.
pub open spec fn request_outcome(
    keys: Map<KeyId, KeyStateView>,
    granted: Seq<AccessGranted>,
    request_type: RequestType,
    proc_id: ProcId,
    key_id: KeyId,
    r: Result<RegistryResponse, RegistryError>,
    keys2: Map<KeyId, KeyStateView>,
    granted2: Seq<AccessGranted>,
) -> bool {
    let known = keys.contains_key(key_id);
    let ks = keys[key_id];
    let not_found = Err::<RegistryResponse, RegistryError>(
        RegistryError::AccessManager(AccessManagerError::KeyNotFound(key_id)),
    );
    let success = Ok::<RegistryResponse, RegistryError>(RegistryResponse::Success(key_id));
    let wait = Ok::<RegistryResponse, RegistryError>(RegistryResponse::Wait(key_id));
    match request_type {
        RequestType::Create => {
            &&& granted2 == granted
            &&& known ==> r == Err::<RegistryResponse, RegistryError>(
                RegistryError::AccessManager(AccessManagerError::KeyExists(key_id)),
            ) && keys2 == keys
            &&& !known ==> r == success && keys2 == keys.insert(
                key_id,
                KeyStateView::fresh(proc_id),
            )
        },
        RequestType::Delete => {
            &&& granted2 == granted
            &&& !known ==> r == not_found && keys2 == keys
            &&& known && ks.is_accessed() ==> r == Err::<RegistryResponse, RegistryError>(
                RegistryError::AccessManager(AccessManagerError::KeyAccessed),
            ) && keys2 == keys
            &&& known && !ks.is_accessed() ==> r == success && keys2 == keys.remove(key_id)
        },
        RequestType::Read => {
            &&& granted2 == granted
            &&& !known ==> r == not_found && keys2 == keys
            &&& known ==> keys2 == keys.insert(key_id, ks.after_read(proc_id))
            &&& known && (ks.writer is Some || ks.write_waiting()) ==> r == wait
            &&& known && !(ks.writer is Some || ks.write_waiting()) ==> r == Ok::<
                RegistryResponse,
                RegistryError,
            >(RegistryResponse::Holder(key_id, ks.holder()))
        },
        RequestType::Write => {
            &&& granted2 == granted
            &&& !known ==> r == not_found && keys2 == keys
            &&& known ==> keys2 == keys.insert(key_id, ks.after_write(proc_id))
            &&& known && ks.is_accessed() ==> r == wait
            &&& known && !ks.is_accessed() ==> r == success
        },
        RequestType::Release => {
            &&& !known ==> r == not_found && keys2 == keys && granted2 == granted
            &&& known && !ks.holds_access(proc_id) ==> r == Err::<RegistryResponse, RegistryError>(
                RegistryError::AccessManager(AccessManagerError::ReleaseAccess(proc_id, key_id)),
            ) && keys2 == keys && granted2 == granted
            &&& known && ks.holds_access(proc_id) ==> r == success && keys2 == keys.insert(
                key_id,
                ks.released(proc_id, key_id).0,
            ) && granted2 == granted + ks.released(proc_id, key_id).1
        },
    }
}

} // verus!
