//! Messages exchanged between clients, peers and the registry, and the
//! newline framing that delimits them on a byte stream.
use vstd::prelude::*;

verus! {

/// Unique identifier for a process.
pub type ProcId = usize;

/// Unique identifier for a key.
pub type KeyId = usize;

/// The byte that ends every frame on the wire (`'\n'`).
pub const NEWLINE: u8 = 10u8;

/// Network address of a peer, as plain values.
#[derive(Debug, Clone, Copy, PartialEq, Eq)]
pub enum PeerAddr {
    /// An IPv4 address (its octets) and a port.
    V4([u8; 4], u16),
    /// An IPv6 address (its octets) and a port.
    V6([u8; 16], u16),
}

/// Represents different types of messages exchanged in the protocol.
#[derive(Debug)]
pub enum Message {
    /// Represent request / response related to the registry.
    Registry(RegistryMessage),
    /// Represent request / response related to peer-to-peer data.
    Data(DataMessage),
}

/// Represents different kind of responses from the registry.
#[derive(Debug)]
pub enum RegistryResponse {
    Success(KeyId),
    /// The request cannot be fullfilled yet
    Wait(KeyId),
    /// Return a process id using the data, can be used for the peer-to-peer protocol.
    Holder(KeyId, ProcId),
    Error(String),
    /// Acknowledgement of a notification.
    Ack,
}

/// Kind of a registry request.
#[derive(Debug, Clone, Copy, PartialEq, Eq, Structural)]
pub enum RequestType {
    Create,
    Delete,
    Read,
    Write,
    Release,
}

/// Represent a message related to the registry
#[derive(Debug)]
pub enum RegistryMessage {
    /// Unique proc id given by the registry server during connection
    Connection(ProcId),
    /// Notification to the secondary registry that a connection was accepted.
    ConnectionEstablished(ProcId),
    /// Request for stopping the registry.
    StopRequest,
    /// Request for accessing registry data.
    Request { request_type: RequestType, proc_id: ProcId, key_id: KeyId },
    /// Response containing registry data.
    Response(RegistryResponse),
}

/// Represent a message related to the peer-to-peer data exchange protocol
#[derive(Debug)]
pub enum DataMessage {
    /// Request for peer-to-peer data content.
    Request { key_id: KeyId },
    /// Response containing peer-to-peer data content.
    Response { data: String },
}

/// A registry request of `request_type` from `proc_id` on `key_id`.
pub fn registry_request(proc_id: ProcId, key_id: KeyId, request_type: RequestType) -> (m: Message)
    ensures
        m == Message::Registry(RegistryMessage::Request { request_type, proc_id, key_id }),
{
    Message::Registry(RegistryMessage::Request { request_type, proc_id, key_id })
}

/// The message that hands a process its id when it connects.
pub fn registry_connection(proc_id: ProcId) -> (m: Message)
    ensures
        m == Message::Registry(RegistryMessage::Connection(proc_id)),
{
    Message::Registry(RegistryMessage::Connection(proc_id))
}

/// The message that tells the secondary registry about a new connection.
pub fn registry_connection_established(id_counter: ProcId) -> (m: Message)
    ensures
        m == Message::Registry(RegistryMessage::ConnectionEstablished(id_counter)),
{
    Message::Registry(RegistryMessage::ConnectionEstablished(id_counter))
}

/// The message that wraps a registry response.
pub fn registry_response(resp: RegistryResponse) -> (m: Message)
    ensures
        m == Message::Registry(RegistryMessage::Response(resp)),
{
    Message::Registry(RegistryMessage::Response(resp))
}

/// The message that asks the registry to stop.
pub fn registry_stop() -> (m: Message)
    ensures
        m == Message::Registry(RegistryMessage::StopRequest),
{
    Message::Registry(RegistryMessage::StopRequest)
}

/// The bytes of a frame carrying `payload`.
pub open spec fn framed(payload: Seq<u8>) -> Seq<u8> {
    payload.push(NEWLINE)
}

/// `input` starts with the frame `line`, followed by `rest`: `line` holds no
/// newline and is followed in `input` by the first newline.
pub open spec fn is_frame_split(input: Seq<u8>, line: Seq<u8>, rest: Seq<u8>) -> bool {
    &&& line.len() < input.len()
    &&& input[line.len() as int] == NEWLINE
    &&& !line.contains(NEWLINE)
    &&& line == input.take(line.len() as int)
    &&& rest == input.skip(line.len() + 1int)
}

/// Appends the frame delimiter to an encoded message.
pub fn frame(payload: Vec<u8>) -> (r: Vec<u8>)
    ensures
        r@ == framed(payload@),
{
    let mut data = payload;
    data.push(NEWLINE);
    data
}

/// Whether a chunk of received bytes holds a frame delimiter.
pub fn has_newline(bytes: &[u8]) -> (r: bool)
    ensures
        r == bytes@.contains(NEWLINE),
{
    let mut i: usize = 0;
    while i < bytes.len()
        invariant
            0 <= i <= bytes@.len(),
            forall|j: int| 0 <= j < i ==> bytes@[j] != NEWLINE,
        decreases bytes@.len() - i,
    {
        if bytes[i] == NEWLINE {
            assert(bytes@[i as int] == NEWLINE);
            return true;
        }
        i = i + 1;
    }
    false
}

/// Removes the first complete frame from the received bytes and returns its
/// content; returns `None` and keeps the bytes when no frame is complete.
pub fn take_frame(buffer: &mut Vec<u8>) -> (r: Option<Vec<u8>>)
    ensures
        match r {
            None => !old(buffer)@.contains(NEWLINE) && final(buffer)@ == old(buffer)@,
            Some(line) => is_frame_split(old(buffer)@, line@, final(buffer)@),
        },
{
    let len = buffer.len();
    let mut index: usize = 0;
    while index < len && buffer[index] != NEWLINE
        invariant
            len == buffer@.len(),
            0 <= index <= len,
            forall|j: int| 0 <= j < index ==> buffer@[j] != NEWLINE,
        decreases len - index,
    {
        index = index + 1;
    }
    if index == len {
        return None;
    }
    let mut line: Vec<u8> = Vec::new();
    let mut i: usize = 0;
    while i < index
        invariant
            len == buffer@.len(),
            index < len,
            0 <= i <= index,
            line@ == buffer@.take(i as int),
        decreases index - i,
    {
        line.push(buffer[i]);
        i = i + 1;
        assert(line@ =~= buffer@.take(i as int));
    }
    let mut rest: Vec<u8> = Vec::new();
    let mut k: usize = index + 1;
    while k < len
        invariant
            len == buffer@.len(),
            index < len,
            index + 1 <= k <= len,
            rest@ == buffer@.subrange(index + 1, k as int),
        decreases len - k,
    {
        rest.push(buffer[k]);
        k = k + 1;
        assert(rest@ =~= buffer@.subrange(index + 1, k as int));
    }
    proof {
        assert(buffer@.skip(index + 1) =~= buffer@.subrange(index + 1, len as int));
        assert(line@.len() == index);
        assert forall|j: int| 0 <= j < line@.len() implies line@[j] != NEWLINE by {
            assert(line@[j] == buffer@[j]);
        }
    }
    *buffer = rest;
    Some(line)
}

/// A framed message is read back whole, and the bytes that followed it are
/// left untouched: splitting `framed(payload) + rest` yields `payload` and
/// `rest`, and no other split exists.
pub proof fn lemma_frame_roundtrip(payload: Seq<u8>, rest: Seq<u8>)
    requires
        !payload.contains(NEWLINE),
    ensures
        is_frame_split(framed(payload) + rest, payload, rest),
        forall|line: Seq<u8>, rest2: Seq<u8>|
            #[trigger] is_frame_split(framed(payload) + rest, line, rest2) ==> line == payload
                && rest2 == rest,
{
    let input = framed(payload) + rest;
    assert(input[payload.len() as int] == NEWLINE);
    assert(input.take(payload.len() as int) =~= payload);
    assert(input.skip(payload.len() + 1int) =~= rest);
    assert forall|line: Seq<u8>, rest2: Seq<u8>|
        #[trigger] is_frame_split(input, line, rest2) implies line == payload && rest2 == rest by {
        if line.len() < payload.len() {
            assert(input[line.len() as int] == payload[line.len() as int]);
            assert(payload.contains(NEWLINE));
        } else if line.len() > payload.len() {
            assert(line[payload.len() as int] == input[payload.len() as int]);
            assert(line.contains(NEWLINE));
        }
        assert(line =~= payload);
    }
}

} // verus!
