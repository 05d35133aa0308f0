//! How a client reads the registry's answers: which message is an answer,
//! which answer grants a read or a write, and when an answer belongs to the
//! request that waited for it.
use crate::protocol::{
    DataMessage, KeyId, Message, ProcId, RegistryMessage, RegistryResponse,
};
use vstd::prelude::*;

verus! {

/// Why an answer of the registry does not let the client go on.
#[derive(Debug, PartialEq, Eq)]
pub enum ResponseError {
    /// The registry refused the request, with its reason.
    RegistryError(String),
    /// The answer is not the one expected.
    UnexpectedResponse,
    /// The access is not granted yet; a later answer will grant it.
    WaitError(KeyId),
}

/// The registry response carried by a message; an error or a wait is
/// reported as such.
pub fn response_of(message: Message) -> (r: Result<RegistryResponse, ResponseError>)
    ensures
        match message {
            Message::Registry(RegistryMessage::Response(resp)) => match resp {
                RegistryResponse::Error(err) => r == Err::<RegistryResponse, ResponseError>(
                    ResponseError::RegistryError(err),
                ),
                RegistryResponse::Wait(key_id) => r == Err::<RegistryResponse, ResponseError>(
                    ResponseError::WaitError(key_id),
                ),
                _ => r == Ok::<RegistryResponse, ResponseError>(resp),
            },
            _ => r == Err::<RegistryResponse, ResponseError>(ResponseError::UnexpectedResponse),
        },
{
    match message {
        Message::Registry(RegistryMessage::Response(resp)) => match resp {
            RegistryResponse::Error(err) => Err(ResponseError::RegistryError(err)),
            RegistryResponse::Wait(key_id) => Err(ResponseError::WaitError(key_id)),
            _ => Ok(resp),
        },
        _ => Err(ResponseError::UnexpectedResponse),
    }
}

/// The id the registry gives the client when it connects.
pub fn connection_id(message: Message) -> (r: Result<ProcId, ResponseError>)
    ensures
        match message {
            Message::Registry(RegistryMessage::Connection(proc_id)) => r == Ok::<
                ProcId,
                ResponseError,
            >(proc_id),
            _ => r == Err::<ProcId, ResponseError>(ResponseError::UnexpectedResponse),
        },
{
    match message {
        Message::Registry(RegistryMessage::Connection(proc_id)) => Ok(proc_id),
        _ => Err(ResponseError::UnexpectedResponse),
    }
}

/// A granted read: the key and the id of the process holding its data.
pub fn read_grant(resp: RegistryResponse) -> (r: Result<(KeyId, ProcId), ResponseError>)
    ensures
        match resp {
            RegistryResponse::Holder(key_id, holder) => r == Ok::<(KeyId, ProcId), ResponseError>(
                (key_id, holder),
            ),
            _ => r == Err::<(KeyId, ProcId), ResponseError>(ResponseError::UnexpectedResponse),
        },
{
    match resp {
        RegistryResponse::Holder(key_id, holder) => Ok((key_id, holder)),
        _ => Err(ResponseError::UnexpectedResponse),
    }
}

/// A granted write: the key.
pub fn write_grant(resp: RegistryResponse) -> (r: Result<KeyId, ResponseError>)
    ensures
        match resp {
            RegistryResponse::Success(key_id) => r == Ok::<KeyId, ResponseError>(key_id),
            _ => r == Err::<KeyId, ResponseError>(ResponseError::UnexpectedResponse),
        },
{
    match resp {
        RegistryResponse::Success(key_id) => Ok(key_id),
        _ => Err(ResponseError::UnexpectedResponse),
    }
}

/// A success for the key of the request.
pub fn success_for(key_id: KeyId, resp: RegistryResponse) -> (r: Result<(), ResponseError>)
    ensures
        (resp matches RegistryResponse::Success(k) && k == key_id) ==> r == Ok::<(), ResponseError>(
            (),
        ),
        !(resp matches RegistryResponse::Success(k) && k == key_id) ==> r == Err::<
            (),
            ResponseError,
        >(ResponseError::UnexpectedResponse),
{
    match resp {
        RegistryResponse::Success(resp_key_id) => {
            if key_id == resp_key_id {
                Ok(())
            } else {
                Err(ResponseError::UnexpectedResponse)
            }
        },
        _ => Err(ResponseError::UnexpectedResponse),
    }
}

/// The read granted after a wait on `waited`: it must be for that key.
pub fn resumed_read(waited: KeyId, granted: (KeyId, ProcId)) -> (r: Result<
    (KeyId, ProcId),
    ResponseError,
>)
    ensures
        granted.0 == waited ==> r == Ok::<(KeyId, ProcId), ResponseError>(granted),
        granted.0 != waited ==> r == Err::<(KeyId, ProcId), ResponseError>(
            ResponseError::UnexpectedResponse,
        ),
{
    if waited != granted.0 {
        return Err(ResponseError::UnexpectedResponse);
    }
    Ok(granted)
}

/// The write granted after a wait on `waited`: it must be for that key.
pub fn resumed_write(waited: KeyId, granted: KeyId) -> (r: Result<KeyId, ResponseError>)
    ensures
        granted == waited ==> r == Ok::<KeyId, ResponseError>(granted),
        granted != waited ==> r == Err::<KeyId, ResponseError>(ResponseError::UnexpectedResponse),
{
    if waited != granted {
        return Err(ResponseError::UnexpectedResponse);
    }
    Ok(granted)
}

/// The content a peer sent back for a data request.
pub fn data_of(message: Message) -> (r: Result<String, ResponseError>)
    ensures
        match message {
            Message::Data(DataMessage::Response { data }) => r == Ok::<String, ResponseError>(data),
            _ => r == Err::<String, ResponseError>(ResponseError::UnexpectedResponse),
        },
{
    match message {
        Message::Data(DataMessage::Response { data }) => Ok(data),
        _ => Err(ResponseError::UnexpectedResponse),
    }
}

/// How a transfer with the registry failed, as far as the client cares.
#[derive(Debug, Clone, Copy, PartialEq, Eq)]
pub enum LinkFailure {
    ConnectionRefused,
    ConnectionReset,
    TimedOut,
    Other,
}

/// The failure shows that the registry is gone.
pub open spec fn registry_gone(failure: LinkFailure) -> bool {
    failure == LinkFailure::ConnectionRefused || failure == LinkFailure::ConnectionReset
        || failure == LinkFailure::TimedOut
}

/// Whether a failure to reach the primary registry sends the client to the
/// secondary one.
pub fn falls_back(failure: LinkFailure) -> (r: bool)
    ensures
        r == registry_gone(failure),
{
    match failure {
        LinkFailure::ConnectionRefused | LinkFailure::ConnectionReset | LinkFailure::TimedOut => true,
        LinkFailure::Other => false,
    }
}

/// What the client does when a request could not be delivered.
#[derive(Debug, PartialEq, Eq)]
pub enum SendRecovery {
    /// It already talks to the secondary registry: no registry is left.
    NoBackupServer,
    /// It switches to the secondary registry and sends the request again.
    SwitchToSecondary,
    /// It reports the failure.
    Fail,
}

/// The recovery from a failed delivery, for a client that talks to the
/// primary registry or not.
pub fn send_recovery(is_primary: bool, failure: LinkFailure) -> (r: SendRecovery)
    ensures
        !is_primary ==> r == SendRecovery::NoBackupServer,
        is_primary && registry_gone(failure) ==> r == SendRecovery::SwitchToSecondary,
        is_primary && !registry_gone(failure) ==> r == SendRecovery::Fail,
{
    if !is_primary {
        return SendRecovery::NoBackupServer;
    }
    if falls_back(failure) {
        SendRecovery::SwitchToSecondary
    } else {
        SendRecovery::Fail
    }
}

} // verus!
