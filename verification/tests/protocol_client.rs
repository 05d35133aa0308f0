use soros::protocol::{
    DataMessage, Message, registry_connection, registry_response, registry_stop, RegistryResponse,
};
use soros::protocol_client::{
    falls_back, send_recovery, LinkFailure, SendRecovery, connection_id, read_grant, response_of, resumed_read, resumed_write, success_for, write_grant,
    ResponseError,
};

#[test]
fn client_reads_responses() {
    assert!(matches!(
        response_of(registry_response(RegistryResponse::Success(3))),
        Ok(RegistryResponse::Success(3))
    ));
    assert_eq!(
        response_of(registry_response(RegistryResponse::Error("no".to_string()))).unwrap_err(),
        ResponseError::RegistryError("no".to_string())
    );
    assert_eq!(
        response_of(registry_response(RegistryResponse::Wait(8))).unwrap_err(),
        ResponseError::WaitError(8)
    );
    assert_eq!(
        response_of(registry_stop()).unwrap_err(),
        ResponseError::UnexpectedResponse
    );
}

#[test]
fn client_reads_connection_id() {
    assert_eq!(connection_id(registry_connection(12)), Ok(12));
    assert_eq!(
        connection_id(registry_response(RegistryResponse::Ack)),
        Err(ResponseError::UnexpectedResponse)
    );
}

#[test]
fn client_reads_grants() {
    let a = 6;
    assert_eq!(read_grant(RegistryResponse::Holder(2, a)), Ok((2, a)));
    assert_eq!(
        read_grant(RegistryResponse::Success(2)),
        Err(ResponseError::UnexpectedResponse)
    );
    assert_eq!(write_grant(RegistryResponse::Success(4)), Ok(4));
    assert_eq!(
        write_grant(RegistryResponse::Holder(4, a)),
        Err(ResponseError::UnexpectedResponse)
    );
    assert_eq!(success_for(5, RegistryResponse::Success(5)), Ok(()));
    assert_eq!(
        success_for(5, RegistryResponse::Success(6)),
        Err(ResponseError::UnexpectedResponse)
    );
    assert_eq!(
        success_for(5, RegistryResponse::Ack),
        Err(ResponseError::UnexpectedResponse)
    );
}

#[test]
fn client_checks_resumed_grants() {
    let a = 4;
    assert_eq!(resumed_read(1, (1, a)), Ok((1, a)));
    assert_eq!(resumed_read(1, (2, a)), Err(ResponseError::UnexpectedResponse));
    assert_eq!(resumed_write(3, 3), Ok(3));
    assert_eq!(resumed_write(3, 4), Err(ResponseError::UnexpectedResponse));
}

#[test]
fn client_reads_peer_data() {
    assert_eq!(
        soros::protocol_client::data_of(Message::Data(DataMessage::Response {
            data: "abc".to_string()
        })),
        Ok("abc".to_string())
    );
    assert_eq!(
        soros::protocol_client::data_of(Message::Data(DataMessage::Request { key_id: 1 })),
        Err(ResponseError::UnexpectedResponse)
    );
}

#[test]
fn client_failover_rules() {
    assert!(falls_back(LinkFailure::ConnectionRefused));
    assert!(falls_back(LinkFailure::ConnectionReset));
    assert!(falls_back(LinkFailure::TimedOut));
    assert!(!falls_back(LinkFailure::Other));
    assert_eq!(
        send_recovery(false, LinkFailure::ConnectionReset),
        SendRecovery::NoBackupServer
    );
    assert_eq!(
        send_recovery(true, LinkFailure::TimedOut),
        SendRecovery::SwitchToSecondary
    );
    assert_eq!(send_recovery(true, LinkFailure::Other), SendRecovery::Fail);
}
