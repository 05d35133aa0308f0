use soros::protocol::{
    frame, has_newline, registry_connection, registry_connection_established, registry_request,
    registry_response, registry_stop, take_frame, DataMessage, Message, RegistryMessage,
    RegistryResponse, RequestType, NEWLINE,
};

#[test]
fn frame_appends_newline() {
    assert_eq!(frame(b"{\"a\":1}".to_vec()), b"{\"a\":1}\n".to_vec());
    assert_eq!(frame(Vec::new()), vec![NEWLINE]);
}

#[test]
fn frame_roundtrip_keeps_following_bytes() {
    let mut buffer = frame(b"first".to_vec());
    buffer.extend_from_slice(b"sec");
    assert_eq!(take_frame(&mut buffer), Some(b"first".to_vec()));
    assert_eq!(buffer, b"sec".to_vec());
    assert_eq!(take_frame(&mut buffer), None);
    assert_eq!(buffer, b"sec".to_vec());
    buffer.extend_from_slice(b"ond\nthird\n");
    assert_eq!(take_frame(&mut buffer), Some(b"second".to_vec()));
    assert_eq!(take_frame(&mut buffer), Some(b"third".to_vec()));
    assert!(buffer.is_empty());
}

#[test]
fn take_frame_of_empty_line() {
    let mut buffer = b"\nx".to_vec();
    assert_eq!(take_frame(&mut buffer), Some(Vec::new()));
    assert_eq!(buffer, b"x".to_vec());
}

#[test]
fn has_newline_finds_delimiter() {
    assert!(has_newline(b"ab\ncd"));
    assert!(!has_newline(b"abcd"));
    assert!(!has_newline(&[0u8; 32]));
}

#[test]
fn message_builders() {
    match registry_request(4, 9, RequestType::Write) {
        Message::Registry(RegistryMessage::Request {
            request_type,
            proc_id,
            key_id,
        }) => {
            assert_eq!(request_type, RequestType::Write);
            assert_eq!(proc_id, 4);
            assert_eq!(key_id, 9);
        }
        other => panic!("unexpected {:?}", other),
    }
    assert!(matches!(
        registry_connection(3),
        Message::Registry(RegistryMessage::Connection(3))
    ));
    assert!(matches!(
        registry_connection_established(5),
        Message::Registry(RegistryMessage::ConnectionEstablished(5))
    ));
    assert!(matches!(
        registry_response(RegistryResponse::Wait(2)),
        Message::Registry(RegistryMessage::Response(RegistryResponse::Wait(2)))
    ));
    assert!(matches!(
        registry_stop(),
        Message::Registry(RegistryMessage::StopRequest)
    ));
    assert!(matches!(
        Message::Data(DataMessage::Request { key_id: 1 }),
        Message::Data(DataMessage::Request { key_id: 1 })
    ));
}
