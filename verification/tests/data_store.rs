use soros::p2p_server;
use soros::peer2peer_server;
use soros::protocol::{DataMessage, Message, RegistryMessage};

#[test]
fn shared_store_create_overwrites() {
    let mut store = p2p_server::DataStore::new();
    store.create(1, "a").unwrap();
    store.create(1, "b").unwrap();
    assert_eq!(store.get(&1).unwrap(), "b");
}

#[test]
fn shared_store_write_then_get() {
    let mut store = p2p_server::DataStore::default();
    assert!(matches!(
        store.write(&2, "x"),
        Err(p2p_server::DataStoreError::KeyDoesNotExists(2))
    ));
    store.create(2, "inital data").unwrap();
    store.write(&2, "new data").unwrap();
    assert_eq!(store.get(&2).unwrap(), "new data");
    store.delete(&2).unwrap();
    assert!(matches!(
        store.get(&2),
        Err(p2p_server::DataStoreError::KeyDoesNotExists(2))
    ));
    store.delete(&2).unwrap();
}

#[test]
fn shared_store_answers_data_request() {
    let mut store = p2p_server::DataStore::new();
    store.create(3, "content").unwrap();
    match p2p_server::handle_message(&store, Message::Data(DataMessage::Request { key_id: 3 })) {
        Ok(DataMessage::Response { data }) => assert_eq!(data, "content"),
        other => panic!("unexpected {:?}", other),
    }
    assert!(matches!(
        p2p_server::handle_message(&store, Message::Data(DataMessage::Request { key_id: 4 })),
        Err(p2p_server::DataRequestError::DataStore(
            p2p_server::DataStoreError::KeyDoesNotExists(4)
        ))
    ));
    assert!(matches!(
        p2p_server::handle_message(
            &store,
            Message::Data(DataMessage::Response { data: String::new() })
        ),
        Err(p2p_server::DataRequestError::UnexpectedRequest)
    ));
    assert!(matches!(
        p2p_server::handle_message(&store, Message::Registry(RegistryMessage::StopRequest)),
        Err(p2p_server::DataRequestError::UnexpectedRequest)
    ));
}

#[test]
fn peer_store_create_once() {
    let mut store = peer2peer_server::DataStore::new();
    store.create(1, "a").unwrap();
    assert!(matches!(
        store.create(1, "b"),
        Err(peer2peer_server::DataStoreError::KeyAlreadyExists(1))
    ));
    assert_eq!(store.get(1).unwrap(), "a");
}

#[test]
fn peer_store_read_back_write() {
    let mut store = peer2peer_server::DataStore::new();
    assert!(matches!(
        store.write(5, "x"),
        Err(peer2peer_server::DataStoreError::KeyDoesNotExists(5))
    ));
    store.create(5, "x").unwrap();
    store.create(6, "y").unwrap();
    store.write(5, "z").unwrap();
    assert_eq!(store.get(5).unwrap(), "z");
    assert_eq!(store.get(6).unwrap(), "y");
    store.delete(5).unwrap();
    assert!(store.get(5).is_err());
    store.delete(5).unwrap();
}

#[test]
fn peer_store_answers_data_request() {
    let mut store = peer2peer_server::DataStore::new();
    store.create(8, "eight").unwrap();
    match peer2peer_server::handle_message(&store, Message::Data(DataMessage::Request { key_id: 8 }))
    {
        Ok(DataMessage::Response { data }) => assert_eq!(data, "eight"),
        other => panic!("unexpected {:?}", other),
    }
    assert!(matches!(
        peer2peer_server::handle_message(
            &store,
            Message::Data(DataMessage::Response { data: "eight".to_string() })
        ),
        Err(peer2peer_server::DataRequestError::UnexpectedRequest)
    ));
}
