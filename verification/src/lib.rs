//! A registry of keys with fair readers-writer access, the local data stores
//! of peers, and the message logic that connects clients, peers and the
//! registry.
pub mod protocol;
pub mod access_manager;
pub mod rw_queue;
pub mod p2p_server;
pub mod peer2peer_server;
pub mod registry_server;
pub mod protocol_client;
