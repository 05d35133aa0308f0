//! The data a peer holds, and the answer a peer gives to a data request.
//!
//! A peer keeps the content of the keys it holds. `create` sets a key's
//! content whether or not it existed; `write` only changes an existing key.
use crate::protocol::{DataMessage, KeyId, Message};
use std::collections::HashMap;
use vstd::prelude::*;

verus! {

broadcast use vstd::std_specs::hash::group_hash_axioms;

/// The I/O error type of the standard library, carried through unchanged.
#[verifier::external_type_specification]
#[verifier::external_body]
pub struct ExIoError(std::io::Error);

#[non_exhaustive]
#[derive(Debug)]
pub enum DataStoreError {
    IoError(std::io::Error),
    KeyAlreadyExists(KeyId),
    KeyDoesNotExists(KeyId),
}

/// The error of answering a data request.
#[derive(Debug)]
pub enum DataRequestError {
    /// The store could not give the data.
    DataStore(DataStoreError),
    /// The message is not a data request.
    UnexpectedRequest,
}

/// The content of every key a peer holds.
#[derive(Debug)]
pub struct DataStore {
    data_map: HashMap<KeyId, String>,
}

impl DataStore {
    /// The content of every key held.
    pub closed spec fn contents(&self) -> Map<KeyId, Seq<char>> {
        self.data_map@.map_values(|s: String| s@)
    }

    pub fn new() -> (s: Self)
        ensures
            s.contents() == Map::<KeyId, Seq<char>>::empty(),
    {
        let s = Self { data_map: HashMap::new() };
        assert(s.contents() =~= Map::<KeyId, Seq<char>>::empty());
        s
    }

    /// Sets the content of `key`, whether or not it was held.
    pub fn create(&mut self, key: KeyId, data: &str) -> (r: Result<(), DataStoreError>)
        ensures
            r is Ok,
            final(self).contents() == old(self).contents().insert(key, data@),
    {
        self.data_map.insert(key, data.to_owned());
        assert(self.contents() =~= old(self).contents().insert(key, data@));
        Ok(())
    }

    /// Replaces the content of a key that is held.
    pub fn write(&mut self, key: &KeyId, new_data: &str) -> (r: Result<(), DataStoreError>)
        ensures
            old(self).contents().contains_key(*key) ==> r is Ok && final(self).contents() == old(self).contents().insert(*key, new_data@),
            !old(self).contents().contains_key(*key) ==> (r matches Err(
                DataStoreError::KeyDoesNotExists(k),
            ) && k == *key) && final(self).contents() == old(self).contents(),
    {
        if !self.data_map.contains_key(key) {
            return Err(DataStoreError::KeyDoesNotExists(*key));
        }
        self.data_map.insert(*key, new_data.to_owned());
        assert(self.contents() =~= old(self).contents().insert(*key, new_data@));
        Ok(())
    }

    /// Forgets a key; forgetting a key not held is no error.
    pub fn delete(&mut self, key: &KeyId) -> (r: Result<(), DataStoreError>)
        ensures
            r is Ok,
            final(self).contents() == old(self).contents().remove(*key),
    {
        self.data_map.remove(key);
        assert(self.contents() =~= old(self).contents().remove(*key));
        Ok(())
    }

    /// The content of a key that is held.
    pub fn get(&self, key: &KeyId) -> (r: Result<String, DataStoreError>)
        ensures
            self.contents().contains_key(*key) ==> (r matches Ok(s) && s@ == self.contents()[*key]),
            !self.contents().contains_key(*key) ==> (r matches Err(
                DataStoreError::KeyDoesNotExists(k),
            ) && k == *key),
    {
        match self.data_map.get(key) {
            Some(data) => Ok(data.clone()),
            None => Err(DataStoreError::KeyDoesNotExists(*key)),
        }
    }
}

impl Default for DataStore {
    fn default() -> (s: Self)
        ensures
            s.contents() == Map::<KeyId, Seq<char>>::empty(),
    {
        Self::new()
    }
}

/// A peer's answer to a message: the content of the requested key.
pub fn handle_message(store: &DataStore, message: Message) -> (r: Result<DataMessage, DataRequestError>)
    ensures
        match message {
            Message::Data(DataMessage::Request { key_id }) => {
                &&& store.contents().contains_key(key_id) ==> (r matches Ok(
                    DataMessage::Response { data },
                ) && data@ == store.contents()[key_id])
                &&& !store.contents().contains_key(key_id) ==> (r matches Err(
                    DataRequestError::DataStore(DataStoreError::KeyDoesNotExists(k)),
                ) && k == key_id)
            },
            _ => r matches Err(DataRequestError::UnexpectedRequest),
        },
{
    match message {
        Message::Data(DataMessage::Request { key_id }) => {
            match store.get(&key_id) {
                Ok(data) => Ok(DataMessage::Response { data }),
                Err(e) => Err(DataRequestError::DataStore(e)),
            }
        },
        _ => Err(DataRequestError::UnexpectedRequest),
    }
}

} // verus!
