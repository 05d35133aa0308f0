# soros

A distributed key-value store: peers keep the data, and a registry server
grants read and write access to each key with a fair readers-writer lock.

- `src/` is the verified library:
  - `access_manager` and `rw_queue`: the fair readers-writer lock over keys,
    with its invariant (a writer excludes readers; requests wait only behind
    an access) and its laws (first come, first served; no request starves
    over successive rounds of access; release undoes a grant; delete undoes
    create).
  - `registry_server`: what the registry answers to each message (a granted
    read names the process holding the data) and whom it notifies when
    access is granted.
  - `protocol`: the messages and their newline framing.
  - `protocol_client`: how a client reads the registry's answers.
  - `p2p_server`, `peer2peer_server`: the data stores of peers and their
    answers to data requests.
- `app/` holds the programs (registry server, clients, benchmarks), the
  network I/O and the JSON encoding of messages.
- `tests/` exercises the library.
