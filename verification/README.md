# lattice_core

The core of a decentralized syncing engine. Every write is a signed entry of its
author's append-only chain. Replicas exchange entries in any order; those that have
the same entries agree on every key.

`src/` is the library. It is written in Verus: the contracts of its functions are
proved, and so are the laws that span functions (`law_*`).

- `clock`, `hlc`, `vector_clock`: time.
- `bytes`, `text`, `table`, `sorting`, `results`: byte strings, texts and ordered tables.
- `wire`, `schema`, `message`, `proto`: the wire format, the messages in it, and what is
  wrong with bytes that are none of them.
- `crypto`, `node_identity`, `entry`, `signed_entry`: keys, signatures and entries.
- `head`, `head_records`: what is current under a key, and which head wins.
- `store`: logs, chains, the key-value state, the store's actor, watchers, peers'
  progress, authorization. `store::convergence` states that replicas agree.
- `log_store`, `store::record_store`, `sigchain`, `store_actor`: stores that keep heads and
  entries as messages.
- `auth`, `peer_manager`, `token`, `mesh`, `meta_store`, `data_dir`, `node`: peers,
  invitations, meshes and the node.
- `daemon`: what the daemon logs.

Functions that take the time or a random value as an argument end in `_at`; beside
them stand those that read the clock.

What is trusted without proof are the calls into other crates: BLAKE3, Ed25519,
protobuf varints, regular expressions, Base58, hexadecimal notation, random numbers,
the host name and the platform's directories. Each has a wrapper that says what is
claimed of it.

`app/` is the daemon: it keeps the node's tables and logs on disk and runs stores on
threads of their own. `tests/` runs the library.
