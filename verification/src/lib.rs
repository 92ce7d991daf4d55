//! A replicated key-value store: every write is a signed entry of its author's
//! chain, and replicas that have the same entries agree.
use vstd::prelude::*;

pub mod auth;
pub mod bytes;
pub mod causal_iter;
pub mod clock;
pub mod crypto;
pub mod daemon;
pub mod data_dir;
pub mod entry;
pub mod head;
pub mod head_records;
pub mod hlc;
pub mod log_store;
pub mod mesh;
pub mod message;
pub mod meta_store;
pub mod node;
pub mod node_identity;
pub mod peer_manager;
pub mod proto;
pub mod results;
pub mod schema;
pub mod sigchain;
pub mod signed_entry;
pub mod sorting;
pub mod store;
pub mod store_actor;
pub mod sync_state;
pub mod table;
pub mod text;
pub mod token;
pub mod vector_clock;
pub mod wire;

verus! {

/// Largest encoded entry that is accepted by the log, in bytes.
pub const MAX_ENTRY_SIZE: usize = 16777216;

} // verus!
