//! The replicated key-value store.
pub mod actor;
pub mod authorized_store;
pub mod backend;
pub mod convergence;
pub mod error;
pub mod handle;
pub mod interfaces;
pub mod kv_patch;
pub mod log;
pub mod orphan_store;
pub mod peer_sync_store;
pub mod record_store;
pub mod sigchain;
pub mod state;
pub mod sync_state;
pub mod watch;
