//! Messages of the schema.
pub mod network;
pub mod packed;
pub mod storage;
