//! A transactional store in memory with a write-ahead log on several replicas.
pub mod codec;
pub mod error;
pub mod manager;
pub mod storage;
