//! The storage node: its write-ahead log, its row versions and its settings.
pub mod config;
pub mod mvcc;
pub mod state;
pub mod wal_codec;
pub mod wal_files;
pub mod wal_replay;
pub mod wal_writer;
