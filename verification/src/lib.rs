//! scale-kv: a key-value store with separate compute and storage, verified.
pub mod active_reads;
pub mod args;
pub mod bench;
pub mod bptree;
pub mod btree_meta;
pub mod common;
pub mod compute_sequencer;
pub mod embedded;
pub mod fsm_pg;
pub mod http_protocol;
pub mod key_map;
pub mod key_order;
pub mod key_set;
pub mod layout;
pub mod meta_page;
pub mod node;
pub mod page_bptree;
pub mod page_store;
pub mod secondary_index;
pub mod secondary_index_meta;
pub mod secondary_posting_log;
pub mod slotted_page;
pub mod text;
pub mod txn_kv;
pub mod txn_page_provider;
pub mod undo_pg;
pub mod wasm_compute;
