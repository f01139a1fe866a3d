//! The embedded engine: transactions over the tree, with undo records for
//! snapshot reads and page images for redo.
pub mod boot;
pub mod commit;
pub mod gc;
pub mod history;
pub mod inprocess;
pub mod page_map;
pub mod postings;
pub mod purge;
pub mod ready;
pub mod registry;
pub mod resolve;
pub mod scan;
pub mod sequencer;
pub mod session;
pub mod soundness;
pub mod txn;
pub mod undo;
pub mod visibility;
pub mod write;
