//! A B+tree whose nodes are pages.
pub mod chain;
pub mod insert;
pub mod links;
pub mod node_page;
pub mod page_cache;
pub mod provider;
pub mod range;
pub mod rebalance;
pub mod remove;
pub mod shape;
pub mod split;
pub mod tree;
pub mod tree_check;
pub mod tree_lemmas;
pub mod tree_model;
pub mod validate;
pub mod validity;
