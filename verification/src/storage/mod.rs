//! The versioned store and what it is built from.

pub mod btree_index;
pub mod columnar;
pub mod commit_laws;
pub mod engine;
pub mod hash_index;
pub mod id_map;
pub mod index_laws;
pub mod index_ops;
pub mod key;
pub mod kv;
pub mod laws;
pub mod layout;
pub mod model;
pub mod record;
pub mod transaction;
pub mod truth;
pub(crate) mod version_trees;
