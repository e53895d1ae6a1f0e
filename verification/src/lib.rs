//! A Merkelized key-value storage engine: transactional views over an ordered
//! byte store, typed indexes on top of them, and a Merkle Patricia map with
//! verifiable proofs.

pub mod bits;
pub mod keys;
pub mod proof_map_index;
pub mod lex;
pub mod byte_map;
pub mod hash;
pub mod values;
pub mod changes;
pub mod address;
pub mod listing;
pub mod db;
pub mod temporary_db;
pub mod index_metadata;
pub mod views;
pub mod key_set_index;
pub mod list_index;
pub mod refs;
pub mod connect_list;
