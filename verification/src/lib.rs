//! Trie nodes in their stored form, and the decisions of state healing.
//!
//! - [`rlp`], [`nibbles`], [`node_hash`], [`node`], [`account`]: the data of
//!   the state trie and its encodings.
//! - [`codec`]: the form in which nodes are kept in the store.
//! - [`state_healing`], [`healing_laws`]: what a healing cycle decides, and
//!   what holds of it.
//! - [`logs`], [`hex`]: queries for logs.

pub mod account;
pub mod codec;
pub mod error;
pub mod healing_laws;
pub mod hex;
pub mod logs;
pub mod nibbles;
pub mod node;
pub mod node_hash;
pub mod primitives;
pub mod rlp;
pub mod state_healing;
