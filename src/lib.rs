//! Puzzle records kept in a key-value store: their model, their canonical
//! byte encoding, and the create / read / update / delete / list operations
//! written as steps that a driver runs against the store.

pub mod codec;
pub mod crud;
pub mod puzzle;
pub mod store;
pub mod user;
