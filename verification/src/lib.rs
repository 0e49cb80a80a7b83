//! A small key-value store whose whole contents live in memory and are
//! mirrored to a text file of `key=value` lines.
//!
//! The store itself touches no file. `KeyValueStore::new` builds a store from
//! the text that its file holds, and `KeyValueStore::encode` gives the text
//! that the file is to hold after a change; reading and writing the file is
//! left to the caller.

pub mod codec;
pub mod decimal;
pub mod laws;
pub mod model;
pub mod store;
pub mod text;
pub mod value;

pub use store::{InsertResult, KeyValueStore, KvError, RemoveResult};
pub use value::{KvEnum, Scalar};
