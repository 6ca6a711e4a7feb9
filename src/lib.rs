//! A small persistent key/value store kept as tab/newline-delimited text.
//!
//! `codec` turns a mapping into text and back, `store` holds the mapping in
//! memory, and `database` is the handle on one backing file: it decides what
//! to write and when, while reading and writing the file is the caller's part.
pub mod codec;
pub mod database;
pub mod error;
pub mod store;

pub use codec::{decode, encode, has_reserved};
pub use database::Database;
pub use error::StoreError;
pub use store::Store;
