//! Persisted metadata of one search index.
//!
//! A [`MainIndex`] binds five typed record slots (schema, word dictionary,
//! synonym dictionary, ranked map, document counter) to one key-value
//! [`Table`], and turns the typed values into the bytes stored under each
//! slot's key, and back.

pub mod dictionary;
pub mod error;
pub mod main_index;
pub mod radix;
pub mod ranked_map;
pub mod slot;
pub mod table;

pub use error::IndexError;
pub use main_index::MainIndex;
pub use ranked_map::{Entry, Number, RankedMap};
pub use slot::Slot;
pub use table::Table;
