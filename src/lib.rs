//! A minimal persistent key-value store: an append-only log of `key value`
//! lines and an in-memory index from each key to the offset of its latest
//! record. The index is rebuilt from the log by recovery and kept equal to
//! what recovery would rebuild by every write.
use vstd::prelude::*;

pub mod command;
pub mod error;
pub mod index;
pub mod laws;
pub mod log;
pub mod record;
pub mod store;
pub mod words;

pub use command::{parse_command, Command, CommandError, Request};
pub use error::StoreError;
pub use index::KeyIndex;
pub use log::LogStore;
pub use record::{decode_line, encode_record};
pub use store::Store;

verus! {

} // verus!
