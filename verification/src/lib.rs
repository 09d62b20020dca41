//! An embeddable key-value store kept as an append-only log of checksummed
//! records with an in-memory index from each key to its latest record.
//!
//! The engine never touches the file system itself. The directory of log
//! segments is a plain value, [`LogDir`], that the caller owns and hands to
//! every operation; whoever embeds the engine loads that value from disk and
//! writes it back.

pub mod checksum;
pub mod command;
pub mod error;
pub mod index;
pub mod json;
pub mod laws;
pub mod lemmas;
pub mod model;
pub mod record;
pub mod scanner;
pub mod segment;
pub mod store;

pub use error::KvError;
pub use index::CommandPos;
pub use segment::LogDir;
pub use store::BitCaskPlus;
