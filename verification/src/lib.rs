//! An append-only, log-structured key-value store: the record codec, the
//! key directory and its recovery from the log, and a volatile in-memory
//! counterpart behind the same storage interface.

pub mod clock;
pub mod disk_store;
pub mod format;
pub mod memory_store;
pub mod recovery;
pub mod store;
mod text;
