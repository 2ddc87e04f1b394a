//! A durable key-value store: an in-memory index rebuilt from, and kept in
//! step with, an append-only log of commands.

pub mod codec;
pub mod command;
pub mod error;
pub mod index;
pub mod laws;
pub mod log;
pub mod msg;
pub mod server;
pub mod store;

pub use command::Command;
pub use error::KvsError;
pub use index::Index;
pub use msg::{Request, Response};
pub use store::KvStore;
