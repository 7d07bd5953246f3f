//! A small in-memory key/value and list store: wire frames, commands, the
//! sharded keyspace with blocking list pops, and per-connection routing.

pub mod buf;
pub mod cmd;
pub mod connection;
pub mod db;
pub mod error;
pub mod frame;
pub mod laws;
pub mod num;
pub mod parse;
pub mod request;
pub mod server;
pub mod shard;
pub mod timeout;

pub use crate::cmd::Command;
pub use crate::connection::Connection;
pub use crate::db::{AllDbs, Db};
pub use crate::error::Error;
pub use crate::frame::Frame;
pub use crate::parse::Parse;

use vstd::prelude::*;

verus! {

/// Port the server listens on when none is given.
pub const DEFAULT_PORT: u16 = 6379;

} // verus!
