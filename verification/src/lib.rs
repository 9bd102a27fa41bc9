//! A minimal in-memory key-value server core: the RESP-style wire codec,
//! the command dispatcher, and the expiring key-value store.

pub mod value;
pub mod codec;
pub mod store;
pub mod dispatch;
pub mod server;

pub use value::Value;
pub use value::ValueModel;
pub use codec::Decoded;
pub use codec::decode;
pub use codec::encode;
pub use codec::int_bytes;
pub use codec::parse_i64_bytes;
pub use store::Entry;
pub use store::MemoryDb;
pub use store::bytes_eq;
pub use dispatch::CmdError;
pub use dispatch::dispatch;
pub use dispatch::extract_command;
pub use dispatch::handle_get;
pub use dispatch::handle_incr;
pub use dispatch::handle_set;
pub use dispatch::unpack_bulk_str;
pub use server::Server;
