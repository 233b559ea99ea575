//! A persistent, log-structured key-value store with a leader/follower
//! request protocol.
//!
//! The storage engine keeps an ordered index in memory and describes every
//! mutation as a checksummed, compressed record of an append-only log; the
//! index is rebuilt by replaying that log. The caller owns the file: the
//! engine hands it the bytes to append or the whole compacted log, and
//! updates the index once the bytes are durable.

mod encoding;
mod order;
mod model;
mod command;
mod store;
mod record;
mod recovery;
mod protocol;
mod server;

pub use encoding::{decode_u32_le, decode_u64_le, encode_u32_le, encode_u64_le};
pub use order::compare_keys;
pub use command::{Command, decode_command, encode_command};
pub use store::{KvStore, StoreError};
pub use record::{HEADER_LEN, encode_record, frame_record, read_record};
pub use protocol::{Request, Response, ServerRole, replication_request};
pub use server::{Action, commit, plan};
