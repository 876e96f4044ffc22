//! A sharded in-memory key-value store: keys are routed to a fixed number
//! of independent shards by a deterministic hash, so that operations on
//! keys in different shards never touch the same shard.

pub mod conch;
pub mod key;

pub use conch::Conch;
pub use key::ShardKey;
