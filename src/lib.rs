//! Update-sequencing core of a Telegram client: per-stream `pts` bookkeeping,
//! gap detection and recovery through difference requests, the peer access-hash
//! table, and the bounded queue that hands ordered updates to consumers.

pub mod client;
pub mod codegen;
pub mod hashes;
pub mod laws;
pub mod message_box;
pub mod queue;
pub mod retry;
pub mod types;
