//! The chain synchronisation engine of a blockchain peer, as a state machine:
//! events and what the local node observed go in, the next state and the
//! effects to perform come out.

pub mod accounting;
pub mod blocks;
pub mod engine;
pub mod invariants;
pub mod justifications;
pub mod laws;
pub mod model;
pub mod peers;
pub mod primitives;
pub mod seqs;

pub use engine::{block_status, is_known, ChainSync};
pub use model::{PeerReport, Status, SyncState};
