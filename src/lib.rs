//! Exchange of audio decryption keys over a multiplexed session.
//!
//! The manager correlates key requests with their responses by a sequence
//! id, sends at most one request per (track, file) identity, and hands every
//! waiter of an identity the same outcome.
pub mod laws;
pub mod manager;
pub mod wire;

pub use manager::{AudioKey, AudioKeyError, AudioKeyManager, FileId, SpotifyId};
