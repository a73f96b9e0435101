//! A replicated, append-only ledger of transactions, gated by proof-of-work.
//!
//! The crate holds the ledger engine (blocks, chains, mining, validity,
//! balances), the canonical byte codec used both for hashing and for the
//! persistence and gossip formats, the command dispatcher's transition
//! function, and the propagation layer's peer-tracking state machine.
//! Transport, file I/O and the interactive shell live outside the library.
//!
//! Persisted images and gossip payloads use one canonical length-prefixed
//! binary encoding rather than a textual one; what matters of the format —
//! that decoding an encoding gives the value back, and that unknown tags,
//! trailing bytes and malformed payloads are rejected — is proved.

pub mod codec;
pub mod dispatch;
pub mod hashing;
pub mod ledger;
pub mod node;
pub mod numeral;
pub mod persist;
pub mod types;
pub mod wire;
