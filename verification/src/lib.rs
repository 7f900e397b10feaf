//! A minimal append-only ledger: a chain of blocks, each bound to its
//! predecessor by a cryptographic digest, produced by a proof-of-work mining
//! step and checkable for tamper-evidence.
//!
//! The chain is single-writer: a surrounding service is expected to hold the
//! one live [`chain::Blockchain`] under an exclusion lock, append under that
//! lock, and hand read-only snapshots to callers. Durable storage is the
//! canonical text of [`codec`]; reading and writing the file itself is the
//! surrounding service's work.

pub mod block;
pub mod chain;
pub mod codec;
pub mod digest;
pub mod text;
