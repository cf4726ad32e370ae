//! A store-and-forward encrypted mailbox: the pairwise key ledger, the
//! planning of encrypted envelopes, chunk reassembly on decryption, the
//! recipient-indexed mailbox store and the epoch rotation of its partitions.
//!
//! Cryptography, signing and durable storage belong to the host substrate;
//! this crate holds the decisions around them, each with a proved contract.

pub mod bytes;
pub mod chunk;
pub mod decryption;
pub mod encryption;
pub mod epoch;
pub mod ledger;
pub mod mailbox;
pub mod reassembly;
pub mod retry;
pub mod rotation;

