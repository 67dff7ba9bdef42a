//! The encoding of the tables' rows.

pub mod checkpoints;
pub mod tx_seq_digest;
