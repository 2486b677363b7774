//! A minimal proof-of-work ledger: content-addressed records, blocks whose
//! identifiers commit to their header, a nonce search that seals a block
//! against a difficulty target, and the decisions of a mining node.

pub mod codec;
pub mod error;
pub mod miner;
pub mod simple_block;
pub mod simple_chain;
pub mod utilities;
