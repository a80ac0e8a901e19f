//! A minimal single-node ledger: an append-only, hash-linked chain of
//! proof-of-work blocks holding transactions in an unspent-output model.

pub mod errors;
pub mod hashing;
pub mod codec;
pub mod transaction;
pub mod block;
pub mod proof_of_work;
pub mod store;
pub mod blockchain;
pub mod utxo;

pub use block::Block;
pub use blockchain::Blockchain;
pub use errors::ChainError;
