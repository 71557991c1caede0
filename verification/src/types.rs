//! Transactions, blocks and the chain.

pub mod block;
pub mod blockchain;
pub mod storage;
pub mod transaction;
pub mod utxo;

pub use block::{Block, BlockHeader};
pub use blockchain::Blockchain;
pub use transaction::{Transaction, TransactionInput, TransactionOutput};
pub use utxo::UtxoSet;
