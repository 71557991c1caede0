//! A proof-of-work ledger: blocks of signed transactions chained by hash,
//! an index of unspent outputs, a pool of pending transactions and the
//! rule that retargets the mining difficulty.

pub mod bytes;
pub mod cbor;
pub mod crypto;
pub mod error;
pub mod miner;
pub mod network;
pub mod node;
pub mod seqs;
pub mod sha256;
pub mod time;
pub mod types;
pub mod u256;
pub mod util;

use crate::u256::U256;
use vstd::prelude::*;

verus! {

/// The easiest target there is, 2^240 - 1: the top 16 bits clear, every
/// lower bit set.
pub open spec fn min_target_value() -> nat {
    0xFFFF_FFFF_FFFF_FFFF_FFFF_FFFF_FFFF_FFFF_FFFF_FFFF_FFFF_FFFF_FFFF_FFFF_FFFFnat
}

/// The easiest target there is. No chain ever has a target above it.
pub fn min_target() -> (r: U256)
    ensures
        r@ == min_target_value(),
{
    U256 {
        w0: 0xFFFF_FFFF_FFFF_FFFF,
        w1: 0xFFFF_FFFF_FFFF_FFFF,
        w2: 0xFFFF_FFFF_FFFF_FFFF,
        w3: 0x0000_FFFF_FFFF_FFFF,
    }
}

/// Mining reward of the first blocks, in whole coins.
pub const INITIAL_REWARD: u64 = 50;

/// Number of blocks after which the reward halves.
pub const HALVING_INTERVAL: u64 = 210;

/// Seconds that one block should take to mine.
pub const IDEAL_BLOCK_TIME: u64 = 10;

/// Number of blocks between two adjustments of the target.
pub const DIFFICULTY_UPDATE_INTERVAL: u64 = 50;

/// Seconds after which a pending transaction is dropped.
pub const MAX_MEMPOOL_TRANSACTION_AGE: u64 = 600;

} // verus!
