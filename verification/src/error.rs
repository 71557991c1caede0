//! The ways in which a block or a transaction can be refused.

use vstd::prelude::*;

verus! {

/// Why the chain refused a block or a transaction.
#[derive(Clone, Copy, Debug, PartialEq, Eq, Structural)]
pub enum BtcError {
    InvalidBlock,
    InvalidTransaction,
    InvalidHash,
    InvalidMerkleRoot,
    InvalidSignature,
}

impl BtcError {
    /// What went wrong, in words.
    pub fn message(&self) -> (r: &'static str)
        ensures
            r@ == match self {
                BtcError::InvalidBlock => "invalid block"@,
                BtcError::InvalidTransaction => "invalid transaction"@,
                BtcError::InvalidHash => "invalid hash"@,
                BtcError::InvalidMerkleRoot => "invalid merkle root"@,
                BtcError::InvalidSignature => "invalid signature"@,
            },
    {
        match self {
            BtcError::InvalidBlock => "invalid block",
            BtcError::InvalidTransaction => "invalid transaction",
            BtcError::InvalidHash => "invalid hash",
            BtcError::InvalidMerkleRoot => "invalid merkle root",
            BtcError::InvalidSignature => "invalid signature",
        }
    }
}

} // verus!
