//! The Merkle root: one hash that commits to a list of transactions.

use crate::cbor::{encode, item_bytes, push_item, Item, ItemView};
use crate::sha256::digest_value;
use crate::types::transaction::{number_item, number_to_item, Transaction, TransactionView};
use vstd::prelude::*;

verus! {

/// The hash of two hashes side by side.
pub open spec fn pair_hash(left: nat, right: nat) -> nat {
    digest_value(item_bytes(ItemView::Array(seq![number_item(left), number_item(right)])))
}

/// The layer above `layer`: the hashes of its pairs. Where the layer has an
/// odd length, its last hash is paired with itself.
pub open spec fn fold_layer(layer: Seq<nat>) -> Seq<nat> {
    Seq::new(
        ((layer.len() + 1) / 2) as nat,
        |i: int|
            pair_hash(
                layer[2 * i],
                if 2 * i + 1 < layer.len() {
                    layer[2 * i + 1]
                } else {
                    layer[2 * i]
                },
            ),
    )
}

/// The one hash that is left when a layer is folded again and again.
pub open spec fn fold_to_root(layer: Seq<nat>) -> nat
    decreases layer.len(),
{
    if layer.len() <= 1 {
        layer[0]
    } else {
        fold_to_root(fold_layer(layer))
    }
}

/// The hashes of the transactions, in order.
pub open spec fn transaction_hashes(transactions: Seq<TransactionView>) -> Seq<nat> {
    transactions.map_values(|t: TransactionView| t.hash_value())
}

/// The Merkle root of a list of transactions; an empty list has none.
pub open spec fn merkle_root_value(transactions: Seq<TransactionView>) -> Option<nat> {
    if transactions.len() == 0 {
        None
    } else {
        Some(fold_to_root(transaction_hashes(transactions)))
    }
}

/// The views of a list of transactions.
pub open spec fn transactions_view(transactions: Seq<Transaction>) -> Seq<TransactionView> {
    transactions.map_values(|t: Transaction| t@)
}

/// The root of the hash tree over a list of transactions.
#[derive(Clone, Copy, Debug, PartialEq, Eq, Structural)]
pub struct MerkleRoot(pub crate::sha256::Hash);

impl View for MerkleRoot {
    type V = nat;

    open spec fn view(&self) -> nat {
        self.0@
    }
}

fn hash_pair(left: &crate::sha256::Hash, right: &crate::sha256::Hash) -> (r: crate::sha256::Hash)
    ensures
        r@ == pair_hash(left@, right@),
{
    let mut items: Vec<Item> = Vec::new();
    push_item(&mut items, number_to_item(&left.0));
    push_item(&mut items, number_to_item(&right.0));
    proof {
        assert(crate::cbor::items_view(items@) =~= seq![number_item(left@), number_item(right@)]);
    }
    let bytes = encode(&Item::Array(items));
    match crate::sha256::Hash::hash(bytes.as_slice()) {
        Ok(h) => h,
        Err(_) => crate::sha256::Hash::zero(),
    }
}

/// The numbers of a list of hashes.
pub open spec fn hash_values(hashes: Seq<crate::sha256::Hash>) -> Seq<nat> {
    hashes.map_values(|h: crate::sha256::Hash| h@)
}

impl MerkleRoot {
    /// The Merkle root of the transactions, or `None` where there are none.
    #[verifier::rlimit(30)]
    pub fn calculate(transactions: &[Transaction]) -> (r: Option<MerkleRoot>)
        ensures
            match r {
                Some(root) => merkle_root_value(transactions_view(transactions@)) == Some(root@),
                None => merkle_root_value(transactions_view(transactions@)) is None,
            },
    {
        if transactions.len() == 0 {
            return None;
        }
        let ghost views = transactions_view(transactions@);
        let mut layer: Vec<crate::sha256::Hash> = Vec::new();
        let mut i: usize = 0;
        while i < transactions.len()
            invariant
                i <= transactions.len(),
                views == transactions_view(transactions@),
                hash_values(layer@) == transaction_hashes(views).subrange(0, i as int),
            decreases transactions.len() - i,
        {
            assert(views[i as int] == transactions@[i as int]@);
            let ghost before = layer@;
            match transactions[i].hash() {
                Ok(h) => {
                    layer.push(h);
                    proof {
                        assert(hash_values(layer@) =~= hash_values(before).push(h@));
                        assert(transaction_hashes(views).subrange(0, i + 1)
                            =~= transaction_hashes(views).subrange(0, i as int).push(
                            views[i as int].hash_value(),
                        ));
                    }
                },
                Err(_) => {
                    return None;
                },
            }
            i = i + 1;
        }
        assert(transaction_hashes(views).subrange(0, i as int) =~= transaction_hashes(views));
        while layer.len() > 1
            invariant
                layer@.len() >= 1,
                fold_to_root(hash_values(layer@)) == fold_to_root(transaction_hashes(views)),
            decreases layer@.len(),
        {
            let mut next: Vec<crate::sha256::Hash> = Vec::new();
            let n: usize = layer.len();
            let half: usize = n / 2 + n % 2;
            let mut k: usize = 0;
            while k < half
                invariant
                    n == layer@.len(),
                    n >= 2,
                    half == (n + 1) / 2,
                    k <= half,
                    next@.len() == k,
                    hash_values(next@) == fold_layer(hash_values(layer@)).subrange(0, k as int),
                decreases half - k,
            {
                let j: usize = 2 * k;
                let h = if j + 1 < n {
                    hash_pair(&layer[j], &layer[j + 1])
                } else {
                    hash_pair(&layer[j], &layer[j])
                };
                next.push(h);
                k = k + 1;
                assert(hash_values(next@) =~= fold_layer(hash_values(layer@)).subrange(
                    0,
                    k as int,
                ));
            }
            assert(hash_values(next@) =~= fold_layer(hash_values(layer@)));
            layer = next;
        }
        Some(MerkleRoot(layer[0]))
    }
}

} // verus!
