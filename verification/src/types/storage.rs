//! The form in which a chain is stored: its unspent outputs, its target and
//! its blocks. Pending transactions are not stored.

use crate::cbor::{
    all_read, decode, encode, item_bytes, item_fits, items_view, lemma_all_read,
    lemma_fits_deeper, lemma_key, lemma_round_trip, pairs_view, parse, push_entry, push_item,
    text_item, Item, ItemView, MAX_DEPTH,
};
use crate::min_target_value;
use crate::types::block::{Block, BlockView};
use crate::types::blockchain::{blocks_view, Blockchain};
use crate::types::transaction::{
    item_number, lemma_number_item, number_from_item, number_item, number_to_item,
    TransactionOutput, TransactionOutputView,
};
use crate::types::utxo::UtxoSet;
use crate::u256::modulus;
use vstd::prelude::*;

verus! {

/// A list of unspent outputs, each with its hash and its mark.
pub type Listing = Seq<(nat, bool, TransactionOutputView)>;

/// The key and the value under which an unspent output is stored.
pub open spec fn utxo_entry(e: (nat, bool, TransactionOutputView)) -> (ItemView, ItemView) {
    (number_item(e.0), ItemView::Array(seq![ItemView::Bool(e.1), e.2.item()]))
}

/// The item of a chain.
pub open spec fn chain_item(listing: Listing, target: nat, blocks: Seq<BlockView>) -> ItemView {
    ItemView::Pairs(
        seq![
            (
                text_item("utxos"),
                ItemView::Pairs(
                    listing.map_values(|e: (nat, bool, TransactionOutputView)| utxo_entry(e)),
                ),
            ),
            (text_item("target"), number_item(target)),
            (text_item("blocks"), ItemView::Array(blocks.map_values(|b: BlockView| b.item()))),
        ],
    )
}

/// The unspent output that a key and a value stand for.
pub open spec fn entry_utxo(entry: (ItemView, ItemView)) -> Option<
    (nat, bool, TransactionOutputView),
> {
    match entry.1 {
        ItemView::Array(v) => if item_number(entry.0) is Some && v.len() == 2 && v[0] is Bool
            && TransactionOutputView::from_item(v[1]) is Some {
            Some(
                (
                    item_number(entry.0)->Some_0,
                    v[0]->Bool_0,
                    TransactionOutputView::from_item(v[1])->Some_0,
                ),
            )
        } else {
            None
        },
        _ => None,
    }
}

/// The unspent outputs that entries stand for, where every entry stands for
/// one.
pub open spec fn entries_utxos(entries: Seq<(ItemView, ItemView)>) -> Option<Listing> {
    if forall|i: int| 0 <= i < entries.len() ==> entry_utxo(#[trigger] entries[i]) is Some {
        Some(Seq::new(entries.len(), |i: int| entry_utxo(entries[i])->Some_0))
    } else {
        None
    }
}

/// Whether no two outputs of a listing have the same hash.
pub open spec fn distinct_hashes(listing: Listing) -> bool {
    forall|i: int, j: int|
        0 <= i < j < listing.len() ==> (#[trigger] listing[i]).0 != (#[trigger] listing[j]).0
}

/// What an item is read as, as a block.
pub open spec fn read_block() -> spec_fn(ItemView) -> Option<BlockView> {
    |item: ItemView| BlockView::from_item(item)
}

/// The unspent outputs, the target and the blocks that an item stands for.
pub open spec fn chain_from_item(item: ItemView) -> Option<(Listing, nat, Seq<BlockView>)> {
    match item {
        ItemView::Pairs(e) => if e.len() == 3 && e[0].0 == text_item("utxos") && e[0].1 is Pairs
            && entries_utxos(e[0].1->Pairs_0) is Some && distinct_hashes(
            entries_utxos(e[0].1->Pairs_0)->Some_0,
        ) && e[1].0 == text_item("target") && item_number(e[1].1) is Some && item_number(
            e[1].1,
        )->Some_0 <= min_target_value() && e[2].0 == text_item("blocks") && e[2].1 is Array
            && all_read(e[2].1->Array_0, read_block()) is Some {
            Some(
                (
                    entries_utxos(e[0].1->Pairs_0)->Some_0,
                    item_number(e[1].1)->Some_0,
                    all_read(e[2].1->Array_0, read_block())->Some_0,
                ),
            )
        } else {
            None
        },
        _ => None,
    }
}

/// The bytes in which a chain is stored.
pub open spec fn chain_encoding(listing: Listing, target: nat, blocks: Seq<BlockView>) -> Seq<u8> {
    item_bytes(chain_item(listing, target, blocks))
}

/// The unspent outputs, the target and the blocks that bytes are the stored
/// form of.
pub open spec fn chain_decoding(bytes: Seq<u8>) -> Option<(Listing, nat, Seq<BlockView>)> {
    match parse(bytes) {
        Some(item) => chain_from_item(item),
        None => None,
    }
}

/// What holds of the parts of every chain.
pub open spec fn chain_parts_wf(listing: Listing, target: nat, blocks: Seq<BlockView>) -> bool {
    &&& listing.len() <= usize::MAX
    &&& distinct_hashes(listing)
    &&& forall|i: int|
        0 <= i < listing.len() ==> (#[trigger] listing[i]).0 < modulus() && listing[i].2.wf()
    &&& target <= min_target_value()
    &&& blocks.len() <= usize::MAX
    &&& forall|i: int| 0 <= i < blocks.len() ==> (#[trigger] blocks[i]).wf()
}

proof fn lemma_utxo_entries(listing: Listing)
    requires
        listing.len() <= usize::MAX,
        forall|i: int|
            0 <= i < listing.len() ==> (#[trigger] listing[i]).0 < modulus() && listing[i].2.wf(),
    ensures
        entries_utxos(listing.map_values(|e: (nat, bool, TransactionOutputView)| utxo_entry(e)))
            == Some(listing),
        item_fits(
            ItemView::Pairs(
                listing.map_values(|e: (nat, bool, TransactionOutputView)| utxo_entry(e)),
            ),
            4,
        ),
{
    let entries = listing.map_values(|e: (nat, bool, TransactionOutputView)| utxo_entry(e));
    assert forall|i: int| 0 <= i < entries.len() implies entry_utxo(#[trigger] entries[i]) == Some(
        listing[i],
    ) && item_fits(entries[i].0, 3) && item_fits(entries[i].1, 3) by {
        assert(entries[i] == utxo_entry(listing[i]));
        lemma_number_item(listing[i].0);
        listing[i].2.lemma_item();
        lemma_fits_deeper(entries[i].0, 1, 3);
        let pair = entries[i].1->Array_0;
        assert forall|k: int| 0 <= k < pair.len() implies item_fits(#[trigger] pair[k], 2) by {
            assert(pair[0] is Bool);
        }
    }
    assert(Seq::new(entries.len(), |i: int| entry_utxo(entries[i])->Some_0) =~= listing);
}

/// The parts of a chain are read back from its item.
#[verifier::rlimit(30)]
pub proof fn lemma_chain_item(listing: Listing, target: nat, blocks: Seq<BlockView>)
    requires
        chain_parts_wf(listing, target, blocks),
    ensures
        chain_from_item(chain_item(listing, target, blocks)) == Some((listing, target, blocks)),
        item_fits(chain_item(listing, target, blocks), 8),
{
    let item = chain_item(listing, target, blocks);
    let e = item->Pairs_0;
    lemma_utxo_entries(listing);
    assert(min_target_value() < modulus());
    lemma_number_item(target);
    let write = |b: BlockView| b.item();
    let items = blocks.map_values(write);
    assert forall|i: int| 0 <= i < blocks.len() implies read_block()(write(#[trigger] blocks[i]))
        == Some(blocks[i]) by {
        blocks[i].lemma_item();
    }
    lemma_all_read(blocks, write, read_block());
    assert forall|i: int| 0 <= i < items.len() implies item_fits(#[trigger] items[i], 6) by {
        blocks[i].lemma_item();
    }
    assert(e[2].1 == ItemView::Array(items));
    assert(item_fits(e[2].1, 7));
    lemma_fits_deeper(e[0].1, 4, 7);
    lemma_fits_deeper(e[1].1, 1, 7);
    reveal_strlit("utxos");
    reveal_strlit("target");
    reveal_strlit("blocks");
    lemma_key("utxos");
    lemma_key("target");
    lemma_key("blocks");
    assert forall|i: int| 0 <= i < e.len() implies item_fits((#[trigger] e[i]).0, 7) && item_fits(
        e[i].1,
        7,
    ) by {
        lemma_fits_deeper(e[i].0, 0, 7);
    }
}

/// Reading the stored form of a chain gives its unspent outputs, its target
/// and its blocks.
pub proof fn lemma_chain_round_trip(listing: Listing, target: nat, blocks: Seq<BlockView>)
    requires
        chain_parts_wf(listing, target, blocks),
    ensures
        chain_decoding(chain_encoding(listing, target, blocks)) == Some((listing, target, blocks)),
{
    lemma_chain_item(listing, target, blocks);
    lemma_fits_deeper(chain_item(listing, target, blocks), 8, MAX_DEPTH as nat);
    lemma_round_trip(chain_item(listing, target, blocks));
}

/// The blocks that items stand for.
fn blocks_from_items(items: &Vec<Item>) -> (r: Option<Vec<Block>>)
    ensures
        match r {
            Some(blocks) => all_read(items_view(items@), read_block()) == Some(
                blocks_view(blocks@),
            ),
            None => all_read(items_view(items@), read_block()) is None,
        },
{
    let ghost views = items_view(items@);
    let mut blocks: Vec<Block> = Vec::new();
    let mut i: usize = 0;
    while i < items.len()
        invariant
            i <= items.len(),
            views == items_view(items@),
            blocks@.len() == i,
            forall|k: int| 0 <= k < i ==> read_block()(#[trigger] views[k]) == Some(blocks@[k]@),
        decreases items.len() - i,
    {
        assert(views[i as int] == items@[i as int]@);
        match Block::from_item(&items[i]) {
            Some(b) => {
                blocks.push(b);
            },
            None => {
                assert(read_block()(views[i as int]) is None);
                return None;
            },
        }
        i = i + 1;
    }
    assert(blocks_view(blocks@) =~= all_read(views, read_block())->Some_0);
    Some(blocks)
}

/// The unspent output that a key and a value stand for.
fn utxo_from_entry(key: &Item, value: &Item) -> (r: Option<
    (crate::sha256::Hash, bool, TransactionOutput),
>)
    ensures
        match r {
            Some((hash, reserved, output)) => entry_utxo((key@, value@)) == Some(
                (hash@, reserved, output@),
            ),
            None => entry_utxo((key@, value@)) is None,
        },
{
    match value {
        Item::Array(pair) => {
            if pair.len() != 2 {
                return None;
            }
            let ghost p = items_view(pair@);
            assert(p[0] == pair@[0]@ && p[1] == pair@[1]@);
            let hash = match number_from_item(key) {
                Some(n) => crate::sha256::Hash(n),
                None => {
                    return None;
                },
            };
            let reserved = match &pair[0] {
                Item::Bool(b) => *b,
                _ => {
                    return None;
                },
            };
            match TransactionOutput::from_item(&pair[1]) {
                Some(output) => Some((hash, reserved, output)),
                None => None,
            }
        },
        _ => None,
    }
}

/// The unspent outputs that entries stand for.
#[verifier::rlimit(30)]
fn utxos_from_entries(entries: &Vec<(Item, Item)>) -> (r: Option<UtxoSet>)
    ensures
        match r {
            Some(utxos) => utxos.wf() && entries_utxos(pairs_view(entries@)) == Some(
                utxos.listing(),
            ) && distinct_hashes(utxos.listing()),
            None => entries_utxos(pairs_view(entries@)) is None || !distinct_hashes(
                entries_utxos(pairs_view(entries@))->Some_0,
            ),
        },
{
    let ghost views = pairs_view(entries@);
    let mut utxos = UtxoSet::new();
    let mut i: usize = 0;
    while i < entries.len()
        invariant
            i <= entries.len(),
            views == pairs_view(entries@),
            utxos.listing().len() == i,
            forall|k: int| 0 <= k < i ==> entry_utxo(#[trigger] views[k]) == Some(utxos.listing()[k]),
        decreases entries.len() - i,
    {
        assert(views[i as int] == (entries@[i as int].0@, entries@[i as int].1@));
        proof {
            use_type_invariant(&utxos);
            utxos.lemma_listing();
        }
        match utxo_from_entry(&entries[i].0, &entries[i].1) {
            Some((hash, reserved, output)) => {
                if utxos.contains_key(&hash) {
                    proof {
                        if entries_utxos(views) is Some {
                            let whole = entries_utxos(views)->Some_0;
                            let k = choose|k: int|
                                0 <= k < utxos.listing().len() && (#[trigger] utxos.listing()[k]).0
                                    == hash@;
                            assert(whole[k] == entry_utxo(views[k])->Some_0);
                            assert(whole[i as int] == entry_utxo(views[i as int])->Some_0);
                            assert(whole[k].0 == whole[i as int].0);
                        }
                    }
                    return None;
                }
                utxos.insert(hash, reserved, output);
            },
            None => {
                return None;
            },
        }
        i = i + 1;
    }
    proof {
        use_type_invariant(&utxos);
        utxos.lemma_listing();
        assert(utxos.listing() =~= entries_utxos(views)->Some_0);
    }
    Some(utxos)
}

impl Blockchain {
    /// The item in which the chain is stored.
    #[verifier::rlimit(30)]
    pub fn to_item(&self) -> (r: Item)
        ensures
            r@ == chain_item(self.utxo_listing(), self@.target, self@.blocks),
    {
        let utxos = self.utxos();
        let ghost listing = utxos.listing();
        let ghost wanted = listing.map_values(|e: (nat, bool, TransactionOutputView)| utxo_entry(e));
        let n: usize = utxos.len();
        let mut entries: Vec<(Item, Item)> = Vec::new();
        let mut i: usize = 0;
        assert(pairs_view(entries@) =~= wanted.subrange(0, 0));
        while i < n
            invariant
                i <= n,
                n == listing.len(),
                listing == utxos.listing(),
                wanted == listing.map_values(|e: (nat, bool, TransactionOutputView)| utxo_entry(e)),
                pairs_view(entries@) == wanted.subrange(0, i as int),
            decreases n - i,
        {
            let (hash, reserved, output) = utxos.entry(i);
            let mut pair: Vec<Item> = Vec::new();
            push_item(&mut pair, Item::Bool(reserved));
            push_item(&mut pair, output.to_item());
            proof {
                assert(items_view(pair@) =~= seq![ItemView::Bool(reserved), output@.item()]);
            }
            let ghost before = entries@;
            entries.push((number_to_item(&hash.0), Item::Array(pair)));
            proof {
                assert(pairs_view(entries@) =~= pairs_view(before).push(utxo_entry(listing[i as int])));
                assert(wanted.subrange(0, i + 1) =~= wanted.subrange(0, i as int).push(
                    wanted[i as int],
                ));
            }
            i = i + 1;
        }
        assert(wanted.subrange(0, n as int) =~= wanted);
        let blocks = self.blocks();
        let ghost block_views = blocks_view(blocks@);
        let ghost wanted_blocks = block_views.map_values(|b: BlockView| b.item());
        let mut items: Vec<Item> = Vec::new();
        let mut j: usize = 0;
        assert(items_view(items@) =~= wanted_blocks.subrange(0, 0));
        while j < blocks.len()
            invariant
                j <= blocks.len(),
                block_views == blocks_view(blocks@),
                wanted_blocks == block_views.map_values(|b: BlockView| b.item()),
                items_view(items@) == wanted_blocks.subrange(0, j as int),
            decreases blocks.len() - j,
        {
            proof {
                assert(block_views[j as int] == blocks@[j as int]@);
            }
            push_item(&mut items, blocks[j].to_item());
            j = j + 1;
            assert(items_view(items@) =~= wanted_blocks.subrange(0, j as int));
        }
        assert(wanted_blocks.subrange(0, blocks.len() as int) =~= wanted_blocks);
        let target = self.target();
        let mut fields: Vec<(Item, Item)> = Vec::new();
        push_entry(&mut fields, "utxos", Item::Pairs(entries));
        push_entry(&mut fields, "target", number_to_item(&target));
        push_entry(&mut fields, "blocks", Item::Array(items));
        proof {
            assert(pairs_view(fields@) =~= chain_item(
                self.utxo_listing(),
                self@.target,
                self@.blocks,
            )->Pairs_0);
        }
        Item::Pairs(fields)
    }

    /// The chain that an item stands for; it has no pending transactions.
    #[verifier::rlimit(30)]
    pub fn from_item(item: &Item) -> (r: Option<Blockchain>)
        ensures
            match r {
                Some(chain) => chain_from_item(item@) == Some(
                    (chain.utxo_listing(), chain@.target, chain@.blocks),
                ) && chain@.mempool == Seq::<
                    (int, crate::types::transaction::TransactionView),
                >::empty() && chain@.utxos == UtxoSet::map_of(chain.utxo_listing()),
                None => chain_from_item(item@) is None,
            },
    {
        match item {
            Item::Pairs(fields) => {
                if fields.len() != 3 {
                    return None;
                }
                let ghost e = pairs_view(fields@);
                assert(e[0] == (fields@[0].0@, fields@[0].1@));
                assert(e[1] == (fields@[1].0@, fields@[1].1@));
                assert(e[2] == (fields@[2].0@, fields@[2].1@));
                if !fields[0].0.is_text("utxos") || !fields[1].0.is_text("target")
                    || !fields[2].0.is_text("blocks") {
                    return None;
                }
                let utxos = match &fields[0].1 {
                    Item::Pairs(entries) => match utxos_from_entries(entries) {
                        Some(utxos) => utxos,
                        None => {
                            return None;
                        },
                    },
                    _ => {
                        return None;
                    },
                };
                let target = match number_from_item(&fields[1].1) {
                    Some(n) => n,
                    None => {
                        return None;
                    },
                };
                let blocks = match &fields[2].1 {
                    Item::Array(items) => match blocks_from_items(items) {
                        Some(blocks) => blocks,
                        None => {
                            return None;
                        },
                    },
                    _ => {
                        return None;
                    },
                };
                proof {
                    utxos.lemma_map_of();
                }
                Blockchain::from_parts(utxos, target, blocks)
            },
            _ => None,
        }
    }

    /// The bytes in which the chain is stored. Pending transactions are not
    /// stored.
    pub fn encode(&self) -> (r: Vec<u8>)
        ensures
            r@ == chain_encoding(self.utxo_listing(), self@.target, self@.blocks),
    {
        encode(&self.to_item())
    }

    /// The chain that bytes are the stored form of.
    pub fn decode(bytes: &[u8]) -> (r: Option<Blockchain>)
        ensures
            match r {
                Some(chain) => chain_decoding(bytes@) == Some(
                    (chain.utxo_listing(), chain@.target, chain@.blocks),
                ) && chain@.mempool == Seq::<
                    (int, crate::types::transaction::TransactionView),
                >::empty() && chain@.utxos == UtxoSet::map_of(chain.utxo_listing()),
                None => chain_decoding(bytes@) is None,
            },
    {
        match decode(bytes) {
            Some(item) => Self::from_item(&item),
            None => None,
        }
    }
}

} // verus!
