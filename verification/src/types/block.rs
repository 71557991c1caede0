//! Blocks: a header that is mined, and the transactions it commits to.

use crate::cbor::{
    all_read, decode, encode, item_bytes, item_fits, items_view, lemma_all_read,
    lemma_fits_deeper, lemma_key, lemma_round_trip, pairs_view, parse, push_entry, push_item,
    text_item, Item, ItemView, MAX_DEPTH,
};
use crate::error::BtcError;
use crate::sha256::digest_value;
use crate::time::{instant_text, lemma_text_instant, text_instant, valid_instant, Timestamp};
use crate::crypto::ecdsa_accepts;
use crate::seqs::{joined, lemma_joined_prefix, lemma_push_no_duplicates};
use crate::sha256::hash_bytes;
use crate::types::transaction::{
    item_number, lemma_number_item, number_from_item, number_item, number_to_item, output_total,
    outputs_view, Transaction, TransactionInputView, TransactionOutput, TransactionOutputView,
    TransactionView,
};
use crate::u256::modulus;
use crate::types::utxo::UtxoSet;
use crate::util::hash_values;
use crate::u256::U256;
use crate::util::{transactions_view, MerkleRoot};
use vstd::prelude::*;

verus! {

/// What a miner varies and what it commits to.
#[derive(Clone, Copy, Debug)]
pub struct BlockHeader {
    /// When the block was made.
    pub timestamp: Timestamp,
    /// The number that is varied until the hash meets the target.
    pub nonce: u64,
    /// The hash of the block before this one; zero for the first block.
    pub prev_block_hash: crate::sha256::Hash,
    /// The Merkle root of the block's transactions.
    pub merkle_root: MerkleRoot,
    /// The number that the header's hash may not exceed.
    pub target: U256,
}

pub struct BlockHeaderView {
    /// Nanoseconds since the Unix epoch.
    pub timestamp: int,
    pub nonce: u64,
    pub prev_block_hash: nat,
    pub merkle_root: nat,
    pub target: nat,
}

impl View for BlockHeader {
    type V = BlockHeaderView;

    open spec fn view(&self) -> BlockHeaderView {
        BlockHeaderView {
            timestamp: self.timestamp@,
            nonce: self.nonce,
            prev_block_hash: self.prev_block_hash@,
            merkle_root: self.merkle_root@,
            target: self.target@,
        }
    }
}

impl BlockHeaderView {
    pub open spec fn item(self) -> ItemView {
        ItemView::Pairs(
            seq![
                (text_item("timestamp"), ItemView::Text(instant_text(self.timestamp))),
                (text_item("nonce"), ItemView::Unsigned(self.nonce)),
                (text_item("prev_block_hash"), number_item(self.prev_block_hash)),
                (text_item("merkle_root"), number_item(self.merkle_root)),
                (text_item("target"), number_item(self.target)),
            ],
        )
    }

    /// The bytes in which the header is stored and hashed.
    pub open spec fn encoding(self) -> Seq<u8> {
        item_bytes(self.item())
    }

    /// The hash of the header.
    pub open spec fn hash_value(self) -> nat {
        digest_value(self.encoding())
    }

    /// Whether the header's hash meets the header's target.
    pub open spec fn solved(self) -> bool {
        self.hash_value() <= self.target
    }

    /// The header that is tried after this one: the next nonce or, after the
    /// last nonce, nonce zero at the instant `now`.
    pub open spec fn advance(self, now: int) -> BlockHeaderView {
        if self.nonce < u64::MAX {
            BlockHeaderView { nonce: (self.nonce + 1) as u64, ..self }
        } else {
            BlockHeaderView { nonce: 0, timestamp: now, ..self }
        }
    }
}

/// Where a search of at most `steps` headers from `header` on ends, and
/// whether it ends at a solved header. `now` is the instant that the
/// timestamp takes when the nonces run out.
pub open spec fn search(header: BlockHeaderView, steps: nat, now: int) -> (BlockHeaderView, bool)
    decreases steps,
{
    if steps == 0 {
        (header, false)
    } else if header.solved() {
        (header, true)
    } else {
        search(header.advance(now), (steps - 1) as nat, now)
    }
}

/// A search that does not reach the last nonce never looks at `now`.
pub proof fn lemma_search_before_wrap(header: BlockHeaderView, steps: nat, now1: int, now2: int)
    requires
        header.nonce + steps <= u64::MAX,
    ensures
        search(header, steps, now1) == search(header, steps, now2),
    decreases steps,
{
    if steps > 0 && !header.solved() {
        lemma_search_before_wrap(header.advance(now1), (steps - 1) as nat, now1, now2);
    }
}

/// A search of `a + b` steps is one of `a` steps and, where that finds
/// nothing, one of `b` steps from where it ended.
pub proof fn lemma_search_split(header: BlockHeaderView, a: nat, b: nat, now: int)
    ensures
        search(header, a + b, now) == if search(header, a, now).1 {
            search(header, a, now)
        } else {
            search(search(header, a, now).0, b, now)
        },
    decreases a,
{
    if a > 0 && !header.solved() {
        lemma_search_split(header.advance(now), (a - 1) as nat, b, now);
    }
}

impl BlockHeader {
    pub fn new(
        timestamp: Timestamp,
        nonce: u64,
        prev_block_hash: crate::sha256::Hash,
        merkle_root: MerkleRoot,
        target: U256,
    ) -> (r: Self)
        ensures
            r.timestamp == timestamp,
            r.nonce == nonce,
            r.prev_block_hash == prev_block_hash,
            r.merkle_root == merkle_root,
            r.target == target,
    {
        Self { timestamp, nonce, prev_block_hash, merkle_root, target }
    }

    pub fn to_item(&self) -> (r: Item)
        ensures
            r@ == self@.item(),
    {
        let mut entries: Vec<(Item, Item)> = Vec::new();
        push_entry(&mut entries, "timestamp", Item::Text(self.timestamp.text()));
        push_entry(&mut entries, "nonce", Item::Unsigned(self.nonce));
        push_entry(&mut entries, "prev_block_hash", number_to_item(&self.prev_block_hash.0));
        push_entry(&mut entries, "merkle_root", number_to_item(&self.merkle_root.0.0));
        push_entry(&mut entries, "target", number_to_item(&self.target));
        proof {
            assert(crate::cbor::pairs_view(entries@) =~= self@.item()->Pairs_0);
        }
        Item::Pairs(entries)
    }

    /// The hash of the header.
    pub fn hash(&self) -> (r: Result<crate::sha256::Hash, BtcError>)
        ensures
            r is Ok,
            r->Ok_0@ == self@.hash_value(),
    {
        let bytes = encode(&self.to_item());
        crate::sha256::Hash::hash(bytes.as_slice())
    }

    /// Tries at most `steps` headers, this one first, and stops at the first
    /// whose hash meets the target. After the last nonce the search goes on
    /// from nonce zero with `now` for the timestamp.
    pub fn mine_at(&mut self, steps: usize, now: Timestamp) -> (r: Result<bool, BtcError>)
        ensures
            r is Ok,
            (final(self)@, r->Ok_0) == search(old(self)@, steps as nat, now@),
    {
        let ghost start = self@;
        let mut i: usize = 0;
        while i < steps
            invariant
                i <= steps,
                start == old(self)@,
                search(start, steps as nat, now@) == search(self@, (steps - i) as nat, now@),
            decreases steps - i,
        {
            match self.hash() {
                Ok(h) => {
                    if h.matches_target(self.target) {
                        return Ok(true);
                    }
                },
                Err(e) => {
                    return Err(e);
                },
            }
            if self.nonce < u64::MAX {
                self.nonce = self.nonce + 1;
            } else {
                self.nonce = 0;
                self.timestamp = now;
            }
            i = i + 1;
        }
        Ok(false)
    }

    /// Tries at most `steps` headers, this one first, and stops at the first
    /// whose hash meets the target. After the last nonce the search goes on
    /// from nonce zero with the timestamp set to the time of day; where the
    /// clock shows no instant that a timestamp can hold, it ends unsolved at
    /// the last nonce.
    #[verifier::rlimit(30)]
    pub fn mine(&mut self, steps: usize) -> (r: Result<bool, BtcError>)
        ensures
            r is Ok,
            (exists|now: Timestamp|
                now.wf() && (final(self)@, r->Ok_0) == #[trigger] search(
                    old(self)@,
                    steps as nat,
                    now@,
                )) || (old(self)@.nonce + steps > u64::MAX && r == Ok::<bool, BtcError>(false) && (
            final(self)@,
            false,
        ) == search(
                old(self)@,
                (u64::MAX - old(self)@.nonce) as nat,
                old(self)@.timestamp,
            )),
    {
        let ghost start = self@;
        let before = self.timestamp;
        proof {
            use_type_invariant(before);
        }
        let room: u64 = u64::MAX - self.nonce;
        let first: usize = if steps as u64 <= room {
            steps
        } else {
            room as usize
        };
        let found = self.mine_at(first, before)?;
        proof {
            lemma_search_split(start, first as nat, (steps - first) as nat, before@);
        }
        if found || first == steps {
            proof {
                assert(before.wf());
                assert((self@, found) == search(start, steps as nat, before@));
            }
            return Ok(found);
        }
        let now = match Timestamp::now() {
            Some(now) => now,
            None => {
                return Ok(false);
            },
        };
        let r = self.mine_at(steps - first, now);
        proof {
            lemma_search_before_wrap(start, first as nat, before@, now@);
            lemma_search_split(start, first as nat, (steps - first) as nat, now@);
            assert((self@, r->Ok_0) == search(start, steps as nat, now@));
        }
        r
    }
}

/// A header with the transactions that its Merkle root commits to.
#[derive(Debug)]
pub struct Block {
    pub header: BlockHeader,
    pub transactions: Vec<Transaction>,
}

pub struct BlockView {
    pub header: BlockHeaderView,
    pub transactions: Seq<TransactionView>,
}

impl View for Block {
    type V = BlockView;

    open spec fn view(&self) -> BlockView {
        BlockView { header: self.header@, transactions: transactions_view(self.transactions@) }
    }
}

impl BlockView {
    pub open spec fn item(self) -> ItemView {
        ItemView::Pairs(
            seq![
                (text_item("header"), self.header.item()),
                (
                    text_item("transactions"),
                    ItemView::Array(self.transactions.map_values(|t: TransactionView| t.item())),
                ),
            ],
        )
    }

    /// The bytes in which the block is stored and hashed.
    pub open spec fn encoding(self) -> Seq<u8> {
        item_bytes(self.item())
    }

    /// The hash of the block.
    pub open spec fn hash_value(self) -> nat {
        digest_value(self.encoding())
    }
}

/// A copy of the transactions.
pub fn clone_transactions(transactions: &Vec<Transaction>) -> (r: Vec<Transaction>)
    ensures
        transactions_view(r@) == transactions_view(transactions@),
{
    let mut out: Vec<Transaction> = Vec::new();
    let mut i: usize = 0;
    while i < transactions.len()
        invariant
            i <= transactions.len(),
            out@.len() == i,
            forall|k: int| 0 <= k < i ==> (#[trigger] out@[k])@ == transactions@[k]@,
        decreases transactions.len() - i,
    {
        out.push(transactions[i].clone());
        i = i + 1;
    }
    assert(transactions_view(out@) =~= transactions_view(transactions@));
    out
}

impl Clone for Block {
    fn clone(&self) -> (r: Self)
        ensures
            r@ == self@,
    {
        Block { header: self.header, transactions: clone_transactions(&self.transactions) }
    }
}

impl Block {
    pub fn new(header: BlockHeader, transactions: Vec<Transaction>) -> (r: Self)
        ensures
            r.header == header,
            r.transactions == transactions,
    {
        Self { header, transactions }
    }

    pub fn to_item(&self) -> (r: Item)
        ensures
            r@ == self@.item(),
    {
        let mut items: Vec<Item> = Vec::new();
        let mut i: usize = 0;
        while i < self.transactions.len()
            invariant
                i <= self.transactions.len(),
                crate::cbor::items_view(items@) == self@.transactions.subrange(
                    0,
                    i as int,
                ).map_values(|t: TransactionView| t.item()),
            decreases self.transactions.len() - i,
        {
            push_item(&mut items, self.transactions[i].to_item());
            i = i + 1;
            assert(crate::cbor::items_view(items@) =~= self@.transactions.subrange(
                0,
                i as int,
            ).map_values(|t: TransactionView| t.item()));
        }
        proof {
            assert(self@.transactions.subrange(0, self.transactions.len() as int)
                =~= self@.transactions);
        }
        let mut entries: Vec<(Item, Item)> = Vec::new();
        push_entry(&mut entries, "header", self.header.to_item());
        push_entry(&mut entries, "transactions", Item::Array(items));
        proof {
            assert(crate::cbor::pairs_view(entries@) =~= self@.item()->Pairs_0);
        }
        Item::Pairs(entries)
    }

    /// The hash of the block.
    pub fn hash(&self) -> (r: Result<crate::sha256::Hash, BtcError>)
        ensures
            r is Ok,
            r->Ok_0@ == self@.hash_value(),
    {
        let bytes = encode(&self.to_item());
        crate::sha256::Hash::hash(bytes.as_slice())
    }
}

/// The unspent outputs as a map from hash to mark and output.
pub type Utxos = Map<nat, (bool, TransactionOutputView)>;

/// The hashes that the inputs of a transaction name.
pub open spec fn input_hashes(tx: TransactionView) -> Seq<nat> {
    tx.inputs.map_values(|i: TransactionInputView| i.prev_transaction_output_hash)
}

/// The hashes of outputs.
pub open spec fn output_hashes(outputs: Seq<TransactionOutputView>) -> Seq<nat> {
    outputs.map_values(|o: TransactionOutputView| o.hash_value())
}

/// For every transaction of a block but the first, the hashes that its
/// inputs name; for the first, nothing.
pub open spec fn spent_parts(transactions: Seq<TransactionView>) -> Seq<Seq<nat>> {
    Seq::new(
        transactions.len(),
        |i: int|
            if i == 0 {
                Seq::empty()
            } else {
                input_hashes(transactions[i])
            },
    )
}

/// For every transaction of a block but the first, its outputs; for the
/// first, nothing.
pub open spec fn made_parts(transactions: Seq<TransactionView>) -> Seq<
    Seq<TransactionOutputView>,
> {
    Seq::new(
        transactions.len(),
        |i: int|
            if i == 0 {
                Seq::empty()
            } else {
                transactions[i].outputs
            },
    )
}

/// The hashes that the inputs of a block name, the first transaction left
/// out.
pub open spec fn spent_hashes(transactions: Seq<TransactionView>) -> Seq<nat> {
    joined(spent_parts(transactions), transactions.len() as int)
}

/// The outputs that a block makes, the first transaction left out.
pub open spec fn made_outputs(transactions: Seq<TransactionView>) -> Seq<TransactionOutputView> {
    joined(made_parts(transactions), transactions.len() as int)
}

/// Whether every hash names an unspent output.
pub open spec fn all_known(hashes: Seq<nat>, utxos: Utxos) -> bool {
    forall|i: int| 0 <= i < hashes.len() ==> utxos.contains_key(#[trigger] hashes[i])
}

/// The amount of the unspent output known by `hash`; zero where there is
/// none.
pub open spec fn value_of(utxos: Utxos, hash: nat) -> nat {
    if utxos.contains_key(hash) {
        utxos[hash].1.value as nat
    } else {
        0
    }
}

/// The sum of the amounts of the unspent outputs that the hashes name.
pub open spec fn total_value(hashes: Seq<nat>, utxos: Utxos) -> nat
    decreases hashes.len(),
{
    if hashes.len() == 0 {
        0
    } else {
        total_value(hashes.drop_last(), utxos) + value_of(utxos, hashes.last())
    }
}

/// What the transactions of a block, the first left out, leave to the miner:
/// the amounts they spend less the amounts they make. They are refused where
/// an input names no unspent output, two inputs name the same one, two
/// outputs have the same hash, or the difference is no `u64`.
pub open spec fn miner_fees_result(transactions: Seq<TransactionView>, utxos: Utxos) -> Result<
    u64,
    BtcError,
> {
    let spent = spent_hashes(transactions);
    let made = made_outputs(transactions);
    let fees = total_value(spent, utxos) - output_total(made);
    if all_known(spent, utxos) && spent.no_duplicates() && output_hashes(made).no_duplicates() && 0
        <= fees <= u64::MAX {
        Ok(fees as u64)
    } else {
        Err(BtcError::InvalidTransaction)
    }
}

/// `amount` halved `times` times, each time rounding down.
pub open spec fn halved(amount: nat, times: nat) -> nat
    decreases times,
{
    if times == 0 {
        amount
    } else {
        halved(amount, (times - 1) as nat) / 2
    }
}

/// The reward for the block at `height`, in the smallest unit.
pub open spec fn block_reward_value(height: u64) -> nat {
    halved(
        (crate::INITIAL_REWARD * 100_000_000) as nat,
        (height / crate::HALVING_INTERVAL) as nat,
    )
}

/// Whether the first transaction of a block pays out the reward and the fees,
/// no more and no less.
pub open spec fn coinbase_result(
    transactions: Seq<TransactionView>,
    height: u64,
    utxos: Utxos,
) -> Result<(), BtcError> {
    if transactions.len() == 0 {
        Err(BtcError::InvalidBlock)
    } else if transactions[0].outputs.len() == 0 {
        Err(BtcError::InvalidTransaction)
    } else {
        match miner_fees_result(transactions, utxos) {
            Err(e) => Err(e),
            Ok(fees) => if output_total(transactions[0].outputs) == block_reward_value(height)
                + fees {
                Ok(())
            } else {
                Err(BtcError::InvalidTransaction)
            },
        }
    }
}

/// Whether every input carries a signature over the hash it names, by the
/// key of the output known by that hash.
pub open spec fn signatures_valid(tx: TransactionView, utxos: Utxos) -> bool {
    forall|i: int|
        0 <= i < tx.inputs.len() ==> ecdsa_accepts(
            utxos[(#[trigger] tx.inputs[i]).prev_transaction_output_hash].1.pubkey,
            hash_bytes(tx.inputs[i].prev_transaction_output_hash),
            tx.inputs[i].signature,
        )
}

/// Whether a transaction, whose inputs are known, is signed and spends no
/// more than its inputs hold.
pub open spec fn transaction_result(tx: TransactionView, utxos: Utxos) -> Result<(), BtcError> {
    if !signatures_valid(tx, utxos) {
        Err(BtcError::InvalidSignature)
    } else if total_value(input_hashes(tx), utxos) < output_total(tx.outputs) {
        Err(BtcError::InvalidTransaction)
    } else {
        Ok(())
    }
}

/// The first refusal among the transactions 1 to `n - 1`, taken in order.
pub open spec fn transactions_result(
    transactions: Seq<TransactionView>,
    utxos: Utxos,
    n: int,
) -> Result<(), BtcError>
    decreases n,
{
    if n <= 1 {
        Ok(())
    } else {
        match transactions_result(transactions, utxos, n - 1) {
            Err(e) => Err(e),
            Ok(_) => transaction_result(transactions[n - 1], utxos),
        }
    }
}

/// Whether the transactions of a block may follow a chain of `height` blocks
/// with the unspent outputs `utxos`.
pub open spec fn verify_transactions_result(
    transactions: Seq<TransactionView>,
    height: u64,
    utxos: Utxos,
) -> Result<(), BtcError> {
    if transactions.len() == 0 {
        Err(BtcError::InvalidTransaction)
    } else {
        match coinbase_result(transactions, height, utxos) {
            Err(e) => Err(e),
            Ok(_) => transactions_result(transactions, utxos, transactions.len() as int),
        }
    }
}

/// A refusal stays the result however many transactions follow.
pub proof fn lemma_refusal_stays(transactions: Seq<TransactionView>, utxos: Utxos, a: int, b: int)
    requires
        a <= b,
        transactions_result(transactions, utxos, a) is Err,
    ensures
        transactions_result(transactions, utxos, b) == transactions_result(transactions, utxos, a),
    decreases b - a,
{
    if a < b {
        lemma_refusal_stays(transactions, utxos, a, b - 1);
    }
}

pub proof fn lemma_total_value_bound(hashes: Seq<nat>, utxos: Utxos)
    ensures
        total_value(hashes, utxos) <= hashes.len() * u64::MAX,
    decreases hashes.len(),
{
    if hashes.len() > 0 {
        lemma_total_value_bound(hashes.drop_last(), utxos);
        assert(hashes.len() * u64::MAX == (hashes.len() - 1) * u64::MAX + u64::MAX)
            by (nonlinear_arith);
    } else {
        assert(hashes.len() * u64::MAX == 0) by (nonlinear_arith)
            requires
                hashes.len() == 0,
        ;
    }
}

proof fn lemma_output_total_bound(outputs: Seq<TransactionOutputView>)
    ensures
        output_total(outputs) <= outputs.len() * u64::MAX,
    decreases outputs.len(),
{
    if outputs.len() > 0 {
        lemma_output_total_bound(outputs.drop_last());
        assert(outputs.len() * u64::MAX == (outputs.len() - 1) * u64::MAX + u64::MAX)
            by (nonlinear_arith);
    } else {
        assert(outputs.len() * u64::MAX == 0) by (nonlinear_arith)
            requires
                outputs.len() == 0,
        ;
    }
}

/// The largest sum that as many amounts as a vector can hold can reach.
pub proof fn lemma_count_bound(n: nat)
    requires
        n <= usize::MAX,
    ensures
        n * u64::MAX <= u128::MAX,
{
    assert(n * u64::MAX <= 0xffff_ffff_ffff_ffff * 0xffff_ffff_ffff_ffff) by (nonlinear_arith)
        requires
            n <= 0xffff_ffff_ffff_ffff,
            u64::MAX == 0xffff_ffff_ffff_ffff,
    ;
}

fn contains_hash(list: &Vec<crate::sha256::Hash>, hash: &crate::sha256::Hash) -> (r: bool)
    ensures
        r == hash_values(list@).contains(hash@),
{
    let mut i: usize = 0;
    while i < list.len()
        invariant
            i <= list.len(),
            forall|k: int| 0 <= k < i ==> hash_values(list@)[k] != hash@,
        decreases list.len() - i,
    {
        if list[i] == *hash {
            assert(hash_values(list@)[i as int] == hash@);
            return true;
        }
        proof {
            if list@[i as int]@ == hash@ {
                crate::u256::lemma_view_injective(list@[i as int].0, hash.0);
            }
        }
        i = i + 1;
    }
    false
}

/// The sum of the outputs' amounts.
pub fn sum_outputs(outputs: &Vec<TransactionOutput>) -> (r: u128)
    ensures
        r == output_total(outputs_view(outputs@)),
{
    let ghost views = outputs_view(outputs@);
    let mut total: u128 = 0;
    let mut i: usize = 0;
    assert(views.subrange(0, 0) =~= Seq::<TransactionOutputView>::empty());
    while i < outputs.len()
        invariant
            i <= outputs.len(),
            views == outputs_view(outputs@),
            total == output_total(views.subrange(0, i as int)),
        decreases outputs.len() - i,
    {
        proof {
            lemma_output_total_bound(views.subrange(0, i as int));
            lemma_count_bound(i as nat);
            assert(views.subrange(0, i + 1).drop_last() =~= views.subrange(0, i as int));
        }
        total = total + outputs[i].value as u128;
        i = i + 1;
    }
    assert(views.subrange(0, outputs.len() as int) =~= views);
    total
}

/// Checks the signatures of a transaction and that it spends no more than
/// its inputs hold.
pub(crate) fn verify_transaction(tx: &Transaction, utxos: &UtxoSet) -> (r: Result<(), BtcError>)
    requires
        all_known(input_hashes(tx@), utxos@),
    ensures
        r == transaction_result(tx@, utxos@),
{
    let ghost hashes = input_hashes(tx@);
    let mut total_in: u128 = 0;
    let mut k: usize = 0;
    assert(hashes.subrange(0, 0) =~= Seq::<nat>::empty());
    while k < tx.inputs.len()
        invariant
            k <= tx.inputs.len(),
            hashes == input_hashes(tx@),
            all_known(hashes, utxos@),
            total_in == total_value(hashes.subrange(0, k as int), utxos@),
            forall|i: int|
                0 <= i < k ==> ecdsa_accepts(
                    utxos@[(#[trigger] tx@.inputs[i]).prev_transaction_output_hash].1.pubkey,
                    hash_bytes(tx@.inputs[i].prev_transaction_output_hash),
                    tx@.inputs[i].signature,
                ),
        decreases tx.inputs.len() - k,
    {
        let input = &tx.inputs[k];
        proof {
            assert(tx@.inputs[k as int] == input@);
            assert(hashes[k as int] == input@.prev_transaction_output_hash);
            assert(utxos@.contains_key(hashes[k as int]));
            lemma_total_value_bound(hashes.subrange(0, k as int), utxos@);
            lemma_count_bound(k as nat);
            assert(hashes.subrange(0, k + 1).drop_last() =~= hashes.subrange(0, k as int));
        }
        match utxos.get(&input.prev_transaction_output_hash) {
            Some((_, output)) => {
                if !input.signature.verify(&input.prev_transaction_output_hash, &output.pubkey) {
                    return Err(BtcError::InvalidSignature);
                }
                total_in = total_in + output.value as u128;
            },
            None => {
                return Err(BtcError::InvalidTransaction);
            },
        }
        k = k + 1;
    }
    assert(hashes.subrange(0, tx.inputs.len() as int) =~= hashes);
    if total_in < sum_outputs(&tx.outputs) {
        return Err(BtcError::InvalidTransaction);
    }
    Ok(())
}

/// The inputs of every transaction but the first are among the hashes that
/// the block spends.
proof fn lemma_inputs_are_spent(transactions: Seq<TransactionView>, t: int, utxos: Utxos)
    requires
        1 <= t < transactions.len(),
        all_known(spent_hashes(transactions), utxos),
    ensures
        all_known(input_hashes(transactions[t]), utxos),
{
    let parts = spent_parts(transactions);
    let whole = spent_hashes(transactions);
    lemma_joined_prefix(parts, t + 1, transactions.len() as int);
    let upto = joined(parts, t + 1);
    let before = joined(parts, t);
    assert(parts[t] == input_hashes(transactions[t]));
    assert forall|i: int| 0 <= i < input_hashes(transactions[t]).len() implies utxos.contains_key(
        #[trigger] input_hashes(transactions[t])[i],
    ) by {
        assert(upto[before.len() + i] == input_hashes(transactions[t])[i]);
        assert(whole.subrange(0, upto.len() as int)[before.len() + i] == whole[before.len() + i]);
    }
}

impl Block {
    /// The reward for the block at `height`: fifty coins, halved once for
    /// every 210 blocks before it.
    pub fn calculate_block_reward(height: u64) -> (r: u64)
        ensures
            r == block_reward_value(height),
    {
        let times: u64 = height / crate::HALVING_INTERVAL;
        let mut reward: u64 = crate::INITIAL_REWARD * 100_000_000;
        let mut i: u64 = 0;
        while i < times && reward > 0
            invariant
                i <= times,
                reward == halved((crate::INITIAL_REWARD * 100_000_000) as nat, i as nat),
            decreases times - i,
        {
            reward = reward / 2;
            i = i + 1;
        }
        proof {
            lemma_halved_zero((crate::INITIAL_REWARD * 100_000_000) as nat, i as nat, times as nat);
        }
        reward
    }

    /// Checks that the first transaction pays out the reward for a block at
    /// `predicted_block_height` and the fees, no more and no less.
    pub fn verify_coinbase_transaction(
        &self,
        predicted_block_height: u64,
        utxos: &UtxoSet,
    ) -> (r: Result<(), BtcError>)
        ensures
            r == coinbase_result(self@.transactions, predicted_block_height, utxos@),
    {
        if self.transactions.len() == 0 {
            return Err(BtcError::InvalidBlock);
        }
        let coinbase = &self.transactions[0];
        assert(self@.transactions[0] == coinbase@);
        if coinbase.outputs.len() == 0 {
            return Err(BtcError::InvalidTransaction);
        }
        let fees = match self.calculate_miner_fees(utxos) {
            Ok(fees) => fees,
            Err(e) => {
                return Err(e);
            },
        };
        let reward = Self::calculate_block_reward(predicted_block_height);
        if sum_outputs(&coinbase.outputs) != reward as u128 + fees as u128 {
            return Err(BtcError::InvalidTransaction);
        }
        Ok(())
    }

    /// Checks the transactions of a block that is to follow a chain of
    /// `predicted_block_height` blocks with the unspent outputs `utxos`.
    #[verifier::rlimit(30)]
    pub fn verify_transactions(&self, predicted_block_height: u64, utxos: &UtxoSet) -> (r: Result<
        (),
        BtcError,
    >)
        ensures
            r == verify_transactions_result(self@.transactions, predicted_block_height, utxos@),
    {
        let n: usize = self.transactions.len();
        if n == 0 {
            return Err(BtcError::InvalidTransaction);
        }
        match self.verify_coinbase_transaction(predicted_block_height, utxos) {
            Ok(_) => {},
            Err(e) => {
                return Err(e);
            },
        }
        let ghost txs = self@.transactions;
        let mut t: usize = 1;
        while t < n
            invariant
                1 <= t <= n,
                n == self.transactions.len(),
                txs == self@.transactions,
                all_known(spent_hashes(txs), utxos@),
                coinbase_result(txs, predicted_block_height, utxos@) is Ok,
                transactions_result(txs, utxos@, t as int) is Ok,
            decreases n - t,
        {
            let tx = &self.transactions[t];
            proof {
                assert(txs[t as int] == tx@);
                lemma_inputs_are_spent(txs, t as int, utxos@);
            }
            match verify_transaction(tx, utxos) {
                Ok(_) => {},
                Err(e) => {
                    proof {
                        assert(transactions_result(txs, utxos@, t + 1) == Err::<(), BtcError>(e));
                        lemma_refusal_stays(txs, utxos@, t + 1, n as int);
                    }
                    return Err(e);
                },
            }
            t = t + 1;
        }
        Ok(())
    }

    /// What the transactions of the block, the first left out, leave to the
    /// miner.
    #[verifier::rlimit(30)]
    pub fn calculate_miner_fees(&self, utxos: &UtxoSet) -> (r: Result<u64, BtcError>)
        ensures
            r == miner_fees_result(self@.transactions, utxos@),
    {
        let ghost txs = self@.transactions;
        let ghost whole_spent = spent_hashes(txs);
        let ghost whole_made = made_outputs(txs);
        let n: usize = self.transactions.len();
        if n == 0 {
            proof {
                assert(whole_spent =~= Seq::<nat>::empty());
                assert(whole_made =~= Seq::<TransactionOutputView>::empty());
                assert(output_hashes(whole_made) =~= Seq::<nat>::empty());
            }
            return Ok(0);
        }
        let mut seen_inputs: Vec<crate::sha256::Hash> = Vec::new();
        let mut seen_outputs: Vec<crate::sha256::Hash> = Vec::new();
        let mut total_in: u128 = 0;
        let mut total_out: u128 = 0;
        let ghost mut made: Seq<TransactionOutputView> = Seq::empty();
        let mut t: usize = 1;
        proof {
            assert(joined(spent_parts(txs), 1) =~= Seq::<nat>::empty()) by {
                assert(joined(spent_parts(txs), 0) =~= Seq::<nat>::empty());
                assert(spent_parts(txs)[0] =~= Seq::<nat>::empty());
            }
            assert(joined(made_parts(txs), 1) =~= Seq::<TransactionOutputView>::empty()) by {
                assert(joined(made_parts(txs), 0) =~= Seq::<TransactionOutputView>::empty());
                assert(made_parts(txs)[0] =~= Seq::<TransactionOutputView>::empty());
            }
            assert(output_hashes(made) =~= hash_values(seen_outputs@));
            assert(hash_values(seen_inputs@) =~= Seq::<nat>::empty());
        }
        while t < n
            invariant
                1 <= t <= n,
                n == self.transactions.len(),
                txs == self@.transactions,
                whole_spent == spent_hashes(txs),
                whole_made == made_outputs(txs),
                hash_values(seen_inputs@) == joined(spent_parts(txs), t as int),
                made == joined(made_parts(txs), t as int),
                output_hashes(made) == hash_values(seen_outputs@),
                all_known(hash_values(seen_inputs@), utxos@),
                hash_values(seen_inputs@).no_duplicates(),
                output_hashes(made).no_duplicates(),
                total_in == total_value(hash_values(seen_inputs@), utxos@),
                total_out == output_total(made),
            decreases n - t,
        {
            let tx = &self.transactions[t];
            proof {
                assert(txs[t as int] == tx@);
                lemma_joined_prefix(spent_parts(txs), t + 1, n as int);
                lemma_joined_prefix(made_parts(txs), t + 1, n as int);
                assert(spent_parts(txs)[t as int] == input_hashes(tx@));
                assert(made_parts(txs)[t as int] == tx@.outputs);
            }
            if !spend_inputs(tx, utxos, &mut seen_inputs, &mut total_in) {
                proof {
                    lemma_prefix_conditions(
                        whole_spent,
                        joined(spent_parts(txs), t + 1).len() as int,
                        utxos@,
                    );
                }
                return Err(BtcError::InvalidTransaction);
            }
            if !make_outputs(tx, &mut seen_outputs, &mut total_out, Ghost(made)) {
                proof {
                    let part = joined(made_parts(txs), t + 1);
                    assert(output_hashes(whole_made).subrange(0, part.len() as int)
                        =~= output_hashes(part));
                    lemma_prefix_conditions(output_hashes(whole_made), part.len() as int, utxos@);
                }
                return Err(BtcError::InvalidTransaction);
            }
            proof {
                made = made + tx@.outputs;
            }
            t = t + 1;
        }
        assert(hash_values(seen_inputs@) == whole_spent);
        assert(made == whole_made);
        if total_in < total_out {
            return Err(BtcError::InvalidTransaction);
        }
        let fees: u128 = total_in - total_out;
        if fees > u64::MAX as u128 {
            return Err(BtcError::InvalidTransaction);
        }
        Ok(fees as u64)
    }
}

/// What holds of a whole sequence holds of its start.
proof fn lemma_prefix_conditions(whole: Seq<nat>, n: int, utxos: Utxos)
    requires
        0 <= n <= whole.len(),
    ensures
        all_known(whole, utxos) ==> all_known(whole.subrange(0, n), utxos),
        whole.no_duplicates() ==> whole.subrange(0, n).no_duplicates(),
{
    let part = whole.subrange(0, n);
    if all_known(whole, utxos) {
        assert forall|i: int| 0 <= i < part.len() implies utxos.contains_key(
            #[trigger] part[i],
        ) by {
            assert(part[i] == whole[i]);
        }
    }
    if whole.no_duplicates() {
        assert forall|i: int, j: int|
            0 <= i < part.len() && 0 <= j < part.len() && i != j implies part[i] != part[j] by {
            assert(part[i] == whole[i] && part[j] == whole[j]);
        }
    }
}

/// Takes the inputs of `tx` into account: their hashes join `seen`, their
/// amounts join `total`. Gives `false` where an input names no unspent
/// output, or one that was seen before.
#[verifier::rlimit(30)]
pub(crate) fn spend_inputs(
    tx: &Transaction,
    utxos: &UtxoSet,
    seen: &mut Vec<crate::sha256::Hash>,
    total: &mut u128,
) -> (ok: bool)
    requires
        all_known(hash_values(old(seen)@), utxos@),
        hash_values(old(seen)@).no_duplicates(),
        *old(total) == total_value(hash_values(old(seen)@), utxos@),
    ensures
        ok ==> hash_values(final(seen)@) == hash_values(old(seen)@) + input_hashes(tx@),
        ok ==> all_known(hash_values(final(seen)@), utxos@),
        ok ==> hash_values(final(seen)@).no_duplicates(),
        ok ==> *final(total) == total_value(hash_values(final(seen)@), utxos@),
        !ok ==> !(all_known(hash_values(old(seen)@) + input_hashes(tx@), utxos@) && (hash_values(
            old(seen)@,
        ) + input_hashes(tx@)).no_duplicates()),
        final(seen)@.len() >= old(seen)@.len(),
        final(seen)@.subrange(0, old(seen)@.len() as int) == old(seen)@,
{
    let ghost before = hash_values(seen@);
    assert(seen@.subrange(0, seen@.len() as int) =~= seen@);
    let ghost wanted = before + input_hashes(tx@);
    let mut k: usize = 0;
    assert(input_hashes(tx@).subrange(0, 0) =~= Seq::<nat>::empty());
    assert(before + Seq::<nat>::empty() =~= before);
    while k < tx.inputs.len()
        invariant
            k <= tx.inputs.len(),
            before == hash_values(old(seen)@),
            wanted == before + input_hashes(tx@),
            hash_values(seen@) == before + input_hashes(tx@).subrange(0, k as int),
            all_known(hash_values(seen@), utxos@),
            hash_values(seen@).no_duplicates(),
            *total == total_value(hash_values(seen@), utxos@),
            seen@.len() >= old(seen)@.len(),
            seen@.subrange(0, old(seen)@.len() as int) == old(seen)@,
        decreases tx.inputs.len() - k,
    {
        let h = tx.inputs[k].prev_transaction_output_hash;
        let count: usize = seen.len();
        let ghost spent = hash_values(seen@);
        let ghost place = spent.len() as int;
        proof {
            assert(input_hashes(tx@)[k as int] == h@);
            assert(wanted[place] == h@);
            assert forall|q: int| 0 <= q < place implies wanted[q] == spent[q] by {}
        }
        let value: u64 = match utxos.get(&h) {
            Some((_, output)) => output.value,
            None => {
                return false;
            },
        };
        if contains_hash(seen, &h) {
            proof {
                let q = choose|q: int| 0 <= q < spent.len() && spent[q] == h@;
                assert(wanted[q] == wanted[place]);
            }
            return false;
        }
        proof {
            lemma_push_no_duplicates(spent, h@);
            lemma_total_value_bound(spent, utxos@);
            lemma_count_bound(count as nat);
            assert(spent.push(h@).drop_last() =~= spent);
            assert(spent.push(h@) =~= before + input_hashes(tx@).subrange(0, k + 1));
            assert(hash_values(seen@.push(h)) =~= spent.push(h@));
        }
        let ghost kept = seen@;
        seen.push(h);
        assert(seen@.subrange(0, old(seen)@.len() as int) =~= kept.subrange(
            0,
            old(seen)@.len() as int,
        ));
        *total = *total + value as u128;
        k = k + 1;
    }
    assert(input_hashes(tx@).subrange(0, tx.inputs.len() as int) =~= input_hashes(tx@));
    true
}

/// Takes the outputs of `tx` into account: their hashes join `seen`, their
/// amounts join `total`. Gives `false` where an output has a hash that was
/// seen before.
#[verifier::rlimit(30)]
pub(crate) fn make_outputs(
    tx: &Transaction,
    seen: &mut Vec<crate::sha256::Hash>,
    total: &mut u128,
    Ghost(made): Ghost<Seq<TransactionOutputView>>,
) -> (ok: bool)
    requires
        output_hashes(made) == hash_values(old(seen)@),
        output_hashes(made).no_duplicates(),
        *old(total) == output_total(made),
    ensures
        ok ==> output_hashes(made + tx@.outputs) == hash_values(final(seen)@),
        ok ==> output_hashes(made + tx@.outputs).no_duplicates(),
        ok ==> *final(total) == output_total(made + tx@.outputs),
        !ok ==> !output_hashes(made + tx@.outputs).no_duplicates(),
        final(seen)@.len() >= old(seen)@.len(),
        final(seen)@.subrange(0, old(seen)@.len() as int) == old(seen)@,
{
    let ghost wanted = made + tx@.outputs;
    assert(seen@.subrange(0, seen@.len() as int) =~= seen@);
    let ghost mut done = made;
    let mut m: usize = 0;
    assert(tx@.outputs.subrange(0, 0) =~= Seq::<TransactionOutputView>::empty());
    assert(made + Seq::<TransactionOutputView>::empty() =~= made);
    while m < tx.outputs.len()
        invariant
            m <= tx.outputs.len(),
            wanted == made + tx@.outputs,
            done == made + tx@.outputs.subrange(0, m as int),
            output_hashes(done) == hash_values(seen@),
            output_hashes(done).no_duplicates(),
            *total == output_total(done),
            seen@.len() >= old(seen)@.len(),
            seen@.subrange(0, old(seen)@.len() as int) == old(seen)@,
        decreases tx.outputs.len() - m,
    {
        let output = &tx.outputs[m];
        let count: usize = seen.len();
        let ghost place = done.len() as int;
        proof {
            assert(tx@.outputs[m as int] == output@);
            assert(wanted[place] == output@);
            assert forall|q: int| 0 <= q < place implies wanted[q] == done[q] by {}
            assert(done.len() == seen@.len()) by {
                assert(output_hashes(done).len() == hash_values(seen@).len());
            }
        }
        let h = match output.hash() {
            Ok(h) => h,
            Err(_) => {
                return false;
            },
        };
        if contains_hash(seen, &h) {
            proof {
                let q = choose|q: int|
                    0 <= q < output_hashes(done).len() && output_hashes(done)[q] == h@;
                assert(output_hashes(wanted)[q] == output_hashes(wanted)[place]);
            }
            return false;
        }
        proof {
            lemma_push_no_duplicates(output_hashes(done), h@);
            lemma_output_total_bound(done);
            lemma_count_bound(count as nat);
            assert(done.push(output@).drop_last() =~= done);
            assert(done.push(output@) =~= made + tx@.outputs.subrange(0, m + 1));
            assert(output_hashes(done.push(output@)) =~= output_hashes(done).push(h@));
            assert(hash_values(seen@.push(h)) =~= output_hashes(done).push(h@));
        }
        let ghost kept = seen@;
        seen.push(h);
        assert(seen@.subrange(0, old(seen)@.len() as int) =~= kept.subrange(
            0,
            old(seen)@.len() as int,
        ));
        *total = *total + output.value as u128;
        proof {
            done = done.push(output@);
        }
        m = m + 1;
    }
    assert(tx@.outputs.subrange(0, tx.outputs.len() as int) =~= tx@.outputs);
    true
}

/// Once an amount has been halved to zero, more halvings leave it zero.
proof fn lemma_halved_zero(amount: nat, i: nat, times: nat)
    requires
        i <= times,
        i == times || halved(amount, i) == 0,
    ensures
        halved(amount, times) == halved(amount, i),
    decreases times - i,
{
    if i < times {
        lemma_halved_zero(amount, i, (times - 1) as nat);
    }
}

impl BlockHeaderView {
    /// What holds of the view of every header.
    pub open spec fn wf(self) -> bool {
        &&& valid_instant(self.timestamp)
        &&& self.prev_block_hash < modulus()
        &&& self.merkle_root < modulus()
        &&& self.target < modulus()
    }

    /// The header that an item stands for.
    pub open spec fn from_item(item: ItemView) -> Option<BlockHeaderView> {
        match item {
            ItemView::Pairs(e) => if e.len() == 5 && e[0].0 == text_item("timestamp")
                && e[0].1 is Text && text_instant(e[0].1->Text_0) is Some && e[1].0 == text_item(
                "nonce",
            ) && e[1].1 is Unsigned && e[2].0 == text_item("prev_block_hash") && item_number(
                e[2].1,
            ) is Some && e[3].0 == text_item("merkle_root") && item_number(e[3].1) is Some
                && e[4].0 == text_item("target") && item_number(e[4].1) is Some {
                Some(
                    BlockHeaderView {
                        timestamp: text_instant(e[0].1->Text_0)->Some_0,
                        nonce: e[1].1->Unsigned_0,
                        prev_block_hash: item_number(e[2].1)->Some_0,
                        merkle_root: item_number(e[3].1)->Some_0,
                        target: item_number(e[4].1)->Some_0,
                    },
                )
            } else {
                None
            },
            _ => None,
        }
    }

    /// The header that bytes are the encoding of.
    pub open spec fn decoding(bytes: Seq<u8>) -> Option<BlockHeaderView> {
        match parse(bytes) {
            Some(item) => Self::from_item(item),
            None => None,
        }
    }

    #[verifier::rlimit(30)]
    pub proof fn lemma_item(self)
        requires
            self.wf(),
        ensures
            Self::from_item(self.item()) == Some(self),
            item_fits(self.item(), 2),
    {
        lemma_text_instant(self.timestamp);
        lemma_number_item(self.prev_block_hash);
        lemma_number_item(self.merkle_root);
        lemma_number_item(self.target);
        reveal_strlit("timestamp");
        reveal_strlit("nonce");
        reveal_strlit("prev_block_hash");
        reveal_strlit("merkle_root");
        reveal_strlit("target");
        lemma_key("timestamp");
        lemma_key("nonce");
        lemma_key("prev_block_hash");
        lemma_key("merkle_root");
        lemma_key("target");
        let e = self.item()->Pairs_0;
        assert forall|i: int| 0 <= i < e.len() implies item_fits((#[trigger] e[i]).0, 1)
            && item_fits(e[i].1, 1) by {
            lemma_fits_deeper(e[i].0, 0, 1);
            assert(e[0].1 is Text);
            assert(e[1].1 is Unsigned);
        }
    }

    /// Reading the bytes of a header gives the header, and so a header with
    /// the same hash.
    pub proof fn lemma_round_trip(self)
        requires
            self.wf(),
        ensures
            Self::decoding(self.encoding()) == Some(self),
            Self::decoding(self.encoding())->Some_0.hash_value() == self.hash_value(),
    {
        self.lemma_item();
        lemma_fits_deeper(self.item(), 2, MAX_DEPTH as nat);
        lemma_round_trip(self.item());
    }
}

impl BlockHeader {
    /// Every header has a well-formed view.
    pub proof fn lemma_wf(self)
        requires
            self.timestamp.wf(),
        ensures
            self@.wf(),
    {
        self.timestamp.lemma_instant();
        self.prev_block_hash.0.lemma_bounded();
        self.merkle_root.0.0.lemma_bounded();
        self.target.lemma_bounded();
    }

    /// The header that an item stands for.
    pub fn from_item(item: &Item) -> (r: Option<BlockHeader>)
        ensures
            match r {
                Some(h) => BlockHeaderView::from_item(item@) == Some(h@),
                None => BlockHeaderView::from_item(item@) is None,
            },
    {
        match item {
            Item::Pairs(entries) => {
                if entries.len() != 5 {
                    return None;
                }
                let ghost e = pairs_view(entries@);
                assert(e[0] == (entries@[0].0@, entries@[0].1@));
                assert(e[1] == (entries@[1].0@, entries@[1].1@));
                assert(e[2] == (entries@[2].0@, entries@[2].1@));
                assert(e[3] == (entries@[3].0@, entries@[3].1@));
                assert(e[4] == (entries@[4].0@, entries@[4].1@));
                if !entries[0].0.is_text("timestamp") || !entries[1].0.is_text("nonce")
                    || !entries[2].0.is_text("prev_block_hash") || !entries[3].0.is_text(
                    "merkle_root",
                ) || !entries[4].0.is_text("target") {
                    return None;
                }
                let timestamp = match &entries[0].1 {
                    Item::Text(text) => match Timestamp::from_text(text.as_slice()) {
                        Some(t) => t,
                        None => {
                            return None;
                        },
                    },
                    _ => {
                        return None;
                    },
                };
                let nonce: u64 = match &entries[1].1 {
                    Item::Unsigned(v) => *v,
                    _ => {
                        return None;
                    },
                };
                let prev_block_hash = match number_from_item(&entries[2].1) {
                    Some(n) => crate::sha256::Hash(n),
                    None => {
                        return None;
                    },
                };
                let merkle_root = match number_from_item(&entries[3].1) {
                    Some(n) => MerkleRoot(crate::sha256::Hash(n)),
                    None => {
                        return None;
                    },
                };
                let target = match number_from_item(&entries[4].1) {
                    Some(n) => n,
                    None => {
                        return None;
                    },
                };
                Some(BlockHeader { timestamp, nonce, prev_block_hash, merkle_root, target })
            },
            _ => None,
        }
    }

    /// The bytes in which the header is stored. They are read back as the
    /// header.
    pub fn encode(&self) -> (r: Vec<u8>)
        ensures
            r@ == self@.encoding(),
            BlockHeaderView::decoding(r@) == Some(self@),
    {
        proof {
            use_type_invariant(&self.timestamp);
            self.lemma_wf();
            self@.lemma_round_trip();
        }
        encode(&self.to_item())
    }

    /// The header that bytes are the encoding of.
    pub fn decode(bytes: &[u8]) -> (r: Option<BlockHeader>)
        ensures
            match r {
                Some(h) => BlockHeaderView::decoding(bytes@) == Some(h@),
                None => BlockHeaderView::decoding(bytes@) is None,
            },
    {
        match decode(bytes) {
            Some(item) => Self::from_item(&item),
            None => None,
        }
    }
}

/// What an item is read as, as a transaction.
pub open spec fn read_transaction() -> spec_fn(ItemView) -> Option<TransactionView> {
    |item: ItemView| TransactionView::from_item(item)
}

/// The transactions that items stand for.
pub fn transactions_from_items(items: &Vec<Item>) -> (r: Option<Vec<Transaction>>)
    ensures
        match r {
            Some(transactions) => all_read(items_view(items@), read_transaction()) == Some(
                transactions_view(transactions@),
            ),
            None => all_read(items_view(items@), read_transaction()) is None,
        },
{
    let ghost views = items_view(items@);
    let mut transactions: Vec<Transaction> = Vec::new();
    let mut i: usize = 0;
    while i < items.len()
        invariant
            i <= items.len(),
            views == items_view(items@),
            transactions@.len() == i,
            forall|k: int|
                0 <= k < i ==> read_transaction()(#[trigger] views[k]) == Some(transactions@[k]@),
        decreases items.len() - i,
    {
        assert(views[i as int] == items@[i as int]@);
        match Transaction::from_item(&items[i]) {
            Some(t) => {
                transactions.push(t);
            },
            None => {
                assert(read_transaction()(views[i as int]) is None);
                return None;
            },
        }
        i = i + 1;
    }
    assert(transactions_view(transactions@) =~= all_read(views, read_transaction())->Some_0);
    Some(transactions)
}

impl BlockView {
    /// What holds of the view of every block.
    pub open spec fn wf(self) -> bool {
        &&& self.header.wf()
        &&& self.transactions.len() <= usize::MAX
        &&& forall|i: int|
            0 <= i < self.transactions.len() ==> (#[trigger] self.transactions[i]).wf()
    }

    /// The block that an item stands for.
    pub open spec fn from_item(item: ItemView) -> Option<BlockView> {
        match item {
            ItemView::Pairs(e) => if e.len() == 2 && e[0].0 == text_item("header")
                && BlockHeaderView::from_item(e[0].1) is Some && e[1].0 == text_item(
                "transactions",
            ) && e[1].1 is Array && all_read(e[1].1->Array_0, read_transaction()) is Some {
                Some(
                    BlockView {
                        header: BlockHeaderView::from_item(e[0].1)->Some_0,
                        transactions: all_read(e[1].1->Array_0, read_transaction())->Some_0,
                    },
                )
            } else {
                None
            },
            _ => None,
        }
    }

    /// The block that bytes are the encoding of.
    pub open spec fn decoding(bytes: Seq<u8>) -> Option<BlockView> {
        match parse(bytes) {
            Some(item) => Self::from_item(item),
            None => None,
        }
    }

    #[verifier::rlimit(30)]
    pub proof fn lemma_item(self)
        requires
            self.wf(),
        ensures
            Self::from_item(self.item()) == Some(self),
            item_fits(self.item(), 6),
    {
        let write = |t: TransactionView| t.item();
        let items = self.transactions.map_values(write);
        self.header.lemma_item();
        assert forall|i: int| 0 <= i < self.transactions.len() implies read_transaction()(
            write(#[trigger] self.transactions[i]),
        ) == Some(self.transactions[i]) by {
            self.transactions[i].lemma_item();
        }
        lemma_all_read(self.transactions, write, read_transaction());
        let e = self.item()->Pairs_0;
        assert(e[1].1 == ItemView::Array(items));
        assert forall|i: int| 0 <= i < items.len() implies item_fits(#[trigger] items[i], 4) by {
            self.transactions[i].lemma_item();
        }
        assert(item_fits(e[1].1, 5));
        lemma_fits_deeper(e[0].1, 2, 5);
        reveal_strlit("header");
        reveal_strlit("transactions");
        lemma_key("header");
        lemma_key("transactions");
        assert forall|i: int| 0 <= i < e.len() implies item_fits((#[trigger] e[i]).0, 5)
            && item_fits(e[i].1, 5) by {
            lemma_fits_deeper(e[i].0, 0, 5);
        }
    }

    /// Reading the bytes of a block gives the block, and so a block with
    /// the same hash.
    pub proof fn lemma_round_trip(self)
        requires
            self.wf(),
        ensures
            Self::decoding(self.encoding()) == Some(self),
            Self::decoding(self.encoding())->Some_0.hash_value() == self.hash_value(),
    {
        self.lemma_item();
        lemma_fits_deeper(self.item(), 6, MAX_DEPTH as nat);
        lemma_round_trip(self.item());
    }
}

impl Block {
    /// Every block has a well-formed view.
    pub proof fn lemma_wf(self)
        requires
            self.header.timestamp.wf(),
        ensures
            self@.wf(),
    {
        self.header.lemma_wf();
        vstd::std_specs::vec::axiom_spec_len(&self.transactions);
        assert forall|i: int| 0 <= i < self@.transactions.len() implies (
        #[trigger] self@.transactions[i]).wf() by {
            self.transactions@[i].lemma_wf();
        }
    }

    /// The block that an item stands for.
    pub fn from_item(item: &Item) -> (r: Option<Block>)
        ensures
            match r {
                Some(b) => BlockView::from_item(item@) == Some(b@),
                None => BlockView::from_item(item@) is None,
            },
    {
        match item {
            Item::Pairs(entries) => {
                if entries.len() != 2 {
                    return None;
                }
                let ghost e = pairs_view(entries@);
                assert(e[0] == (entries@[0].0@, entries@[0].1@));
                assert(e[1] == (entries@[1].0@, entries@[1].1@));
                if !entries[0].0.is_text("header") || !entries[1].0.is_text("transactions") {
                    return None;
                }
                let header = match BlockHeader::from_item(&entries[0].1) {
                    Some(h) => h,
                    None => {
                        return None;
                    },
                };
                let transactions = match &entries[1].1 {
                    Item::Array(items) => match transactions_from_items(items) {
                        Some(transactions) => transactions,
                        None => {
                            return None;
                        },
                    },
                    _ => {
                        return None;
                    },
                };
                Some(Block { header, transactions })
            },
            _ => None,
        }
    }

    /// The bytes in which the block is stored. They are read back as the
    /// block.
    pub fn encode(&self) -> (r: Vec<u8>)
        ensures
            r@ == self@.encoding(),
            BlockView::decoding(r@) == Some(self@),
    {
        proof {
            use_type_invariant(&self.header.timestamp);
            self.lemma_wf();
            self@.lemma_round_trip();
        }
        encode(&self.to_item())
    }

    /// The block that bytes are the encoding of.
    pub fn decode(bytes: &[u8]) -> (r: Option<Block>)
        ensures
            match r {
                Some(b) => BlockView::decoding(bytes@) == Some(b@),
                None => BlockView::decoding(bytes@) is None,
            },
    {
        match decode(bytes) {
            Some(item) => Self::from_item(&item),
            None => None,
        }
    }
}

/// The sum over hashes one after the other is the sum of the sums.
pub proof fn lemma_total_value_add(a: Seq<nat>, b: Seq<nat>, utxos: Utxos)
    ensures
        total_value(a + b, utxos) == total_value(a, utxos) + total_value(b, utxos),
    decreases b.len(),
{
    if b.len() == 0 {
        assert(a + b =~= a);
    } else {
        lemma_total_value_add(a, b.drop_last(), utxos);
        assert((a + b).drop_last() =~= a + b.drop_last());
    }
}

/// The sum over outputs one after the other is the sum of the sums.
pub proof fn lemma_output_total_add(a: Seq<TransactionOutputView>, b: Seq<TransactionOutputView>)
    ensures
        output_total(a + b) == output_total(a) + output_total(b),
    decreases b.len(),
{
    if b.len() == 0 {
        assert(a + b =~= a);
    } else {
        lemma_output_total_add(a, b.drop_last());
        assert((a + b).drop_last() =~= a + b.drop_last());
    }
}

/// One more transaction behind the first adds its inputs to what is spent
/// and its outputs to what is made.
pub proof fn lemma_push_transaction(transactions: Seq<TransactionView>, tx: TransactionView)
    requires
        transactions.len() >= 1,
    ensures
        spent_hashes(transactions.push(tx)) == spent_hashes(transactions) + input_hashes(tx),
        made_outputs(transactions.push(tx)) == made_outputs(transactions) + tx.outputs,
{
    let longer = transactions.push(tx);
    let n = transactions.len() as int;
    crate::seqs::lemma_joined_same(spent_parts(longer), spent_parts(transactions), n);
    crate::seqs::lemma_joined_same(made_parts(longer), made_parts(transactions), n);
    assert(spent_parts(longer)[n] == input_hashes(tx));
    assert(made_parts(longer)[n] == tx.outputs);
}

/// What is spent and what is made does not depend on the first transaction,
/// nor does the check of the others.
pub proof fn lemma_first_is_free(transactions: Seq<TransactionView>, first: TransactionView,
    utxos: Utxos)
    requires
        transactions.len() >= 1,
    ensures
        spent_hashes(transactions.update(0, first)) == spent_hashes(transactions),
        made_outputs(transactions.update(0, first)) == made_outputs(transactions),
        transactions_result(transactions.update(0, first), utxos, transactions.len() as int)
            == transactions_result(transactions, utxos, transactions.len() as int),
{
    let changed = transactions.update(0, first);
    let n = transactions.len() as int;
    crate::seqs::lemma_joined_same(spent_parts(changed), spent_parts(transactions), n);
    crate::seqs::lemma_joined_same(made_parts(changed), made_parts(transactions), n);
    lemma_result_same(changed, transactions, utxos, n);
}

/// The check of the transactions behind the first depends on them only.
pub proof fn lemma_result_same(a: Seq<TransactionView>, b: Seq<TransactionView>, utxos: Utxos,
    n: int)
    requires
        0 <= n <= a.len(),
        n <= b.len(),
        forall|i: int| 1 <= i < n ==> a[i] == b[i],
    ensures
        transactions_result(a, utxos, n) == transactions_result(b, utxos, n),
    decreases n,
{
    if n > 1 {
        lemma_result_same(a, b, utxos, n - 1);
    }
}

} // verus!
