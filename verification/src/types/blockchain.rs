//! The chain: its blocks, the outputs not yet spent, the target that the
//! next block has to meet, and the transactions that wait for a block.

use crate::error::BtcError;
use crate::time::{second, whole_seconds, Timestamp};
use crate::seqs::{lemma_filter_empty, lemma_filter_step};
use crate::types::block::{
    all_known, block_reward_value, coinbase_result, input_hashes, lemma_count_bound,
    lemma_total_value_bound, made_outputs, miner_fees_result, spend_inputs, spent_hashes,
    sum_outputs, total_value, verify_transactions_result, Block, BlockView, Utxos,
};
use crate::types::transaction::output_total;
use crate::util::hash_values;
use crate::types::transaction::{Transaction, TransactionView};
use crate::types::utxo::UtxoSet;
use crate::u256::{all_digits, clamp_value, decimal_text, decimal_value, DecimalError, U256};
use crate::util::{merkle_root_value, transaction_hashes, MerkleRoot};
use crate::{min_target, min_target_value};
use vstd::prelude::*;

verus! {

/// The decimal text of the number with the digits `value`, times `numerator`
/// over `denominator`, as the decimal arithmetic writes it; `None` where
/// `value` is empty.
pub uninterp spec fn scaled_decimal(value: Seq<u8>, numerator: i64, denominator: u64) -> Option<
    Seq<u8>,
>;

/// Reads the digits with `BigDecimal::parse_bytes` in base ten, makes a
/// `BigDecimal` of each of the two integers with `BigDecimal::from`, divides
/// the first of them by the second, multiplies the number read by the
/// quotient and writes the product with `to_string`. The division keeps as
/// many digits as the crate was built to keep. Digits alone are admitted, so
/// that the number read has no exponent and the product's scale is that of
/// the quotient.
#[verifier::external_body]
fn scale_decimal(value: &[u8], numerator: i64, denominator: u64) -> (r: Option<Vec<u8>>)
    requires
        all_digits(value@),
        denominator > 0,
    ensures
        match r {
            Some(text) => scaled_decimal(value@, numerator, denominator) == Some(text@),
            None => scaled_decimal(value@, numerator, denominator) is None,
        },
{
    match bigdecimal::BigDecimal::parse_bytes(value, 10) {
        Some(v) => Some(
            (v * (bigdecimal::BigDecimal::from(numerator) / bigdecimal::BigDecimal::from(
                denominator,
            ))).to_string().into_bytes(),
        ),
        None => None,
    }
}

/// The number of bytes before the first `.` of a text.
pub open spec fn dot_place(text: Seq<u8>) -> int
    decreases text.len(),
{
    if text.len() == 0 {
        0
    } else if text[0] == 46 {
        0
    } else {
        1 + dot_place(text.drop_first())
    }
}

/// What stands before the first `.` of a text.
pub open spec fn integer_part(text: Seq<u8>) -> Seq<u8> {
    text.subrange(0, dot_place(text))
}

/// The smaller of two numbers.
pub open spec fn smaller(a: nat, b: nat) -> nat {
    if a <= b {
        a
    } else {
        b
    }
}

/// Whether a text is a `-` and digits behind it: a number below zero, or
/// zero.
pub open spec fn is_negative(text: Seq<u8>) -> bool {
    text.len() > 0 && text[0] == 45 && all_digits(text.skip(1))
}

/// The target that follows `current` where the decimal arithmetic wrote
/// `scaled` for the scaled target: what stands before the `.`, read as a
/// number, brought between a quarter of `current` and four times `current`,
/// and no easier than the easiest target. A number below zero gives the
/// quarter. `None` where what stands before the `.` is no number.
pub open spec fn next_target_value(current: nat, scaled: Seq<u8>) -> Option<nat> {
    let digits = integer_part(scaled);
    if all_digits(digits) {
        Some(
            smaller(
                clamp_value(decimal_value(digits), current / 4, current * 4),
                min_target_value(),
            ),
        )
    } else if is_negative(digits) {
        Some(smaller(current / 4, min_target_value()))
    } else {
        None
    }
}

/// The target that follows `current` where the decimal arithmetic wrote
/// `scaled` for the scaled target.
#[verifier::rlimit(30)]
pub fn next_target(current: U256, scaled: &[u8]) -> (r: Option<U256>)
    ensures
        match r {
            Some(t) => next_target_value(current@, scaled@) == Some(t@),
            None => next_target_value(current@, scaled@) is None,
        },
{
    let mut dot: usize = 0;
    assert(scaled@.subrange(0, scaled.len() as int) =~= scaled@);
    while dot < scaled.len() && scaled[dot] != 46
        invariant
            dot <= scaled.len(),
            dot_place(scaled@) == dot + dot_place(scaled@.subrange(dot as int, scaled.len() as int)),
        decreases scaled.len() - dot,
    {
        proof {
            let rest = scaled@.subrange(dot as int, scaled.len() as int);
            assert(rest.drop_first() =~= scaled@.subrange(dot + 1, scaled.len() as int));
        }
        dot = dot + 1;
    }
    proof {
        let rest = scaled@.subrange(dot as int, scaled.len() as int);
        assert(dot_place(rest) == 0);
    }
    let digits = vstd::slice::slice_subrange(scaled, 0, dot);
    let low = current.div_u64(4);
    let high = current.checked_mul_u64(4);
    let easiest = min_target();
    assert(digits@ == integer_part(scaled@));
    if dot > 0 && scaled[0] == 45 {
        let mut k: usize = 1;
        while k < dot
            invariant
                1 <= k <= dot,
                dot == digits@.len(),
                digits@ == integer_part(scaled@),
                digits@[0] == 45,
                forall|i: int|
                    0 <= i < k - 1 ==> crate::u256::is_digit(#[trigger] digits@.skip(1)[i]),
            decreases dot - k,
        {
            if digits[k] < 48 || digits[k] > 57 {
                assert(!crate::u256::is_digit(digits@.skip(1)[k - 1]));
                assert(!crate::u256::is_digit(digits@[0]));
                return None;
            }
            k = k + 1;
        }
        assert(!crate::u256::is_digit(digits@[0]));
        return Some(low.min(easiest));
    }
    assert(!is_negative(digits@));
    proof {
        vstd::arithmetic::div_mod::lemma_div_is_ordered_by_denominator(current@ as int, 1, 4);
        assert(current@ / 4 <= current@ * 4) by (nonlinear_arith)
            requires
                current@ / 4 <= current@ / 1,
                current@ / 1 == current@,
        ;
    }
    match U256::from_decimal(digits) {
        Ok(v) => {
            let clamped = if v.lt(&low) {
                low
            } else {
                match high {
                    Some(h) => if h.lt(&v) {
                        h
                    } else {
                        v
                    },
                    None => {
                        proof {
                            v.lemma_bounded();
                        }
                        v
                    },
                }
            };
            Some(clamped.min(easiest))
        },
        Err(DecimalError::Overflow) => {
            match high {
                Some(h) => Some(h.min(easiest)),
                None => Some(easiest),
            }
        },
        Err(DecimalError::InvalidCharacter) => None,
    }
}

/// The chain with its ledger.
#[derive(Debug)]
pub struct Blockchain {
    utxos: UtxoSet,
    target: U256,
    blocks: Vec<Block>,
    mempool: Vec<(Timestamp, Transaction)>,
}

pub struct BlockchainView {
    /// The unspent outputs: for each hash, whether a pending transaction
    /// spends the output, and the output.
    pub utxos: Utxos,
    /// The target that the next block is meant to meet.
    pub target: nat,
    pub blocks: Seq<BlockView>,
    /// The pending transactions, each with the instant at which it came.
    pub mempool: Seq<(int, TransactionView)>,
}

/// The views of a sequence of blocks.
pub open spec fn blocks_view(blocks: Seq<Block>) -> Seq<BlockView> {
    blocks.map_values(|b: Block| b@)
}

/// The views of pending transactions.
pub open spec fn mempool_view(mempool: Seq<(Timestamp, Transaction)>) -> Seq<
    (int, TransactionView),
> {
    mempool.map_values(|e: (Timestamp, Transaction)| (e.0@, e.1@))
}

impl View for Blockchain {
    type V = BlockchainView;

    closed spec fn view(&self) -> BlockchainView {
        BlockchainView {
            utxos: self.utxos@,
            target: self.target@,
            blocks: blocks_view(self.blocks@),
            mempool: mempool_view(self.mempool@),
        }
    }
}

impl Default for Blockchain {
    fn default() -> (r: Self)
        ensures
            r@.blocks == Seq::<BlockView>::empty(),
            r@.mempool == Seq::<(int, TransactionView)>::empty(),
            r@.utxos == Map::<nat, (bool, crate::types::transaction::TransactionOutputView)>::empty(),
            r@.target == min_target_value(),
    {
        Self::new()
    }
}

/// Whether `block` may follow the chain, and why not.
pub open spec fn add_block_result(chain: BlockchainView, block: BlockView) -> Result<
    (),
    BtcError,
> {
    if chain.blocks.len() == 0 {
        if block.header.prev_block_hash != 0 {
            Err(BtcError::InvalidBlock)
        } else {
            Ok(())
        }
    } else {
        let last = chain.blocks.last();
        if block.header.prev_block_hash != last.hash_value() {
            Err(BtcError::InvalidHash)
        } else if !block.header.solved() {
            Err(BtcError::InvalidBlock)
        } else if merkle_root_value(block.transactions) != Some(block.header.merkle_root) {
            Err(BtcError::InvalidMerkleRoot)
        } else if block.header.timestamp <= last.header.timestamp {
            Err(BtcError::InvalidBlock)
        } else {
            verify_transactions_result(
                block.transactions,
                chain.blocks.len() as u64,
                chain.utxos,
            )
        }
    }
}

/// Whether a pending transaction is none of those with the hashes
/// `included`.
pub open spec fn not_included(included: Seq<nat>) -> spec_fn((int, TransactionView)) -> bool {
    |e: (int, TransactionView)| !included.contains(e.1.hash_value())
}

/// The target after an adjustment. It stays as it is unless the number of
/// blocks is a positive multiple of the update interval. Then it is
/// multiplied, in decimal arithmetic, by the seconds between the last block
/// and the one an interval before the end over the seconds that an interval
/// should take.
pub open spec fn adjusted_target(chain: BlockchainView) -> nat {
    let n = chain.blocks.len() as int;
    let interval = crate::DIFFICULTY_UPDATE_INTERVAL as int;
    if n == 0 || n % interval != 0 {
        chain.target
    } else {
        let elapsed = whole_seconds(
            chain.blocks[n - 1].header.timestamp - chain.blocks[n - interval].header.timestamp,
        );
        match scaled_decimal(
            decimal_text(chain.target),
            elapsed as i64,
            (crate::IDEAL_BLOCK_TIME * crate::DIFFICULTY_UPDATE_INTERVAL) as u64,
        ) {
            Some(text) => match next_target_value(chain.target, text) {
                Some(t) => t,
                None => chain.target,
            },
            None => chain.target,
        }
    }
}

impl BlockchainView {
    /// The chain after `block` was appended: the pending transactions that
    /// the block holds are gone, the target is adjusted.
    pub open spec fn with_block(self, block: BlockView) -> BlockchainView {
        let pending = BlockchainView {
            mempool: self.mempool.filter(not_included(transaction_hashes(block.transactions))),
            ..self
        };
        BlockchainView {
            target: adjusted_target(pending),
            blocks: self.blocks.push(block),
            ..pending
        }
    }
}

impl Blockchain {
    /// What holds of every chain: its target is no easier than the easiest
    /// target.
    #[verifier::type_invariant]
    pub closed spec fn wf(self) -> bool {
        self.target@ <= min_target_value()
    }

    /// An empty chain with the easiest target.
    pub fn new() -> (r: Self)
        ensures
            r@.utxos == Map::<nat, (bool, crate::types::transaction::TransactionOutputView)>::empty(),
            r@.target == min_target_value(),
            r@.blocks == Seq::<BlockView>::empty(),
            r@.mempool == Seq::<(int, TransactionView)>::empty(),
    {
        let r = Self {
            utxos: UtxoSet::new(),
            blocks: Vec::new(),
            mempool: Vec::new(),
            target: min_target(),
        };
        assert(r@.blocks =~= Seq::<BlockView>::empty());
        assert(r@.mempool =~= Seq::<(int, TransactionView)>::empty());
        r
    }

    /// A chain as it was stored: with unspent outputs, a target and blocks,
    /// and without pending transactions. There is none where the target is
    /// easier than the easiest.
    pub fn from_parts(utxos: UtxoSet, target: U256, blocks: Vec<Block>) -> (r: Option<Self>)
        ensures
            r is Some <==> target@ <= min_target_value(),
            r matches Some(chain) ==> chain@ == (BlockchainView {
                utxos: utxos@,
                target: target@,
                blocks: blocks_view(blocks@),
                mempool: Seq::empty(),
            }) && chain.utxo_listing() == utxos.listing(),
    {
        if !target.le(&min_target()) {
            return None;
        }
        let chain = Self { utxos, target, blocks, mempool: Vec::new() };
        assert(chain@.mempool =~= Seq::<(int, TransactionView)>::empty());
        Some(chain)
    }

    /// The unspent outputs one after the other, each with its hash and its
    /// mark.
    pub closed spec fn utxo_listing(&self) -> Seq<
        (nat, bool, crate::types::transaction::TransactionOutputView),
    > {
        self.utxos.listing()
    }

    /// The unspent outputs.
    pub fn utxos(&self) -> (r: &UtxoSet)
        ensures
            r@ == self@.utxos,
            r.listing() == self.utxo_listing(),
            r.wf(),
    {
        proof {
            use_type_invariant(&self.utxos);
        }
        &self.utxos
    }

    /// The target that the next block is meant to meet.
    pub fn target(&self) -> (r: U256)
        ensures
            r@ == self@.target,
            r@ <= min_target_value(),
    {
        proof {
            use_type_invariant(self);
        }
        self.target
    }

    /// The blocks, the first one first.
    pub fn blocks(&self) -> (r: &Vec<Block>)
        ensures
            blocks_view(r@) == self@.blocks,
    {
        &self.blocks
    }

    /// The pending transactions, each with the instant at which it came.
    pub fn mempool(&self) -> (r: &[(Timestamp, Transaction)])
        ensures
            mempool_view(r@) == self@.mempool,
    {
        self.mempool.as_slice()
    }

    /// The number of blocks.
    pub fn block_height(&self) -> (r: u64)
        ensures
            r == self@.blocks.len(),
    {
        self.blocks.len() as u64
    }
}

/// The unspent outputs after a transaction: what its inputs name is gone,
/// and its own hash names the last of its outputs, unmarked.
pub open spec fn apply_transaction(utxos: Utxos, tx: TransactionView) -> Utxos {
    let left = utxos.remove_keys(input_hashes(tx).to_set());
    if tx.outputs.len() == 0 {
        left
    } else {
        left.insert(tx.hash_value(), (false, tx.outputs.last()))
    }
}

/// The unspent outputs after the first `n` of the transactions, in order.
pub open spec fn apply_transactions(
    utxos: Utxos,
    transactions: Seq<TransactionView>,
    n: int,
) -> Utxos
    decreases n,
{
    if n <= 0 {
        utxos
    } else {
        apply_transaction(apply_transactions(utxos, transactions, n - 1), transactions[n - 1])
    }
}

/// The unspent outputs after the first `n` blocks, starting from none.
pub open spec fn replay(blocks: Seq<BlockView>, n: int) -> Utxos
    decreases n,
{
    if n <= 0 {
        Map::empty()
    } else {
        apply_transactions(
            replay(blocks, n - 1),
            blocks[n - 1].transactions,
            blocks[n - 1].transactions.len() as int,
        )
    }
}

/// Applies one transaction to the unspent outputs.
#[verifier::rlimit(30)]
fn apply_to(utxos: &mut UtxoSet, tx: &Transaction)
    ensures
        final(utxos)@ == apply_transaction(old(utxos)@, tx@),
{
    let ghost start = utxos@;
    let ghost hashes = input_hashes(tx@);
    let mut k: usize = 0;
    proof {
        assert(hashes.subrange(0, 0).to_set() =~= Set::<nat>::empty());
        assert(start.remove_keys(Set::<nat>::empty()) =~= start);
    }
    while k < tx.inputs.len()
        invariant
            k <= tx.inputs.len(),
            hashes == input_hashes(tx@),
            utxos@ == start.remove_keys(hashes.subrange(0, k as int).to_set()),
        decreases tx.inputs.len() - k,
    {
        let h = tx.inputs[k].prev_transaction_output_hash;
        utxos.remove(&h);
        proof {
            assert(hashes[k as int] == h@);
            assert(hashes.subrange(0, k + 1) =~= hashes.subrange(0, k as int).push(h@));
            assert(hashes.subrange(0, k + 1).to_set() =~= hashes.subrange(0, k as int).to_set().insert(
                h@,
            )) by {
                let a = hashes.subrange(0, k as int);
                let b = a.push(h@);
                assert forall|x: nat| b.to_set().contains(x) == a.to_set().insert(h@).contains(
                    x,
                ) by {
                    if b.contains(x) {
                        let i = choose|i: int| 0 <= i < b.len() && b[i] == x;
                        if i < a.len() {
                            assert(a[i] == x);
                            assert(a.contains(x));
                        }
                    }
                    if a.contains(x) {
                        let i = choose|i: int| 0 <= i < a.len() && a[i] == x;
                        assert(b[i] == x);
                    }
                    if x == h@ {
                        assert(b[a.len() as int] == x);
                    }
                }
            }
            assert(utxos@ =~= start.remove_keys(hashes.subrange(0, k + 1).to_set()));
        }
        k = k + 1;
    }
    proof {
        assert(hashes.subrange(0, tx.inputs.len() as int) =~= hashes);
    }
    let ghost left = utxos@;
    if tx.outputs.len() == 0 {
        return;
    }
    let key = match tx.hash() {
        Ok(h) => h,
        Err(_) => {
            return;
        },
    };
    let mut m: usize = 0;
    while m < tx.outputs.len()
        invariant
            m <= tx.outputs.len(),
            tx.outputs.len() > 0,
            left == start.remove_keys(input_hashes(tx@).to_set()),
            key@ == tx@.hash_value(),
            m == 0 ==> utxos@ == left,
            m > 0 ==> utxos@ == left.insert(key@, (false, tx@.outputs[m - 1])),
        decreases tx.outputs.len() - m,
    {
        utxos.insert(key, false, tx.outputs[m].clone());
        proof {
            assert(tx@.outputs[m as int] == tx.outputs@[m as int]@);
            assert(utxos@ =~= left.insert(key@, (false, tx@.outputs[m as int])));
        }
        m = m + 1;
    }
}

impl Blockchain {
    /// Adjusts the target to the time that the last blocks took.
    #[verifier::rlimit(30)]
    pub fn try_adjust_target(&mut self)
        ensures
            final(self)@ == (BlockchainView {
                target: adjusted_target(old(self)@),
                ..old(self)@
            }),
    {
        proof {
            use_type_invariant(&*self);
        }
        let n: usize = self.blocks.len();
        if n == 0 {
            return;
        }
        let interval: usize = crate::DIFFICULTY_UPDATE_INTERVAL as usize;
        if n % interval != 0 {
            return;
        }
        let start = self.blocks[n - interval].header.timestamp;
        let end = self.blocks[n - 1].header.timestamp;
        proof {
            assert(self@.blocks[n - interval].header.timestamp == start@);
            assert(self@.blocks[n - 1].header.timestamp == end@);
        }
        let elapsed: i64 = end.seconds_since(&start);
        let digits = self.target.to_decimal();
        proof {
            crate::u256::lemma_decimal_round_trip(self.target@);
        }
        let scaled = scale_decimal(
            digits.as_slice(),
            elapsed,
            crate::IDEAL_BLOCK_TIME * crate::DIFFICULTY_UPDATE_INTERVAL,
        );
        match scaled {
            Some(text) => {
                match next_target(self.target, text.as_slice()) {
                    Some(t) => {
                        self.target = t;
                    },
                    None => {},
                }
            },
            None => {},
        }
    }

    /// Whether `block` may follow the chain, and why not.
    #[verifier::rlimit(30)]
    pub fn check_block(&self, block: &Block) -> (r: Result<(), BtcError>)
        ensures
            r == add_block_result(self@, block@),
    {
        let n: usize = self.blocks.len();
        if n == 0 {
            let zero = crate::sha256::Hash::zero();
            if block.header.prev_block_hash != zero {
                proof {
                    if block.header.prev_block_hash@ == 0 {
                        crate::u256::lemma_view_injective(block.header.prev_block_hash.0, zero.0);
                    }
                }
                return Err(BtcError::InvalidBlock);
            }
            return Ok(());
        }
        let last = &self.blocks[n - 1];
        assert(self@.blocks.last() == last@);
        let last_hash = match last.hash() {
            Ok(h) => h,
            Err(e) => {
                return Err(e);
            },
        };
        if block.header.prev_block_hash != last_hash {
            proof {
                if block.header.prev_block_hash@ == last_hash@ {
                    crate::u256::lemma_view_injective(block.header.prev_block_hash.0, last_hash.0);
                }
            }
            return Err(BtcError::InvalidHash);
        }
        let own_hash = match block.header.hash() {
            Ok(h) => h,
            Err(e) => {
                return Err(e);
            },
        };
        if !own_hash.matches_target(block.header.target) {
            return Err(BtcError::InvalidBlock);
        }
        match MerkleRoot::calculate(block.transactions.as_slice()) {
            Some(root) => {
                if root != block.header.merkle_root {
                    proof {
                        if root@ == block.header.merkle_root@ {
                            crate::u256::lemma_view_injective(
                                root.0.0,
                                block.header.merkle_root.0.0,
                            );
                        }
                    }
                    return Err(BtcError::InvalidMerkleRoot);
                }
            },
            None => {
                return Err(BtcError::InvalidMerkleRoot);
            },
        }
        if block.header.timestamp.le(&last.header.timestamp) {
            return Err(BtcError::InvalidBlock);
        }
        block.verify_transactions(n as u64, &self.utxos)
    }

    /// Appends `block` where it may follow the chain. The pending
    /// transactions that the block holds are dropped and the target is
    /// adjusted; the unspent outputs stay as they are. A block that is
    /// refused leaves the chain as it was.
    #[verifier::rlimit(30)]
    pub fn add_block(&mut self, block: Block) -> (r: Result<(), BtcError>)
        ensures
            r == add_block_result(old(self)@, block@),
            r is Ok ==> final(self)@ == old(self)@.with_block(block@),
            r is Err ==> final(self)@ == old(self)@,
    {
        proof {
            use_type_invariant(&*self);
        }
        match self.check_block(&block) {
            Ok(_) => {},
            Err(e) => {
                return Err(e);
            },
        }
        let hashes = hashes_of(&block.transactions);
        let kept = without_included(&self.mempool, &hashes);
        self.mempool = kept;
        self.try_adjust_target();
        let mut blocks: Vec<Block> = Vec::new();
        std::mem::swap(&mut blocks, &mut self.blocks);
        let ghost before = blocks@;
        blocks.push(block);
        proof {
            assert(blocks_view(blocks@) =~= blocks_view(before).push(block@));
        }
        self.blocks = blocks;
        Ok(())
    }

    /// Works out the unspent outputs anew: starting from none, every
    /// transaction of every block, in order, takes away what its inputs
    /// name and adds its outputs under its own hash, unmarked.
    #[verifier::rlimit(30)]
    pub fn rebuild_utxos(&mut self) -> (r: Result<(), BtcError>)
        ensures
            r is Ok,
            final(self)@ == (BlockchainView {
                utxos: replay(old(self)@.blocks, old(self)@.blocks.len() as int),
                ..old(self)@
            }),
    {
        proof {
            use_type_invariant(&*self);
        }
        let ghost blocks = self@.blocks;
        let mut utxos = UtxoSet::new();
        let mut b: usize = 0;
        while b < self.blocks.len()
            invariant
                b <= self.blocks.len(),
                blocks == blocks_view(self.blocks@),
                utxos@ == replay(blocks, b as int),
                self@ == old(self)@,
                self.wf(),
            decreases self.blocks.len() - b,
        {
            let block = &self.blocks[b];
            proof {
                assert(blocks[b as int] == block@);
            }
            let ghost base = utxos@;
            let mut t: usize = 0;
            while t < block.transactions.len()
                invariant
                    t <= block.transactions.len(),
                    utxos@ == apply_transactions(base, block@.transactions, t as int),
                decreases block.transactions.len() - t,
            {
                proof {
                    assert(block@.transactions[t as int] == block.transactions@[t as int]@);
                }
                apply_to(&mut utxos, &block.transactions[t]);
                t = t + 1;
            }
            b = b + 1;
        }
        self.utxos = utxos;
        Ok(())
    }
}

/// The hashes of the transactions.
fn hashes_of(transactions: &Vec<Transaction>) -> (r: Vec<crate::sha256::Hash>)
    ensures
        hash_values(r@) == transaction_hashes(crate::util::transactions_view(transactions@)),
{
    let ghost included = transaction_hashes(crate::util::transactions_view(transactions@));
    let mut hashes: Vec<crate::sha256::Hash> = Vec::new();
    let mut i: usize = 0;
    assert(hash_values(hashes@) =~= included.subrange(0, 0));
    while i < transactions.len()
        invariant
            i <= transactions.len(),
            included == transaction_hashes(crate::util::transactions_view(transactions@)),
            hash_values(hashes@) == included.subrange(0, i as int),
        decreases transactions.len() - i,
    {
        let ghost before = hashes@;
        let h = match transactions[i].hash() {
            Ok(h) => h,
            Err(_) => crate::sha256::Hash::zero(),
        };
        hashes.push(h);
        proof {
            assert(crate::util::transactions_view(transactions@)[i as int]
                == transactions@[i as int]@);
            assert(hash_values(hashes@) =~= hash_values(before).push(h@));
            assert(included.subrange(0, i + 1) =~= included.subrange(0, i as int).push(
                included[i as int],
            ));
        }
        i = i + 1;
    }
    assert(included.subrange(0, transactions.len() as int) =~= included);
    hashes
}

/// The pending transactions that have none of the hashes.
fn without_included(
    mempool: &Vec<(Timestamp, Transaction)>,
    hashes: &Vec<crate::sha256::Hash>,
) -> (r: Vec<(Timestamp, Transaction)>)
    ensures
        mempool_view(r@) == mempool_view(mempool@).filter(not_included(hash_values(hashes@))),
{
    let ghost pending = mempool_view(mempool@);
    let ghost pred = not_included(hash_values(hashes@));
    let mut kept: Vec<(Timestamp, Transaction)> = Vec::new();
    let mut j: usize = 0;
    proof {
        assert(pending.subrange(0, 0) =~= Seq::<(int, TransactionView)>::empty());
        lemma_filter_empty(pred);
        assert(mempool_view(kept@) =~= Seq::<(int, TransactionView)>::empty());
    }
    while j < mempool.len()
        invariant
            j <= mempool.len(),
            pending == mempool_view(mempool@),
            pred == not_included(hash_values(hashes@)),
            mempool_view(kept@) == pending.subrange(0, j as int).filter(pred),
        decreases mempool.len() - j,
    {
        let ghost before = kept@;
        let h = match mempool[j].1.hash() {
            Ok(h) => h,
            Err(_) => crate::sha256::Hash::zero(),
        };
        proof {
            lemma_filter_step(pending, pred, j as int);
            assert(pending[j as int] == (mempool@[j as int].0@, mempool@[j as int].1@));
        }
        if !contains_hash_value(hashes, &h) {
            let entry = (mempool[j].0, mempool[j].1.clone());
            kept.push(entry);
            proof {
                assert(mempool_view(kept@) =~= mempool_view(before).push(pending[j as int]));
            }
        }
        j = j + 1;
    }
    assert(pending.subrange(0, mempool.len() as int) =~= pending);
    kept
}

/// Whether `hash` is one of `list`.
fn contains_hash_value(list: &Vec<crate::sha256::Hash>, hash: &crate::sha256::Hash) -> (r: bool)
    ensures
        r == hash_values(list@).contains(hash@),
{
    let mut i: usize = 0;
    while i < list.len()
        invariant
            i <= list.len(),
            forall|k: int| 0 <= k < i ==> hash_values(list@)[k] != hash@,
        decreases list.len() - i,
    {
        if list[i] == *hash {
            assert(hash_values(list@)[i as int] == hash@);
            return true;
        }
        proof {
            if list@[i as int]@ == hash@ {
                crate::u256::lemma_view_injective(list@[i as int].0, hash.0);
            }
        }
        i = i + 1;
    }
    false
}

/// What a pending transaction leaves to the miner: the amounts of the
/// unspent outputs that its inputs name, less the amounts of its outputs.
pub open spec fn miner_fee(tx: TransactionView, utxos: Utxos) -> int {
    total_value(input_hashes(tx), utxos) - output_total(tx.outputs)
}

/// Whether the pending transactions stand in the order of their fees, the
/// smallest fee first.
pub open spec fn sorted_by_fee(mempool: Seq<(int, TransactionView)>, utxos: Utxos) -> bool {
    forall|i: int, j: int|
        0 <= i <= j < mempool.len() ==> miner_fee(mempool[i].1, utxos) <= miner_fee(
            mempool[j].1,
            utxos,
        )
}

/// The place of the first entry with a fee above `fee`; the length where
/// there is none.
pub open spec fn insert_place(sorted: Seq<(int, TransactionView)>, fee: int, utxos: Utxos) -> int
    decreases sorted.len(),
{
    if sorted.len() == 0 {
        0
    } else if miner_fee(sorted[0].1, utxos) > fee {
        0
    } else {
        1 + insert_place(sorted.drop_first(), fee, utxos)
    }
}

/// The entries with one more, put behind the entries of no greater fee.
pub open spec fn insert_by_fee(
    sorted: Seq<(int, TransactionView)>,
    entry: (int, TransactionView),
    utxos: Utxos,
) -> Seq<(int, TransactionView)> {
    sorted.insert(insert_place(sorted, miner_fee(entry.1, utxos), utxos), entry)
}

/// The first `n` entries in the order of their fees; entries of one fee
/// keep their order.
pub open spec fn sort_by_fee(entries: Seq<(int, TransactionView)>, utxos: Utxos, n: int) -> Seq<
    (int, TransactionView),
>
    decreases n,
{
    if n <= 0 {
        Seq::empty()
    } else {
        insert_by_fee(sort_by_fee(entries, utxos, n - 1), entries[n - 1], utxos)
    }
}

pub proof fn lemma_insert_place(sorted: Seq<(int, TransactionView)>, fee: int, utxos: Utxos)
    ensures
        0 <= insert_place(sorted, fee, utxos) <= sorted.len(),
        forall|i: int|
            0 <= i < insert_place(sorted, fee, utxos) ==> miner_fee(
                (#[trigger] sorted[i]).1,
                utxos,
            ) <= fee,
        insert_place(sorted, fee, utxos) < sorted.len() ==> miner_fee(
            sorted[insert_place(sorted, fee, utxos)].1,
            utxos,
        ) > fee,
    decreases sorted.len(),
{
    if sorted.len() > 0 && miner_fee(sorted[0].1, utxos) <= fee {
        lemma_insert_place(sorted.drop_first(), fee, utxos);
        assert forall|i: int| 0 <= i < insert_place(sorted, fee, utxos) implies miner_fee(
            (#[trigger] sorted[i]).1,
            utxos,
        ) <= fee by {
            if i > 0 {
                assert(sorted[i] == sorted.drop_first()[i - 1]);
            }
        }
        let p = insert_place(sorted.drop_first(), fee, utxos);
        if p < sorted.drop_first().len() {
            assert(sorted[p + 1] == sorted.drop_first()[p]);
        }
    }
}

/// Putting an entry into entries that are in order leaves them in order.
pub proof fn lemma_insert_keeps_order(
    sorted: Seq<(int, TransactionView)>,
    entry: (int, TransactionView),
    utxos: Utxos,
)
    requires
        sorted_by_fee(sorted, utxos),
    ensures
        sorted_by_fee(insert_by_fee(sorted, entry, utxos), utxos),
{
    let fee = miner_fee(entry.1, utxos);
    let p = insert_place(sorted, fee, utxos);
    lemma_insert_place(sorted, fee, utxos);
    let longer = insert_by_fee(sorted, entry, utxos);
    assert forall|i: int, j: int| 0 <= i <= j < longer.len() implies miner_fee(
        longer[i].1,
        utxos,
    ) <= miner_fee(longer[j].1, utxos) by {
        let fi = if i < p { sorted[i] } else if i == p { entry } else { sorted[i - 1] };
        let fj = if j < p { sorted[j] } else if j == p { entry } else { sorted[j - 1] };
        assert(longer[i] == fi);
        assert(longer[j] == fj);
        if j > p && p < sorted.len() {
            assert(miner_fee(sorted[p].1, utxos) <= miner_fee(sorted[j - 1].1, utxos));
        }
    }
}

/// Sorted entries are in order, and are the entries that were given.
pub proof fn lemma_sort_by_fee(entries: Seq<(int, TransactionView)>, utxos: Utxos, n: int)
    requires
        0 <= n <= entries.len(),
    ensures
        sorted_by_fee(sort_by_fee(entries, utxos, n), utxos),
        sort_by_fee(entries, utxos, n).len() == n,
        sort_by_fee(entries, utxos, n).to_multiset() == entries.subrange(0, n).to_multiset(),
    decreases n,
{
    if n > 0 {
        lemma_sort_by_fee(entries, utxos, n - 1);
        let before = sort_by_fee(entries, utxos, n - 1);
        let entry = entries[n - 1];
        lemma_insert_keeps_order(before, entry, utxos);
        lemma_insert_place(before, miner_fee(entry.1, utxos), utxos);
        let p = insert_place(before, miner_fee(entry.1, utxos), utxos);
        vstd::seq_lib::to_multiset_insert(before, p, entry);
        vstd::seq_lib::to_multiset_build(entries.subrange(0, n - 1), entry);
        assert(entries.subrange(0, n) =~= entries.subrange(0, n - 1).push(entry));
    } else {
        assert(entries.subrange(0, 0) =~= Seq::<(int, TransactionView)>::empty());
    }
}

/// The unspent outputs with the mark of the one known by `hash` set.
pub open spec fn set_mark(utxos: Utxos, hash: nat, reserved: bool) -> Utxos {
    if utxos.contains_key(hash) {
        utxos.insert(hash, (reserved, utxos[hash].1))
    } else {
        utxos
    }
}

/// The unspent outputs with the marks of those known by the first `n`
/// hashes set.
pub open spec fn mark_all(utxos: Utxos, hashes: Seq<nat>, reserved: bool, n: int) -> Utxos
    decreases n,
{
    if n <= 0 {
        utxos
    } else {
        set_mark(mark_all(utxos, hashes, reserved, n - 1), hashes[n - 1], reserved)
    }
}

/// Whether entry `i` is the first pending transaction with the hash `hash`.
pub open spec fn is_producer(mempool: Seq<(int, TransactionView)>, hash: nat, i: int) -> bool {
    &&& 0 <= i < mempool.len()
    &&& mempool[i].1.hash_value() == hash
    &&& forall|j: int| 0 <= j < i ==> (#[trigger] mempool[j]).1.hash_value() != hash
}

/// Whether some pending transaction has the hash `hash`.
pub open spec fn has_producer(mempool: Seq<(int, TransactionView)>, hash: nat) -> bool {
    exists|i: int| is_producer(mempool, hash, i)
}

/// The place of the first pending transaction with the hash `hash`.
pub open spec fn producer(mempool: Seq<(int, TransactionView)>, hash: nat) -> int {
    choose|i: int| is_producer(mempool, hash, i)
}

/// What an input that names `hash` does to a marked output: where a pending
/// transaction has that hash, it leaves the pool and the outputs that its
/// inputs name lose their marks; else the output known by `hash` loses its
/// mark.
pub open spec fn resolve_conflict(
    utxos: Utxos,
    mempool: Seq<(int, TransactionView)>,
    hash: nat,
) -> (Utxos, Seq<(int, TransactionView)>) {
    if utxos.contains_key(hash) && utxos[hash].0 {
        if has_producer(mempool, hash) {
            let i = producer(mempool, hash);
            let inputs = input_hashes(mempool[i].1);
            (mark_all(utxos, inputs, false, inputs.len() as int), mempool.remove(i))
        } else {
            (set_mark(utxos, hash, false), mempool)
        }
    } else {
        (utxos, mempool)
    }
}

/// What the first `n` of the hashes do, one after the other.
pub open spec fn resolve_conflicts(
    utxos: Utxos,
    mempool: Seq<(int, TransactionView)>,
    hashes: Seq<nat>,
    n: int,
) -> (Utxos, Seq<(int, TransactionView)>)
    decreases n,
{
    if n <= 0 {
        (utxos, mempool)
    } else {
        let before = resolve_conflicts(utxos, mempool, hashes, n - 1);
        resolve_conflict(before.0, before.1, hashes[n - 1])
    }
}

/// Whether a transaction may join the pending ones: every input names an
/// unspent output, no two name the same one, and the outputs do not exceed
/// what the inputs hold.
pub open spec fn mempool_result(chain: BlockchainView, tx: TransactionView) -> Result<
    (),
    BtcError,
> {
    let hashes = input_hashes(tx);
    if all_known(hashes, chain.utxos) && hashes.no_duplicates() && total_value(
        hashes,
        chain.utxos,
    ) >= output_total(tx.outputs) {
        Ok(())
    } else {
        Err(BtcError::InvalidTransaction)
    }
}

/// Whether a transaction that came at `arrival` is too old at `now`.
pub open spec fn expired(arrival: int, now: int) -> bool {
    now - arrival > crate::MAX_MEMPOOL_TRANSACTION_AGE * second()
}

/// Whether a pending transaction is not too old at `now`.
pub open spec fn is_fresh(now: int) -> spec_fn((int, TransactionView)) -> bool {
    |e: (int, TransactionView)| !expired(e.0, now)
}

/// The unspent outputs after those that the inputs of the expired among the
/// first `n` pending transactions name have lost their marks.
pub open spec fn release_expired(
    utxos: Utxos,
    mempool: Seq<(int, TransactionView)>,
    now: int,
    n: int,
) -> Utxos
    decreases n,
{
    if n <= 0 {
        utxos
    } else {
        let before = release_expired(utxos, mempool, now, n - 1);
        if expired(mempool[n - 1].0, now) {
            let inputs = input_hashes(mempool[n - 1].1);
            mark_all(before, inputs, false, inputs.len() as int)
        } else {
            before
        }
    }
}

impl BlockchainView {
    /// The chain after `tx` joined the pending transactions at `now`.
    pub open spec fn with_pending(self, tx: TransactionView, now: int) -> BlockchainView {
        let hashes = input_hashes(tx);
        let resolved = resolve_conflicts(self.utxos, self.mempool, hashes, hashes.len() as int);
        let marked = mark_all(resolved.0, hashes, true, hashes.len() as int);
        BlockchainView {
            utxos: marked,
            mempool: sort_by_fee(resolved.1.push((now, tx)), marked, (resolved.1.len() + 1) as int),
            ..self
        }
    }

    /// The chain after the pending transactions that are too old at `now`
    /// were dropped.
    pub open spec fn without_expired(self, now: int) -> BlockchainView {
        BlockchainView {
            utxos: release_expired(self.utxos, self.mempool, now, self.mempool.len() as int),
            mempool: self.mempool.filter(is_fresh(now)),
            ..self
        }
    }
}

/// A fee: an amount that the miner gains, or one that is missing.
#[derive(Clone, Copy, Debug)]
struct Fee {
    missing: bool,
    amount: u128,
}

impl View for Fee {
    type V = int;

    closed spec fn view(&self) -> int {
        if self.missing {
            -(self.amount as int)
        } else {
            self.amount as int
        }
    }
}

impl Fee {
    /// Whether `self` is greater than `other`.
    fn above(&self, other: &Fee) -> (r: bool)
        ensures
            r == (self@ > other@),
    {
        if self.missing {
            other.missing && self.amount < other.amount
        } else if other.missing {
            self.amount > 0 || other.amount > 0
        } else {
            self.amount > other.amount
        }
    }
}

/// The fee that a transaction leaves to the miner.
fn fee_of(tx: &Transaction, utxos: &UtxoSet) -> (r: Fee)
    ensures
        r@ == miner_fee(tx@, utxos@),
{
    let ghost hashes = input_hashes(tx@);
    let mut total_in: u128 = 0;
    let mut k: usize = 0;
    assert(hashes.subrange(0, 0) =~= Seq::<nat>::empty());
    while k < tx.inputs.len()
        invariant
            k <= tx.inputs.len(),
            hashes == input_hashes(tx@),
            total_in == total_value(hashes.subrange(0, k as int), utxos@),
        decreases tx.inputs.len() - k,
    {
        proof {
            assert(hashes[k as int] == tx.inputs@[k as int].prev_transaction_output_hash@);
            lemma_total_value_bound(hashes.subrange(0, k as int), utxos@);
            lemma_count_bound(k as nat);
            assert(hashes.subrange(0, k + 1).drop_last() =~= hashes.subrange(0, k as int));
        }
        match utxos.get(&tx.inputs[k].prev_transaction_output_hash) {
            Some((_, output)) => {
                total_in = total_in + output.value as u128;
            },
            None => {},
        }
        k = k + 1;
    }
    assert(hashes.subrange(0, tx.inputs.len() as int) =~= hashes);
    let total_out = sum_outputs(&tx.outputs);
    if total_in >= total_out {
        Fee { missing: false, amount: total_in - total_out }
    } else {
        Fee { missing: true, amount: total_out - total_in }
    }
}

/// The entries in the order of their fees.
#[verifier::rlimit(30)]
fn sort_mempool(entries: &Vec<(Timestamp, Transaction)>, utxos: &UtxoSet) -> (r: Vec<
    (Timestamp, Transaction),
>)
    ensures
        mempool_view(r@) == sort_by_fee(mempool_view(entries@), utxos@, entries@.len() as int),
{
    let ghost views = mempool_view(entries@);
    let mut sorted: Vec<(Timestamp, Transaction)> = Vec::new();
    let mut fees: Vec<Fee> = Vec::new();
    let mut i: usize = 0;
    assert(mempool_view(sorted@) =~= Seq::<(int, TransactionView)>::empty());
    while i < entries.len()
        invariant
            i <= entries.len(),
            views == mempool_view(entries@),
            mempool_view(sorted@) == sort_by_fee(views, utxos@, i as int),
            fees@.len() == sorted@.len(),
            forall|k: int|
                0 <= k < fees@.len() ==> (#[trigger] fees@[k])@ == miner_fee(
                    mempool_view(sorted@)[k].1,
                    utxos@,
                ),
        decreases entries.len() - i,
    {
        let entry = (entries[i].0, entries[i].1.clone());
        let fee = fee_of(&entry.1, utxos);
        let ghost before = mempool_view(sorted@);
        let ghost old_fees = fees@;
        proof {
            assert(views[i as int] == (entries@[i as int].0@, entries@[i as int].1@));
            assert(views[i as int] == (entry.0@, entry.1@));
            assert(before.subrange(0, before.len() as int) =~= before);
        }
        let mut p: usize = 0;
        while p < fees.len() && !fees[p].above(&fee)
            invariant
                p <= fees.len(),
                fees@.len() == sorted@.len(),
                before == mempool_view(sorted@),
                forall|k: int|
                    0 <= k < fees@.len() ==> (#[trigger] fees@[k])@ == miner_fee(
                        before[k].1,
                        utxos@,
                    ),
                insert_place(before, fee@, utxos@) == p + insert_place(
                    before.subrange(p as int, before.len() as int),
                    fee@,
                    utxos@,
                ),
            decreases fees.len() - p,
        {
            proof {
                let rest = before.subrange(p as int, before.len() as int);
                assert(rest[0] == before[p as int]);
                assert(rest.drop_first() =~= before.subrange(p + 1, before.len() as int));
            }
            p = p + 1;
        }
        proof {
            let rest = before.subrange(p as int, before.len() as int);
            if p < fees.len() {
                assert(rest[0] == before[p as int]);
            }
            assert(insert_place(rest, fee@, utxos@) == 0);
        }
        sorted.insert(p, entry);
        fees.insert(p, fee);
        proof {
            assert(mempool_view(sorted@) =~= before.insert(p as int, views[i as int]));
            assert forall|k: int| 0 <= k < fees@.len() implies (#[trigger] fees@[k])@ == miner_fee(
                mempool_view(sorted@)[k].1,
                utxos@,
            ) by {
                if k < p {
                    assert(fees@[k] == old_fees[k]);
                    assert(mempool_view(sorted@)[k] == before[k]);
                } else if k > p {
                    assert(fees@[k] == old_fees[k - 1]);
                    assert(mempool_view(sorted@)[k] == before[k - 1]);
                }
            }
        }
        i = i + 1;
    }
    sorted
}

/// Sets the marks of the unspent outputs that the inputs of `tx` name.
fn mark_inputs(utxos: &mut UtxoSet, tx: &Transaction, reserved: bool)
    ensures
        final(utxos)@ == mark_all(
            old(utxos)@,
            input_hashes(tx@),
            reserved,
            input_hashes(tx@).len() as int,
        ),
{
    let ghost hashes = input_hashes(tx@);
    let ghost start = utxos@;
    let mut k: usize = 0;
    while k < tx.inputs.len()
        invariant
            k <= tx.inputs.len(),
            hashes == input_hashes(tx@),
            utxos@ == mark_all(start, hashes, reserved, k as int),
        decreases tx.inputs.len() - k,
    {
        proof {
            assert(hashes[k as int] == tx.inputs@[k as int].prev_transaction_output_hash@);
        }
        utxos.set_reserved(&tx.inputs[k].prev_transaction_output_hash, reserved);
        k = k + 1;
    }
}

/// The place of the first pending transaction with the hash `hash`.
fn find_producer(mempool: &Vec<(Timestamp, Transaction)>, hash: &crate::sha256::Hash) -> (r:
    Option<usize>)
    ensures
        match r {
            Some(i) => is_producer(mempool_view(mempool@), hash@, i as int),
            None => !has_producer(mempool_view(mempool@), hash@),
        },
{
    let ghost views = mempool_view(mempool@);
    let mut i: usize = 0;
    while i < mempool.len()
        invariant
            i <= mempool.len(),
            views == mempool_view(mempool@),
            forall|j: int| 0 <= j < i ==> (#[trigger] views[j]).1.hash_value() != hash@,
        decreases mempool.len() - i,
    {
        proof {
            assert(views[i as int].1 == mempool@[i as int].1@);
        }
        match mempool[i].1.hash() {
            Ok(h) => {
                if h == *hash {
                    return Some(i);
                }
                proof {
                    if h@ == hash@ {
                        crate::u256::lemma_view_injective(h.0, hash.0);
                    }
                }
            },
            Err(_) => {},
        }
        i = i + 1;
    }
    proof {
        if has_producer(views, hash@) {
            let w = choose|w: int| is_producer(views, hash@, w);
            assert(views[w].1.hash_value() != hash@);
        }
    }
    None
}

impl Blockchain {
    /// Takes `transaction` among the pending ones, with `now` as the instant
    /// at which it came. A transaction that is refused leaves the chain as
    /// it was.
    #[verifier::rlimit(30)]
    pub fn add_to_mempool_at(&mut self, transaction: Transaction, now: Timestamp) -> (r: Result<
        (),
        BtcError,
    >)
        ensures
            r == mempool_result(old(self)@, transaction@),
            r is Ok ==> final(self)@ == old(self)@.with_pending(transaction@, now@),
            r is Ok ==> sorted_by_fee(final(self)@.mempool, final(self)@.utxos),
            r is Ok ==> forall|i: int|
                0 <= i < transaction@.inputs.len() ==> final(self)@.utxos.contains_key(
                    (#[trigger] transaction@.inputs[i]).prev_transaction_output_hash,
                ) && final(self)@.utxos[transaction@.inputs[i].prev_transaction_output_hash].0,
            r is Err ==> final(self)@ == old(self)@,
    {
        proof {
            use_type_invariant(&*self);
        }
        let ghost hashes = input_hashes(transaction@);
        let mut seen: Vec<crate::sha256::Hash> = Vec::new();
        let mut total_in: u128 = 0;
        proof {
            assert(hash_values(seen@) =~= Seq::<nat>::empty());
            assert(Seq::<nat>::empty() + hashes =~= hashes);
        }
        if !spend_inputs(&transaction, &self.utxos, &mut seen, &mut total_in) {
            return Err(BtcError::InvalidTransaction);
        }
        if total_in < sum_outputs(&transaction.outputs) {
            return Err(BtcError::InvalidTransaction);
        }
        let mut utxos = UtxoSet::new();
        std::mem::swap(&mut utxos, &mut self.utxos);
        let mut mempool: Vec<(Timestamp, Transaction)> = Vec::new();
        std::mem::swap(&mut mempool, &mut self.mempool);
        let ghost utxos0 = utxos@;
        let ghost mempool0 = mempool_view(mempool@);
        let mut k: usize = 0;
        while k < transaction.inputs.len()
            invariant
                k <= transaction.inputs.len(),
                hashes == input_hashes(transaction@),
                (utxos@, mempool_view(mempool@)) == resolve_conflicts(
                    utxos0,
                    mempool0,
                    hashes,
                    k as int,
                ),
            decreases transaction.inputs.len() - k,
        {
            let h = transaction.inputs[k].prev_transaction_output_hash;
            proof {
                assert(hashes[k as int] == h@);
            }
            let marked = match utxos.get(&h) {
                Some((reserved, _)) => reserved,
                None => false,
            };
            if marked {
                match find_producer(&mempool, &h) {
                    Some(i) => {
                        let ghost views = mempool_view(mempool@);
                        proof {
                            assert(has_producer(views, h@));
                            let c = producer(views, h@);
                            if c < i {
                                assert(views[c].1.hash_value() != h@);
                            } else if i < c {
                                assert(views[i as int].1.hash_value() != h@);
                            }
                            assert(views[i as int].1 == mempool@[i as int].1@);
                        }
                        let evicted = mempool.remove(i);
                        mark_inputs(&mut utxos, &evicted.1, false);
                        proof {
                            assert(mempool_view(mempool@) =~= views.remove(i as int));
                        }
                    },
                    None => {
                        utxos.set_reserved(&h, false);
                    },
                }
            }
            k = k + 1;
        }
        mark_inputs(&mut utxos, &transaction, true);
        let ghost resolved = mempool_view(mempool@);
        let ghost entry = (now@, transaction@);
        mempool.push((now, transaction));
        proof {
            assert(mempool_view(mempool@) =~= resolved.push(entry));
        }
        let sorted = sort_mempool(&mempool, &utxos);
        proof {
            lemma_sort_by_fee(mempool_view(mempool@), utxos@, mempool@.len() as int);
            lemma_resolve_keeps_keys(utxos0, mempool0, hashes, hashes.len() as int);
            lemma_marked(
                resolve_conflicts(utxos0, mempool0, hashes, hashes.len() as int).0,
                hashes,
                hashes.len() as int,
                utxos0,
            );
            assert forall|i: int| 0 <= i < entry.1.inputs.len() implies utxos@.contains_key(
                (#[trigger] entry.1.inputs[i]).prev_transaction_output_hash,
            ) && utxos@[entry.1.inputs[i].prev_transaction_output_hash].0 by {
                assert(hashes[i] == entry.1.inputs[i].prev_transaction_output_hash);
                assert(utxos0.contains_key(hashes[i]));
            }
        }
        self.utxos = utxos;
        self.mempool = sorted;
        Ok(())
    }

    /// Takes `transaction` among the pending ones, with the time of day as
    /// the instant at which it came. Where the clock shows no instant that a
    /// timestamp can hold, the transaction is refused like one that may not
    /// join.
    pub fn add_to_mempool(&mut self, transaction: Transaction) -> (r: Result<(), BtcError>)
        ensures
            r is Ok ==> mempool_result(old(self)@, transaction@) is Ok,
            r is Ok ==> exists|now: Timestamp|
                now.wf() && final(self)@ == #[trigger] old(self)@.with_pending(
                    transaction@,
                    now@,
                ),
            r is Ok ==> sorted_by_fee(final(self)@.mempool, final(self)@.utxos),
            r is Err ==> r == Err::<(), BtcError>(BtcError::InvalidTransaction) && final(self)@
                == old(self)@,
    {
        let now = match Timestamp::now() {
            Some(now) => now,
            None => {
                return Err(BtcError::InvalidTransaction);
            },
        };
        let ghost tx = transaction@;
        let r = self.add_to_mempool_at(transaction, now);
        proof {
            if r is Ok {
                assert(now.wf());
                assert(self@ == old(self)@.with_pending(tx, now@));
            }
        }
        r
    }

    /// Drops the pending transactions that came more than
    /// `MAX_MEMPOOL_TRANSACTION_AGE` seconds before `now`; the unspent
    /// outputs that their inputs name lose their marks.
    #[verifier::rlimit(30)]
    pub fn cleanup_mempool_at(&mut self, now: Timestamp) -> (r: Result<(), BtcError>)
        ensures
            r is Ok,
            final(self)@ == old(self)@.without_expired(now@),
            sorted_by_fee(old(self)@.mempool, old(self)@.utxos) ==> sorted_by_fee(
                final(self)@.mempool,
                old(self)@.utxos,
            ),
    {
        proof {
            use_type_invariant(&*self);
        }
        let mut utxos = UtxoSet::new();
        std::mem::swap(&mut utxos, &mut self.utxos);
        let mut mempool: Vec<(Timestamp, Transaction)> = Vec::new();
        std::mem::swap(&mut mempool, &mut self.mempool);
        let ghost utxos0 = utxos@;
        let ghost pending = mempool_view(mempool@);
        let ghost pred = is_fresh(now@);
        let mut kept: Vec<(Timestamp, Transaction)> = Vec::new();
        let mut i: usize = 0;
        proof {
            assert(pending.subrange(0, 0) =~= Seq::<(int, TransactionView)>::empty());
            lemma_filter_empty(pred);
            assert(mempool_view(kept@) =~= Seq::<(int, TransactionView)>::empty());
        }
        while i < mempool.len()
            invariant
                i <= mempool.len(),
                pending == mempool_view(mempool@),
                pred == is_fresh(now@),
                mempool_view(kept@) == pending.subrange(0, i as int).filter(pred),
                utxos@ == release_expired(utxos0, pending, now@, i as int),
            decreases mempool.len() - i,
        {
            let ghost before = kept@;
            proof {
                lemma_filter_step(pending, pred, i as int);
                assert(pending[i as int] == (mempool@[i as int].0@, mempool@[i as int].1@));
            }
            if mempool[i].0.older_than(&now, crate::MAX_MEMPOOL_TRANSACTION_AGE) {
                mark_inputs(&mut utxos, &mempool[i].1, false);
            } else {
                let entry = (mempool[i].0, mempool[i].1.clone());
                kept.push(entry);
                proof {
                    assert(mempool_view(kept@) =~= mempool_view(before).push(pending[i as int]));
                }
            }
            i = i + 1;
        }
        proof {
            assert(pending.subrange(0, mempool.len() as int) =~= pending);
            if sorted_by_fee(pending, utxos0) {
                lemma_filter_keeps_order(pending, pred, utxos0);
            }
        }
        self.utxos = utxos;
        self.mempool = kept;
        Ok(())
    }

    /// Drops the pending transactions that are too old at the time of day.
    /// Where the clock shows no instant that a timestamp can hold, nothing is
    /// dropped.
    pub fn cleanup_mempool(&mut self) -> (r: Result<(), BtcError>)
        ensures
            r is Ok,
            final(self)@ == old(self)@ || exists|now: Timestamp|
                now.wf() && final(self)@ == #[trigger] old(self)@.without_expired(now@),
    {
        let now = match Timestamp::now() {
            Some(now) => now,
            None => {
                return Ok(());
            },
        };
        let r = self.cleanup_mempool_at(now);
        proof {
            assert(now.wf());
            assert(self@ == old(self)@.without_expired(now@));
        }
        r
    }
}

/// Marks change no key, and no output.
pub proof fn lemma_mark_all(utxos: Utxos, hashes: Seq<nat>, reserved: bool, n: int)
    requires
        0 <= n <= hashes.len(),
    ensures
        mark_all(utxos, hashes, reserved, n).dom() == utxos.dom(),
        forall|h: nat|
            utxos.contains_key(h) ==> (#[trigger] mark_all(utxos, hashes, reserved, n)[h]).1
                == utxos[h].1,
        forall|i: int|
            0 <= i < n && utxos.contains_key(hashes[i]) ==> (#[trigger] mark_all(
                utxos,
                hashes,
                reserved,
                n,
            )[hashes[i]]).0 == reserved,
        forall|h: nat|
            utxos.contains_key(h) && !hashes.subrange(0, n).contains(h) ==> (#[trigger] mark_all(
                utxos,
                hashes,
                reserved,
                n,
            )[h]).0 == utxos[h].0,
    decreases n,
{
    if n > 0 {
        lemma_mark_all(utxos, hashes, reserved, n - 1);
        let before = mark_all(utxos, hashes, reserved, n - 1);
        let after = mark_all(utxos, hashes, reserved, n);
        assert(after.dom() =~= utxos.dom());
        assert forall|h: nat|
            utxos.contains_key(h) && !hashes.subrange(0, n).contains(h) implies (#[trigger] after[h]).0
            == utxos[h].0 by {
            assert(hashes.subrange(0, n)[n - 1] == hashes[n - 1]);
            let shorter = hashes.subrange(0, n - 1);
            if shorter.contains(h) {
                let i = choose|i: int| 0 <= i < shorter.len() && shorter[i] == h;
                assert(hashes.subrange(0, n)[i] == h);
            }
        }
    }
}

/// After the hashes were marked, the outputs they name are marked.
proof fn lemma_marked(utxos: Utxos, hashes: Seq<nat>, n: int, known: Utxos)
    requires
        n == hashes.len(),
        utxos.dom() == known.dom(),
    ensures
        forall|i: int|
            0 <= i < n && known.contains_key(hashes[i]) ==> mark_all(utxos, hashes, true, n).contains_key(
                #[trigger] hashes[i],
            ) && mark_all(utxos, hashes, true, n)[hashes[i]].0,
{
    lemma_mark_all(utxos, hashes, true, n);
    assert forall|i: int| 0 <= i < n && known.contains_key(hashes[i]) implies mark_all(
        utxos,
        hashes,
        true,
        n,
    ).contains_key(#[trigger] hashes[i]) && mark_all(utxos, hashes, true, n)[hashes[i]].0 by {
        assert(utxos.contains_key(hashes[i]));
        assert(mark_all(utxos, hashes, true, n).dom().contains(hashes[i]));
    }
}

/// Resolving conflicts changes no key.
pub proof fn lemma_resolve_keeps_keys(
    utxos: Utxos,
    mempool: Seq<(int, TransactionView)>,
    hashes: Seq<nat>,
    n: int,
)
    requires
        0 <= n <= hashes.len(),
    ensures
        resolve_conflicts(utxos, mempool, hashes, n).0.dom() == utxos.dom(),
    decreases n,
{
    if n > 0 {
        lemma_resolve_keeps_keys(utxos, mempool, hashes, n - 1);
        let before = resolve_conflicts(utxos, mempool, hashes, n - 1);
        let h = hashes[n - 1];
        if before.0.contains_key(h) && before.0[h].0 {
            if has_producer(before.1, h) {
                let i = producer(before.1, h);
                let inputs = input_hashes(before.1[i].1);
                lemma_mark_all(before.0, inputs, false, inputs.len() as int);
            } else {
                assert(set_mark(before.0, h, false).dom() =~= before.0.dom());
            }
        }
    }
}

/// What is left of entries in order is in order.
pub proof fn lemma_filter_keeps_order(
    mempool: Seq<(int, TransactionView)>,
    pred: spec_fn((int, TransactionView)) -> bool,
    utxos: Utxos,
)
    requires
        sorted_by_fee(mempool, utxos),
    ensures
        sorted_by_fee(mempool.filter(pred), utxos),
    decreases mempool.len(),
{
    reveal(Seq::filter);
    if mempool.len() > 0 {
        let shorter = mempool.drop_last();
        assert forall|i: int, j: int| 0 <= i <= j < shorter.len() implies miner_fee(
            shorter[i].1,
            utxos,
        ) <= miner_fee(shorter[j].1, utxos) by {
            assert(shorter[i] == mempool[i] && shorter[j] == mempool[j]);
        }
        lemma_filter_keeps_order(shorter, pred, utxos);
        let kept = shorter.filter(pred);
        if pred(mempool.last()) {
            let longer = kept.push(mempool.last());
            assert forall|i: int, j: int| 0 <= i <= j < longer.len() implies miner_fee(
                longer[i].1,
                utxos,
            ) <= miner_fee(longer[j].1, utxos) by {
                if j == kept.len() && i < kept.len() {
                    shorter.lemma_filter_contains_rev(pred, kept[i]);
                    let w = choose|w: int| 0 <= w < shorter.len() && shorter[w] == kept[i];
                    assert(mempool[w] == kept[i]);
                    assert(miner_fee(mempool[w].1, utxos) <= miner_fee(
                        mempool[mempool.len() - 1].1,
                        utxos,
                    ));
                }
            }
        }
    }
}

impl BlockchainView {
    /// Whether every block but the first was checked against the block
    /// before it: it names that block's hash, it is later, its header's hash
    /// meets its header's target, and its Merkle root is that of its
    /// transactions.
    pub open spec fn linked(self) -> bool {
        forall|i: int|
            1 <= i < self.blocks.len() ==> {
                &&& (#[trigger] self.blocks[i]).header.prev_block_hash == self.blocks[i
                    - 1].hash_value()
                &&& self.blocks[i].header.timestamp > self.blocks[i - 1].header.timestamp
                &&& self.blocks[i].header.solved()
                &&& merkle_root_value(self.blocks[i].transactions) == Some(
                    self.blocks[i].header.merkle_root,
                )
            }
    }

    /// Whether every marked output is named by an input of a pending
    /// transaction.
    pub open spec fn marks_have_spenders(self) -> bool {
        forall|h: nat|
            self.utxos.contains_key(h) && (#[trigger] self.utxos[h]).0 ==> is_spent_in(
                self.mempool,
                h,
            )
    }
}

impl BlockchainView {
    /// Whether every unspent output that an input of a pending transaction
    /// names is marked.
    pub open spec fn spenders_have_marks(self) -> bool {
        forall|i: int, h: nat|
            0 <= i < self.mempool.len() && #[trigger] spends(self.mempool[i], h)
                && self.utxos.contains_key(h) ==> self.utxos[h].0
    }

    /// Whether an unspent output is marked where, and only where, an input
    /// of a pending transaction names it.
    pub open spec fn marks_are_exact(self) -> bool {
        self.marks_have_spenders() && self.spenders_have_marks()
    }
}

/// Whether none of the hashes is the hash of a pending transaction.
pub open spec fn none_pending(mempool: Seq<(int, TransactionView)>, hashes: Seq<nat>) -> bool {
    forall|k: int| 0 <= k < hashes.len() ==> !has_producer(mempool, #[trigger] hashes[k])
}

/// Whether a pending transaction that is too old at `now` and one that is
/// not both name the same unspent output.
pub open spec fn shares_with_expired(chain: BlockchainView, now: int) -> bool {
    exists|i: int, j: int, h: nat|
        0 <= i < chain.mempool.len() && 0 <= j < chain.mempool.len() && expired(
            chain.mempool[i].0,
            now,
        ) && !expired(chain.mempool[j].0, now) && #[trigger] spends(chain.mempool[i], h)
            && #[trigger] spends(chain.mempool[j], h) && chain.utxos.contains_key(h)
}

/// Whether an input of some pending transaction names `hash`.
pub open spec fn is_spent_in(mempool: Seq<(int, TransactionView)>, hash: nat) -> bool {
    exists|i: int| 0 <= i < mempool.len() && spends(#[trigger] mempool[i], hash)
}

/// Whether an input of the pending transaction names `hash`.
pub open spec fn spends(entry: (int, TransactionView), hash: nat) -> bool {
    input_hashes(entry.1).contains(hash)
}

/// A block that is taken leaves a chain linked that was linked: every block
/// but the first names the hash of the block before it and is later than
/// it, its header's hash meets its header's target, and its Merkle root is
/// that of its transactions.
pub proof fn lemma_add_block_keeps_links(chain: BlockchainView, block: BlockView)
    requires
        chain.linked(),
        add_block_result(chain, block) is Ok,
    ensures
        chain.with_block(block).linked(),
        chain.blocks.len() == 0 ==> block.header.prev_block_hash == 0,
{
    let after = chain.with_block(block);
    assert forall|i: int| 1 <= i < after.blocks.len() implies {
        &&& (#[trigger] after.blocks[i]).header.prev_block_hash == after.blocks[i - 1].hash_value()
        &&& after.blocks[i].header.timestamp > after.blocks[i - 1].header.timestamp
        &&& after.blocks[i].header.solved()
        &&& merkle_root_value(after.blocks[i].transactions) == Some(
            after.blocks[i].header.merkle_root,
        )
    } by {
        if i < chain.blocks.len() {
            assert(after.blocks[i] == chain.blocks[i]);
            assert(after.blocks[i - 1] == chain.blocks[i - 1]);
        } else {
            assert(after.blocks[i] == block);
            assert(after.blocks[i - 1] == chain.blocks.last());
        }
    }
}

/// A block that is taken behind another pays out, in its first
/// transaction, the reward for its height and the fees of its other
/// transactions, no more and no less.
pub proof fn lemma_add_block_coinbase(chain: BlockchainView, block: BlockView)
    requires
        chain.blocks.len() > 0,
        add_block_result(chain, block) is Ok,
    ensures
        block.transactions.len() > 0,
        output_total(block.transactions[0].outputs) == block_reward_value(
            chain.blocks.len() as u64,
        ) + total_value(spent_hashes(block.transactions), chain.utxos) - output_total(
            made_outputs(block.transactions),
        ),
{
    let height = chain.blocks.len() as u64;
    assert(verify_transactions_result(block.transactions, height, chain.utxos) is Ok);
    assert(coinbase_result(block.transactions, height, chain.utxos) is Ok);
    assert(miner_fees_result(block.transactions, chain.utxos) is Ok);
}

/// A block that is taken leaves the pending transactions in the order of
/// their fees, where they stood in that order.
pub proof fn lemma_add_block_keeps_order(chain: BlockchainView, block: BlockView)
    requires
        sorted_by_fee(chain.mempool, chain.utxos),
    ensures
        sorted_by_fee(chain.with_block(block).mempool, chain.with_block(block).utxos),
{
    lemma_filter_keeps_order(
        chain.mempool,
        not_included(transaction_hashes(block.transactions)),
        chain.utxos,
    );
}

/// A block that is taken leaves every unspent output marked that an input of
/// a pending transaction names, where that held before. It does not leave
/// every marked output with a pending transaction that names it: the
/// pending transactions that the block holds go, and their marks stay.
pub proof fn lemma_add_block_keeps_spenders_marked(chain: BlockchainView, block: BlockView)
    requires
        chain.spenders_have_marks(),
    ensures
        chain.with_block(block).spenders_have_marks(),
{
    let after = chain.with_block(block);
    let pred = not_included(transaction_hashes(block.transactions));
    assert forall|k: int, h: nat|
        0 <= k < after.mempool.len() && #[trigger] spends(after.mempool[k], h)
            && after.utxos.contains_key(h) implies after.utxos[h].0 by {
        chain.mempool.lemma_filter_contains_rev(pred, after.mempool[k]);
        let j = choose|j: int| 0 <= j < chain.mempool.len() && chain.mempool[j] == after.mempool[k];
        assert(spends(chain.mempool[j], h));
    }
}

/// Setting marks to `false` marks nothing.
proof fn lemma_unmark_all(utxos: Utxos, hashes: Seq<nat>, n: int)
    requires
        0 <= n <= hashes.len(),
    ensures
        forall|h: nat|
            utxos.contains_key(h) && (#[trigger] mark_all(utxos, hashes, false, n)[h]).0
                ==> utxos[h].0 && !hashes.subrange(0, n).contains(h),
    decreases n,
{
    lemma_mark_all(utxos, hashes, false, n);
    assert forall|h: nat|
        utxos.contains_key(h) && (#[trigger] mark_all(utxos, hashes, false, n)[h]).0
        implies utxos[h].0 && !hashes.subrange(0, n).contains(h) by {
        if hashes.subrange(0, n).contains(h) {
            let i = choose|i: int|
                0 <= i < hashes.subrange(0, n).len() && hashes.subrange(0, n)[i] == h;
            assert(hashes[i] == h);
            assert(mark_all(utxos, hashes, false, n)[hashes[i]].0 == false);
        }
    }
}

/// One input that resolves its conflict leaves every marked output with a
/// pending transaction that spends it.
#[verifier::rlimit(30)]
proof fn lemma_resolve_conflict(utxos: Utxos, mempool: Seq<(int, TransactionView)>, hash: nat)
    requires
        forall|h: nat|
            utxos.contains_key(h) && (#[trigger] utxos[h]).0 ==> is_spent_in(mempool, h),
    ensures
        ({
            let after = resolve_conflict(utxos, mempool, hash);
            forall|h: nat|
                after.0.contains_key(h) && (#[trigger] after.0[h]).0 ==> is_spent_in(after.1, h)
        }),
        resolve_conflict(utxos, mempool, hash).0.dom() == utxos.dom(),
{
    let after = resolve_conflict(utxos, mempool, hash);
    if utxos.contains_key(hash) && utxos[hash].0 {
        if has_producer(mempool, hash) {
            let i = producer(mempool, hash);
            let inputs = input_hashes(mempool[i].1);
            lemma_mark_all(utxos, inputs, false, inputs.len() as int);
            lemma_unmark_all(utxos, inputs, inputs.len() as int);
            assert(inputs.subrange(0, inputs.len() as int) =~= inputs);
            assert forall|h: nat|
                after.0.contains_key(h) && (#[trigger] after.0[h]).0 implies is_spent_in(
                after.1,
                h,
            ) by {
                assert(after.0.dom().contains(h));
                assert(utxos.contains_key(h));
                assert(utxos[h].0);
                let j = choose|j: int| 0 <= j < mempool.len() && spends(#[trigger] mempool[j], h);
                assert(j != i);
                let k = if j < i { j } else { j - 1 };
                assert(after.1[k] == mempool[j]);
                assert(spends(after.1[k], h));
            }
        } else {
            assert(after.0.dom() =~= utxos.dom());
            assert forall|h: nat|
                after.0.contains_key(h) && (#[trigger] after.0[h]).0 implies is_spent_in(
                after.1,
                h,
            ) by {
                assert(utxos.contains_key(h) && utxos[h].0);
            }
        }
    }
}

/// Inputs that resolve their conflicts leave every marked output with a
/// pending transaction that spends it.
proof fn lemma_resolve_conflicts(
    utxos: Utxos,
    mempool: Seq<(int, TransactionView)>,
    hashes: Seq<nat>,
    n: int,
)
    requires
        0 <= n <= hashes.len(),
        forall|h: nat|
            utxos.contains_key(h) && (#[trigger] utxos[h]).0 ==> is_spent_in(mempool, h),
    ensures
        ({
            let after = resolve_conflicts(utxos, mempool, hashes, n);
            forall|h: nat|
                after.0.contains_key(h) && (#[trigger] after.0[h]).0 ==> is_spent_in(after.1, h)
        }),
    decreases n,
{
    if n > 0 {
        lemma_resolve_conflicts(utxos, mempool, hashes, n - 1);
        let before = resolve_conflicts(utxos, mempool, hashes, n - 1);
        lemma_resolve_conflict(before.0, before.1, hashes[n - 1]);
    }
}

/// What is in a sequence stays in it however it is ordered.
proof fn lemma_sorted_has(
    entries: Seq<(int, TransactionView)>,
    utxos: Utxos,
    entry: (int, TransactionView),
)
    requires
        entries.contains(entry),
    ensures
        sort_by_fee(entries, utxos, entries.len() as int).contains(entry),
{
    lemma_sort_by_fee(entries, utxos, entries.len() as int);
    assert(entries.subrange(0, entries.len() as int) =~= entries);
    let sorted = sort_by_fee(entries, utxos, entries.len() as int);
    vstd::seq_lib::to_multiset_contains(entries, entry);
    vstd::seq_lib::to_multiset_contains(sorted, entry);
}

/// A transaction that joins the pending ones leaves every marked output
/// named by an input of a pending transaction, where that held before.
#[verifier::rlimit(30)]
pub proof fn lemma_add_to_mempool_keeps_marks(chain: BlockchainView, tx: TransactionView, now: int)
    requires
        chain.marks_have_spenders(),
    ensures
        chain.with_pending(tx, now).marks_have_spenders(),
{
    let hashes = input_hashes(tx);
    let n = hashes.len() as int;
    let resolved = resolve_conflicts(chain.utxos, chain.mempool, hashes, n);
    let marked = mark_all(resolved.0, hashes, true, n);
    let entry = (now, tx);
    let pushed = resolved.1.push(entry);
    let after = chain.with_pending(tx, now);
    lemma_resolve_conflicts(chain.utxos, chain.mempool, hashes, n);
    lemma_mark_all(resolved.0, hashes, true, n);
    assert(hashes.subrange(0, n) =~= hashes);
    assert(pushed.len() == resolved.1.len() + 1);
    assert forall|h: nat|
        after.utxos.contains_key(h) && (#[trigger] after.utxos[h]).0 implies is_spent_in(
        after.mempool,
        h,
    ) by {
        assert(marked.dom().contains(h));
        assert(resolved.0.contains_key(h));
        let spender = if hashes.contains(h) {
            assert(pushed[pushed.len() - 1] == entry);
            entry
        } else {
            assert(marked[h].0 == resolved.0[h].0);
            let j = choose|j: int| 0 <= j < resolved.1.len() && spends(#[trigger] resolved.1[j], h);
            assert(pushed[j] == resolved.1[j]);
            resolved.1[j]
        };
        assert(pushed.contains(spender));
        assert(spends(spender, h));
        lemma_sorted_has(pushed, marked, spender);
        let k = choose|k: int| 0 <= k < after.mempool.len() && after.mempool[k] == spender;
        assert(spends(after.mempool[k], h));
    }
}

/// Releasing what the expired transactions hold marks nothing, and leaves
/// no mark on what an expired transaction names.
proof fn lemma_release_expired(utxos: Utxos, mempool: Seq<(int, TransactionView)>, now: int, n: int)
    requires
        0 <= n <= mempool.len(),
    ensures
        release_expired(utxos, mempool, now, n).dom() == utxos.dom(),
        forall|h: nat|
            utxos.contains_key(h) && (#[trigger] release_expired(utxos, mempool, now, n)[h]).0
                ==> utxos[h].0 && forall|j: int|
                0 <= j < n && expired(mempool[j].0, now) ==> !spends(#[trigger] mempool[j], h),
    decreases n,
{
    if n > 0 {
        lemma_release_expired(utxos, mempool, now, n - 1);
        let before = release_expired(utxos, mempool, now, n - 1);
        if expired(mempool[n - 1].0, now) {
            let inputs = input_hashes(mempool[n - 1].1);
            lemma_mark_all(before, inputs, false, inputs.len() as int);
            lemma_unmark_all(before, inputs, inputs.len() as int);
            assert(inputs.subrange(0, inputs.len() as int) =~= inputs);
            let after = release_expired(utxos, mempool, now, n);
            assert forall|h: nat|
                utxos.contains_key(h) && (#[trigger] after[h]).0 implies utxos[h].0 && forall|
                j: int,
            |
                0 <= j < n && expired(mempool[j].0, now) ==> !spends(#[trigger] mempool[j], h) by {
                assert(before.dom().contains(h));
                assert(before.contains_key(h));
                assert(before[h].0);
            }
        }
    }
}

/// Dropping the pending transactions that are too old leaves every marked
/// output named by an input of a pending transaction, where that held
/// before.
pub proof fn lemma_cleanup_keeps_marks(chain: BlockchainView, now: int)
    requires
        chain.marks_have_spenders(),
    ensures
        chain.without_expired(now).marks_have_spenders(),
{
    let after = chain.without_expired(now);
    let n = chain.mempool.len() as int;
    lemma_release_expired(chain.utxos, chain.mempool, now, n);
    assert forall|h: nat|
        after.utxos.contains_key(h) && (#[trigger] after.utxos[h]).0 implies is_spent_in(
        after.mempool,
        h,
    ) by {
        assert(after.utxos.dom().contains(h));
        assert(chain.utxos.contains_key(h));
        assert(chain.utxos[h].0);
        let j = choose|j: int| 0 <= j < chain.mempool.len() && spends(#[trigger] chain.mempool[j], h);
        assert(!expired(chain.mempool[j].0, now));
        chain.mempool.lemma_filter_contains(is_fresh(now), j);
        let kept = chain.mempool.filter(is_fresh(now));
        let k = choose|k: int| 0 <= k < kept.len() && kept[k] == chain.mempool[j];
        assert(spends(kept[k], h));
    }
}

/// One transaction applied to unmarked outputs leaves them unmarked.
proof fn lemma_apply_unmarked(utxos: Utxos, transactions: Seq<TransactionView>, n: int)
    requires
        0 <= n <= transactions.len(),
        forall|h: nat| utxos.contains_key(h) ==> !(#[trigger] utxos[h]).0,
    ensures
        forall|h: nat|
            apply_transactions(utxos, transactions, n).contains_key(h) ==> !(
            #[trigger] apply_transactions(utxos, transactions, n)[h]).0,
    decreases n,
{
    if n > 0 {
        lemma_apply_unmarked(utxos, transactions, n - 1);
        let before = apply_transactions(utxos, transactions, n - 1);
        let tx = transactions[n - 1];
        let after = apply_transactions(utxos, transactions, n);
        assert(after == apply_transaction(before, tx));
        let left = before.remove_keys(input_hashes(tx).to_set());
        assert forall|h: nat| after.contains_key(h) implies !(#[trigger] after[h]).0 by {
            if tx.outputs.len() > 0 && h == tx.hash_value() {
            } else {
                assert(left.contains_key(h));
                assert(before.contains_key(h));
                assert(!before[h].0);
            }
        }
    }
}

/// After the unspent outputs were worked out anew none of them is marked,
/// so every marked output is named by an input of a pending transaction.
pub proof fn lemma_rebuild_keeps_marks(chain: BlockchainView)
    ensures
        (BlockchainView {
            utxos: replay(chain.blocks, chain.blocks.len() as int),
            ..chain
        }).marks_have_spenders(),
{
    lemma_replay_unmarked(chain.blocks, chain.blocks.len() as int);
}

/// The unspent outputs that the blocks give are all unmarked.
pub proof fn lemma_replay_unmarked(blocks: Seq<BlockView>, n: int)
    requires
        0 <= n <= blocks.len(),
    ensures
        forall|h: nat| replay(blocks, n).contains_key(h) ==> !(#[trigger] replay(blocks, n)[h]).0,
    decreases n,
{
    if n > 0 {
        lemma_replay_unmarked(blocks, n - 1);
        lemma_apply_unmarked(
            replay(blocks, n - 1),
            blocks[n - 1].transactions,
            blocks[n - 1].transactions.len() as int,
        );
    }
}

/// Where none of the hashes is the hash of a pending transaction, resolving
/// their conflicts leaves the pending transactions as they are and changes
/// no mark but those of the hashes.
proof fn lemma_resolve_without_producers(
    utxos: Utxos,
    mempool: Seq<(int, TransactionView)>,
    hashes: Seq<nat>,
    n: int,
)
    requires
        0 <= n <= hashes.len(),
        none_pending(mempool, hashes),
    ensures
        resolve_conflicts(utxos, mempool, hashes, n).1 == mempool,
        resolve_conflicts(utxos, mempool, hashes, n).0.dom() == utxos.dom(),
        forall|h: nat|
            utxos.contains_key(h) && !hashes.contains(h) ==> (#[trigger] resolve_conflicts(
                utxos,
                mempool,
                hashes,
                n,
            ).0[h]).0 == utxos[h].0,
    decreases n,
{
    if n > 0 {
        lemma_resolve_without_producers(utxos, mempool, hashes, n - 1);
        let before = resolve_conflicts(utxos, mempool, hashes, n - 1);
        let h0 = hashes[n - 1];
        assert(!has_producer(mempool, h0));
        let after = resolve_conflict(before.0, before.1, h0);
        assert(after.0.dom() =~= utxos.dom());
        assert forall|h: nat| utxos.contains_key(h) && !hashes.contains(h) implies (
        #[trigger] after.0[h]).0 == utxos[h].0 by {
            assert(h != h0);
            assert(before.0[h].0 == utxos[h].0);
        }
    }
}

/// What is in entries that were ordered was in them before.
proof fn lemma_sorted_had(entries: Seq<(int, TransactionView)>, utxos: Utxos, i: int)
    requires
        0 <= i < sort_by_fee(entries, utxos, entries.len() as int).len(),
    ensures
        entries.contains(sort_by_fee(entries, utxos, entries.len() as int)[i]),
{
    lemma_sort_by_fee(entries, utxos, entries.len() as int);
    assert(entries.subrange(0, entries.len() as int) =~= entries);
    let sorted = sort_by_fee(entries, utxos, entries.len() as int);
    assert(sorted.contains(sorted[i]));
    vstd::seq_lib::to_multiset_contains(entries, sorted[i]);
    vstd::seq_lib::to_multiset_contains(sorted, sorted[i]);
}

/// A transaction that joins the pending ones leaves every unspent output
/// marked that an input of a pending transaction names, where that held
/// before and no pending transaction has a hash that the new one names.
pub proof fn lemma_add_to_mempool_keeps_spenders_marked(
    chain: BlockchainView,
    tx: TransactionView,
    now: int,
)
    requires
        chain.spenders_have_marks(),
        none_pending(chain.mempool, input_hashes(tx)),
    ensures
        chain.with_pending(tx, now).spenders_have_marks(),
{
    let hashes = input_hashes(tx);
    let n = hashes.len() as int;
    let resolved = resolve_conflicts(chain.utxos, chain.mempool, hashes, n);
    let marked = mark_all(resolved.0, hashes, true, n);
    let entry = (now, tx);
    let pushed = resolved.1.push(entry);
    let after = chain.with_pending(tx, now);
    lemma_resolve_without_producers(chain.utxos, chain.mempool, hashes, n);
    lemma_mark_all(resolved.0, hashes, true, n);
    assert(hashes.subrange(0, n) =~= hashes);
    assert(pushed.len() == resolved.1.len() + 1);
    assert forall|i: int, h: nat|
        0 <= i < after.mempool.len() && #[trigger] spends(after.mempool[i], h)
            && after.utxos.contains_key(h) implies after.utxos[h].0 by {
        assert(marked.dom().contains(h));
        assert(resolved.0.contains_key(h));
        assert(chain.utxos.contains_key(h));
        if hashes.contains(h) {
            let k = choose|k: int| 0 <= k < hashes.len() && hashes[k] == h;
            assert(marked[hashes[k]].0 == true);
        } else {
            lemma_sorted_had(pushed, marked, i);
            let j = choose|j: int| 0 <= j < pushed.len() && pushed[j] == after.mempool[i];
            assert(j < chain.mempool.len()) by {
                if j == chain.mempool.len() {
                    assert(pushed[j] == entry);
                }
            }
            assert(pushed[j] == chain.mempool[j]);
            assert(spends(chain.mempool[j], h));
            assert(chain.utxos[h].0);
            assert(marked[h].0 == resolved.0[h].0);
        }
    }
}

/// A transaction that joins the pending ones leaves an unspent output
/// marked where, and only where, an input of a pending transaction names it,
/// where that held before and no pending transaction has a hash that the new
/// one names.
pub proof fn lemma_add_to_mempool_keeps_marks_exact(
    chain: BlockchainView,
    tx: TransactionView,
    now: int,
)
    requires
        chain.marks_are_exact(),
        none_pending(chain.mempool, input_hashes(tx)),
    ensures
        chain.with_pending(tx, now).marks_are_exact(),
{
    lemma_add_to_mempool_keeps_marks(chain, tx, now);
    lemma_add_to_mempool_keeps_spenders_marked(chain, tx, now);
}

/// Releasing what the expired transactions hold leaves the mark of an
/// output that none of them names.
proof fn lemma_release_keeps(
    utxos: Utxos,
    mempool: Seq<(int, TransactionView)>,
    now: int,
    n: int,
    h: nat,
)
    requires
        0 <= n <= mempool.len(),
        utxos.contains_key(h),
        forall|i: int| 0 <= i < n && expired(mempool[i].0, now) ==> !spends(#[trigger] mempool[i], h),
    ensures
        release_expired(utxos, mempool, now, n).contains_key(h),
        release_expired(utxos, mempool, now, n)[h].0 == utxos[h].0,
    decreases n,
{
    if n > 0 {
        lemma_release_keeps(utxos, mempool, now, n - 1, h);
        let before = release_expired(utxos, mempool, now, n - 1);
        if expired(mempool[n - 1].0, now) {
            let inputs = input_hashes(mempool[n - 1].1);
            lemma_mark_all(before, inputs, false, inputs.len() as int);
            assert(inputs.subrange(0, inputs.len() as int) =~= inputs);
            assert(!spends(mempool[n - 1], h));
            let after = mark_all(before, inputs, false, inputs.len() as int);
            assert(after.dom().contains(h));
        }
    }
}

/// Dropping the pending transactions that are too old leaves an unspent
/// output marked where, and only where, an input of a pending transaction
/// names it, where that held before and no transaction that stays names an
/// unspent output that one that goes names too.
pub proof fn lemma_cleanup_keeps_marks_exact(chain: BlockchainView, now: int)
    requires
        chain.marks_are_exact(),
        !shares_with_expired(chain, now),
    ensures
        chain.without_expired(now).marks_are_exact(),
{
    lemma_cleanup_keeps_marks(chain, now);
    let after = chain.without_expired(now);
    let n = chain.mempool.len() as int;
    lemma_release_expired(chain.utxos, chain.mempool, now, n);
    assert forall|k: int, h: nat|
        0 <= k < after.mempool.len() && #[trigger] spends(after.mempool[k], h)
            && after.utxos.contains_key(h) implies after.utxos[h].0 by {
        assert(after.utxos.dom().contains(h));
        assert(chain.utxos.contains_key(h));
        chain.mempool.lemma_filter_contains_rev(is_fresh(now), after.mempool[k]);
        chain.mempool.lemma_filter_pred(is_fresh(now), k);
        let j = choose|j: int| 0 <= j < chain.mempool.len() && chain.mempool[j] == after.mempool[k];
        assert(!expired(chain.mempool[j].0, now));
        assert(spends(chain.mempool[j], h));
        assert forall|i: int| 0 <= i < n && expired(chain.mempool[i].0, now) implies !spends(
            #[trigger] chain.mempool[i],
            h,
        ) by {
            if spends(chain.mempool[i], h) {
                assert(shares_with_expired(chain, now));
            }
        }
        lemma_release_keeps(chain.utxos, chain.mempool, now, n, h);
    }
}

/// With two pending transactions that name one unspent output, of which
/// only the first is too old, dropping the old one leaves the output
/// unmarked though a pending transaction names it.
pub proof fn lemma_cleanup_breaks_marks(chain: BlockchainView, now: int, h: nat)
    requires
        chain.mempool.len() == 2,
        expired(chain.mempool[0].0, now),
        !expired(chain.mempool[1].0, now),
        spends(chain.mempool[0], h),
        spends(chain.mempool[1], h),
        chain.utxos.contains_key(h),
    ensures
        !chain.without_expired(now).spenders_have_marks(),
{
    let after = chain.without_expired(now);
    let m = chain.mempool;
    let fresh = is_fresh(now);
    lemma_filter_empty(fresh);
    lemma_filter_step(m, fresh, 0);
    lemma_filter_step(m, fresh, 1);
    assert(m.subrange(0, 0) =~= Seq::<(int, TransactionView)>::empty());
    assert(m.subrange(0, 2) =~= m);
    assert(!fresh(m[0]) && fresh(m[1]));
    assert(after.mempool =~= seq![m[1]]);
    let inputs = input_hashes(m[0].1);
    let first = release_expired(chain.utxos, m, now, 1);
    lemma_mark_all(chain.utxos, inputs, false, inputs.len() as int);
    let k = choose|k: int| 0 <= k < inputs.len() && inputs[k] == h;
    assert(first == mark_all(chain.utxos, inputs, false, inputs.len() as int)) by {
        assert(release_expired(chain.utxos, m, now, 0) == chain.utxos);
    }
    assert(first[inputs[k]].0 == false);
    assert(after.utxos == first);
    assert(first.dom().contains(h));
    assert(spends(after.mempool[0], h));
}

} // verus!
