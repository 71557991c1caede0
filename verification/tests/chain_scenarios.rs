use btclib::crypto::{PrivateKey, PublicKey, Signature};
use btclib::error::BtcError;
use btclib::time::Timestamp;
use btclib::types::{
    Block, BlockHeader, Blockchain, Transaction, TransactionInput, TransactionOutput,
};
use btclib::u256::U256;
use btclib::util::MerkleRoot;

const COIN: u64 = 100_000_000;

fn at(seconds: i64) -> Timestamp {
    Timestamp::new(1_700_000_000 + seconds, 0).unwrap()
}

fn output(value: u64, id: u8, key: &PublicKey) -> TransactionOutput {
    TransactionOutput { value, unique_id: [id; 16], pubkey: key.clone() }
}

fn coinbase(value: u64, id: u8, key: &PublicKey) -> Transaction {
    Transaction::new(vec![], vec![output(value, id, key)])
}

fn block_on(prev: btclib::sha256::Hash, seconds: i64, transactions: Vec<Transaction>) -> Block {
    let root = MerkleRoot::calculate(&transactions).unwrap();
    Block::new(BlockHeader::new(at(seconds), 0, prev, root, U256::max_value()), transactions)
}

fn spend(prev: btclib::sha256::Hash, key: &mut PrivateKey, outputs: Vec<TransactionOutput>) -> Transaction {
    let signature = Signature::sign_output(&prev, key).unwrap();
    Transaction::new(
        vec![TransactionInput { prev_transaction_output_hash: prev, signature }],
        outputs,
    )
}

/// A chain with one block whose coinbase pays fifty coins to `key`, and the
/// hash by which that output is known.
fn chain_with_genesis(key: &PublicKey) -> (Blockchain, btclib::sha256::Hash, Block) {
    let mut chain = Blockchain::new();
    let first = coinbase(50 * COIN, 1, key);
    let known_by = first.hash().unwrap();
    let genesis = block_on(btclib::sha256::Hash::zero(), 0, vec![first]);
    assert_eq!(chain.add_block(genesis.clone()), Ok(()));
    assert_eq!(chain.rebuild_utxos(), Ok(()));
    (chain, known_by, genesis)
}

#[test]
fn genesis_append() {
    let key = PrivateKey::new_key().public_key();
    let transactions = vec![coinbase(50 * COIN, 1, &key)];
    let root = MerkleRoot::calculate(&transactions).unwrap();
    let mut header =
        BlockHeader::new(at(0), 0, btclib::sha256::Hash::zero(), root, btclib::min_target());
    let mut solved = false;
    for _ in 0..64 {
        if header.mine(100_000) == Ok(true) {
            solved = true;
            break;
        }
    }
    assert!(solved);
    assert!(header.hash().unwrap().matches_target(btclib::min_target()));
    let mut chain = Blockchain::new();
    assert_eq!(chain.block_height(), 0);
    assert_eq!(chain.add_block(Block::new(header, transactions)), Ok(()));
    assert_eq!(chain.block_height(), 1);
    assert_eq!(chain.target(), btclib::min_target());
}

#[test]
fn first_block_must_name_no_block_before_it() {
    let key = PrivateKey::new_key().public_key();
    let mut chain = Blockchain::new();
    let not_zero = btclib::sha256::Hash::hash(b"x").unwrap();
    let block = block_on(not_zero, 0, vec![coinbase(50 * COIN, 1, &key)]);
    assert_eq!(chain.add_block(block), Err(BtcError::InvalidBlock));
    assert_eq!(chain.block_height(), 0);
}

#[test]
fn wrong_previous_hash_rejected() {
    let key = PrivateKey::new_key().public_key();
    let (mut chain, _, _) = chain_with_genesis(&key);
    let block = block_on(btclib::sha256::Hash::zero(), 10, vec![coinbase(50 * COIN, 2, &key)]);
    assert_eq!(chain.add_block(block), Err(BtcError::InvalidHash));
    assert_eq!(chain.block_height(), 1);
}

#[test]
fn second_block_is_checked_in_full() {
    let key = PrivateKey::new_key().public_key();
    let (mut chain, _, genesis) = chain_with_genesis(&key);
    let prev = genesis.hash().unwrap();

    // A hash above the header's own target.
    let mut hard = block_on(prev, 10, vec![coinbase(50 * COIN, 2, &key)]);
    hard.header.target = U256::zero();
    assert_eq!(chain.add_block(hard), Err(BtcError::InvalidBlock));

    // A Merkle root of other transactions.
    let mut other_root = block_on(prev, 10, vec![coinbase(50 * COIN, 2, &key)]);
    other_root.header.merkle_root = MerkleRoot::calculate(&[coinbase(1, 3, &key)]).unwrap();
    assert_eq!(chain.add_block(other_root), Err(BtcError::InvalidMerkleRoot));

    // No transactions at all: there is no Merkle root.
    let empty = Block::new(
        BlockHeader::new(at(10), 0, prev, genesis.header.merkle_root, U256::max_value()),
        vec![],
    );
    assert_eq!(chain.add_block(empty), Err(BtcError::InvalidMerkleRoot));

    // A timestamp that is not later than the last block's.
    let same_time = block_on(prev, 0, vec![coinbase(50 * COIN, 2, &key)]);
    assert_eq!(chain.add_block(same_time), Err(BtcError::InvalidBlock));

    // A coinbase that pays more than reward and fees.
    let greedy = block_on(prev, 10, vec![coinbase(50 * COIN + 1, 2, &key)]);
    assert_eq!(chain.add_block(greedy), Err(BtcError::InvalidTransaction));

    // A coinbase without outputs.
    let nothing = block_on(prev, 10, vec![Transaction::new(vec![], vec![])]);
    assert_eq!(chain.add_block(nothing), Err(BtcError::InvalidTransaction));

    assert_eq!(chain.block_height(), 1);
    let good = block_on(prev, 10, vec![coinbase(50 * COIN, 2, &key)]);
    assert_eq!(chain.add_block(good), Ok(()));
    assert_eq!(chain.block_height(), 2);
}

#[test]
fn double_spend_within_a_block_rejected() {
    let mut private = PrivateKey::new_key();
    let key = private.public_key();
    let (mut chain, known_by, genesis) = chain_with_genesis(&key);
    let first = spend(known_by, &mut private, vec![output(10 * COIN, 3, &key)]);
    let second = spend(known_by, &mut private, vec![output(20 * COIN, 4, &key)]);
    let block = block_on(
        genesis.hash().unwrap(),
        10,
        vec![coinbase(50 * COIN, 2, &key), first, second],
    );
    assert_eq!(chain.add_block(block), Err(BtcError::InvalidTransaction));
}

#[test]
fn signature_mismatch_rejected() {
    let mut private = PrivateKey::new_key();
    let key = private.public_key();
    let mut stranger = PrivateKey::new_key();
    let (mut chain, known_by, genesis) = chain_with_genesis(&key);
    let prev = genesis.hash().unwrap();
    let forged = spend(known_by, &mut stranger, vec![output(30 * COIN, 3, &key)]);
    let block = block_on(prev, 10, vec![coinbase(70 * COIN, 2, &key), forged]);
    assert_eq!(chain.add_block(block), Err(BtcError::InvalidSignature));

    // The same block with the owner's signature is taken.
    let honest = spend(known_by, &mut private, vec![output(30 * COIN, 3, &key)]);
    let block = block_on(prev, 10, vec![coinbase(70 * COIN, 2, &key), honest]);
    assert_eq!(chain.add_block(block), Ok(()));
}

#[test]
fn a_transaction_may_not_make_more_than_it_spends() {
    let mut private = PrivateKey::new_key();
    let key = private.public_key();
    let (mut chain, known_by, genesis) = chain_with_genesis(&key);
    let too_much = spend(known_by, &mut private, vec![output(51 * COIN, 3, &key)]);
    let block =
        block_on(genesis.hash().unwrap(), 10, vec![coinbase(50 * COIN, 2, &key), too_much.clone()]);
    assert_eq!(chain.add_block(block), Err(BtcError::InvalidTransaction));
    assert_eq!(chain.add_to_mempool(too_much), Err(BtcError::InvalidTransaction));
    assert_eq!(chain.mempool().len(), 0);
}

#[test]
fn rebuild_keys_outputs_by_the_hash_of_their_transaction() {
    let mut private = PrivateKey::new_key();
    let key = private.public_key();
    let (mut chain, known_by, genesis) = chain_with_genesis(&key);
    assert_eq!(chain.utxos().len(), 1);
    let (reserved, found) = chain.utxos().get(&known_by).unwrap();
    assert!(!reserved);
    assert_eq!(found.value, 50 * COIN);

    // Two outputs of one transaction: the later one is the one that stays.
    let two = spend(
        known_by,
        &mut private,
        vec![output(10 * COIN, 3, &key), output(25 * COIN, 4, &key)],
    );
    let two_hash = two.hash().unwrap();
    let second_coinbase = coinbase(65 * COIN, 2, &key);
    let coinbase_hash = second_coinbase.hash().unwrap();
    let block = block_on(genesis.hash().unwrap(), 10, vec![second_coinbase, two]);
    assert_eq!(chain.add_block(block), Ok(()));
    // Appending leaves the unspent outputs as they were.
    assert!(chain.utxos().contains_key(&known_by));
    assert_eq!(chain.rebuild_utxos(), Ok(()));
    assert!(!chain.utxos().contains_key(&known_by));
    assert_eq!(chain.utxos().len(), 2);
    assert_eq!(chain.utxos().get(&two_hash).unwrap().1.value, 25 * COIN);
    assert_eq!(chain.utxos().get(&coinbase_hash).unwrap().1.value, 65 * COIN);
}

#[test]
fn mempool_eviction_by_block_inclusion() {
    let mut private = PrivateKey::new_key();
    let key = private.public_key();
    let (mut chain, known_by, genesis) = chain_with_genesis(&key);
    let pending = spend(known_by, &mut private, vec![output(30 * COIN, 3, &key)]);
    assert_eq!(chain.add_to_mempool(pending.clone()), Ok(()));
    assert_eq!(chain.mempool().len(), 1);
    assert!(chain.utxos().get(&known_by).unwrap().0);

    let block =
        block_on(genesis.hash().unwrap(), 10, vec![coinbase(70 * COIN, 2, &key), pending]);
    assert_eq!(chain.add_block(block), Ok(()));
    assert_eq!(chain.mempool().len(), 0);
    assert_eq!(chain.block_height(), 2);

    assert_eq!(chain.rebuild_utxos(), Ok(()));
    assert!(!chain.utxos().contains_key(&known_by));
    assert_eq!(chain.utxos().len(), 2);
}

#[test]
fn a_block_drops_only_the_pending_transactions_it_holds() {
    let mut private = PrivateKey::new_key();
    let key = private.public_key();
    let (mut chain, known_by, genesis) = chain_with_genesis(&key);
    let pending = spend(known_by, &mut private, vec![output(30 * COIN, 3, &key)]);
    assert_eq!(chain.add_to_mempool(pending.clone()), Ok(()));
    let block = block_on(genesis.hash().unwrap(), 10, vec![coinbase(50 * COIN, 2, &key)]);
    assert_eq!(chain.add_block(block), Ok(()));
    assert_eq!(chain.mempool().len(), 1);
    assert_eq!(chain.mempool()[0].1.hash(), pending.hash());
}

#[test]
fn mempool_replace_by_conflict() {
    let mut private = PrivateKey::new_key();
    let key = private.public_key();
    let (mut chain, known_by, _) = chain_with_genesis(&key);
    let first = spend(known_by, &mut private, vec![output(40 * COIN, 3, &key)]);
    let second = spend(known_by, &mut private, vec![output(30 * COIN, 4, &key)]);
    assert_eq!(chain.add_to_mempool(first.clone()), Ok(()));
    assert!(chain.utxos().get(&known_by).unwrap().0);
    assert_eq!(chain.add_to_mempool(second.clone()), Ok(()));
    // The later transaction is kept and the output stays marked.
    assert!(chain.mempool().iter().any(|e| e.1.hash() == second.hash()));
    assert!(chain.utxos().get(&known_by).unwrap().0);
    // No pending transaction has the hash that the output is known by, so
    // none leaves the pool; the fees order the two.
    assert_eq!(chain.mempool().len(), 2);
    assert_eq!(chain.mempool()[0].1.hash(), first.hash());
    assert_eq!(chain.mempool()[1].1.hash(), second.hash());
}

#[test]
fn mempool_refuses_unknown_and_repeated_inputs() {
    let mut private = PrivateKey::new_key();
    let key = private.public_key();
    let (mut chain, known_by, _) = chain_with_genesis(&key);
    let unknown = btclib::sha256::Hash::hash(b"nothing").unwrap();
    let stray = spend(unknown, &mut private, vec![output(1, 3, &key)]);
    assert_eq!(chain.add_to_mempool(stray), Err(BtcError::InvalidTransaction));
    let signature = Signature::sign_output(&known_by, &mut private).unwrap();
    let twice = Transaction::new(
        vec![
            TransactionInput { prev_transaction_output_hash: known_by, signature: signature.clone() },
            TransactionInput { prev_transaction_output_hash: known_by, signature },
        ],
        vec![output(1, 3, &key)],
    );
    assert_eq!(chain.add_to_mempool(twice), Err(BtcError::InvalidTransaction));
    assert_eq!(chain.mempool().len(), 0);
    assert!(!chain.utxos().get(&known_by).unwrap().0);
}

#[test]
fn mempool_is_ordered_by_fee() {
    let mut private = PrivateKey::new_key();
    let key = private.public_key();
    let mut chain = Blockchain::new();
    let c1 = coinbase(50 * COIN, 1, &key);
    let h1 = c1.hash().unwrap();
    let genesis = block_on(btclib::sha256::Hash::zero(), 0, vec![c1]);
    let c2 = coinbase(50 * COIN, 2, &key);
    let h2 = c2.hash().unwrap();
    let second = block_on(genesis.hash().unwrap(), 10, vec![c2]);
    let c3 = coinbase(50 * COIN, 3, &key);
    let h3 = c3.hash().unwrap();
    let third = block_on(second.hash().unwrap(), 20, vec![c3]);
    assert_eq!(chain.add_block(genesis), Ok(()));
    assert_eq!(chain.add_block(second), Ok(()));
    assert_eq!(chain.add_block(third), Ok(()));
    assert_eq!(chain.rebuild_utxos(), Ok(()));

    let fee_20 = spend(h1, &mut private, vec![output(30 * COIN, 4, &key)]);
    let fee_5 = spend(h2, &mut private, vec![output(45 * COIN, 5, &key)]);
    let fee_10 = spend(h3, &mut private, vec![output(40 * COIN, 6, &key)]);
    assert_eq!(chain.add_to_mempool_at(fee_20.clone(), at(100)), Ok(()));
    assert_eq!(chain.add_to_mempool_at(fee_5.clone(), at(101)), Ok(()));
    assert_eq!(chain.add_to_mempool_at(fee_10.clone(), at(102)), Ok(()));
    let order: Vec<_> = chain.mempool().iter().map(|e| e.1.hash().unwrap()).collect();
    assert_eq!(order, vec![fee_5.hash().unwrap(), fee_10.hash().unwrap(), fee_20.hash().unwrap()]);
    assert_eq!(chain.mempool()[0].0, at(101));
}

#[test]
fn cleanup_drops_what_is_older_than_the_limit() {
    let mut private = PrivateKey::new_key();
    let key = private.public_key();
    let (mut chain, known_by, _) = chain_with_genesis(&key);
    let pending = spend(known_by, &mut private, vec![output(30 * COIN, 3, &key)]);
    assert_eq!(chain.add_to_mempool_at(pending, at(0)), Ok(()));
    // Exactly the limit is not yet too old.
    assert_eq!(chain.cleanup_mempool_at(at(600)), Ok(()));
    assert_eq!(chain.mempool().len(), 1);
    assert!(chain.utxos().get(&known_by).unwrap().0);
    let just_after = Timestamp::new(1_700_000_600, 1).unwrap();
    assert_eq!(chain.cleanup_mempool_at(just_after), Ok(()));
    assert_eq!(chain.mempool().len(), 0);
    assert!(!chain.utxos().get(&known_by).unwrap().0);
    // With the time of day nothing is left either.
    assert_eq!(chain.cleanup_mempool(), Ok(()));
}

#[test]
fn an_output_is_marked_where_a_pending_transaction_names_it() {
    let mut private = PrivateKey::new_key();
    let key = private.public_key();
    let mut chain = Blockchain::new();
    let mut prev = btclib::sha256::Hash::zero();
    let mut known = vec![];
    for i in 0..3u8 {
        let first = coinbase(50 * COIN, i, &key);
        known.push(first.hash().unwrap());
        let block = block_on(prev, 10 * i as i64, vec![first]);
        prev = block.hash().unwrap();
        assert_eq!(chain.add_block(block), Ok(()));
    }
    assert_eq!(chain.rebuild_utxos(), Ok(()));
    let marks = |chain: &Blockchain| -> Vec<bool> {
        known.iter().map(|h| chain.utxos().get(h).unwrap().0).collect()
    };
    assert_eq!(marks(&chain), vec![false, false, false]);
    let a = spend(known[0], &mut private, vec![output(40 * COIN, 10, &key)]);
    let b = spend(known[1], &mut private, vec![output(30 * COIN, 11, &key)]);
    assert_eq!(chain.add_to_mempool_at(a, at(0)), Ok(()));
    assert_eq!(marks(&chain), vec![true, false, false]);
    assert_eq!(chain.add_to_mempool_at(b, at(100)), Ok(()));
    assert_eq!(marks(&chain), vec![true, true, false]);
    assert_eq!(chain.cleanup_mempool_at(at(650)), Ok(()));
    assert_eq!(chain.mempool().len(), 1);
    assert_eq!(marks(&chain), vec![false, true, false]);

    // Two pending transactions that name one output: when the older one is
    // dropped the output loses its mark, though the younger one still names
    // it.
    let c = spend(known[2], &mut private, vec![output(20 * COIN, 12, &key)]);
    let d = spend(known[2], &mut private, vec![output(10 * COIN, 13, &key)]);
    assert_eq!(chain.add_to_mempool_at(c, at(700)), Ok(()));
    assert_eq!(chain.add_to_mempool_at(d, at(1000)), Ok(()));
    assert_eq!(marks(&chain), vec![false, true, true]);
    assert_eq!(chain.cleanup_mempool_at(at(1400)), Ok(()));
    assert_eq!(chain.mempool().len(), 1);
    assert_eq!(marks(&chain), vec![false, false, false]);
}

/// A chain of `count` blocks whose timestamps are `spacing` seconds apart.
fn chain_of(count: u64, spacing: i64, key: &PublicKey) -> Blockchain {
    let mut chain = Blockchain::new();
    let mut prev = btclib::sha256::Hash::zero();
    for i in 0..count {
        let block = block_on(
            prev,
            spacing * i as i64,
            vec![coinbase(Block::calculate_block_reward(i), (i % 250) as u8, key)],
        );
        prev = block.hash().unwrap();
        assert_eq!(chain.add_block(block), Ok(()));
    }
    chain
}

fn scaled(target: U256, numerator: u64, denominator: u64) -> U256 {
    target.checked_mul_u64(numerator).unwrap().div_u64(denominator)
}

#[test]
fn difficulty_retarget() {
    let key = PrivateKey::new_key().public_key();
    let easiest = btclib::min_target();

    // Fewer blocks than an interval: nothing happens.
    let mut short = chain_of(49, 10, &key);
    short.try_adjust_target();
    assert_eq!(short.target(), easiest);

    // Fifty blocks ten seconds apart span 490 seconds of the ideal 500.
    let mut ideal = chain_of(50, 10, &key);
    assert_eq!(ideal.target(), easiest);
    ideal.try_adjust_target();
    assert_eq!(ideal.target(), scaled(easiest, 490, 500));

    // Five seconds apart: 245 of 500, about half.
    let mut fast = chain_of(50, 5, &key);
    fast.try_adjust_target();
    assert_eq!(fast.target(), scaled(easiest, 245, 500));

    // One second apart: 49 of 500 would be less than a quarter.
    let mut faster = chain_of(50, 1, &key);
    faster.try_adjust_target();
    assert_eq!(faster.target(), easiest.div_u64(4));

    // Slow blocks cannot make the target easier than the easiest.
    let mut slow = chain_of(50, 100, &key);
    slow.try_adjust_target();
    assert_eq!(slow.target(), easiest);
}

#[test]
fn blocks_that_go_back_in_time_make_the_target_a_quarter() {
    // A chain as it may be read from a file: nothing has checked its blocks.
    let key = PrivateKey::new_key().public_key();
    let blocks: Vec<Block> = (0..50u8)
        .map(|i| block_on(btclib::sha256::Hash::zero(), 1000 - 10 * i as i64, vec![coinbase(1, i, &key)]))
        .collect();
    let target = U256::from_u64(1_000_000);
    let mut chain = Blockchain::from_parts(btclib::types::UtxoSet::new(), target, blocks).unwrap();
    chain.try_adjust_target();
    assert_eq!(chain.target(), U256::from_u64(250_000));

    // No time at all between the first and the last.
    let blocks: Vec<Block> = (0..50u8)
        .map(|i| block_on(btclib::sha256::Hash::zero(), 0, vec![coinbase(1, i, &key)]))
        .collect();
    let mut chain = Blockchain::from_parts(btclib::types::UtxoSet::new(), target, blocks).unwrap();
    chain.try_adjust_target();
    assert_eq!(chain.target(), U256::from_u64(250_000));
}

#[test]
fn the_fifty_first_block_adjusts_the_target() {
    let key = PrivateKey::new_key().public_key();
    let mut chain = chain_of(50, 5, &key);
    let last = chain.blocks()[49].hash().unwrap();
    let next = block_on(last, 5 * 50, vec![coinbase(Block::calculate_block_reward(50), 251, &key)]);
    assert_eq!(chain.add_block(next), Ok(()));
    assert_eq!(chain.block_height(), 51);
    assert_eq!(chain.target(), scaled(btclib::min_target(), 245, 500));
}

#[test]
fn a_span_of_the_ideal_time_leaves_the_target() {
    let key = PrivateKey::new_key().public_key();
    let mut chain = Blockchain::new();
    let mut prev = btclib::sha256::Hash::zero();
    for i in 0..50u64 {
        // The last block comes 500 seconds after the first.
        let seconds = if i == 49 { 500 } else { 10 * i as i64 };
        let block = block_on(prev, seconds, vec![coinbase(50 * COIN, i as u8, &key)]);
        prev = block.hash().unwrap();
        assert_eq!(chain.add_block(block), Ok(()));
    }
    chain.try_adjust_target();
    assert_eq!(chain.target(), btclib::min_target());
}
