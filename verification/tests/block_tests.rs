use btclib::crypto::{PrivateKey, PublicKey, Signature};
use btclib::error::BtcError;
use btclib::time::Timestamp;
use btclib::types::blockchain::next_target;
use btclib::types::{
    Block, BlockHeader, Blockchain, Transaction, TransactionInput, TransactionOutput,
};
use btclib::u256::U256;
use btclib::util::MerkleRoot;

const COIN: u64 = 100_000_000;

fn at(seconds: i64) -> Timestamp {
    Timestamp::new(1_700_000_000 + seconds, 0).unwrap()
}

fn key() -> PublicKey {
    PublicKey(vec![1, 2, 3])
}

fn output(value: u64, id: u8) -> TransactionOutput {
    TransactionOutput { value, unique_id: [id; 16], pubkey: key() }
}

fn paying(value: u64, id: u8) -> Transaction {
    Transaction::new(vec![], vec![output(value, id)])
}

fn pair(left: &btclib::sha256::Hash, right: &btclib::sha256::Hash) -> btclib::sha256::Hash {
    // Two numbers side by side: an array of two arrays of four words.
    let mut bytes = vec![0x82u8];
    for h in [left, right] {
        bytes.push(0x84);
        for w in [h.0.w0, h.0.w1, h.0.w2, h.0.w3] {
            bytes.extend_from_slice(&btclib::cbor::encode(&btclib::cbor::Item::Unsigned(w)));
        }
    }
    btclib::sha256::Hash::hash(&bytes).unwrap()
}

#[test]
fn merkle_root_of_nothing_one_two_and_three() {
    assert_eq!(MerkleRoot::calculate(&[]), None);
    let a = paying(1, 1);
    let b = paying(2, 2);
    let c = paying(3, 3);
    let (ha, hb, hc) = (a.hash().unwrap(), b.hash().unwrap(), c.hash().unwrap());
    assert_eq!(MerkleRoot::calculate(&[a.clone()]), Some(MerkleRoot(ha)));
    assert_eq!(MerkleRoot::calculate(&[a.clone(), b.clone()]), Some(MerkleRoot(pair(&ha, &hb))));
    // The last of three is paired with itself.
    let expected = pair(&pair(&ha, &hb), &pair(&hc, &hc));
    assert_eq!(MerkleRoot::calculate(&[a.clone(), b.clone(), c.clone()]), Some(MerkleRoot(expected)));
    // The order counts.
    assert_ne!(MerkleRoot::calculate(&[b, a]), Some(MerkleRoot(pair(&ha, &hb))));
}

#[test]
fn merkle_root_of_five() {
    let txs: Vec<Transaction> = (0..5).map(|i| paying(i as u64, i)).collect();
    let h: Vec<_> = txs.iter().map(|t| t.hash().unwrap()).collect();
    let layer = [pair(&h[0], &h[1]), pair(&h[2], &h[3]), pair(&h[4], &h[4])];
    let above = [pair(&layer[0], &layer[1]), pair(&layer[2], &layer[2])];
    assert_eq!(MerkleRoot::calculate(&txs), Some(MerkleRoot(pair(&above[0], &above[1]))));
}

#[test]
fn the_reward_halves_every_210_blocks() {
    assert_eq!(Block::calculate_block_reward(0), 50 * COIN);
    assert_eq!(Block::calculate_block_reward(209), 50 * COIN);
    assert_eq!(Block::calculate_block_reward(210), 25 * COIN);
    assert_eq!(Block::calculate_block_reward(419), 25 * COIN);
    assert_eq!(Block::calculate_block_reward(420), 1_250_000_000);
    assert_eq!(Block::calculate_block_reward(630), 625_000_000);
    assert_eq!(Block::calculate_block_reward(840), 312_500_000);
    // Each halving rounds down.
    assert_eq!(Block::calculate_block_reward(210 * 10), 4_882_812);
    assert_eq!(Block::calculate_block_reward(210 * 11), 2_441_406);
    assert_eq!(Block::calculate_block_reward(210 * 32), 1);
    assert_eq!(Block::calculate_block_reward(210 * 33), 0);
    assert_eq!(Block::calculate_block_reward(210 * 64), 0);
    assert_eq!(Block::calculate_block_reward(u64::MAX), 0);
}

fn spend(prev: btclib::sha256::Hash, key: &mut PrivateKey, outputs: Vec<TransactionOutput>) -> Transaction {
    let signature = Signature::sign_output(&prev, key).unwrap();
    Transaction::new(
        vec![TransactionInput { prev_transaction_output_hash: prev, signature }],
        outputs,
    )
}

/// A chain of two blocks that pay fifty coins each to the key, the key, and
/// the hashes by which the payments are known.
fn funded() -> (Blockchain, PrivateKey, Vec<btclib::sha256::Hash>) {
    let private = PrivateKey::new_key();
    let public = private.public_key();
    let mut chain = Blockchain::new();
    let mut prev = btclib::sha256::Hash::zero();
    let mut known = vec![];
    for i in 0..2u8 {
        let first = Transaction::new(
            vec![],
            vec![TransactionOutput { value: 50 * COIN, unique_id: [i; 16], pubkey: public.clone() }],
        );
        known.push(first.hash().unwrap());
        let transactions = vec![first];
        let root = MerkleRoot::calculate(&transactions).unwrap();
        let block = Block::new(
            BlockHeader::new(at(i as i64), 0, prev, root, U256::max_value()),
            transactions,
        );
        prev = block.hash().unwrap();
        chain.add_block(block).unwrap();
    }
    chain.rebuild_utxos().unwrap();
    (chain, private, known)
}

fn block_of(transactions: Vec<Transaction>) -> Block {
    let root = MerkleRoot::calculate(&transactions).unwrap_or(MerkleRoot(btclib::sha256::Hash::zero()));
    Block::new(
        BlockHeader::new(at(100), 0, btclib::sha256::Hash::zero(), root, U256::max_value()),
        transactions,
    )
}

#[test]
fn fees_are_what_is_spent_less_what_is_made() {
    let (chain, mut private, known) = funded();
    let utxos = chain.utxos();
    assert_eq!(block_of(vec![]).calculate_miner_fees(utxos), Ok(0));
    assert_eq!(block_of(vec![paying(50 * COIN, 9)]).calculate_miner_fees(utxos), Ok(0));
    let a = spend(known[0], &mut private, vec![output(30 * COIN, 10), output(5 * COIN, 11)]);
    let b = spend(known[1], &mut private, vec![output(50 * COIN, 12)]);
    assert_eq!(
        block_of(vec![paying(0, 9), a.clone(), b.clone()]).calculate_miner_fees(utxos),
        Ok(15 * COIN)
    );
    // The first transaction does not count, whatever it holds.
    assert_eq!(block_of(vec![a.clone(), b.clone()]).calculate_miner_fees(utxos), Ok(0));

    // An input that names nothing.
    let stray = spend(btclib::sha256::Hash::zero(), &mut private, vec![]);
    assert_eq!(
        block_of(vec![paying(0, 9), stray]).calculate_miner_fees(utxos),
        Err(BtcError::InvalidTransaction)
    );
    // Two inputs that name the same output.
    let again = spend(known[0], &mut private, vec![output(1, 13)]);
    assert_eq!(
        block_of(vec![paying(0, 9), a.clone(), again]).calculate_miner_fees(utxos),
        Err(BtcError::InvalidTransaction)
    );
    // Two outputs with the same hash.
    let twin = spend(known[1], &mut private, vec![output(30 * COIN, 10)]);
    assert_eq!(
        block_of(vec![paying(0, 9), a.clone(), twin]).calculate_miner_fees(utxos),
        Err(BtcError::InvalidTransaction)
    );
    // More made than spent.
    let greedy = spend(known[1], &mut private, vec![output(80 * COIN, 14)]);
    assert_eq!(
        block_of(vec![paying(0, 9), greedy]).calculate_miner_fees(utxos),
        Err(BtcError::InvalidTransaction)
    );
}

#[test]
fn the_first_transaction_pays_reward_and_fees() {
    let (chain, mut private, known) = funded();
    let utxos = chain.utxos();
    let a = spend(known[0], &mut private, vec![output(30 * COIN, 10)]);
    assert_eq!(block_of(vec![]).verify_coinbase_transaction(2, utxos), Err(BtcError::InvalidBlock));
    assert_eq!(block_of(vec![]).verify_transactions(2, utxos), Err(BtcError::InvalidTransaction));
    assert_eq!(
        block_of(vec![Transaction::new(vec![], vec![]), a.clone()]).verify_coinbase_transaction(2, utxos),
        Err(BtcError::InvalidTransaction)
    );
    let exact = block_of(vec![paying(70 * COIN, 9), a.clone()]);
    assert_eq!(exact.verify_coinbase_transaction(2, utxos), Ok(()));
    assert_eq!(exact.verify_transactions(2, utxos), Ok(()));
    // At a height of 210 the reward is half as much.
    assert_eq!(exact.verify_coinbase_transaction(210, utxos), Err(BtcError::InvalidTransaction));
    let later = block_of(vec![paying(45 * COIN, 9), a.clone()]);
    assert_eq!(later.verify_coinbase_transaction(210, utxos), Ok(()));
    // Several outputs are added up.
    let split = block_of(vec![Transaction::new(vec![], vec![output(60 * COIN, 1), output(10 * COIN, 2)]), a]);
    assert_eq!(split.verify_transactions(2, utxos), Ok(()));
}

#[test]
fn a_header_is_mined_nonce_by_nonce() {
    let root = MerkleRoot::calculate(&[paying(1, 1)]).unwrap();
    let start = BlockHeader::new(at(0), 0, btclib::sha256::Hash::zero(), root, U256::zero());

    // No hash is zero: the budget runs out, one nonce for each step.
    let mut h = start;
    assert_eq!(h.mine(0), Ok(false));
    assert_eq!(h.nonce, 0);
    assert_eq!(h.mine(25), Ok(false));
    assert_eq!(h.nonce, 25);
    assert_eq!(h.timestamp, at(0));

    // Every hash is below the greatest number: the first header is taken.
    let mut h = start;
    h.target = U256::max_value();
    h.nonce = 7;
    assert_eq!(h.mine(3), Ok(true));
    assert_eq!(h.nonce, 7);
    // Without a step nothing is tried.
    assert_eq!(h.mine(0), Ok(false));

    // The search stops at the first header that meets the target.
    let mut h = start;
    h.target = U256::max_value().div_u64(64);
    assert_eq!(h.mine(100_000), Ok(true));
    assert!(h.hash().unwrap().matches_target(h.target));
    let found = h.nonce;
    for nonce in 0..found {
        let mut before = start;
        before.target = h.target;
        before.nonce = nonce;
        assert!(!before.hash().unwrap().matches_target(h.target));
    }
    let mut again = start;
    again.target = h.target;
    assert_eq!(again.mine(found as usize), Ok(false));
    assert_eq!(again.nonce, found);
    assert_eq!(again.mine(1), Ok(true));
    assert_eq!(again.nonce, found);
}

#[test]
fn after_the_last_nonce_the_search_goes_on_at_a_new_instant() {
    let root = MerkleRoot::calculate(&[paying(1, 1)]).unwrap();
    let mut h = BlockHeader::new(at(0), u64::MAX - 1, btclib::sha256::Hash::zero(), root, U256::zero());
    assert_eq!(h.mine_at(1, at(50)), Ok(false));
    assert_eq!((h.nonce, h.timestamp), (u64::MAX, at(0)));
    assert_eq!(h.mine_at(1, at(50)), Ok(false));
    assert_eq!((h.nonce, h.timestamp), (0, at(50)));
    assert_eq!(h.mine_at(2, at(60)), Ok(false));
    assert_eq!((h.nonce, h.timestamp), (2, at(50)));

    let mut h = BlockHeader::new(at(0), u64::MAX - 1, btclib::sha256::Hash::zero(), root, U256::zero());
    let before = Timestamp::now().unwrap();
    assert_eq!(h.mine(5), Ok(false));
    let after = Timestamp::now().unwrap();
    assert_eq!(h.nonce, 3);
    assert!(before.le(&h.timestamp) && h.timestamp.le(&after));
}

#[test]
fn the_next_target_is_read_from_the_scaled_text() {
    let current = U256::from_u64(1000);
    assert_eq!(next_target(current, b"980.000"), Some(U256::from_u64(980)));
    assert_eq!(next_target(current, b"980"), Some(U256::from_u64(980)));
    assert_eq!(next_target(current, b"999.999"), Some(U256::from_u64(999)));
    // No less than a quarter, no more than four times.
    assert_eq!(next_target(current, b"249.9"), Some(U256::from_u64(250)));
    assert_eq!(next_target(current, b"0"), Some(U256::from_u64(250)));
    assert_eq!(next_target(current, b".5"), Some(U256::from_u64(250)));
    assert_eq!(next_target(current, b""), Some(U256::from_u64(250)));
    assert_eq!(next_target(current, b"4001"), Some(U256::from_u64(4000)));
    let huge = [b'9'; 100];
    assert_eq!(next_target(current, &huge), Some(U256::from_u64(4000)));
    // No easier than the easiest.
    let easiest = btclib::min_target();
    assert_eq!(next_target(easiest, &huge), Some(easiest));
    assert_eq!(next_target(U256::max_value(), &huge), Some(easiest));
    assert_eq!(next_target(U256::max_value(), b"1"), Some(easiest));
    // A number below zero gives the quarter.
    assert_eq!(next_target(current, b"-980"), Some(U256::from_u64(250)));
    assert_eq!(next_target(current, b"-980.5"), Some(U256::from_u64(250)));
    assert_eq!(next_target(current, b"-0"), Some(U256::from_u64(250)));
    assert_eq!(next_target(current, b"-"), Some(U256::from_u64(250)));
    assert_eq!(next_target(U256::max_value(), b"-1"), Some(easiest));
    assert_eq!(next_target(U256::from_u64(3), b"-7"), Some(U256::zero()));
    // What is no number.
    assert_eq!(next_target(current, b"--980"), None);
    assert_eq!(next_target(current, b"-9e2"), None);
    assert_eq!(next_target(current, b"9-8"), None);
    assert_eq!(next_target(current, b"98e1"), None);
    assert_eq!(next_target(current, b"9 8"), None);
}

#[test]
fn timestamps_are_ordered_and_measured() {
    let a = Timestamp::new(100, 900_000_000).unwrap();
    let b = Timestamp::new(101, 100_000_000).unwrap();
    let c = Timestamp::new(103, 900_000_000).unwrap();
    assert!(a.lt(&b) && a.le(&b) && !b.le(&a) && a.le(&a) && !a.lt(&a));
    assert_eq!(a.seconds(), 100);
    assert_eq!(a.subsec_nanos(), 900_000_000);
    // Whole seconds, rounded towards zero.
    assert_eq!(b.seconds_since(&a), 0);
    assert_eq!(a.seconds_since(&b), 0);
    assert_eq!(c.seconds_since(&a), 3);
    assert_eq!(a.seconds_since(&c), -3);
    assert_eq!(c.seconds_since(&b), 2);
    assert_eq!(b.seconds_since(&c), -2);
    assert!(!a.older_than(&c, 3));
    assert!(a.older_than(&c, 2));
    assert!(b.older_than(&c, 2));
    assert!(!c.older_than(&a, 0));
    let before = Timestamp::new(-1, 999_999_999).unwrap();
    assert_eq!(before.text(), b"1969-12-31T23:59:59.999999999Z".to_vec());
    assert_eq!(Timestamp::new(0, 0).unwrap().seconds_since(&before), 0);
    let system = std::time::SystemTime::now()
        .duration_since(std::time::UNIX_EPOCH)
        .unwrap()
        .as_secs() as i64;
    let now = Timestamp::now().unwrap();
    assert!((now.seconds() - system).abs() <= 2);
}
