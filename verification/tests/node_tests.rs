use btclib::crypto::{PrivateKey, PublicKey, Signature};
use btclib::miner::Miner;
use btclib::network::Message;
use btclib::node::{
    block_at, build_template, difference, longest_chain, respond, startup_plan,
    template_is_current, tip, utxos_of, Startup,
};
use btclib::time::Timestamp;
use btclib::types::{
    Block, BlockHeader, Blockchain, Transaction, TransactionInput, TransactionOutput,
};
use btclib::u256::U256;
use btclib::util::MerkleRoot;

const COIN: u64 = 100_000_000;

fn at(seconds: i64) -> Timestamp {
    Timestamp::new(1_700_000_000 + seconds, 0).unwrap()
}

fn output(value: u64, id: u8, key: &PublicKey) -> TransactionOutput {
    TransactionOutput { value, unique_id: [id; 16], pubkey: key.clone() }
}

fn spend(prev: btclib::sha256::Hash, key: &mut PrivateKey, outputs: Vec<TransactionOutput>) -> Transaction {
    let signature = Signature::sign_output(&prev, key).unwrap();
    Transaction::new(
        vec![TransactionInput { prev_transaction_output_hash: prev, signature }],
        outputs,
    )
}

/// A chain of `count` blocks, each paying fifty coins to `key`, and the
/// hashes by which those payments are known.
fn chain_paying(count: u8, key: &PublicKey) -> (Blockchain, Vec<btclib::sha256::Hash>) {
    let mut chain = Blockchain::new();
    let mut prev = btclib::sha256::Hash::zero();
    let mut known = Vec::new();
    for i in 0..count {
        let first = Transaction::new(vec![], vec![output(50 * COIN, i, key)]);
        known.push(first.hash().unwrap());
        let transactions = vec![first];
        let root = MerkleRoot::calculate(&transactions).unwrap();
        let block = Block::new(
            BlockHeader::new(at(10 * i as i64), 0, prev, root, U256::max_value()),
            transactions,
        );
        prev = block.hash().unwrap();
        assert_eq!(chain.add_block(block), Ok(()));
    }
    assert_eq!(chain.rebuild_utxos(), Ok(()));
    (chain, known)
}

fn mine(block: &mut Block) {
    for _ in 0..200 {
        if block.header.mine(100_000) == Ok(true) {
            return;
        }
    }
    panic!("no nonce found");
}

#[test]
fn a_node_starts_from_its_file_its_peers_or_alone() {
    assert_eq!(startup_plan(true, 0), Startup::LoadChain);
    assert_eq!(startup_plan(true, 3), Startup::LoadChain);
    assert_eq!(startup_plan(false, 0), Startup::Seed);
    assert_eq!(startup_plan(false, 1), Startup::Synchronize);
}

#[test]
fn the_chain_is_taken_from_the_first_peer_that_is_furthest_ahead() {
    assert_eq!(longest_chain(&vec![]), None);
    assert_eq!(longest_chain(&vec![0, -3]), None);
    assert_eq!(longest_chain(&vec![1]), Some(0));
    assert_eq!(longest_chain(&vec![2, 7, -1, 7, 3]), Some(1));
    assert_eq!(longest_chain(&vec![i32::MIN, i32::MAX]), Some(1));
}

#[test]
fn a_node_tells_what_it_has() {
    let key = PrivateKey::new_key().public_key();
    let other = PrivateKey::new_key().public_key();
    let (chain, known) = chain_paying(3, &key);

    assert_eq!(difference(&chain, 0), 3);
    assert_eq!(difference(&chain, 3), 0);
    assert_eq!(difference(&chain, 5), -2);
    assert_eq!(difference(&chain, u32::MAX), -(u32::MAX as i64 - 3) as i32);

    assert_eq!(block_at(&chain, 0).unwrap().hash(), chain.blocks()[0].hash());
    assert_eq!(block_at(&chain, 2).unwrap().hash(), chain.blocks()[2].hash());
    assert!(block_at(&chain, 3).is_none());
    assert!(block_at(&chain, u64::MAX).is_none());

    assert_eq!(tip(&chain), chain.blocks()[2].hash().unwrap());
    assert_eq!(tip(&Blockchain::new()), btclib::sha256::Hash::zero());

    let mine = utxos_of(&chain, &key);
    assert_eq!(mine.len(), 3);
    assert!(mine.iter().all(|e| e.0.value == 50 * COIN && !e.1));
    assert_eq!(utxos_of(&chain, &other).len(), 0);
    assert_eq!(known.len(), 3);
}

#[test]
fn a_template_is_mined_submitted_and_passed_on() {
    let mut private = PrivateKey::new_key();
    let key = private.public_key();
    let miner_key = PrivateKey::new_key().public_key();
    let (mut chain, known) = chain_paying(2, &key);
    let peers = vec!["10.0.0.1:9000".to_string()];

    // A wallet submits a transaction with a fee of twenty coins.
    let pending = spend(known[0], &mut private, vec![output(30 * COIN, 9, &key)]);
    let r = respond(&mut chain, &peers, Message::SubmitTransaction(pending.clone()), [0; 16], at(100));
    assert!(r.reply.is_none());
    assert!(matches!(r.broadcast, Some(Message::NewTransaction(t)) if t.hash() == pending.hash()));
    assert_eq!(chain.mempool().len(), 1);

    // The same transaction again comes from a peer; it is taken, and not passed on.
    let r = respond(&mut chain, &peers, Message::NewTransaction(pending.clone()), [0; 16], at(101));
    assert!(r.reply.is_none() && r.broadcast.is_none());
    assert_eq!(chain.mempool().len(), 2);

    // A miner asks for a block to mine.
    let mut miner = Miner::new(miner_key.clone());
    let request = miner.on_tick().unwrap();
    assert!(matches!(&request, Message::FetchTemplate(k) if *k == miner_key));
    let r = respond(&mut chain, &peers, request, [7; 16], at(102));
    assert!(r.broadcast.is_none());
    let answer = r.reply.unwrap();
    let template = match &answer {
        Message::Template(b) => b.clone(),
        _ => panic!("no template"),
    };
    // The transaction is in the template once: its second copy spends the
    // same output.
    assert_eq!(template.transactions.len(), 2);
    assert_eq!(template.transactions[1].hash(), pending.hash());
    assert_eq!(template.transactions[0].inputs.len(), 0);
    assert_eq!(template.transactions[0].outputs.len(), 1);
    assert_eq!(template.transactions[0].outputs[0].value, 70 * COIN);
    assert_eq!(template.transactions[0].outputs[0].unique_id, [7; 16]);
    assert_eq!(template.transactions[0].outputs[0].pubkey, miner_key);
    assert_eq!(template.header.prev_block_hash, chain.blocks()[1].hash().unwrap());
    assert_eq!(template.header.target, chain.target());
    assert_eq!(template.header.nonce, 0);
    assert_eq!(template.header.timestamp, at(102));
    assert_eq!(Some(template.header.merkle_root), MerkleRoot::calculate(&template.transactions));
    assert_eq!(template.verify_transactions(2, chain.utxos()), Ok(()));

    assert!(miner.on_answer(answer).is_ok());
    assert!(miner.mining);

    // While it searches, the miner asks whether the block is still wanted.
    let request = miner.on_tick().unwrap();
    assert!(matches!(&request, Message::ValidateTemplate(_)));
    let r = respond(&mut chain, &peers, request, [0; 16], at(103));
    assert!(matches!(r.reply, Some(Message::TemplateValidity(true))));
    assert!(miner.on_answer(r.reply.unwrap()).is_ok());
    assert!(miner.mining);

    // The worker solves the block; the miner submits it.
    let (generation, mut work) = miner.work().unwrap();
    assert_eq!(generation, 1);
    mine(&mut work);
    let submit = miner.on_mined(work.clone());
    assert!(!miner.mining);
    assert!(miner.work().is_none());
    let r = respond(&mut chain, &peers, submit, [0; 16], at(104));
    assert!(r.reply.is_none());
    assert!(matches!(r.broadcast, Some(Message::NewBlock(b)) if b.hash() == work.hash()));
    assert_eq!(chain.block_height(), 3);
    assert_eq!(chain.mempool().len(), 0);
    // The unspent outputs were worked out anew.
    assert!(!chain.utxos().contains_key(&known[0]));
    assert_eq!(utxos_of(&chain, &miner_key).len(), 1);
    assert_eq!(utxos_of(&chain, &miner_key)[0].0.value, 70 * COIN);

    // The block that was mined is no longer wanted.
    assert!(!template_is_current(&chain, &work));
    let r = respond(&mut chain, &peers, Message::ValidateTemplate(work.clone()), [0; 16], at(105));
    assert!(matches!(r.reply, Some(Message::TemplateValidity(false))));

    // Submitted again, it is refused, and nothing is passed on.
    let r = respond(&mut chain, &peers, Message::SubmitTemplate(work), [0; 16], at(106));
    assert!(r.reply.is_none() && r.broadcast.is_none());
    assert_eq!(chain.block_height(), 3);
}

#[test]
fn a_node_answers_requests_and_ignores_answers() {
    let key = PrivateKey::new_key().public_key();
    let (mut chain, _) = chain_paying(2, &key);
    let peers = vec!["a:1".to_string(), "b:2".to_string()];

    let r = respond(&mut chain, &peers, Message::DiscoverNodes, [0; 16], at(100));
    assert!(matches!(r.reply, Some(Message::NodeList(n)) if n == peers));
    let r = respond(&mut chain, &peers, Message::AskDifference(5), [0; 16], at(100));
    assert!(matches!(r.reply, Some(Message::Difference(-3))));
    let r = respond(&mut chain, &peers, Message::FetchBlock(1), [0; 16], at(100));
    assert!(matches!(r.reply, Some(Message::NewBlock(b)) if b.hash() == chain.blocks()[1].hash()));
    let r = respond(&mut chain, &peers, Message::FetchBlock(2), [0; 16], at(100));
    assert!(r.reply.is_none() && r.broadcast.is_none());
    let r = respond(&mut chain, &peers, Message::FetchUTXOs(key.clone()), [0; 16], at(100));
    assert!(matches!(r.reply, Some(Message::UTXOs(o)) if o.len() == 2));

    for answer in [
        Message::UTXOs(vec![]),
        Message::Template(chain.blocks()[0].clone()),
        Message::TemplateValidity(true),
        Message::NodeList(vec![]),
        Message::Difference(1),
    ] {
        let r = respond(&mut chain, &peers, answer, [0; 16], at(100));
        assert!(r.reply.is_none() && r.broadcast.is_none());
    }
    assert_eq!(chain.block_height(), 2);

    // A block from a peer is taken and not passed on.
    let first = Transaction::new(vec![], vec![output(50 * COIN, 5, &key)]);
    let transactions = vec![first];
    let root = MerkleRoot::calculate(&transactions).unwrap();
    let block =
        Block::new(BlockHeader::new(at(50), 0, tip(&chain), root, U256::max_value()), transactions);
    let r = respond(&mut chain, &peers, Message::NewBlock(block), [0; 16], at(100));
    assert!(r.reply.is_none() && r.broadcast.is_none());
    assert_eq!(chain.block_height(), 3);
    assert_eq!(chain.utxos().len(), 3);
}

#[test]
fn a_template_of_an_empty_chain_names_no_block() {
    let key = PrivateKey::new_key().public_key();
    let chain = Blockchain::new();
    let template = build_template(&chain, &key, [1; 16], at(0));
    assert_eq!(template.header.prev_block_hash, btclib::sha256::Hash::zero());
    assert_eq!(template.transactions.len(), 1);
    assert_eq!(template.transactions[0].outputs[0].value, 50 * COIN);
}

#[test]
fn a_template_takes_the_highest_fees_first_and_leaves_what_does_not_fit() {
    let mut private = PrivateKey::new_key();
    let key = private.public_key();
    let mut stranger = PrivateKey::new_key();
    let (mut chain, known) = chain_paying(4, &key);
    let fee_5 = spend(known[0], &mut private, vec![output(45 * COIN, 10, &key)]);
    let fee_20 = spend(known[1], &mut private, vec![output(30 * COIN, 11, &key)]);
    // Spends the same output as `fee_20`, for a smaller fee.
    let fee_10_conflict = spend(known[1], &mut private, vec![output(40 * COIN, 12, &key)]);
    // Signed by a key that the output is not locked to.
    let fee_30_forged = spend(known[2], &mut stranger, vec![output(20 * COIN, 13, &key)]);
    for t in [&fee_5, &fee_20, &fee_10_conflict, &fee_30_forged] {
        assert_eq!(chain.add_to_mempool_at(t.clone(), at(100)), Ok(()));
    }
    assert_eq!(chain.mempool().len(), 4);
    let template = build_template(&chain, &key, [1; 16], at(200));
    let hashes: Vec<_> = template.transactions[1..].iter().map(|t| t.hash().unwrap()).collect();
    assert_eq!(hashes, vec![fee_20.hash().unwrap(), fee_5.hash().unwrap()]);
    // The reward for the fifth block and the two fees.
    assert_eq!(template.transactions[0].outputs[0].value, 75 * COIN);
    assert_eq!(template.verify_transactions(4, chain.utxos()), Ok(()));
}

#[test]
fn a_miner_takes_only_the_answers_it_asked_for() {
    let key = PrivateKey::new_key().public_key();
    let (chain, _) = chain_paying(1, &key);
    let block = chain.blocks()[0].clone();
    let mut miner = Miner::new(key.clone());
    assert!(!miner.mining);
    assert!(miner.work().is_none());
    // Before it has a block it waits for one.
    let refused = miner.on_answer(Message::TemplateValidity(true));
    assert!(matches!(refused, Err(e) if matches!(e.0, Message::TemplateValidity(true))));
    assert!(!miner.mining && miner.current_template.is_none());
    assert!(miner.on_answer(Message::Template(block.clone())).is_ok());
    assert!(miner.mining);
    assert_eq!(miner.work().unwrap().1.hash(), block.hash());
    assert_eq!(miner.work().unwrap().0, 1);
    // While it searches it waits for a verdict.
    assert!(miner.on_answer(Message::Template(block.clone())).is_err());
    assert!(miner.on_answer(Message::DiscoverNodes).is_err());
    assert!(miner.mining);
    // A block that is no longer wanted ends the search; the next tick asks
    // for a new one.
    assert!(miner.on_answer(Message::TemplateValidity(false)).is_ok());
    assert!(!miner.mining);
    assert!(miner.work().is_none());
    assert!(matches!(miner.on_tick(), Some(Message::FetchTemplate(_))));
}
