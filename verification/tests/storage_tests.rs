use btclib::crypto::{PrivateKey, PublicKey, Signature};
use btclib::error::BtcError;
use btclib::time::Timestamp;
use btclib::types::{
    Block, BlockHeader, Blockchain, Transaction, TransactionInput, TransactionOutput, UtxoSet,
};
use btclib::u256::U256;
use btclib::util::MerkleRoot;

const COIN: u64 = 100_000_000;

fn at(seconds: i64) -> Timestamp {
    Timestamp::new(1_700_000_000 + seconds, 0).unwrap()
}

fn chain_with_a_pending_transaction() -> Blockchain {
    let mut private = PrivateKey::new_key();
    let public = private.public_key();
    let mut chain = Blockchain::new();
    let mut prev = btclib::sha256::Hash::zero();
    let mut known = vec![];
    for i in 0..3u8 {
        let first = Transaction::new(
            vec![],
            vec![TransactionOutput { value: 50 * COIN, unique_id: [i; 16], pubkey: public.clone() }],
        );
        known.push(first.hash().unwrap());
        let transactions = vec![first];
        let root = MerkleRoot::calculate(&transactions).unwrap();
        let block =
            Block::new(BlockHeader::new(at(i as i64), 0, prev, root, U256::max_value()), transactions);
        prev = block.hash().unwrap();
        chain.add_block(block).unwrap();
    }
    chain.rebuild_utxos().unwrap();
    let signature = Signature::sign_output(&known[1], &mut private).unwrap();
    let pending = Transaction::new(
        vec![TransactionInput { prev_transaction_output_hash: known[1], signature }],
        vec![TransactionOutput { value: COIN, unique_id: [9; 16], pubkey: public }],
    );
    chain.add_to_mempool(pending).unwrap();
    chain
}

#[test]
fn a_chain_is_stored_without_its_pending_transactions() {
    let chain = chain_with_a_pending_transaction();
    assert_eq!(chain.mempool().len(), 1);
    let bytes = chain.encode();
    let back = Blockchain::decode(&bytes).unwrap();
    assert_eq!(back.mempool().len(), 0);
    assert_eq!(back.block_height(), 3);
    assert_eq!(back.target(), chain.target());
    assert_eq!(back.utxos().len(), 3);
    for i in 0..3 {
        assert_eq!(back.blocks()[i].hash(), chain.blocks()[i].hash());
        let (hash, reserved, output) = chain.utxos().entry(i);
        let (found_reserved, found) = back.utxos().get(&hash).unwrap();
        assert_eq!(found_reserved, reserved);
        assert_eq!(found.encode(), output.encode());
    }
    // The marks are stored as they are.
    assert_eq!((0..3).filter(|i| back.utxos().entry(*i).1).count(), 1);
    assert_eq!(back.encode(), bytes);
    // A chain without pending transactions comes back as it was.
    assert_eq!(Blockchain::decode(&back.encode()).unwrap().encode(), bytes);
}

#[test]
fn the_stored_form_has_three_fields() {
    let bytes = Blockchain::new().encode();
    let mut expected = vec![0xa3u8, 0x65];
    expected.extend_from_slice(b"utxos");
    expected.push(0xa0);
    expected.push(0x66);
    expected.extend_from_slice(b"target");
    expected.push(0x84);
    for _ in 0..3 {
        expected.extend_from_slice(&[0x1b, 255, 255, 255, 255, 255, 255, 255, 255]);
    }
    expected.extend_from_slice(&[0x1b, 0, 0, 255, 255, 255, 255, 255, 255]);
    expected.push(0x66);
    expected.extend_from_slice(b"blocks");
    expected.push(0x80);
    assert_eq!(bytes, expected);
    let back = Blockchain::decode(&bytes).unwrap();
    assert_eq!(back.block_height(), 0);
    assert_eq!(back.target(), btclib::min_target());
}

#[test]
fn what_is_no_chain_is_not_read() {
    let chain = chain_with_a_pending_transaction();
    let bytes = chain.encode();
    assert!(Blockchain::decode(&bytes[..bytes.len() - 1]).is_none());
    assert!(Blockchain::decode(&[]).is_none());
    assert!(Blockchain::decode(&chain.blocks()[0].encode()).is_none());

    // A target that is easier than the easiest.
    let mut easy = Blockchain::new().encode();
    let at = easy.len() - 8 - 9 + 1;
    easy[at] = 0;
    easy[at + 1] = 1;
    assert!(Blockchain::decode(&easy).is_none());
    assert!(Blockchain::from_parts(UtxoSet::new(), U256::max_value(), vec![]).is_none());
    assert!(Blockchain::from_parts(UtxoSet::new(), btclib::min_target(), vec![]).is_some());

    // The same hash twice among the unspent outputs.
    let output = TransactionOutput { value: 1, unique_id: [0; 16], pubkey: PublicKey(vec![]) };
    let mut entry = vec![0x84u8, 1, 2, 3, 4, 0x82, 0xf4];
    entry.extend_from_slice(&output.encode());
    let mut twice = vec![0xa3u8, 0x65];
    twice.extend_from_slice(b"utxos");
    twice.push(0xa2);
    twice.extend_from_slice(&entry);
    twice.extend_from_slice(&entry);
    let rest = &Blockchain::new().encode()[8..];
    twice.extend_from_slice(rest);
    assert!(Blockchain::decode(&twice).is_none());
    let mut once = vec![0xa3u8, 0x65];
    once.extend_from_slice(b"utxos");
    once.push(0xa1);
    once.extend_from_slice(&entry);
    once.extend_from_slice(rest);
    let read = Blockchain::decode(&once).unwrap();
    assert_eq!(read.utxos().len(), 1);
    let key = btclib::sha256::Hash(U256::from_words([1, 2, 3, 4]));
    assert_eq!(read.utxos().get(&key).unwrap().1.value, 1);
}

#[test]
fn a_private_key_is_stored_as_its_scalar() {
    let key = PrivateKey::new_key();
    let other = PrivateKey::new_key();
    assert_eq!(key.to_bytes().len(), 32);
    assert_ne!(key.to_bytes(), other.to_bytes());
    let bytes = key.encode();
    assert_eq!(bytes.len(), 34);
    assert_eq!(&bytes[..2], &[0x58, 32]);
    assert_eq!(&bytes[2..], &key.to_bytes()[..]);
    let back = PrivateKey::decode(&bytes).unwrap();
    assert_eq!(back.to_bytes(), key.to_bytes());
    assert_eq!(back.public_key(), key.public_key());
    assert!(PrivateKey::decode(&[0x01]).is_none());
    assert!(PrivateKey::decode(&bytes[..33]).is_none());
    assert_eq!(PrivateKey::default().to_bytes().len(), 32);
    // A stored byte string that is no scalar is no key.
    let mut zero = vec![0x58u8, 32];
    zero.extend_from_slice(&[0u8; 32]);
    assert!(PrivateKey::decode(&zero).is_none());
}

#[test]
fn unspent_outputs_are_found_by_hash() {
    let output = |v: u64| TransactionOutput { value: v, unique_id: [0; 16], pubkey: PublicKey(vec![]) };
    let h = |n: u64| btclib::sha256::Hash(U256::from_u64(n));
    let mut utxos = UtxoSet::new();
    assert_eq!(utxos.len(), 0);
    assert!(!utxos.contains_key(&h(1)));
    assert!(utxos.get(&h(1)).is_none());
    utxos.insert(h(1), false, output(10));
    utxos.insert(h(2), true, output(20));
    assert_eq!(utxos.len(), 2);
    assert!(utxos.contains_key(&h(2)));
    assert_eq!(utxos.get(&h(2)).unwrap().0, true);
    assert_eq!(utxos.get(&h(2)).unwrap().1.value, 20);
    // A hash that is taken anew names the new output.
    utxos.insert(h(1), true, output(30));
    assert_eq!(utxos.len(), 2);
    assert_eq!(utxos.get(&h(1)).unwrap().1.value, 30);
    assert!(utxos.get(&h(1)).unwrap().0);
    utxos.set_reserved(&h(1), false);
    assert!(!utxos.get(&h(1)).unwrap().0);
    assert_eq!(utxos.get(&h(1)).unwrap().1.value, 30);
    utxos.set_reserved(&h(7), true);
    assert_eq!(utxos.len(), 2);
    utxos.remove(&h(7));
    assert_eq!(utxos.len(), 2);
    utxos.remove(&h(1));
    assert_eq!(utxos.len(), 1);
    assert!(!utxos.contains_key(&h(1)));
    assert_eq!(utxos.entry(0).0, h(2));
}

#[test]
fn errors_have_words_and_hashes_have_digits() {
    assert_eq!(BtcError::InvalidBlock.message(), "invalid block");
    assert_eq!(BtcError::InvalidTransaction.message(), "invalid transaction");
    assert_eq!(BtcError::InvalidHash.message(), "invalid hash");
    assert_eq!(BtcError::InvalidMerkleRoot.message(), "invalid merkle root");
    assert_eq!(BtcError::InvalidSignature.message(), "invalid signature");
    assert_eq!(btclib::sha256::Hash::zero().to_string(), "0");
    let h = btclib::sha256::Hash::hash(b"hello").unwrap();
    // The digest bytes, the last one first.
    assert_eq!(
        h.to_string(),
        "24988b93623304735e42a71f5c1e161b9ee2b9c52a3be8260ea3b05fba4df22c"
    );
    assert!(h.matches_target(U256::max_value()));
    assert!(!h.matches_target(U256::zero()));
    assert!(h.matches_target(h.0));
    assert!(btclib::sha256::Hash::zero().matches_target(U256::zero()));
}
