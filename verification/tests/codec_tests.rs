use btclib::cbor::{decode, encode, Item};
use btclib::crypto::{PrivateKey, PublicKey, Signature};
use btclib::network::{frame, frame_length, unframe, Message};
use btclib::time::Timestamp;
use btclib::types::{Block, BlockHeader, Transaction, TransactionInput, TransactionOutput};
use btclib::u256::U256;
use btclib::util::MerkleRoot;
use ciborium::value::{Integer, Value};

fn by_ciborium(value: &Value) -> Vec<u8> {
    let mut bytes = Vec::new();
    ciborium::into_writer(value, &mut bytes).unwrap();
    bytes
}

fn text(s: &str) -> Value {
    Value::Text(s.to_string())
}

fn number(v: u64) -> Value {
    Value::Integer(Integer::from(v))
}

fn byte_array(bytes: &[u8]) -> Value {
    Value::Array(bytes.iter().map(|b| number(*b as u64)).collect())
}

fn words(n: &U256) -> Value {
    Value::Array(vec![number(n.w0), number(n.w1), number(n.w2), number(n.w3)])
}

fn output_value(o: &TransactionOutput) -> Value {
    Value::Map(vec![
        (text("value"), number(o.value)),
        (text("unique_id"), Value::Bytes(o.unique_id.to_vec())),
        (text("pubkey"), byte_array(&o.pubkey.0)),
    ])
}

fn input_value(i: &TransactionInput) -> Value {
    Value::Map(vec![
        (text("prev_transaction_output_hash"), words(&i.prev_transaction_output_hash.0)),
        (text("signature"), byte_array(&i.signature.0)),
    ])
}

fn transaction_value(t: &Transaction) -> Value {
    Value::Map(vec![
        (text("inputs"), Value::Array(t.inputs.iter().map(input_value).collect())),
        (text("outputs"), Value::Array(t.outputs.iter().map(output_value).collect())),
    ])
}

fn header_value(h: &BlockHeader) -> Value {
    Value::Map(vec![
        (text("timestamp"), Value::Text(String::from_utf8(h.timestamp.text()).unwrap())),
        (text("nonce"), number(h.nonce)),
        (text("prev_block_hash"), words(&h.prev_block_hash.0)),
        (text("merkle_root"), words(&h.merkle_root.0 .0)),
        (text("target"), words(&h.target)),
    ])
}

fn block_value(b: &Block) -> Value {
    Value::Map(vec![
        (text("header"), header_value(&b.header)),
        (text("transactions"), Value::Array(b.transactions.iter().map(transaction_value).collect())),
    ])
}

fn sample_transaction() -> Transaction {
    let mut key = PrivateKey::new_key();
    let public = key.public_key();
    let prev = btclib::sha256::Hash::hash(b"an earlier transaction").unwrap();
    let signature = Signature::sign_output(&prev, &mut key).unwrap();
    Transaction::new(
        vec![TransactionInput { prev_transaction_output_hash: prev, signature }],
        vec![
            TransactionOutput { value: 0, unique_id: [0; 16], pubkey: public.clone() },
            TransactionOutput { value: u64::MAX, unique_id: [255; 16], pubkey: public },
        ],
    )
}

fn sample_block() -> Block {
    let transactions = vec![Transaction::new(vec![], vec![]), sample_transaction()];
    let root = MerkleRoot::calculate(&transactions).unwrap();
    let header = BlockHeader::new(
        Timestamp::new(1_234_567_890, 123_456_000).unwrap(),
        70_000,
        btclib::sha256::Hash::hash(b"the block before").unwrap(),
        root,
        btclib::min_target(),
    );
    Block::new(header, transactions)
}

#[test]
fn heads_are_as_short_as_they_can_be() {
    assert_eq!(encode(&Item::Unsigned(0)), vec![0x00]);
    assert_eq!(encode(&Item::Unsigned(23)), vec![0x17]);
    assert_eq!(encode(&Item::Unsigned(24)), vec![0x18, 24]);
    assert_eq!(encode(&Item::Unsigned(255)), vec![0x18, 255]);
    assert_eq!(encode(&Item::Unsigned(256)), vec![0x19, 1, 0]);
    assert_eq!(encode(&Item::Unsigned(65_535)), vec![0x19, 255, 255]);
    assert_eq!(encode(&Item::Unsigned(65_536)), vec![0x1a, 0, 1, 0, 0]);
    assert_eq!(encode(&Item::Unsigned(u32::MAX as u64)), vec![0x1a, 255, 255, 255, 255]);
    assert_eq!(encode(&Item::Unsigned(1 << 32)), vec![0x1b, 0, 0, 0, 1, 0, 0, 0, 0]);
    assert_eq!(encode(&Item::Unsigned(u64::MAX)), vec![0x1b, 255, 255, 255, 255, 255, 255, 255, 255]);
    assert_eq!(encode(&Item::Negative(0)), vec![0x20]);
    assert_eq!(encode(&Item::Bool(false)), vec![0xf4]);
    assert_eq!(encode(&Item::Bool(true)), vec![0xf5]);
    assert_eq!(encode(&Item::Bytes(vec![1, 2])), vec![0x42, 1, 2]);
    assert_eq!(encode(&Item::text("ab")), vec![0x62, b'a', b'b']);
    assert_eq!(encode(&Item::Array(vec![Item::Unsigned(1)])), vec![0x81, 1]);
    assert_eq!(
        encode(&Item::Pairs(vec![(Item::Unsigned(1), Item::Bool(true))])),
        vec![0xa1, 1, 0xf5]
    );
}

#[test]
fn numbers_are_written_as_ciborium_writes_them() {
    for v in [0u64, 1, 23, 24, 255, 256, 65_535, 65_536, u32::MAX as u64, 1 << 32, u64::MAX] {
        assert_eq!(encode(&Item::Unsigned(v)), by_ciborium(&number(v)));
    }
    assert_eq!(encode(&Item::Negative(0)), by_ciborium(&Value::Integer(Integer::from(-1))));
    assert_eq!(encode(&Item::Negative(499)), by_ciborium(&Value::Integer(Integer::from(-500))));
    let long = vec![7u8; 300];
    assert_eq!(encode(&Item::Bytes(long.clone())), by_ciborium(&Value::Bytes(long)));
}

#[test]
fn what_is_not_the_one_encoding_is_not_read() {
    assert!(decode(&[0x17]).is_some());
    // An argument in more bytes than it needs.
    assert!(decode(&[0x18, 23]).is_none());
    assert!(decode(&[0x19, 0, 255]).is_none());
    assert!(decode(&[0x1a, 0, 0, 255, 255]).is_none());
    assert!(decode(&[0x1b, 0, 0, 0, 0, 255, 255, 255, 255]).is_none());
    // Bytes after the item.
    assert!(decode(&[0x01, 0x02]).is_none());
    // Nothing at all, a head cut short, a string cut short.
    assert!(decode(&[]).is_none());
    assert!(decode(&[0x19, 1]).is_none());
    assert!(decode(&[0x43, 1, 2]).is_none());
    // An array without a length, a break, a tag, a float, null.
    assert!(decode(&[0x9f, 0x01, 0xff]).is_none());
    assert!(decode(&[0xff]).is_none());
    assert!(decode(&[0xc0, 0x01]).is_none());
    assert!(decode(&[0xf9, 0, 0]).is_none());
    assert!(decode(&[0xf6]).is_none());
    // An array that promises more items than there are bytes.
    assert!(decode(&[0x9b, 255, 255, 255, 255, 255, 255, 255, 255, 1]).is_none());
}

#[test]
fn nesting_is_read_sixteen_deep_and_no_deeper() {
    let mut bytes = vec![0x81u8; 16];
    bytes.push(0x01);
    assert!(decode(&bytes).is_some());
    let mut deeper = vec![0x81u8; 17];
    deeper.push(0x01);
    assert!(decode(&deeper).is_none());
    let bomb = vec![0x81u8; 100_000];
    assert!(decode(&bomb).is_none());
}

#[test]
fn a_transaction_is_written_as_serde_writes_it() {
    let t = sample_transaction();
    assert_eq!(t.encode(), by_ciborium(&transaction_value(&t)));
    assert_eq!(t.outputs[0].encode(), by_ciborium(&output_value(&t.outputs[0])));
}

#[test]
fn a_block_is_written_as_serde_writes_it() {
    let b = sample_block();
    assert_eq!(b.encode(), by_ciborium(&block_value(&b)));
    assert_eq!(b.header.encode(), by_ciborium(&header_value(&b.header)));
}

#[test]
fn the_parts_that_other_crates_own_are_written_as_they_write_them() {
    // A timestamp, as chrono's serde form.
    let t = Timestamp::new(1_234_567_890, 123_456_000).unwrap();
    let theirs = chrono::DateTime::from_timestamp(1_234_567_890, 123_456_000).unwrap();
    let mut bytes = Vec::new();
    ciborium::into_writer(&theirs, &mut bytes).unwrap();
    assert_eq!(encode(&Item::Text(t.text())), bytes);

    // A public key and a signature, as the serde forms of `ecdsa`.
    let mut key = PrivateKey::new_key();
    let public = key.public_key();
    let theirs: ecdsa::VerifyingKey<k256::Secp256k1> =
        spki::DecodePublicKey::from_public_key_der(&public.0).unwrap();
    let mut bytes = Vec::new();
    ciborium::into_writer(&theirs, &mut bytes).unwrap();
    assert_eq!(encode(&Item::byte_array(&public.0)), bytes);

    let h = btclib::sha256::Hash::hash(b"x").unwrap();
    let signature = Signature::sign_output(&h, &mut key).unwrap();
    let theirs = ecdsa::Signature::<k256::Secp256k1>::from_slice(&signature.0).unwrap();
    let mut bytes = Vec::new();
    ciborium::into_writer(&theirs, &mut bytes).unwrap();
    assert_eq!(encode(&Item::byte_array(&signature.0)), bytes);

    // The sixteen bytes of an identifier, as the serde form of `uuid`.
    let id = [3u8, 1, 4, 1, 5, 9, 2, 6, 5, 3, 5, 8, 9, 7, 9, 3];
    let mut bytes = Vec::new();
    ciborium::into_writer(&uuid::Uuid::from_bytes(id), &mut bytes).unwrap();
    assert_eq!(encode(&Item::bytes(&id)), bytes);
}

#[test]
fn what_is_written_is_read_back() {
    let t = sample_transaction();
    let back = Transaction::decode(&t.encode()).unwrap();
    assert_eq!(back.encode(), t.encode());
    assert_eq!(back.hash(), t.hash());
    assert_eq!(back.inputs.len(), 1);
    assert_eq!(back.outputs[1].value, u64::MAX);
    assert_eq!(back.outputs[1].pubkey, t.outputs[1].pubkey);

    let o = TransactionOutput::decode(&t.outputs[0].encode()).unwrap();
    assert_eq!(o.unique_id, [0; 16]);

    let b = sample_block();
    let back = Block::decode(&b.encode()).unwrap();
    assert_eq!(back.encode(), b.encode());
    assert_eq!(back.hash(), b.hash());
    assert_eq!(back.header.timestamp, b.header.timestamp);
    assert_eq!(back.header.nonce, 70_000);
    assert_eq!(back.header.target, btclib::min_target());

    let h = BlockHeader::decode(&b.header.encode()).unwrap();
    assert_eq!(h.hash(), b.header.hash());
    assert!(Block::decode(&b.header.encode()).is_none());
    assert!(Transaction::decode(&b.encode()).is_none());
}

#[test]
fn a_timestamp_is_read_from_its_own_text_only() {
    let t = Timestamp::new(1_234_567_890, 0).unwrap();
    assert_eq!(Timestamp::from_text(b"2009-02-13T23:31:30Z"), Some(t));
    // The same instant in other words.
    assert_eq!(Timestamp::from_text(b"2009-02-13T23:31:30+00:00"), None);
    assert_eq!(Timestamp::from_text(b"2009-02-14T00:31:30+01:00"), None);
    assert_eq!(Timestamp::from_text(b"2009-02-13T23:31:30.000Z"), None);
    assert_eq!(Timestamp::from_text(b"yesterday"), None);
    assert_eq!(Timestamp::from_text(&[0xff, 0xfe]), None);
}

fn round_trip(m: &Message) -> Message {
    let bytes = m.encode();
    let back = Message::decode(&bytes).unwrap();
    assert_eq!(back.encode(), bytes);
    let framed = m.to_frame();
    assert_eq!(framed.len(), bytes.len() + 8);
    let (again, used) = Message::from_frame(&framed).unwrap();
    assert_eq!(used, framed.len());
    assert_eq!(again.encode(), bytes);
    back
}

#[test]
fn every_kind_of_message_is_read_back() {
    let key = PrivateKey::new_key().public_key();
    let t = sample_transaction();
    let b = sample_block();
    assert!(matches!(round_trip(&Message::FetchUTXOs(key.clone())), Message::FetchUTXOs(k) if k == key));
    let listed = vec![(t.outputs[0].clone(), true), (t.outputs[1].clone(), false)];
    assert!(matches!(round_trip(&Message::UTXOs(listed)), Message::UTXOs(o) if o.len() == 2 && o[0].1 && !o[1].1));
    assert!(matches!(round_trip(&Message::SubmitTransaction(t.clone())), Message::SubmitTransaction(_)));
    assert!(matches!(round_trip(&Message::NewTransaction(t.clone())), Message::NewTransaction(_)));
    assert!(matches!(round_trip(&Message::FetchTemplate(key.clone())), Message::FetchTemplate(_)));
    assert!(matches!(round_trip(&Message::Template(b.clone())), Message::Template(_)));
    assert!(matches!(round_trip(&Message::ValidateTemplate(b.clone())), Message::ValidateTemplate(_)));
    assert!(matches!(round_trip(&Message::TemplateValidity(true)), Message::TemplateValidity(true)));
    assert!(matches!(round_trip(&Message::TemplateValidity(false)), Message::TemplateValidity(false)));
    assert!(matches!(round_trip(&Message::SubmitTemplate(b.clone())), Message::SubmitTemplate(_)));
    assert!(matches!(round_trip(&Message::DiscoverNodes), Message::DiscoverNodes));
    let nodes = vec!["127.0.0.1:9000".to_string(), "n\u{f6}d:1".to_string(), String::new()];
    assert!(matches!(round_trip(&Message::NodeList(nodes.clone())), Message::NodeList(n) if n == nodes));
    assert!(matches!(round_trip(&Message::AskDifference(u32::MAX)), Message::AskDifference(u32::MAX)));
    assert!(matches!(round_trip(&Message::Difference(0)), Message::Difference(0)));
    assert!(matches!(round_trip(&Message::Difference(i32::MAX)), Message::Difference(i32::MAX)));
    assert!(matches!(round_trip(&Message::Difference(-1)), Message::Difference(-1)));
    assert!(matches!(round_trip(&Message::Difference(i32::MIN)), Message::Difference(i32::MIN)));
    assert!(matches!(round_trip(&Message::FetchBlock(u64::MAX)), Message::FetchBlock(u64::MAX)));
    assert!(matches!(round_trip(&Message::NewBlock(b)), Message::NewBlock(_)));
}

#[test]
fn messages_are_written_as_serde_writes_an_enum() {
    assert_eq!(Message::DiscoverNodes.encode(), by_ciborium(&text("DiscoverNodes")));
    assert_eq!(
        Message::AskDifference(7).encode(),
        by_ciborium(&Value::Map(vec![(text("AskDifference"), number(7))]))
    );
    assert_eq!(
        Message::Difference(-3).encode(),
        by_ciborium(&Value::Map(vec![(text("Difference"), Value::Integer(Integer::from(-3)))]))
    );
    assert_eq!(
        Message::TemplateValidity(true).encode(),
        by_ciborium(&Value::Map(vec![(text("TemplateValidity"), Value::Bool(true))]))
    );
    assert_eq!(
        Message::NodeList(vec!["a:1".to_string()]).encode(),
        by_ciborium(&Value::Map(vec![(text("NodeList"), Value::Array(vec![text("a:1")]))]))
    );
    let t = sample_transaction();
    assert_eq!(
        Message::UTXOs(vec![(t.outputs[0].clone(), true)]).encode(),
        by_ciborium(&Value::Map(vec![(
            text("UTXOs"),
            Value::Array(vec![Value::Array(vec![output_value(&t.outputs[0]), Value::Bool(true)])])
        )]))
    );
}

#[test]
fn a_message_that_is_cut_short_is_not_read() {
    let t = sample_transaction();
    for m in [
        Message::DiscoverNodes,
        Message::Difference(-70_000),
        Message::NodeList(vec!["a:1".to_string(), "b:22".to_string()]),
        Message::SubmitTransaction(t),
        Message::NewBlock(sample_block()),
    ] {
        let bytes = m.encode();
        for k in 0..bytes.len() {
            assert!(Message::decode(&bytes[..k]).is_none());
        }
        assert!(Message::decode(&bytes).is_some());
        let mut longer = bytes.clone();
        longer.push(0);
        assert!(Message::decode(&longer).is_none());
    }
}

#[test]
fn messages_that_are_none_are_not_read() {
    assert!(Message::decode(&by_ciborium(&text("Discover"))).is_none());
    assert!(Message::decode(&by_ciborium(&Value::Map(vec![(text("Nothing"), number(1))]))).is_none());
    assert!(Message::decode(&by_ciborium(&Value::Map(vec![(text("AskDifference"), number(1 << 32))]))).is_none());
    assert!(Message::decode(&by_ciborium(&Value::Map(vec![(text("Difference"), number(1 << 31))]))).is_none());
    assert!(Message::decode(&by_ciborium(&Value::Map(vec![(text("FetchBlock"), text("1"))]))).is_none());
    assert!(Message::decode(&by_ciborium(&Value::Map(vec![
        (text("FetchBlock"), number(1)),
        (text("FetchBlock"), number(2)),
    ])))
    .is_none());
    let bad_text = vec![0xa1, 0x68, b'N', b'o', b'd', b'e', b'L', b'i', b's', b't', 0x81, 0x61, 0xff];
    assert!(Message::decode(&bad_text).is_none());
}

#[test]
fn a_frame_is_a_length_in_eight_bytes_and_the_payload() {
    assert_eq!(frame(b"abc"), vec![0, 0, 0, 0, 0, 0, 0, 3, b'a', b'b', b'c']);
    assert_eq!(frame(b""), vec![0, 0, 0, 0, 0, 0, 0, 0]);
    let long = vec![9u8; 0x0102];
    let framed = frame(&long);
    assert_eq!(&framed[..8], &[0, 0, 0, 0, 0, 0, 1, 2]);
    assert_eq!(frame_length(&[0, 0, 0, 0, 0, 0, 1, 2]), 0x0102);
    assert_eq!(frame_length(&[1, 0, 0, 0, 0, 0, 0, 0]), 1 << 56);
    assert_eq!(unframe(&framed), Some((8, 8 + 0x0102)));
    // What follows a frame is left alone.
    let mut two = frame(b"abc");
    two.extend_from_slice(&frame(b"de"));
    assert_eq!(unframe(&two), Some((8, 11)));
    assert_eq!(unframe(&two[11..]), Some((8, 10)));
    // A frame that is cut short.
    assert_eq!(unframe(&framed[..100]), None);
    assert_eq!(unframe(&[0, 0, 0]), None);
    assert_eq!(unframe(&[255; 8]), None);
    assert!(Message::from_frame(&[0, 0, 0, 0, 0, 0, 0, 1, 0x01]).is_none());
}
