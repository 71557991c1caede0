//! The messages that nodes, miners and wallets exchange, and how they are
//! framed on a stream of bytes.

use crate::bytes::copy_bytes;
use crate::cbor::{
    all_read, be_bytes, be_value, byte_array_item, byte_array_value, decode, encode, item_bytes,
    item_fits, items_view, lemma_all_read, lemma_byte_array, lemma_fits_deeper, lemma_key,
    lemma_round_trip, pairs_view, parse, push_item, text_item, Item, ItemView, MAX_DEPTH,
};
use crate::crypto::PublicKey;
use crate::types::block::{Block, BlockView};
use crate::types::transaction::{
    Transaction, TransactionOutput, TransactionOutputView, TransactionView,
};
use vstd::prelude::*;

verus! {

/// Calls `String::from_utf8`, which gives the text that the bytes are the
/// UTF-8 form of, and fails where they are not UTF-8.
#[verifier::external_body]
fn string_from_utf8(bytes: Vec<u8>) -> (r: Option<String>)
    ensures
        r is Some <==> vstd::utf8::valid_utf8(bytes@),
        r matches Some(text) ==> text@ == vstd::utf8::decode_utf8(bytes@),
{
    String::from_utf8(bytes).ok()
}

/// A message. Requests are answered by one message; broadcasts go to every
/// peer.
#[derive(Debug)]
pub enum Message {
    /// Request: the unspent outputs that belong to a key.
    FetchUTXOs(PublicKey),
    /// Answer: unspent outputs, each with its mark.
    UTXOs(Vec<(TransactionOutput, bool)>),
    /// Request: take a transaction among the pending ones.
    SubmitTransaction(Transaction),
    /// Broadcast: a new transaction.
    NewTransaction(Transaction),
    /// Request: a block to mine that pays the reward to a key.
    FetchTemplate(PublicKey),
    /// Answer: a block to mine.
    Template(Block),
    /// Request: whether a block to mine still fits the chain.
    ValidateTemplate(Block),
    /// Answer: whether it does.
    TemplateValidity(bool),
    /// Request: take a mined block.
    SubmitTemplate(Block),
    /// Request: the peers that a node knows.
    DiscoverNodes,
    /// Answer: their addresses.
    NodeList(Vec<String>),
    /// Request: how many blocks a node has beyond a height.
    AskDifference(u32),
    /// Answer: that many; negative where it has fewer.
    Difference(i32),
    /// Request: the block at a height.
    FetchBlock(u64),
    /// Broadcast: a new block.
    NewBlock(Block),
}

pub enum MessageView {
    FetchUTXOs(Seq<u8>),
    UTXOs(Seq<(TransactionOutputView, bool)>),
    SubmitTransaction(TransactionView),
    NewTransaction(TransactionView),
    FetchTemplate(Seq<u8>),
    Template(BlockView),
    ValidateTemplate(BlockView),
    TemplateValidity(bool),
    SubmitTemplate(BlockView),
    DiscoverNodes,
    NodeList(Seq<Seq<char>>),
    AskDifference(u32),
    Difference(i32),
    FetchBlock(u64),
    NewBlock(BlockView),
}

/// The views of outputs with their marks.
pub open spec fn marked_view(outputs: Seq<(TransactionOutput, bool)>) -> Seq<
    (TransactionOutputView, bool),
> {
    outputs.map_values(|e: (TransactionOutput, bool)| (e.0@, e.1))
}

/// The views of texts.
pub open spec fn texts_view(texts: Seq<String>) -> Seq<Seq<char>> {
    texts.map_values(|t: String| t@)
}

impl View for Message {
    type V = MessageView;

    open spec fn view(&self) -> MessageView {
        match self {
            Message::FetchUTXOs(key) => MessageView::FetchUTXOs(key@),
            Message::UTXOs(outputs) => MessageView::UTXOs(marked_view(outputs@)),
            Message::SubmitTransaction(t) => MessageView::SubmitTransaction(t@),
            Message::NewTransaction(t) => MessageView::NewTransaction(t@),
            Message::FetchTemplate(key) => MessageView::FetchTemplate(key@),
            Message::Template(b) => MessageView::Template(b@),
            Message::ValidateTemplate(b) => MessageView::ValidateTemplate(b@),
            Message::TemplateValidity(v) => MessageView::TemplateValidity(*v),
            Message::SubmitTemplate(b) => MessageView::SubmitTemplate(b@),
            Message::DiscoverNodes => MessageView::DiscoverNodes,
            Message::NodeList(nodes) => MessageView::NodeList(texts_view(nodes@)),
            Message::AskDifference(h) => MessageView::AskDifference(*h),
            Message::Difference(d) => MessageView::Difference(*d),
            Message::FetchBlock(h) => MessageView::FetchBlock(*h),
            Message::NewBlock(b) => MessageView::NewBlock(b@),
        }
    }
}

/// A value under a name.
pub open spec fn tagged(name: &str, value: ItemView) -> ItemView {
    ItemView::Pairs(seq![(text_item(name), value)])
}

/// The item of an output with its mark.
pub open spec fn marked_item(e: (TransactionOutputView, bool)) -> ItemView {
    ItemView::Array(seq![e.0.item(), ItemView::Bool(e.1)])
}

/// The item of a signed number.
pub open spec fn signed_item(v: i32) -> ItemView {
    if v >= 0 {
        ItemView::Unsigned(v as u64)
    } else {
        ItemView::Negative((-1 - v) as u64)
    }
}

/// The item of a text.
pub open spec fn chars_item(text: Seq<char>) -> ItemView {
    ItemView::Text(vstd::utf8::encode_utf8(text))
}

impl MessageView {
    pub open spec fn item(self) -> ItemView {
        match self {
            MessageView::FetchUTXOs(key) => tagged("FetchUTXOs", byte_array_item(key)),
            MessageView::UTXOs(outputs) => tagged(
                "UTXOs",
                ItemView::Array(
                    outputs.map_values(|e: (TransactionOutputView, bool)| marked_item(e)),
                ),
            ),
            MessageView::SubmitTransaction(t) => tagged("SubmitTransaction", t.item()),
            MessageView::NewTransaction(t) => tagged("NewTransaction", t.item()),
            MessageView::FetchTemplate(key) => tagged("FetchTemplate", byte_array_item(key)),
            MessageView::Template(b) => tagged("Template", b.item()),
            MessageView::ValidateTemplate(b) => tagged("ValidateTemplate", b.item()),
            MessageView::TemplateValidity(v) => tagged("TemplateValidity", ItemView::Bool(v)),
            MessageView::SubmitTemplate(b) => tagged("SubmitTemplate", b.item()),
            MessageView::DiscoverNodes => text_item("DiscoverNodes"),
            MessageView::NodeList(nodes) => tagged(
                "NodeList",
                ItemView::Array(nodes.map_values(|t: Seq<char>| chars_item(t))),
            ),
            MessageView::AskDifference(h) => tagged("AskDifference", ItemView::Unsigned(h as u64)),
            MessageView::Difference(d) => tagged("Difference", signed_item(d)),
            MessageView::FetchBlock(h) => tagged("FetchBlock", ItemView::Unsigned(h)),
            MessageView::NewBlock(b) => tagged("NewBlock", b.item()),
        }
    }

    /// The bytes in which the message travels, without its frame.
    pub open spec fn encoding(self) -> Seq<u8> {
        item_bytes(self.item())
    }
}

/// The message with its length before it: eight bytes, most significant
/// byte first.
pub open spec fn framed(payload: Seq<u8>) -> Seq<u8> {
    be_bytes(payload.len(), 8) + payload
}

/// The payload at the start of `bytes`, with the number of bytes that its
/// frame takes; `None` where the bytes end before the payload does.
pub open spec fn unframed(bytes: Seq<u8>) -> Option<(Seq<u8>, int)> {
    if bytes.len() < 8 {
        None
    } else {
        let length = be_value(bytes.subrange(0, 8)) as int;
        if bytes.len() - 8 < length {
            None
        } else {
            Some((bytes.subrange(8, 8 + length), 8 + length))
        }
    }
}

/// A framed payload is read back, whatever follows it.
pub proof fn lemma_unframe(payload: Seq<u8>, rest: Seq<u8>)
    requires
        payload.len() <= u64::MAX,
    ensures
        unframed(framed(payload) + rest) == Some((payload, 8 + payload.len() as int)),
{
    let prefix = be_bytes(payload.len(), 8);
    crate::u256::lemma_pow256_grows(8, 8);
    assert(payload.len() < crate::u256::pow256(8)) by {
        reveal_with_fuel(crate::u256::pow256, 9);
    }
    crate::cbor::lemma_be_round_trip(payload.len(), 8);
    let bytes = framed(payload) + rest;
    assert(bytes.subrange(0, 8) =~= prefix);
    assert(bytes.subrange(8, 8 + payload.len() as int) =~= payload);
}

/// The length that the eight bytes before a payload give.
pub fn frame_length(prefix: &[u8; 8]) -> (r: u64)
    ensures
        r == be_value(prefix@),
{
    let mut v: u64 = 0;
    let mut i: usize = 0;
    assert(prefix@.subrange(0, 0) =~= Seq::<u8>::empty());
    while i < 8
        invariant
            i <= 8,
            v == be_value(prefix@.subrange(0, i as int)),
        decreases 8 - i,
    {
        proof {
            let so_far = prefix@.subrange(0, i as int);
            crate::cbor::lemma_be_value_bound(so_far);
            crate::u256::lemma_pow256_grows(i as nat, 7);
            reveal_with_fuel(crate::u256::pow256, 8);
            assert(prefix@.subrange(0, i + 1).drop_last() =~= so_far);
        }
        v = v * 256 + prefix[i] as u64;
        i = i + 1;
    }
    assert(prefix@.subrange(0, 8) =~= prefix@);
    v
}

/// The payload with its length before it.
#[verifier::rlimit(30)]
pub fn frame(payload: &[u8]) -> (r: Vec<u8>)
    ensures
        r@ == framed(payload@),
{
    let mut out: Vec<u8> = Vec::new();
    let length: u64 = payload.len() as u64;
    let mut digits: [u8; 8] = [0u8; 8];
    let mut rest: u64 = length;
    let mut i: usize = 8;
    assert(be_bytes(rest as nat, 0) =~= Seq::<u8>::empty());
    while i > 0
        invariant
            i <= 8,
            be_bytes(length as nat, 8) == be_bytes(rest as nat, i as nat) + digits@.subrange(
                i as int,
                8,
            ),
        decreases i,
    {
        i = i - 1;
        let ghost before = digits@;
        digits[i] = (rest % 256) as u8;
        proof {
            assert(digits@.subrange(i as int, 8) =~= seq![(rest % 256) as u8] + before.subrange(
                i + 1,
                8,
            ));
            assert(be_bytes(rest as nat, (i + 1) as nat) == be_bytes(
                (rest / 256) as nat,
                i as nat,
            ).push((rest % 256) as u8));
            assert(be_bytes((rest / 256) as nat, i as nat).push((rest % 256) as u8)
                + before.subrange(i + 1, 8) =~= be_bytes((rest / 256) as nat, i as nat)
                + digits@.subrange(i as int, 8));
        }
        rest = rest / 256;
    }
    proof {
        assert(be_bytes(rest as nat, 0) + digits@.subrange(0, 8) =~= digits@);
    }
    let mut k: usize = 0;
    while k < 8
        invariant
            k <= 8,
            out@ == digits@.subrange(0, k as int),
        decreases 8 - k,
    {
        out.push(digits[k]);
        k = k + 1;
        assert(out@ =~= digits@.subrange(0, k as int));
    }
    let mut j: usize = 0;
    while j < payload.len()
        invariant
            j <= payload.len(),
            out@ == digits@.subrange(0, 8) + payload@.subrange(0, j as int),
        decreases payload.len() - j,
    {
        out.push(payload[j]);
        j = j + 1;
        assert(out@ =~= digits@.subrange(0, 8) + payload@.subrange(0, j as int));
    }
    assert(payload@.subrange(0, payload.len() as int) =~= payload@);
    out
}

/// The payload at the start of `bytes`, as the places where it begins and
/// ends; `None` where the bytes end before the payload does.
pub fn unframe(bytes: &[u8]) -> (r: Option<(usize, usize)>)
    ensures
        match r {
            Some((from, to)) => from == 8 && to <= bytes.len() && unframed(bytes@) == Some(
                (bytes@.subrange(from as int, to as int), to as int),
            ),
            None => unframed(bytes@) is None,
        },
{
    if bytes.len() < 8 {
        return None;
    }
    let mut prefix: [u8; 8] = [0u8; 8];
    let mut i: usize = 0;
    while i < 8
        invariant
            i <= 8,
            bytes.len() >= 8,
            forall|k: int| 0 <= k < i ==> prefix@[k] == bytes@[k],
        decreases 8 - i,
    {
        prefix[i] = bytes[i];
        i = i + 1;
    }
    assert(prefix@ =~= bytes@.subrange(0, 8));
    let length = frame_length(&prefix);
    if ((bytes.len() - 8) as u64) < length {
        return None;
    }
    Some((8, 8 + length as usize))
}

/// The place of a name among the names of the messages that carry a value;
/// -1 where it is none of them.
pub open spec fn name_place(name: ItemView) -> int {
    if name == text_item("FetchUTXOs") {
        0
    } else if name == text_item("UTXOs") {
        1
    } else if name == text_item("SubmitTransaction") {
        2
    } else if name == text_item("NewTransaction") {
        3
    } else if name == text_item("FetchTemplate") {
        4
    } else if name == text_item("Template") {
        5
    } else if name == text_item("ValidateTemplate") {
        6
    } else if name == text_item("TemplateValidity") {
        7
    } else if name == text_item("SubmitTemplate") {
        8
    } else if name == text_item("NodeList") {
        9
    } else if name == text_item("AskDifference") {
        10
    } else if name == text_item("Difference") {
        11
    } else if name == text_item("FetchBlock") {
        12
    } else if name == text_item("NewBlock") {
        13
    } else {
        -1
    }
}

/// The output with its mark that an item stands for.
pub open spec fn item_marked(item: ItemView) -> Option<(TransactionOutputView, bool)> {
    match item {
        ItemView::Array(items) => if items.len() == 2 && TransactionOutputView::from_item(
            items[0],
        ) is Some && items[1] is Bool {
            Some((TransactionOutputView::from_item(items[0])->Some_0, items[1]->Bool_0))
        } else {
            None
        },
        _ => None,
    }
}

/// What an item is read as, as an output with its mark.
pub open spec fn read_marked() -> spec_fn(ItemView) -> Option<(TransactionOutputView, bool)> {
    |item: ItemView| item_marked(item)
}

/// The text that an item stands for.
pub open spec fn item_chars(item: ItemView) -> Option<Seq<char>> {
    match item {
        ItemView::Text(bytes) => if vstd::utf8::valid_utf8(bytes) {
            Some(vstd::utf8::decode_utf8(bytes))
        } else {
            None
        },
        _ => None,
    }
}

/// What an item is read as, as a text.
pub open spec fn read_chars() -> spec_fn(ItemView) -> Option<Seq<char>> {
    |item: ItemView| item_chars(item)
}

/// The signed number that an item stands for.
pub open spec fn item_signed(item: ItemView) -> Option<i32> {
    match item {
        ItemView::Unsigned(v) => if v <= i32::MAX {
            Some(v as i32)
        } else {
            None
        },
        ItemView::Negative(v) => if v <= i32::MAX {
            Some((-1 - v) as i32)
        } else {
            None
        },
        _ => None,
    }
}

/// The message that a value under a name stands for.
pub open spec fn tagged_message(place: int, value: ItemView) -> Option<MessageView> {
    if place == 0 {
        match byte_array_value(value) {
            Some(key) => Some(MessageView::FetchUTXOs(key)),
            None => None,
        }
    } else if place == 1 {
        match value {
            ItemView::Array(items) => match all_read(items, read_marked()) {
                Some(outputs) => Some(MessageView::UTXOs(outputs)),
                None => None,
            },
            _ => None,
        }
    } else if place == 2 {
        match TransactionView::from_item(value) {
            Some(t) => Some(MessageView::SubmitTransaction(t)),
            None => None,
        }
    } else if place == 3 {
        match TransactionView::from_item(value) {
            Some(t) => Some(MessageView::NewTransaction(t)),
            None => None,
        }
    } else if place == 4 {
        match byte_array_value(value) {
            Some(key) => Some(MessageView::FetchTemplate(key)),
            None => None,
        }
    } else if place == 5 {
        match BlockView::from_item(value) {
            Some(b) => Some(MessageView::Template(b)),
            None => None,
        }
    } else if place == 6 {
        match BlockView::from_item(value) {
            Some(b) => Some(MessageView::ValidateTemplate(b)),
            None => None,
        }
    } else if place == 7 {
        match value {
            ItemView::Bool(v) => Some(MessageView::TemplateValidity(v)),
            _ => None,
        }
    } else if place == 8 {
        match BlockView::from_item(value) {
            Some(b) => Some(MessageView::SubmitTemplate(b)),
            None => None,
        }
    } else if place == 9 {
        match value {
            ItemView::Array(items) => match all_read(items, read_chars()) {
                Some(nodes) => Some(MessageView::NodeList(nodes)),
                None => None,
            },
            _ => None,
        }
    } else if place == 10 {
        match value {
            ItemView::Unsigned(v) => if v <= u32::MAX {
                Some(MessageView::AskDifference(v as u32))
            } else {
                None
            },
            _ => None,
        }
    } else if place == 11 {
        match item_signed(value) {
            Some(d) => Some(MessageView::Difference(d)),
            None => None,
        }
    } else if place == 12 {
        match value {
            ItemView::Unsigned(v) => Some(MessageView::FetchBlock(v)),
            _ => None,
        }
    } else if place == 13 {
        match BlockView::from_item(value) {
            Some(b) => Some(MessageView::NewBlock(b)),
            None => None,
        }
    } else {
        None
    }
}

impl MessageView {
    /// The message that an item stands for.
    pub open spec fn from_item(item: ItemView) -> Option<MessageView> {
        match item {
            ItemView::Text(_) => if item == text_item("DiscoverNodes") {
                Some(MessageView::DiscoverNodes)
            } else {
                None
            },
            ItemView::Pairs(e) => if e.len() == 1 {
                tagged_message(name_place(e[0].0), e[0].1)
            } else {
                None
            },
            _ => None,
        }
    }

    /// The message that bytes are the encoding of.
    pub open spec fn decoding(bytes: Seq<u8>) -> Option<MessageView> {
        match parse(bytes) {
            Some(item) => Self::from_item(item),
            None => None,
        }
    }
}

/// A value under a name.
fn tag(name: &str, value: Item) -> (r: Item)
    ensures
        r@ == tagged(name, value@),
{
    let mut entries: Vec<(Item, Item)> = Vec::new();
    crate::cbor::push_entry(&mut entries, name, value);
    assert(pairs_view(entries@) =~= seq![(text_item(name), value@)]);
    Item::Pairs(entries)
}

/// The item of the outputs with their marks.
fn marked_to_item(outputs: &Vec<(TransactionOutput, bool)>) -> (r: Item)
    ensures
        r@ == ItemView::Array(
            marked_view(outputs@).map_values(|e: (TransactionOutputView, bool)| marked_item(e)),
        ),
{
    let ghost views = marked_view(outputs@);
    let ghost wanted = views.map_values(|e: (TransactionOutputView, bool)| marked_item(e));
    let mut items: Vec<Item> = Vec::new();
    let mut i: usize = 0;
    assert(items_view(items@) =~= wanted.subrange(0, 0));
    while i < outputs.len()
        invariant
            i <= outputs.len(),
            views == marked_view(outputs@),
            wanted == views.map_values(|e: (TransactionOutputView, bool)| marked_item(e)),
            items_view(items@) == wanted.subrange(0, i as int),
        decreases outputs.len() - i,
    {
        let mut pair: Vec<Item> = Vec::new();
        push_item(&mut pair, outputs[i].0.to_item());
        push_item(&mut pair, Item::Bool(outputs[i].1));
        proof {
            assert(views[i as int] == (outputs@[i as int].0@, outputs@[i as int].1));
            assert(items_view(pair@) =~= seq![views[i as int].0.item(), ItemView::Bool(views[i as int].1)]);
        }
        push_item(&mut items, Item::Array(pair));
        i = i + 1;
        assert(items_view(items@) =~= wanted.subrange(0, i as int));
    }
    assert(wanted.subrange(0, outputs.len() as int) =~= wanted);
    Item::Array(items)
}

/// The item of the texts.
fn texts_to_item(texts: &Vec<String>) -> (r: Item)
    ensures
        r@ == ItemView::Array(texts_view(texts@).map_values(|t: Seq<char>| chars_item(t))),
        texts_fit(texts_view(texts@)),
{
    let ghost views = texts_view(texts@);
    let ghost wanted = views.map_values(|t: Seq<char>| chars_item(t));
    let mut items: Vec<Item> = Vec::new();
    let mut i: usize = 0;
    assert(items_view(items@) =~= wanted.subrange(0, 0));
    while i < texts.len()
        invariant
            i <= texts.len(),
            views == texts_view(texts@),
            wanted == views.map_values(|t: Seq<char>| chars_item(t)),
            items_view(items@) == wanted.subrange(0, i as int),
            forall|k: int|
                0 <= k < i ==> vstd::utf8::encode_utf8(#[trigger] views[k]).len() <= usize::MAX,
        decreases texts.len() - i,
    {
        let text = texts[i].as_str();
        let bytes = copy_bytes(text.as_bytes());
        proof {
            assert(views[i as int] == texts@[i as int]@);
            vstd::std_specs::vec::axiom_spec_len(&bytes);
        }
        push_item(&mut items, Item::Text(bytes));
        i = i + 1;
        assert(items_view(items@) =~= wanted.subrange(0, i as int));
    }
    assert(wanted.subrange(0, texts.len() as int) =~= wanted);
    proof {
        vstd::std_specs::vec::axiom_spec_len(texts);
    }
    Item::Array(items)
}

/// The outputs with their marks that items stand for.
fn marked_from_items(items: &Vec<Item>) -> (r: Option<Vec<(TransactionOutput, bool)>>)
    ensures
        match r {
            Some(outputs) => all_read(items_view(items@), read_marked()) == Some(
                marked_view(outputs@),
            ),
            None => all_read(items_view(items@), read_marked()) is None,
        },
{
    let ghost views = items_view(items@);
    let mut outputs: Vec<(TransactionOutput, bool)> = Vec::new();
    let mut i: usize = 0;
    while i < items.len()
        invariant
            i <= items.len(),
            views == items_view(items@),
            outputs@.len() == i,
            forall|k: int|
                0 <= k < i ==> read_marked()(#[trigger] views[k]) == Some(
                    (outputs@[k].0@, outputs@[k].1),
                ),
        decreases items.len() - i,
    {
        assert(views[i as int] == items@[i as int]@);
        let found: Option<(TransactionOutput, bool)> = match &items[i] {
            Item::Array(pair) => {
                if pair.len() != 2 {
                    None
                } else {
                    let ghost p = items_view(pair@);
                    assert(p[0] == pair@[0]@ && p[1] == pair@[1]@);
                    match (TransactionOutput::from_item(&pair[0]), &pair[1]) {
                        (Some(output), Item::Bool(mark)) => Some((output, *mark)),
                        _ => None,
                    }
                }
            },
            _ => None,
        };
        match found {
            Some(entry) => {
                outputs.push(entry);
            },
            None => {
                assert(read_marked()(views[i as int]) is None);
                return None;
            },
        }
        i = i + 1;
    }
    assert(marked_view(outputs@) =~= all_read(views, read_marked())->Some_0);
    Some(outputs)
}

/// The texts that items stand for.
fn texts_from_items(items: &Vec<Item>) -> (r: Option<Vec<String>>)
    ensures
        match r {
            Some(texts) => all_read(items_view(items@), read_chars()) == Some(texts_view(texts@)),
            None => all_read(items_view(items@), read_chars()) is None,
        },
{
    let ghost views = items_view(items@);
    let mut texts: Vec<String> = Vec::new();
    let mut i: usize = 0;
    while i < items.len()
        invariant
            i <= items.len(),
            views == items_view(items@),
            texts@.len() == i,
            forall|k: int| 0 <= k < i ==> read_chars()(#[trigger] views[k]) == Some(texts@[k]@),
        decreases items.len() - i,
    {
        assert(views[i as int] == items@[i as int]@);
        let found: Option<String> = match &items[i] {
            Item::Text(bytes) => string_from_utf8(copy_bytes(bytes.as_slice())),
            _ => None,
        };
        match found {
            Some(text) => {
                texts.push(text);
            },
            None => {
                assert(read_chars()(views[i as int]) is None);
                return None;
            },
        }
        i = i + 1;
    }
    assert(texts_view(texts@) =~= all_read(views, read_chars())->Some_0);
    Some(texts)
}

/// The place of a name among the names of the messages that carry a value;
/// -1 where it is none of them.
fn place_from_item(name: &Item) -> (r: i8)
    ensures
        r == name_place(name@),
{
    if name.is_text("FetchUTXOs") {
        0
    } else if name.is_text("UTXOs") {
        1
    } else if name.is_text("SubmitTransaction") {
        2
    } else if name.is_text("NewTransaction") {
        3
    } else if name.is_text("FetchTemplate") {
        4
    } else if name.is_text("Template") {
        5
    } else if name.is_text("ValidateTemplate") {
        6
    } else if name.is_text("TemplateValidity") {
        7
    } else if name.is_text("SubmitTemplate") {
        8
    } else if name.is_text("NodeList") {
        9
    } else if name.is_text("AskDifference") {
        10
    } else if name.is_text("Difference") {
        11
    } else if name.is_text("FetchBlock") {
        12
    } else if name.is_text("NewBlock") {
        13
    } else {
        -1
    }
}

/// The message that a value under a name stands for.
#[verifier::rlimit(30)]
fn message_from_tagged(place: i8, value: &Item) -> (r: Option<Message>)
    ensures
        match r {
            Some(m) => tagged_message(place as int, value@) == Some(m@),
            None => tagged_message(place as int, value@) is None,
        },
{
    if place == 0 {
        match value.as_byte_array() {
            Some(key) => Some(Message::FetchUTXOs(PublicKey(key))),
            None => None,
        }
    } else if place == 1 {
        match value {
            Item::Array(items) => match marked_from_items(items) {
                Some(outputs) => Some(Message::UTXOs(outputs)),
                None => None,
            },
            _ => None,
        }
    } else if place == 2 {
        match Transaction::from_item(value) {
            Some(t) => Some(Message::SubmitTransaction(t)),
            None => None,
        }
    } else if place == 3 {
        match Transaction::from_item(value) {
            Some(t) => Some(Message::NewTransaction(t)),
            None => None,
        }
    } else if place == 4 {
        match value.as_byte_array() {
            Some(key) => Some(Message::FetchTemplate(PublicKey(key))),
            None => None,
        }
    } else if place == 5 {
        match Block::from_item(value) {
            Some(b) => Some(Message::Template(b)),
            None => None,
        }
    } else if place == 6 {
        match Block::from_item(value) {
            Some(b) => Some(Message::ValidateTemplate(b)),
            None => None,
        }
    } else if place == 7 {
        match value {
            Item::Bool(v) => Some(Message::TemplateValidity(*v)),
            _ => None,
        }
    } else if place == 8 {
        match Block::from_item(value) {
            Some(b) => Some(Message::SubmitTemplate(b)),
            None => None,
        }
    } else if place == 9 {
        match value {
            Item::Array(items) => match texts_from_items(items) {
                Some(nodes) => Some(Message::NodeList(nodes)),
                None => None,
            },
            _ => None,
        }
    } else if place == 10 {
        match value {
            Item::Unsigned(v) => if *v <= u32::MAX as u64 {
                Some(Message::AskDifference(*v as u32))
            } else {
                None
            },
            _ => None,
        }
    } else if place == 11 {
        match value {
            Item::Unsigned(v) => if *v <= i32::MAX as u64 {
                Some(Message::Difference(*v as i32))
            } else {
                None
            },
            Item::Negative(v) => if *v <= i32::MAX as u64 {
                Some(Message::Difference(-1 - (*v as i32)))
            } else {
                None
            },
            _ => None,
        }
    } else if place == 12 {
        match value {
            Item::Unsigned(v) => Some(Message::FetchBlock(*v)),
            _ => None,
        }
    } else if place == 13 {
        match Block::from_item(value) {
            Some(b) => Some(Message::NewBlock(b)),
            None => None,
        }
    } else {
        None
    }
}

impl Message {
    pub fn to_item(&self) -> (r: Item)
        ensures
            r@ == self@.item(),
            self@.wf(),
    {
        proof {
            match self {
                Message::Template(b) => {
                    use_type_invariant(&b.header.timestamp);
                    self.lemma_wf();
                },
                Message::ValidateTemplate(b) => {
                    use_type_invariant(&b.header.timestamp);
                    self.lemma_wf();
                },
                Message::SubmitTemplate(b) => {
                    use_type_invariant(&b.header.timestamp);
                    self.lemma_wf();
                },
                Message::NewBlock(b) => {
                    use_type_invariant(&b.header.timestamp);
                    self.lemma_wf();
                },
                Message::NodeList(nodes) => {},
                _ => {
                    self.lemma_wf();
                },
            }
        }
        match self {
            Message::FetchUTXOs(key) => tag("FetchUTXOs", Item::byte_array(key.0.as_slice())),
            Message::UTXOs(outputs) => tag("UTXOs", marked_to_item(outputs)),
            Message::SubmitTransaction(t) => tag("SubmitTransaction", t.to_item()),
            Message::NewTransaction(t) => tag("NewTransaction", t.to_item()),
            Message::FetchTemplate(key) => tag("FetchTemplate", Item::byte_array(key.0.as_slice())),
            Message::Template(b) => tag("Template", b.to_item()),
            Message::ValidateTemplate(b) => tag("ValidateTemplate", b.to_item()),
            Message::TemplateValidity(v) => tag("TemplateValidity", Item::Bool(*v)),
            Message::SubmitTemplate(b) => tag("SubmitTemplate", b.to_item()),
            Message::DiscoverNodes => Item::text("DiscoverNodes"),
            Message::NodeList(nodes) => tag("NodeList", texts_to_item(nodes)),
            Message::AskDifference(h) => tag("AskDifference", Item::Unsigned(*h as u64)),
            Message::Difference(d) => {
                if *d >= 0 {
                    tag("Difference", Item::Unsigned(*d as u64))
                } else {
                    tag("Difference", Item::Negative((-1 - *d) as u64))
                }
            },
            Message::FetchBlock(h) => tag("FetchBlock", Item::Unsigned(*h)),
            Message::NewBlock(b) => tag("NewBlock", b.to_item()),
        }
    }

    /// The message that an item stands for.
    pub fn from_item(item: &Item) -> (r: Option<Message>)
        ensures
            match r {
                Some(m) => MessageView::from_item(item@) == Some(m@),
                None => MessageView::from_item(item@) is None,
            },
    {
        match item {
            Item::Text(_) => {
                if item.is_text("DiscoverNodes") {
                    Some(Message::DiscoverNodes)
                } else {
                    None
                }
            },
            Item::Pairs(entries) => {
                if entries.len() != 1 {
                    return None;
                }
                let ghost e = pairs_view(entries@);
                assert(e[0] == (entries@[0].0@, entries@[0].1@));
                message_from_tagged(place_from_item(&entries[0].0), &entries[0].1)
            },
            _ => None,
        }
    }

    /// The bytes in which the message travels, without its frame. They are
    /// read back as the message.
    pub fn encode(&self) -> (r: Vec<u8>)
        ensures
            r@ == self@.encoding(),
            self@.wf(),
            MessageView::decoding(r@) == Some(self@),
    {
        let item = self.to_item();
        proof {
            self@.lemma_round_trip();
        }
        encode(&item)
    }

    /// The message that bytes are the encoding of.
    pub fn decode(data: &[u8]) -> (r: Option<Message>)
        ensures
            match r {
                Some(m) => MessageView::decoding(data@) == Some(m@),
                None => MessageView::decoding(data@) is None,
            },
    {
        match decode(data) {
            Some(item) => Self::from_item(&item),
            None => None,
        }
    }

    /// The bytes in which the message travels: its length in eight bytes,
    /// then its encoding.
    pub fn to_frame(&self) -> (r: Vec<u8>)
        ensures
            r@ == framed(self@.encoding()),
    {
        let payload = self.encode();
        frame(payload.as_slice())
    }

    /// The message whose frame stands at the start of `bytes`, with the
    /// number of bytes that the frame takes.
    pub fn from_frame(bytes: &[u8]) -> (r: Option<(Message, usize)>)
        ensures
            match r {
                Some((m, used)) => unframed(bytes@) matches Some((payload, n)) && n == used
                    && MessageView::decoding(payload) == Some(m@),
                None => match unframed(bytes@) {
                    Some((payload, _)) => MessageView::decoding(payload) is None,
                    None => true,
                },
            },
    {
        match unframe(bytes) {
            Some((from, to)) => {
                match Self::decode(vstd::slice::slice_subrange(bytes, from, to)) {
                    Some(m) => Some((m, to)),
                    None => None,
                }
            },
            None => None,
        }
    }
}

/// Every name of a message has its own place.
#[verifier::rlimit(30)]
pub proof fn lemma_names()
    ensures
        name_place(text_item("FetchUTXOs")) == 0,
        name_place(text_item("UTXOs")) == 1,
        name_place(text_item("SubmitTransaction")) == 2,
        name_place(text_item("NewTransaction")) == 3,
        name_place(text_item("FetchTemplate")) == 4,
        name_place(text_item("Template")) == 5,
        name_place(text_item("ValidateTemplate")) == 6,
        name_place(text_item("TemplateValidity")) == 7,
        name_place(text_item("SubmitTemplate")) == 8,
        name_place(text_item("NodeList")) == 9,
        name_place(text_item("AskDifference")) == 10,
        name_place(text_item("Difference")) == 11,
        name_place(text_item("FetchBlock")) == 12,
        name_place(text_item("NewBlock")) == 13,
        item_fits(text_item("FetchUTXOs"), 0),
        item_fits(text_item("UTXOs"), 0),
        item_fits(text_item("SubmitTransaction"), 0),
        item_fits(text_item("NewTransaction"), 0),
        item_fits(text_item("FetchTemplate"), 0),
        item_fits(text_item("Template"), 0),
        item_fits(text_item("ValidateTemplate"), 0),
        item_fits(text_item("TemplateValidity"), 0),
        item_fits(text_item("SubmitTemplate"), 0),
        item_fits(text_item("NodeList"), 0),
        item_fits(text_item("AskDifference"), 0),
        item_fits(text_item("Difference"), 0),
        item_fits(text_item("FetchBlock"), 0),
        item_fits(text_item("NewBlock"), 0),
        item_fits(text_item("DiscoverNodes"), 0),
{
    reveal_strlit("FetchUTXOs");
    reveal_strlit("UTXOs");
    reveal_strlit("SubmitTransaction");
    reveal_strlit("NewTransaction");
    reveal_strlit("FetchTemplate");
    reveal_strlit("Template");
    reveal_strlit("ValidateTemplate");
    reveal_strlit("TemplateValidity");
    reveal_strlit("SubmitTemplate");
    reveal_strlit("NodeList");
    reveal_strlit("AskDifference");
    reveal_strlit("Difference");
    reveal_strlit("FetchBlock");
    reveal_strlit("NewBlock");
    reveal_strlit("DiscoverNodes");
    lemma_key("FetchUTXOs");
    lemma_key("UTXOs");
    lemma_key("SubmitTransaction");
    lemma_key("NewTransaction");
    lemma_key("FetchTemplate");
    lemma_key("Template");
    lemma_key("ValidateTemplate");
    lemma_key("TemplateValidity");
    lemma_key("SubmitTemplate");
    lemma_key("NodeList");
    lemma_key("AskDifference");
    lemma_key("Difference");
    lemma_key("FetchBlock");
    lemma_key("NewBlock");
    lemma_key("DiscoverNodes");
    assert(text_item("FetchUTXOs")->Text_0.len() == 10);
    assert(text_item("FetchUTXOs")->Text_0[0] == 70u8);
    assert(text_item("FetchUTXOs")->Text_0[1] == 101u8);
    assert(text_item("FetchUTXOs")->Text_0[5] == 85u8);
    assert(text_item("UTXOs")->Text_0.len() == 5);
    assert(text_item("UTXOs")->Text_0[0] == 85u8);
    assert(text_item("UTXOs")->Text_0[1] == 84u8);
    assert(text_item("SubmitTransaction")->Text_0.len() == 17);
    assert(text_item("SubmitTransaction")->Text_0[0] == 83u8);
    assert(text_item("SubmitTransaction")->Text_0[1] == 117u8);
    assert(text_item("SubmitTransaction")->Text_0[5] == 116u8);
    assert(text_item("NewTransaction")->Text_0.len() == 14);
    assert(text_item("NewTransaction")->Text_0[0] == 78u8);
    assert(text_item("NewTransaction")->Text_0[1] == 101u8);
    assert(text_item("NewTransaction")->Text_0[5] == 97u8);
    assert(text_item("FetchTemplate")->Text_0.len() == 13);
    assert(text_item("FetchTemplate")->Text_0[0] == 70u8);
    assert(text_item("FetchTemplate")->Text_0[1] == 101u8);
    assert(text_item("FetchTemplate")->Text_0[5] == 84u8);
    assert(text_item("Template")->Text_0.len() == 8);
    assert(text_item("Template")->Text_0[0] == 84u8);
    assert(text_item("Template")->Text_0[1] == 101u8);
    assert(text_item("Template")->Text_0[5] == 97u8);
    assert(text_item("ValidateTemplate")->Text_0.len() == 16);
    assert(text_item("ValidateTemplate")->Text_0[0] == 86u8);
    assert(text_item("ValidateTemplate")->Text_0[1] == 97u8);
    assert(text_item("ValidateTemplate")->Text_0[5] == 97u8);
    assert(text_item("TemplateValidity")->Text_0.len() == 16);
    assert(text_item("TemplateValidity")->Text_0[0] == 84u8);
    assert(text_item("TemplateValidity")->Text_0[1] == 101u8);
    assert(text_item("TemplateValidity")->Text_0[5] == 97u8);
    assert(text_item("SubmitTemplate")->Text_0.len() == 14);
    assert(text_item("SubmitTemplate")->Text_0[0] == 83u8);
    assert(text_item("SubmitTemplate")->Text_0[1] == 117u8);
    assert(text_item("SubmitTemplate")->Text_0[5] == 116u8);
    assert(text_item("NodeList")->Text_0.len() == 8);
    assert(text_item("NodeList")->Text_0[0] == 78u8);
    assert(text_item("NodeList")->Text_0[1] == 111u8);
    assert(text_item("NodeList")->Text_0[5] == 105u8);
    assert(text_item("AskDifference")->Text_0.len() == 13);
    assert(text_item("AskDifference")->Text_0[0] == 65u8);
    assert(text_item("AskDifference")->Text_0[1] == 115u8);
    assert(text_item("AskDifference")->Text_0[5] == 102u8);
    assert(text_item("Difference")->Text_0.len() == 10);
    assert(text_item("Difference")->Text_0[0] == 68u8);
    assert(text_item("Difference")->Text_0[1] == 105u8);
    assert(text_item("Difference")->Text_0[5] == 114u8);
    assert(text_item("FetchBlock")->Text_0.len() == 10);
    assert(text_item("FetchBlock")->Text_0[0] == 70u8);
    assert(text_item("FetchBlock")->Text_0[1] == 101u8);
    assert(text_item("FetchBlock")->Text_0[5] == 66u8);
    assert(text_item("NewBlock")->Text_0.len() == 8);
    assert(text_item("NewBlock")->Text_0[0] == 78u8);
    assert(text_item("NewBlock")->Text_0[1] == 101u8);
    assert(text_item("NewBlock")->Text_0[5] == 111u8);
}

/// The outputs that were marked are read back.
proof fn lemma_marked_items(outputs: Seq<(TransactionOutputView, bool)>)
    requires
        outputs.len() <= usize::MAX,
        forall|i: int| 0 <= i < outputs.len() ==> (#[trigger] outputs[i]).0.wf(),
    ensures
        all_read(
            outputs.map_values(|e: (TransactionOutputView, bool)| marked_item(e)),
            read_marked(),
        ) == Some(outputs),
        item_fits(
            ItemView::Array(outputs.map_values(|e: (TransactionOutputView, bool)| marked_item(e))),
            4,
        ),
{
    let write = |e: (TransactionOutputView, bool)| marked_item(e);
    let items = outputs.map_values(write);
    assert forall|i: int| 0 <= i < outputs.len() implies read_marked()(
        write(#[trigger] outputs[i]),
    ) == Some(outputs[i]) && item_fits(write(outputs[i]), 3) by {
        outputs[i].0.lemma_item();
        let pair = marked_item(outputs[i])->Array_0;
        assert forall|k: int| 0 <= k < pair.len() implies item_fits(#[trigger] pair[k], 2) by {
            assert(pair[1] is Bool);
        }
    }
    lemma_all_read(outputs, write, read_marked());
    assert forall|i: int| 0 <= i < items.len() implies item_fits(#[trigger] items[i], 3) by {
        assert(items[i] == write(outputs[i]));
    }
}

/// The texts that were written are read back.
proof fn lemma_text_items(texts: Seq<Seq<char>>)
    requires
        texts.len() <= usize::MAX,
        forall|i: int|
            0 <= i < texts.len() ==> vstd::utf8::encode_utf8(#[trigger] texts[i]).len()
                <= usize::MAX,
    ensures
        all_read(texts.map_values(|t: Seq<char>| chars_item(t)), read_chars()) == Some(texts),
        item_fits(ItemView::Array(texts.map_values(|t: Seq<char>| chars_item(t))), 1),
{
    let write = |t: Seq<char>| chars_item(t);
    let items = texts.map_values(write);
    assert forall|i: int| 0 <= i < texts.len() implies read_chars()(write(#[trigger] texts[i]))
        == Some(texts[i]) by {
        vstd::utf8::encode_utf8_valid_utf8(texts[i]);
        vstd::utf8::encode_utf8_decode_utf8(texts[i]);
    }
    lemma_all_read(texts, write, read_chars());
    assert forall|i: int| 0 <= i < items.len() implies item_fits(#[trigger] items[i], 0) by {
        assert(items[i] == write(texts[i]));
    }
}

/// A value that fits under a name that fits makes an item that fits.
proof fn lemma_tagged_fits(name: &str, value: ItemView, depth: nat)
    requires
        item_fits(text_item(name), 0),
        item_fits(value, depth),
    ensures
        item_fits(tagged(name, value), depth + 1),
{
    let e = tagged(name, value)->Pairs_0;
    assert forall|i: int| 0 <= i < e.len() implies item_fits((#[trigger] e[i]).0, depth)
        && item_fits(e[i].1, depth) by {
        lemma_fits_deeper(e[i].0, 0, depth);
    }
}

/// Whether the texts are no more than a vector can hold, and the bytes of
/// each are no more than a vector can hold.
pub open spec fn texts_fit(texts: Seq<Seq<char>>) -> bool {
    texts.len() <= usize::MAX && forall|i: int|
        0 <= i < texts.len() ==> vstd::utf8::encode_utf8(#[trigger] texts[i]).len()
            <= usize::MAX
}

impl MessageView {
    /// What holds of the view of every message.
    pub open spec fn wf(self) -> bool {
        match self {
            MessageView::FetchUTXOs(key) => key.len() <= usize::MAX,
            MessageView::UTXOs(outputs) => outputs.len() <= usize::MAX && forall|i: int|
                0 <= i < outputs.len() ==> (#[trigger] outputs[i]).0.wf(),
            MessageView::SubmitTransaction(t) => t.wf(),
            MessageView::NewTransaction(t) => t.wf(),
            MessageView::FetchTemplate(key) => key.len() <= usize::MAX,
            MessageView::Template(b) => b.wf(),
            MessageView::ValidateTemplate(b) => b.wf(),
            MessageView::TemplateValidity(_) => true,
            MessageView::SubmitTemplate(b) => b.wf(),
            MessageView::DiscoverNodes => true,
            MessageView::NodeList(nodes) => texts_fit(nodes),
            MessageView::AskDifference(_) => true,
            MessageView::Difference(_) => true,
            MessageView::FetchBlock(_) => true,
            MessageView::NewBlock(b) => b.wf(),
        }
    }

    #[verifier::rlimit(30)]
    pub proof fn lemma_item(self)
        requires
            self.wf(),
        ensures
            Self::from_item(self.item()) == Some(self),
            item_fits(self.item(), 7),
    {
        lemma_names();
        match self {
            MessageView::FetchUTXOs(key) => {
                lemma_byte_array(key);
                lemma_tagged_fits("FetchUTXOs", byte_array_item(key), 1);
                lemma_fits_deeper(self.item(), 2, 7);
            },
            MessageView::UTXOs(outputs) => {
                lemma_marked_items(outputs);
                lemma_tagged_fits("UTXOs", self.item()->Pairs_0[0].1, 4);
                lemma_fits_deeper(self.item(), 5, 7);
            },
            MessageView::SubmitTransaction(t) => {
                t.lemma_item();
                lemma_tagged_fits("SubmitTransaction", t.item(), 4);
                lemma_fits_deeper(self.item(), 5, 7);
            },
            MessageView::NewTransaction(t) => {
                t.lemma_item();
                lemma_tagged_fits("NewTransaction", t.item(), 4);
                lemma_fits_deeper(self.item(), 5, 7);
            },
            MessageView::FetchTemplate(key) => {
                lemma_byte_array(key);
                lemma_tagged_fits("FetchTemplate", byte_array_item(key), 1);
                lemma_fits_deeper(self.item(), 2, 7);
            },
            MessageView::Template(b) => {
                b.lemma_item();
                lemma_tagged_fits("Template", b.item(), 6);
            },
            MessageView::ValidateTemplate(b) => {
                b.lemma_item();
                lemma_tagged_fits("ValidateTemplate", b.item(), 6);
            },
            MessageView::TemplateValidity(v) => {
                lemma_tagged_fits("TemplateValidity", ItemView::Bool(v), 0);
                lemma_fits_deeper(self.item(), 1, 7);
            },
            MessageView::SubmitTemplate(b) => {
                b.lemma_item();
                lemma_tagged_fits("SubmitTemplate", b.item(), 6);
            },
            MessageView::DiscoverNodes => {
                lemma_fits_deeper(self.item(), 0, 7);
            },
            MessageView::NodeList(nodes) => {
                lemma_text_items(nodes);
                lemma_tagged_fits("NodeList", self.item()->Pairs_0[0].1, 1);
                lemma_fits_deeper(self.item(), 2, 7);
            },
            MessageView::AskDifference(h) => {
                lemma_tagged_fits("AskDifference", ItemView::Unsigned(h as u64), 0);
                lemma_fits_deeper(self.item(), 1, 7);
            },
            MessageView::Difference(d) => {
                lemma_tagged_fits("Difference", signed_item(d), 0);
                lemma_fits_deeper(self.item(), 1, 7);
            },
            MessageView::FetchBlock(h) => {
                lemma_tagged_fits("FetchBlock", ItemView::Unsigned(h), 0);
                lemma_fits_deeper(self.item(), 1, 7);
            },
            MessageView::NewBlock(b) => {
                b.lemma_item();
                lemma_tagged_fits("NewBlock", b.item(), 6);
            },
        }
    }

    /// Reading the bytes of a message gives the message.
    pub proof fn lemma_round_trip(self)
        requires
            self.wf(),
        ensures
            Self::decoding(self.encoding()) == Some(self),
            unframed(framed(self.encoding())) == Some(
                (self.encoding(), 8 + self.encoding().len() as int),
            ) || self.encoding().len() > u64::MAX,
    {
        self.lemma_item();
        lemma_fits_deeper(self.item(), 7, MAX_DEPTH as nat);
        lemma_round_trip(self.item());
        if self.encoding().len() <= u64::MAX {
            lemma_unframe(self.encoding(), Seq::empty());
            assert(framed(self.encoding()) + Seq::<u8>::empty() =~= framed(self.encoding()));
        }
    }

    /// A start of the bytes of a message that is not all of them is no
    /// message.
    pub proof fn lemma_prefix_refused(self, k: int)
        requires
            self.wf(),
            0 <= k < self.encoding().len(),
        ensures
            Self::decoding(self.encoding().subrange(0, k)) is None,
    {
        self.lemma_item();
        lemma_fits_deeper(self.item(), 7, MAX_DEPTH as nat);
        crate::cbor::lemma_prefix_refused(self.item(), k);
    }

    /// Bytes that are read as a message are the bytes of an item that fits:
    /// written again, the item gives the same bytes.
    pub proof fn lemma_read_is_written(bytes: Seq<u8>)
        ensures
            Self::decoding(bytes) is Some ==> parse(bytes) is Some && item_bytes(
                parse(bytes)->Some_0,
            ) == bytes,
    {
        crate::cbor::lemma_read_is_written(bytes);
    }
}

impl Message {
    /// Whether the instants that the message holds are ones that a program
    /// can hold, and its texts fit into vectors: so it is with every message
    /// that a program holds.
    pub open spec fn held(self) -> bool {
        match self {
            Message::Template(b) => b.header.timestamp.wf(),
            Message::ValidateTemplate(b) => b.header.timestamp.wf(),
            Message::SubmitTemplate(b) => b.header.timestamp.wf(),
            Message::NewBlock(b) => b.header.timestamp.wf(),
            Message::NodeList(nodes) => forall|i: int|
                0 <= i < nodes@.len() ==> vstd::utf8::encode_utf8((#[trigger] nodes@[i])@).len()
                    <= usize::MAX,
            _ => true,
        }
    }

    /// Every message that a program holds has a well-formed view.
    pub proof fn lemma_wf(self)
        requires
            self.held(),
        ensures
            self@.wf(),
    {
        match self {
            Message::FetchUTXOs(key) => {
                vstd::std_specs::vec::axiom_spec_len(&key.0);
            },
            Message::UTXOs(outputs) => {
                vstd::std_specs::vec::axiom_spec_len(&outputs);
                let views = marked_view(outputs@);
                assert forall|i: int| 0 <= i < views.len() implies (#[trigger] views[i]).0.wf() by {
                    outputs@[i].0.lemma_wf();
                }
            },
            Message::SubmitTransaction(t) => {
                t.lemma_wf();
            },
            Message::NewTransaction(t) => {
                t.lemma_wf();
            },
            Message::FetchTemplate(key) => {
                vstd::std_specs::vec::axiom_spec_len(&key.0);
            },
            Message::Template(b) => {
                b.lemma_wf();
            },
            Message::ValidateTemplate(b) => {
                b.lemma_wf();
            },
            Message::SubmitTemplate(b) => {
                b.lemma_wf();
            },
            Message::NewBlock(b) => {
                b.lemma_wf();
            },
            Message::NodeList(nodes) => {
                vstd::std_specs::vec::axiom_spec_len(&nodes);
                let views = texts_view(nodes@);
                assert forall|i: int| 0 <= i < views.len() implies vstd::utf8::encode_utf8(
                    #[trigger] views[i],
                ).len() <= usize::MAX by {
                    assert(views[i] == nodes@[i]@);
                }
            },
            _ => {},
        }
    }
}

} // verus!
