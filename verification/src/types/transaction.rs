//! Transactions: inputs that name earlier outputs by hash, and outputs
//! locked to a public key.

use crate::cbor::{
    all_read, byte_array_item, byte_array_value, decode, encode, item_bytes, item_fits,
    items_view, lemma_all_read, lemma_byte_array, lemma_fits_deeper, lemma_key, lemma_round_trip, pairs_view,
    parse, push_entry, push_item, text_item, Item, ItemView, MAX_DEPTH,
};
use crate::crypto::{PublicKey, Signature};
use crate::error::BtcError;
use crate::sha256::digest_value;
use crate::u256::{modulus, word, words_value, U256};
use vstd::prelude::*;

verus! {

/// The item of a 256-bit number: its four words, least significant first.
pub open spec fn number_item(n: nat) -> ItemView {
    ItemView::Array(
        seq![
            ItemView::Unsigned(word(n, 0)),
            ItemView::Unsigned(word(n, 1)),
            ItemView::Unsigned(word(n, 2)),
            ItemView::Unsigned(word(n, 3)),
        ],
    )
}

/// The item of a 256-bit number.
pub fn number_to_item(n: &U256) -> (r: Item)
    ensures
        r@ == number_item(n@),
{
    let mut items: Vec<Item> = Vec::new();
    push_item(&mut items, Item::Unsigned(n.w0));
    push_item(&mut items, Item::Unsigned(n.w1));
    push_item(&mut items, Item::Unsigned(n.w2));
    push_item(&mut items, Item::Unsigned(n.w3));
    proof {
        n.lemma_words();
        assert(crate::cbor::items_view(items@) =~= seq![
            ItemView::Unsigned(word(n@, 0)),
            ItemView::Unsigned(word(n@, 1)),
            ItemView::Unsigned(word(n@, 2)),
            ItemView::Unsigned(word(n@, 3)),
        ]);
    }
    Item::Array(items)
}

/// An amount of coins locked to a public key.
#[derive(Debug)]
pub struct TransactionOutput {
    /// The amount, in the smallest unit.
    pub value: u64,
    /// Sixteen bytes that tell this output from another of the same amount
    /// to the same key.
    pub unique_id: [u8; 16],
    /// The key whose signature spends the output.
    pub pubkey: PublicKey,
}

pub struct TransactionOutputView {
    pub value: u64,
    pub unique_id: Seq<u8>,
    pub pubkey: Seq<u8>,
}

impl View for TransactionOutput {
    type V = TransactionOutputView;

    open spec fn view(&self) -> TransactionOutputView {
        TransactionOutputView {
            value: self.value,
            unique_id: self.unique_id@,
            pubkey: self.pubkey@,
        }
    }
}

impl TransactionOutputView {
    pub open spec fn item(self) -> ItemView {
        ItemView::Pairs(
            seq![
                (text_item("value"), ItemView::Unsigned(self.value)),
                (text_item("unique_id"), ItemView::Bytes(self.unique_id)),
                (text_item("pubkey"), byte_array_item(self.pubkey)),
            ],
        )
    }

    /// The bytes in which the output is stored and hashed.
    pub open spec fn encoding(self) -> Seq<u8> {
        item_bytes(self.item())
    }

    /// The hash of the output.
    pub open spec fn hash_value(self) -> nat {
        digest_value(self.encoding())
    }
}

impl Clone for TransactionOutput {
    fn clone(&self) -> (r: Self)
        ensures
            r@ == self@,
    {
        TransactionOutput {
            value: self.value,
            unique_id: self.unique_id,
            pubkey: self.pubkey.clone(),
        }
    }
}

impl TransactionOutput {
    pub fn to_item(&self) -> (r: Item)
        ensures
            r@ == self@.item(),
    {
        let mut entries: Vec<(Item, Item)> = Vec::new();
        push_entry(&mut entries, "value", Item::Unsigned(self.value));
        push_entry(&mut entries, "unique_id", Item::bytes(self.unique_id.as_slice()));
        push_entry(&mut entries, "pubkey", Item::byte_array(self.pubkey.0.as_slice()));
        proof {
            assert(crate::cbor::pairs_view(entries@) =~= self@.item()->Pairs_0);
        }
        Item::Pairs(entries)
    }

    /// The hash of the output.
    pub fn hash(&self) -> (r: Result<crate::sha256::Hash, BtcError>)
        ensures
            r is Ok,
            r->Ok_0@ == self@.hash_value(),
    {
        let bytes = encode(&self.to_item());
        crate::sha256::Hash::hash(bytes.as_slice())
    }
}

/// A claim on an earlier output.
#[derive(Debug)]
pub struct TransactionInput {
    /// The hash under which the output claimed is known.
    pub prev_transaction_output_hash: crate::sha256::Hash,
    /// A signature over that hash by the key that the output is locked to.
    pub signature: Signature,
}

pub struct TransactionInputView {
    pub prev_transaction_output_hash: nat,
    pub signature: Seq<u8>,
}

impl View for TransactionInput {
    type V = TransactionInputView;

    open spec fn view(&self) -> TransactionInputView {
        TransactionInputView {
            prev_transaction_output_hash: self.prev_transaction_output_hash@,
            signature: self.signature@,
        }
    }
}

impl TransactionInputView {
    pub open spec fn item(self) -> ItemView {
        ItemView::Pairs(
            seq![
                (
                    text_item("prev_transaction_output_hash"),
                    number_item(self.prev_transaction_output_hash),
                ),
                (text_item("signature"), byte_array_item(self.signature)),
            ],
        )
    }
}

impl Clone for TransactionInput {
    fn clone(&self) -> (r: Self)
        ensures
            r@ == self@,
    {
        TransactionInput {
            prev_transaction_output_hash: self.prev_transaction_output_hash,
            signature: self.signature.clone(),
        }
    }
}

impl TransactionInput {
    pub fn to_item(&self) -> (r: Item)
        ensures
            r@ == self@.item(),
    {
        let mut entries: Vec<(Item, Item)> = Vec::new();
        push_entry(
            &mut entries,
            "prev_transaction_output_hash",
            number_to_item(&self.prev_transaction_output_hash.0),
        );
        push_entry(&mut entries, "signature", Item::byte_array(self.signature.0.as_slice()));
        proof {
            assert(crate::cbor::pairs_view(entries@) =~= self@.item()->Pairs_0);
        }
        Item::Pairs(entries)
    }
}

/// Inputs that are spent and outputs that are made.
#[derive(Debug)]
pub struct Transaction {
    pub inputs: Vec<TransactionInput>,
    pub outputs: Vec<TransactionOutput>,
}

pub struct TransactionView {
    pub inputs: Seq<TransactionInputView>,
    pub outputs: Seq<TransactionOutputView>,
}

/// The views of a sequence of inputs.
pub open spec fn inputs_view(inputs: Seq<TransactionInput>) -> Seq<TransactionInputView> {
    inputs.map_values(|i: TransactionInput| i@)
}

/// The views of a sequence of outputs.
pub open spec fn outputs_view(outputs: Seq<TransactionOutput>) -> Seq<TransactionOutputView> {
    outputs.map_values(|o: TransactionOutput| o@)
}

impl View for Transaction {
    type V = TransactionView;

    open spec fn view(&self) -> TransactionView {
        TransactionView {
            inputs: inputs_view(self.inputs@),
            outputs: outputs_view(self.outputs@),
        }
    }
}

/// The sum of the outputs' amounts.
pub open spec fn output_total(outputs: Seq<TransactionOutputView>) -> nat
    decreases outputs.len(),
{
    if outputs.len() == 0 {
        0
    } else {
        output_total(outputs.drop_last()) + outputs.last().value as nat
    }
}

impl TransactionView {
    pub open spec fn item(self) -> ItemView {
        ItemView::Pairs(
            seq![
                (
                    text_item("inputs"),
                    ItemView::Array(self.inputs.map_values(|i: TransactionInputView| i.item())),
                ),
                (
                    text_item("outputs"),
                    ItemView::Array(self.outputs.map_values(|o: TransactionOutputView| o.item())),
                ),
            ],
        )
    }

    /// The bytes in which the transaction is stored and hashed.
    pub open spec fn encoding(self) -> Seq<u8> {
        item_bytes(self.item())
    }

    /// The hash of the transaction.
    pub open spec fn hash_value(self) -> nat {
        digest_value(self.encoding())
    }

    /// Whether the transaction makes coins: it has no inputs.
    pub open spec fn is_coinbase(self) -> bool {
        self.inputs.len() == 0
    }
}

impl Clone for Transaction {
    fn clone(&self) -> (r: Self)
        ensures
            r@ == self@,
    {
        let mut inputs: Vec<TransactionInput> = Vec::new();
        let mut i: usize = 0;
        while i < self.inputs.len()
            invariant
                i <= self.inputs.len(),
                inputs@.len() == i,
                forall|k: int| 0 <= k < i ==> (#[trigger] inputs@[k])@ == self.inputs@[k]@,
            decreases self.inputs.len() - i,
        {
            inputs.push(self.inputs[i].clone());
            i = i + 1;
        }
        let mut outputs: Vec<TransactionOutput> = Vec::new();
        let mut j: usize = 0;
        while j < self.outputs.len()
            invariant
                j <= self.outputs.len(),
                outputs@.len() == j,
                forall|k: int| 0 <= k < j ==> (#[trigger] outputs@[k])@ == self.outputs@[k]@,
            decreases self.outputs.len() - j,
        {
            outputs.push(self.outputs[j].clone());
            j = j + 1;
        }
        let r = Transaction { inputs, outputs };
        proof {
            assert(r@.inputs =~= self@.inputs);
            assert(r@.outputs =~= self@.outputs);
        }
        r
    }
}

impl Transaction {
    pub fn new(inputs: Vec<TransactionInput>, outputs: Vec<TransactionOutput>) -> (r: Self)
        ensures
            r.inputs == inputs,
            r.outputs == outputs,
    {
        Self { inputs, outputs }
    }

    pub fn to_item(&self) -> (r: Item)
        ensures
            r@ == self@.item(),
    {
        let mut inputs: Vec<Item> = Vec::new();
        let mut i: usize = 0;
        while i < self.inputs.len()
            invariant
                i <= self.inputs.len(),
                crate::cbor::items_view(inputs@) == self@.inputs.subrange(0, i as int).map_values(
                    |i: TransactionInputView| i.item(),
                ),
            decreases self.inputs.len() - i,
        {
            push_item(&mut inputs, self.inputs[i].to_item());
            i = i + 1;
            assert(crate::cbor::items_view(inputs@) =~= self@.inputs.subrange(
                0,
                i as int,
            ).map_values(|i: TransactionInputView| i.item()));
        }
        let mut outputs: Vec<Item> = Vec::new();
        let mut j: usize = 0;
        while j < self.outputs.len()
            invariant
                j <= self.outputs.len(),
                crate::cbor::items_view(outputs@) == self@.outputs.subrange(
                    0,
                    j as int,
                ).map_values(|o: TransactionOutputView| o.item()),
            decreases self.outputs.len() - j,
        {
            push_item(&mut outputs, self.outputs[j].to_item());
            j = j + 1;
            assert(crate::cbor::items_view(outputs@) =~= self@.outputs.subrange(
                0,
                j as int,
            ).map_values(|o: TransactionOutputView| o.item()));
        }
        proof {
            assert(self@.inputs.subrange(0, self.inputs.len() as int) =~= self@.inputs);
            assert(self@.outputs.subrange(0, self.outputs.len() as int) =~= self@.outputs);
        }
        let mut entries: Vec<(Item, Item)> = Vec::new();
        push_entry(&mut entries, "inputs", Item::Array(inputs));
        push_entry(&mut entries, "outputs", Item::Array(outputs));
        proof {
            assert(crate::cbor::pairs_view(entries@) =~= self@.item()->Pairs_0);
        }
        Item::Pairs(entries)
    }

    /// The hash of the transaction.
    pub fn hash(&self) -> (r: Result<crate::sha256::Hash, BtcError>)
        ensures
            r is Ok,
            r->Ok_0@ == self@.hash_value(),
    {
        let bytes = encode(&self.to_item());
        crate::sha256::Hash::hash(bytes.as_slice())
    }
}

/// The number that an array of four words stands for.
pub open spec fn item_number(item: ItemView) -> Option<nat> {
    match item {
        ItemView::Array(items) => if items.len() == 4 && items[0] is Unsigned
            && items[1] is Unsigned && items[2] is Unsigned && items[3] is Unsigned {
            Some(
                words_value(
                    items[0]->Unsigned_0,
                    items[1]->Unsigned_0,
                    items[2]->Unsigned_0,
                    items[3]->Unsigned_0,
                ),
            )
        } else {
            None
        },
        _ => None,
    }
}

/// The item of a number below 2^256 stands for that number.
pub proof fn lemma_number_item(n: nat)
    requires
        n < modulus(),
    ensures
        item_number(number_item(n)) == Some(n),
        item_fits(number_item(n), 1),
{
    U256::lemma_words_value(n);
    let items = number_item(n)->Array_0;
    assert forall|i: int| 0 <= i < items.len() implies item_fits(#[trigger] items[i], 0) by {
        assert(items[i] is Unsigned);
    }
}

/// The number that an item stands for.
pub fn number_from_item(item: &Item) -> (r: Option<U256>)
    ensures
        match r {
            Some(n) => item_number(item@) == Some(n@),
            None => item_number(item@) is None,
        },
{
    match item {
        Item::Array(items) => {
            if items.len() != 4 {
                return None;
            }
            let ghost views = items_view(items@);
            assert(views[0] == items@[0]@ && views[1] == items@[1]@ && views[2] == items@[2]@
                && views[3] == items@[3]@);
            match (&items[0], &items[1], &items[2], &items[3]) {
                (Item::Unsigned(w0), Item::Unsigned(w1), Item::Unsigned(w2), Item::Unsigned(w3)) => {
                    Some(U256 { w0: *w0, w1: *w1, w2: *w2, w3: *w3 })
                },
                _ => None,
            }
        },
        _ => None,
    }
}

impl TransactionOutputView {
    /// What holds of the view of every output.
    pub open spec fn wf(self) -> bool {
        self.unique_id.len() == 16 && self.pubkey.len() <= usize::MAX
    }

    /// The output that an item stands for.
    pub open spec fn from_item(item: ItemView) -> Option<TransactionOutputView> {
        match item {
            ItemView::Pairs(e) => if e.len() == 3 && e[0].0 == text_item("value")
                && e[0].1 is Unsigned && e[1].0 == text_item("unique_id") && e[1].1 is Bytes
                && e[1].1->Bytes_0.len() == 16 && e[2].0 == text_item("pubkey") && byte_array_value(
                e[2].1,
            ) is Some {
                Some(
                    TransactionOutputView {
                        value: e[0].1->Unsigned_0,
                        unique_id: e[1].1->Bytes_0,
                        pubkey: byte_array_value(e[2].1)->Some_0,
                    },
                )
            } else {
                None
            },
            _ => None,
        }
    }

    /// The output that bytes are the encoding of.
    pub open spec fn decoding(bytes: Seq<u8>) -> Option<TransactionOutputView> {
        match parse(bytes) {
            Some(item) => Self::from_item(item),
            None => None,
        }
    }

    #[verifier::rlimit(30)]
    pub proof fn lemma_item(self)
        requires
            self.wf(),
        ensures
            Self::from_item(self.item()) == Some(self),
            item_fits(self.item(), 2),
    {
        lemma_byte_array(self.pubkey);
        reveal_strlit("value");
        reveal_strlit("unique_id");
        reveal_strlit("pubkey");
        lemma_key("value");
        lemma_key("unique_id");
        lemma_key("pubkey");
        let e = self.item()->Pairs_0;
        assert forall|i: int| 0 <= i < e.len() implies item_fits((#[trigger] e[i]).0, 1)
            && item_fits(e[i].1, 1) by {
            lemma_fits_deeper(e[i].0, 0, 1);
            assert(e[0].1 is Unsigned);
            assert(e[1].1 is Bytes);
        }
    }

    /// Reading the bytes of an output gives the output, and so an output
    /// with the same hash.
    pub proof fn lemma_round_trip(self)
        requires
            self.wf(),
        ensures
            Self::decoding(self.encoding()) == Some(self),
            Self::decoding(self.encoding())->Some_0.hash_value() == self.hash_value(),
    {
        self.lemma_item();
        lemma_fits_deeper(self.item(), 2, MAX_DEPTH as nat);
        lemma_round_trip(self.item());
    }
}

impl TransactionOutput {
    /// Every output has a well-formed view.
    pub proof fn lemma_wf(self)
        ensures
            self@.wf(),
    {
        assert(self.pubkey.0@.len() <= usize::MAX) by {
            vstd::std_specs::vec::axiom_spec_len(&self.pubkey.0);
        }
    }

    /// The output that an item stands for.
    #[verifier::rlimit(30)]
    pub fn from_item(item: &Item) -> (r: Option<TransactionOutput>)
        ensures
            match r {
                Some(o) => TransactionOutputView::from_item(item@) == Some(o@),
                None => TransactionOutputView::from_item(item@) is None,
            },
    {
        match item {
            Item::Pairs(entries) => {
                if entries.len() != 3 {
                    return None;
                }
                let ghost e = pairs_view(entries@);
                assert(e[0] == (entries@[0].0@, entries@[0].1@));
                assert(e[1] == (entries@[1].0@, entries@[1].1@));
                assert(e[2] == (entries@[2].0@, entries@[2].1@));
                if !entries[0].0.is_text("value") || !entries[1].0.is_text("unique_id")
                    || !entries[2].0.is_text("pubkey") {
                    return None;
                }
                let value: u64 = match &entries[0].1 {
                    Item::Unsigned(v) => *v,
                    _ => {
                        return None;
                    },
                };
                let unique_id: [u8; 16] = match &entries[1].1 {
                    Item::Bytes(b) => {
                        if b.len() != 16 {
                            return None;
                        }
                        let mut id = [0u8; 16];
                        let mut i: usize = 0;
                        while i < 16
                            invariant
                                i <= 16,
                                b@.len() == 16,
                                forall|k: int| 0 <= k < i ==> id@[k] == b@[k],
                            decreases 16 - i,
                        {
                            id[i] = b[i];
                            i = i + 1;
                        }
                        assert(id@ =~= b@);
                        id
                    },
                    _ => {
                        return None;
                    },
                };
                let pubkey = match entries[2].1.as_byte_array() {
                    Some(bytes) => crate::crypto::PublicKey(bytes),
                    None => {
                        return None;
                    },
                };
                Some(TransactionOutput { value, unique_id, pubkey })
            },
            _ => None,
        }
    }

    /// The bytes in which the output is stored. They are read back as the
    /// output.
    pub fn encode(&self) -> (r: Vec<u8>)
        ensures
            r@ == self@.encoding(),
            TransactionOutputView::decoding(r@) == Some(self@),
    {
        proof {
            self.lemma_wf();
            self@.lemma_round_trip();
        }
        encode(&self.to_item())
    }

    /// The output that bytes are the encoding of.
    pub fn decode(bytes: &[u8]) -> (r: Option<TransactionOutput>)
        ensures
            match r {
                Some(o) => TransactionOutputView::decoding(bytes@) == Some(o@),
                None => TransactionOutputView::decoding(bytes@) is None,
            },
    {
        match decode(bytes) {
            Some(item) => Self::from_item(&item),
            None => None,
        }
    }
}

impl TransactionInputView {
    /// What holds of the view of every input.
    pub open spec fn wf(self) -> bool {
        self.prev_transaction_output_hash < modulus() && self.signature.len() <= usize::MAX
    }

    /// The input that an item stands for.
    pub open spec fn from_item(item: ItemView) -> Option<TransactionInputView> {
        match item {
            ItemView::Pairs(e) => if e.len() == 2 && e[0].0 == text_item(
                "prev_transaction_output_hash",
            ) && item_number(e[0].1) is Some && e[1].0 == text_item("signature")
                && byte_array_value(e[1].1) is Some {
                Some(
                    TransactionInputView {
                        prev_transaction_output_hash: item_number(e[0].1)->Some_0,
                        signature: byte_array_value(e[1].1)->Some_0,
                    },
                )
            } else {
                None
            },
            _ => None,
        }
    }

    #[verifier::rlimit(30)]
    pub proof fn lemma_item(self)
        requires
            self.wf(),
        ensures
            Self::from_item(self.item()) == Some(self),
            item_fits(self.item(), 2),
    {
        lemma_byte_array(self.signature);
        lemma_number_item(self.prev_transaction_output_hash);
        reveal_strlit("prev_transaction_output_hash");
        reveal_strlit("signature");
        lemma_key("prev_transaction_output_hash");
        lemma_key("signature");
        let e = self.item()->Pairs_0;
        assert forall|i: int| 0 <= i < e.len() implies item_fits((#[trigger] e[i]).0, 1)
            && item_fits(e[i].1, 1) by {
            lemma_fits_deeper(e[i].0, 0, 1);
        }
    }
}

impl TransactionInput {
    /// Every input has a well-formed view.
    pub proof fn lemma_wf(self)
        ensures
            self@.wf(),
    {
        self.prev_transaction_output_hash.0.lemma_bounded();
        assert(self.signature.0@.len() <= usize::MAX) by {
            vstd::std_specs::vec::axiom_spec_len(&self.signature.0);
        }
    }

    /// The input that an item stands for.
    #[verifier::rlimit(30)]
    pub fn from_item(item: &Item) -> (r: Option<TransactionInput>)
        ensures
            match r {
                Some(i) => TransactionInputView::from_item(item@) == Some(i@),
                None => TransactionInputView::from_item(item@) is None,
            },
    {
        match item {
            Item::Pairs(entries) => {
                if entries.len() != 2 {
                    return None;
                }
                let ghost e = pairs_view(entries@);
                assert(e[0] == (entries@[0].0@, entries@[0].1@));
                assert(e[1] == (entries@[1].0@, entries@[1].1@));
                if !entries[0].0.is_text("prev_transaction_output_hash") || !entries[1].0.is_text(
                    "signature",
                ) {
                    return None;
                }
                let hash = match number_from_item(&entries[0].1) {
                    Some(n) => crate::sha256::Hash(n),
                    None => {
                        return None;
                    },
                };
                let signature = match entries[1].1.as_byte_array() {
                    Some(bytes) => Signature(bytes),
                    None => {
                        return None;
                    },
                };
                Some(TransactionInput { prev_transaction_output_hash: hash, signature })
            },
            _ => None,
        }
    }
}

/// What an item is read as, as an input.
pub open spec fn read_input() -> spec_fn(ItemView) -> Option<TransactionInputView> {
    |item: ItemView| TransactionInputView::from_item(item)
}

/// What an item is read as, as an output.
pub open spec fn read_output() -> spec_fn(ItemView) -> Option<TransactionOutputView> {
    |item: ItemView| TransactionOutputView::from_item(item)
}

impl TransactionView {
    /// What holds of the view of every transaction.
    pub open spec fn wf(self) -> bool {
        &&& self.inputs.len() <= usize::MAX
        &&& self.outputs.len() <= usize::MAX
        &&& forall|i: int| 0 <= i < self.inputs.len() ==> (#[trigger] self.inputs[i]).wf()
        &&& forall|i: int| 0 <= i < self.outputs.len() ==> (#[trigger] self.outputs[i]).wf()
    }

    /// The transaction that an item stands for.
    pub open spec fn from_item(item: ItemView) -> Option<TransactionView> {
        match item {
            ItemView::Pairs(e) => if e.len() == 2 && e[0].0 == text_item("inputs")
                && e[0].1 is Array && all_read(e[0].1->Array_0, read_input()) is Some && e[1].0
                == text_item("outputs") && e[1].1 is Array && all_read(
                e[1].1->Array_0,
                read_output(),
            ) is Some {
                Some(
                    TransactionView {
                        inputs: all_read(e[0].1->Array_0, read_input())->Some_0,
                        outputs: all_read(e[1].1->Array_0, read_output())->Some_0,
                    },
                )
            } else {
                None
            },
            _ => None,
        }
    }

    /// The transaction that bytes are the encoding of.
    pub open spec fn decoding(bytes: Seq<u8>) -> Option<TransactionView> {
        match parse(bytes) {
            Some(item) => Self::from_item(item),
            None => None,
        }
    }

    #[verifier::rlimit(30)]
    pub proof fn lemma_item(self)
        requires
            self.wf(),
        ensures
            Self::from_item(self.item()) == Some(self),
            item_fits(self.item(), 4),
    {
        let write_in = |i: TransactionInputView| i.item();
        let write_out = |o: TransactionOutputView| o.item();
        let ins = self.inputs.map_values(write_in);
        let outs = self.outputs.map_values(write_out);
        assert forall|i: int| 0 <= i < self.inputs.len() implies read_input()(
            write_in(#[trigger] self.inputs[i]),
        ) == Some(self.inputs[i]) by {
            self.inputs[i].lemma_item();
        }
        assert forall|i: int| 0 <= i < self.outputs.len() implies read_output()(
            write_out(#[trigger] self.outputs[i]),
        ) == Some(self.outputs[i]) by {
            self.outputs[i].lemma_item();
        }
        lemma_all_read(self.inputs, write_in, read_input());
        lemma_all_read(self.outputs, write_out, read_output());
        let e = self.item()->Pairs_0;
        assert(e[0].1 == ItemView::Array(ins));
        assert(e[1].1 == ItemView::Array(outs));
        assert forall|i: int| 0 <= i < ins.len() implies item_fits(#[trigger] ins[i], 2) by {
            self.inputs[i].lemma_item();
        }
        assert forall|i: int| 0 <= i < outs.len() implies item_fits(#[trigger] outs[i], 2) by {
            self.outputs[i].lemma_item();
        }
        assert(item_fits(e[0].1, 3));
        assert(item_fits(e[1].1, 3));
        reveal_strlit("inputs");
        reveal_strlit("outputs");
        lemma_key("inputs");
        lemma_key("outputs");
        assert forall|i: int| 0 <= i < e.len() implies item_fits((#[trigger] e[i]).0, 3)
            && item_fits(e[i].1, 3) by {
            lemma_fits_deeper(e[i].0, 0, 3);
        }
    }

    /// Reading the bytes of a transaction gives the transaction, and so a
    /// transaction with the same hash.
    pub proof fn lemma_round_trip(self)
        requires
            self.wf(),
        ensures
            Self::decoding(self.encoding()) == Some(self),
            Self::decoding(self.encoding())->Some_0.hash_value() == self.hash_value(),
    {
        self.lemma_item();
        lemma_fits_deeper(self.item(), 4, MAX_DEPTH as nat);
        lemma_round_trip(self.item());
    }
}

/// The inputs that items stand for.
fn inputs_from_items(items: &Vec<Item>) -> (r: Option<Vec<TransactionInput>>)
    ensures
        match r {
            Some(inputs) => all_read(items_view(items@), read_input()) == Some(
                inputs_view(inputs@),
            ),
            None => all_read(items_view(items@), read_input()) is None,
        },
{
    let ghost views = items_view(items@);
    let mut inputs: Vec<TransactionInput> = Vec::new();
    let mut i: usize = 0;
    while i < items.len()
        invariant
            i <= items.len(),
            views == items_view(items@),
            inputs@.len() == i,
            forall|k: int| 0 <= k < i ==> read_input()(#[trigger] views[k]) == Some(inputs@[k]@),
        decreases items.len() - i,
    {
        assert(views[i as int] == items@[i as int]@);
        match TransactionInput::from_item(&items[i]) {
            Some(input) => {
                inputs.push(input);
            },
            None => {
                assert(read_input()(views[i as int]) is None);
                return None;
            },
        }
        i = i + 1;
    }
    assert(inputs_view(inputs@) =~= all_read(views, read_input())->Some_0);
    Some(inputs)
}

/// The outputs that items stand for.
fn outputs_from_items(items: &Vec<Item>) -> (r: Option<Vec<TransactionOutput>>)
    ensures
        match r {
            Some(outputs) => all_read(items_view(items@), read_output()) == Some(
                outputs_view(outputs@),
            ),
            None => all_read(items_view(items@), read_output()) is None,
        },
{
    let ghost views = items_view(items@);
    let mut outputs: Vec<TransactionOutput> = Vec::new();
    let mut i: usize = 0;
    while i < items.len()
        invariant
            i <= items.len(),
            views == items_view(items@),
            outputs@.len() == i,
            forall|k: int| 0 <= k < i ==> read_output()(#[trigger] views[k]) == Some(outputs@[k]@),
        decreases items.len() - i,
    {
        assert(views[i as int] == items@[i as int]@);
        match TransactionOutput::from_item(&items[i]) {
            Some(output) => {
                outputs.push(output);
            },
            None => {
                assert(read_output()(views[i as int]) is None);
                return None;
            },
        }
        i = i + 1;
    }
    assert(outputs_view(outputs@) =~= all_read(views, read_output())->Some_0);
    Some(outputs)
}

impl Transaction {
    /// Every transaction has a well-formed view.
    pub proof fn lemma_wf(self)
        ensures
            self@.wf(),
    {
        vstd::std_specs::vec::axiom_spec_len(&self.inputs);
        vstd::std_specs::vec::axiom_spec_len(&self.outputs);
        assert forall|i: int| 0 <= i < self@.inputs.len() implies (#[trigger] self@.inputs[i]).wf() by {
            self.inputs@[i].lemma_wf();
        }
        assert forall|i: int| 0 <= i < self@.outputs.len() implies (
        #[trigger] self@.outputs[i]).wf() by {
            self.outputs@[i].lemma_wf();
        }
    }

    /// The transaction that an item stands for.
    #[verifier::rlimit(30)]
    pub fn from_item(item: &Item) -> (r: Option<Transaction>)
        ensures
            match r {
                Some(t) => TransactionView::from_item(item@) == Some(t@),
                None => TransactionView::from_item(item@) is None,
            },
    {
        match item {
            Item::Pairs(entries) => {
                if entries.len() != 2 {
                    return None;
                }
                let ghost e = pairs_view(entries@);
                assert(e[0] == (entries@[0].0@, entries@[0].1@));
                assert(e[1] == (entries@[1].0@, entries@[1].1@));
                if !entries[0].0.is_text("inputs") || !entries[1].0.is_text("outputs") {
                    return None;
                }
                let inputs = match &entries[0].1 {
                    Item::Array(items) => match inputs_from_items(items) {
                        Some(inputs) => inputs,
                        None => {
                            return None;
                        },
                    },
                    _ => {
                        return None;
                    },
                };
                let outputs = match &entries[1].1 {
                    Item::Array(items) => match outputs_from_items(items) {
                        Some(outputs) => outputs,
                        None => {
                            return None;
                        },
                    },
                    _ => {
                        return None;
                    },
                };
                Some(Transaction { inputs, outputs })
            },
            _ => None,
        }
    }

    /// The bytes in which the transaction is stored. They are read back as
    /// the transaction.
    pub fn encode(&self) -> (r: Vec<u8>)
        ensures
            r@ == self@.encoding(),
            TransactionView::decoding(r@) == Some(self@),
    {
        proof {
            self.lemma_wf();
            self@.lemma_round_trip();
        }
        encode(&self.to_item())
    }

    /// The transaction that bytes are the encoding of.
    pub fn decode(bytes: &[u8]) -> (r: Option<Transaction>)
        ensures
            match r {
                Some(t) => TransactionView::decoding(bytes@) == Some(t@),
                None => TransactionView::decoding(bytes@) is None,
            },
    {
        match decode(bytes) {
            Some(item) => Self::from_item(&item),
            None => None,
        }
    }
}

} // verus!
