//! What a node decides: how it starts, which peer it takes its chain from,
//! and what it answers to the messages of its peers.

use crate::crypto::PublicKey;
use crate::error::BtcError;
use crate::network::{marked_view, texts_view, Message, MessageView};
use crate::time::Timestamp;
use crate::types::block::{
    all_known, block_reward_value, coinbase_result, input_hashes,
    lemma_first_is_free, lemma_output_total_add, lemma_push_transaction, lemma_result_same,
    lemma_total_value_add, made_outputs, make_outputs, miner_fees_result, output_hashes,
    spend_inputs, spent_hashes, total_value, transaction_result, transactions_result,
    verify_transaction, verify_transactions_result, Block, BlockHeader, BlockHeaderView,
    BlockView, Utxos,
};
use crate::types::blockchain::mempool_view;
use crate::types::transaction::{output_total, Transaction, TransactionView};
use crate::util::{hash_values, merkle_root_value, transactions_view, MerkleRoot};
use crate::types::blockchain::{
    add_block_result, mempool_result, replay, Blockchain, BlockchainView,
};
use crate::types::transaction::{TransactionOutput, TransactionOutputView};
use vstd::prelude::*;

verus! {

/// How a node comes to its chain when it starts.
#[derive(Clone, Copy, Debug, PartialEq, Eq, Structural)]
pub enum Startup {
    /// Read the chain from the file, then work out the unspent outputs and
    /// adjust the target.
    LoadChain,
    /// Start a network: an empty chain, no peers.
    Seed,
    /// Ask the peers for their peers, take the chain of the peer that has the
    /// longest, then work out the unspent outputs and adjust the target.
    Synchronize,
}

/// How a node starts: from its file where there is one, else from its peers
/// where it knows any, else alone.
pub fn startup_plan(chain_file_exists: bool, initial_peers: usize) -> (r: Startup)
    ensures
        r == if chain_file_exists {
            Startup::LoadChain
        } else if initial_peers == 0 {
            Startup::Seed
        } else {
            Startup::Synchronize
        },
{
    if chain_file_exists {
        Startup::LoadChain
    } else if initial_peers == 0 {
        Startup::Seed
    } else {
        Startup::Synchronize
    }
}

/// Whether `i` is the place of the first of the greatest differences.
pub open spec fn is_longest(differences: Seq<i32>, i: int) -> bool {
    &&& 0 <= i < differences.len()
    &&& forall|j: int| 0 <= j < differences.len() ==> differences[j] <= differences[i]
    &&& forall|j: int| 0 <= j < i ==> differences[j] < differences[i]
}

/// The peer to take the chain from: the first of those that are ahead by the
/// most blocks; none where no peer is ahead.
pub fn longest_chain(differences: &Vec<i32>) -> (r: Option<usize>)
    ensures
        match r {
            Some(i) => is_longest(differences@, i as int) && differences@[i as int] > 0,
            None => forall|j: int| 0 <= j < differences@.len() ==> differences@[j] <= 0,
        },
{
    if differences.len() == 0 {
        return None;
    }
    let mut best: usize = 0;
    let mut i: usize = 1;
    while i < differences.len()
        invariant
            1 <= i <= differences.len(),
            best < i,
            forall|j: int| 0 <= j < i ==> differences@[j] <= differences@[best as int],
            forall|j: int| 0 <= j < best ==> differences@[j] < differences@[best as int],
        decreases differences.len() - i,
    {
        if differences[i] > differences[best] {
            best = i;
        }
        i = i + 1;
    }
    if differences[best] > 0 {
        Some(best)
    } else {
        None
    }
}

/// The hash that the next block has to name: that of the last block, zero
/// where there is none.
pub open spec fn tip_value(chain: BlockchainView) -> nat {
    if chain.blocks.len() == 0 {
        0
    } else {
        chain.blocks.last().hash_value()
    }
}

/// The hash that the next block has to name.
pub fn tip(chain: &Blockchain) -> (r: crate::sha256::Hash)
    ensures
        r@ == tip_value(chain@),
{
    let blocks = chain.blocks();
    if blocks.len() == 0 {
        crate::sha256::Hash::zero()
    } else {
        assert(chain@.blocks.last() == blocks@[blocks.len() - 1]@);
        match blocks[blocks.len() - 1].hash() {
            Ok(h) => h,
            Err(_) => crate::sha256::Hash::zero(),
        }
    }
}

/// Whether a block to mine still names the last block of the chain.
pub fn template_is_current(chain: &Blockchain, template: &Block) -> (r: bool)
    ensures
        r == (template@.header.prev_block_hash == tip_value(chain@)),
{
    let wanted = tip(chain);
    let r = template.header.prev_block_hash == wanted;
    proof {
        if template.header.prev_block_hash@ == wanted@ {
            crate::u256::lemma_view_injective(template.header.prev_block_hash.0, wanted.0);
        }
    }
    r
}

/// By how many blocks a chain of `length` blocks is ahead of `height`, as far
/// as 32 bits can say.
pub open spec fn difference_value(length: nat, height: u32) -> i32 {
    if length - height > i32::MAX {
        i32::MAX
    } else {
        (length - height) as i32
    }
}

/// By how many blocks the chain is ahead of `height`; negative where it is
/// behind.
pub fn difference(chain: &Blockchain, height: u32) -> (r: i32)
    ensures
        r == difference_value(chain@.blocks.len(), height),
{
    let length: u64 = chain.block_height();
    if length >= height as u64 {
        let ahead: u64 = length - height as u64;
        if ahead > i32::MAX as u64 {
            i32::MAX
        } else {
            ahead as i32
        }
    } else {
        let behind: u64 = height as u64 - length;
        (-(behind as i64)) as i32
    }
}

/// The block at `height`, where the chain is that long.
pub fn block_at(chain: &Blockchain, height: u64) -> (r: Option<&Block>)
    ensures
        match r {
            Some(b) => height < chain@.blocks.len() && chain@.blocks[height as int] == b@,
            None => height >= chain@.blocks.len(),
        },
{
    let blocks = chain.blocks();
    if height < blocks.len() as u64 {
        let b = &blocks[height as usize];
        assert(chain@.blocks[height as int] == b@);
        Some(b)
    } else {
        None
    }
}

/// Whether an output of the listing belongs to `key`.
pub open spec fn belongs_to(key: Seq<u8>) -> spec_fn((nat, bool, TransactionOutputView)) -> bool {
    |e: (nat, bool, TransactionOutputView)| e.2.pubkey == key
}

/// An output of the listing with its mark.
pub open spec fn with_mark() -> spec_fn((nat, bool, TransactionOutputView)) -> (
    TransactionOutputView,
    bool,
) {
    |e: (nat, bool, TransactionOutputView)| (e.2, e.1)
}

/// The unspent outputs that belong to `key`, each with its mark.
#[verifier::rlimit(30)]
pub fn utxos_of(chain: &Blockchain, key: &PublicKey) -> (r: Vec<(TransactionOutput, bool)>)
    ensures
        marked_view(r@) == chain.utxo_listing().filter(belongs_to(key@)).map_values(with_mark()),
{
    let utxos = chain.utxos();
    let ghost listing = utxos.listing();
    let ghost pred = belongs_to(key@);
    let n: usize = utxos.len();
    let mut found: Vec<(TransactionOutput, bool)> = Vec::new();
    let mut i: usize = 0;
    proof {
        assert(listing.subrange(0, 0) =~= Seq::<(nat, bool, TransactionOutputView)>::empty());
        crate::seqs::lemma_filter_empty(pred);
        assert(marked_view(found@) =~= listing.subrange(0, 0).filter(pred).map_values(with_mark()));
    }
    while i < n
        invariant
            i <= n,
            n == listing.len(),
            listing == utxos.listing(),
            pred == belongs_to(key@),
            marked_view(found@) == listing.subrange(0, i as int).filter(pred).map_values(
                with_mark(),
            ),
        decreases n - i,
    {
        let (_, reserved, output) = utxos.entry(i);
        let ghost before = found@;
        proof {
            crate::seqs::lemma_filter_step(listing, pred, i as int);
        }
        if crate::bytes::bytes_equal(output.pubkey.0.as_slice(), key.0.as_slice()) {
            let copy = output.clone();
            found.push((copy, reserved));
            proof {
                let kept = listing.subrange(0, i as int).filter(pred);
                assert(listing[i as int].1 == reserved && listing[i as int].2 == output@);
                assert(marked_view(found@) =~= marked_view(before).push((output@, reserved)));
                assert(kept.push(listing[i as int]).map_values(with_mark()) =~= kept.map_values(
                    with_mark(),
                ).push((output@, reserved)));
            }
        }
        i = i + 1;
    }
    assert(listing.subrange(0, n as int) =~= listing);
    found
}

/// A transaction without inputs that pays `value` to `key`.
pub open spec fn coinbase_view(value: u64, unique_id: Seq<u8>, key: Seq<u8>) -> TransactionView {
    TransactionView {
        inputs: Seq::empty(),
        outputs: seq![TransactionOutputView { value, unique_id, pubkey: key }],
    }
}

/// A transaction without inputs and outputs.
pub open spec fn empty_transaction() -> TransactionView {
    TransactionView { inputs: Seq::empty(), outputs: Seq::empty() }
}

/// What the transactions behind the first leave to the miner.
pub open spec fn fees_of(transactions: Seq<TransactionView>, utxos: Utxos) -> int {
    total_value(spent_hashes(transactions), utxos) - output_total(made_outputs(transactions))
}

/// Whether a pending transaction can join the transactions taken so far: it
/// spends unspent outputs that none of them spends, it makes outputs that
/// none of them makes, it is signed, it makes no more than it spends, and
/// reward and fees still fit in one amount.
pub open spec fn fits_template(
    taken: Seq<TransactionView>,
    tx: TransactionView,
    utxos: Utxos,
    reward: nat,
) -> bool {
    let next = taken.push(tx);
    &&& all_known(spent_hashes(next), utxos)
    &&& spent_hashes(next).no_duplicates()
    &&& output_hashes(made_outputs(next)).no_duplicates()
    &&& transaction_result(tx, utxos) is Ok
    &&& reward + fees_of(next, utxos) <= u64::MAX
}

/// The transactions of a block to mine after the `n` pending transactions
/// of the highest fees were looked at, the highest first: a place for the
/// first transaction, then every one that could join those before it.
pub open spec fn template_transactions(
    mempool: Seq<(int, TransactionView)>,
    utxos: Utxos,
    reward: nat,
    n: int,
) -> Seq<TransactionView>
    decreases n,
{
    if n <= 0 {
        seq![empty_transaction()]
    } else {
        let taken = template_transactions(mempool, utxos, reward, n - 1);
        let tx = mempool[mempool.len() - n].1;
        if fits_template(taken, tx, utxos, reward) {
            taken.push(tx)
        } else {
            taken
        }
    }
}

/// The block that a node hands to a miner: it follows the last block, has
/// the chain's target and the instant `now`, and holds the pending
/// transactions that fit, the highest fee first, behind a first transaction
/// that pays the reward and their fees to `key`.
pub open spec fn template_view(
    chain: BlockchainView,
    key: Seq<u8>,
    unique_id: Seq<u8>,
    now: int,
) -> BlockView {
    let reward = block_reward_value(chain.blocks.len() as u64);
    let taken = template_transactions(
        chain.mempool,
        chain.utxos,
        reward,
        chain.mempool.len() as int,
    );
    let first = coinbase_view((reward + fees_of(taken, chain.utxos)) as u64, unique_id, key);
    let transactions = taken.update(0, first);
    BlockView {
        header: BlockHeaderView {
            timestamp: now,
            nonce: 0,
            prev_block_hash: tip_value(chain),
            merkle_root: merkle_root_value(transactions)->Some_0,
            target: chain.target,
        },
        transactions,
    }
}

/// A copy of the hashes.
fn shorten(list: &mut Vec<crate::sha256::Hash>, len: usize)
    requires
        len <= old(list)@.len(),
    ensures
        final(list)@ == old(list)@.subrange(0, len as int),
{
    list.truncate(len);
}

/// Puts together a block to mine that pays reward and fees to `key`.
/// `unique_id` tells the payment from every other; `now` is the instant of
/// the block.
#[verifier::rlimit(30)]
pub fn build_template(chain: &Blockchain, key: &PublicKey, unique_id: [u8; 16], now: Timestamp) -> (r:
    Block)
    ensures
        r@ == template_view(chain@, key@, unique_id@, now@),
        verify_transactions_result(r@.transactions, chain@.blocks.len() as u64, chain@.utxos)
            is Ok,
{
    let height: u64 = chain.block_height();
    let reward: u64 = Block::calculate_block_reward(height);
    let utxos = chain.utxos();
    let mempool = chain.mempool();
    let ghost pending = mempool_view(mempool@);
    let len: usize = mempool.len();
    let mut taken: Vec<Transaction> = Vec::new();
    taken.push(Transaction::new(Vec::new(), Vec::new()));
    let mut seen_inputs: Vec<crate::sha256::Hash> = Vec::new();
    let mut seen_outputs: Vec<crate::sha256::Hash> = Vec::new();
    let mut total_in: u128 = 0;
    let mut total_out: u128 = 0;
    let ghost mut made: Seq<TransactionOutputView> = Seq::empty();
    proof {
        let start = transactions_view(taken@);
        assert(start =~= seq![empty_transaction()]) by {
            assert(taken@[0]@.inputs =~= Seq::empty());
            assert(taken@[0]@.outputs =~= Seq::empty());
        }
        assert(spent_hashes(start) =~= Seq::<nat>::empty()) by {
            assert(crate::seqs::joined(crate::types::block::spent_parts(start), 0) =~= Seq::<
                nat,
            >::empty());
            assert(crate::types::block::spent_parts(start)[0] =~= Seq::<nat>::empty());
        }
        assert(made_outputs(start) =~= Seq::<TransactionOutputView>::empty()) by {
            assert(crate::seqs::joined(crate::types::block::made_parts(start), 0) =~= Seq::<
                TransactionOutputView,
            >::empty());
            assert(crate::types::block::made_parts(start)[0] =~= Seq::<
                TransactionOutputView,
            >::empty());
        }
        assert(hash_values(seen_inputs@) =~= Seq::<nat>::empty());
        assert(output_hashes(made) =~= hash_values(seen_outputs@));
    }
    let mut n: usize = 0;
    while n < len
        invariant
            n <= len,
            len == mempool@.len(),
            pending == mempool_view(mempool@),
            reward == block_reward_value(height),
            taken@.len() >= 1,
            transactions_view(taken@) == template_transactions(
                pending,
                utxos@,
                reward as nat,
                n as int,
            ),
            hash_values(seen_inputs@) == spent_hashes(transactions_view(taken@)),
            made == made_outputs(transactions_view(taken@)),
            output_hashes(made) == hash_values(seen_outputs@),
            all_known(hash_values(seen_inputs@), utxos@),
            hash_values(seen_inputs@).no_duplicates(),
            output_hashes(made).no_duplicates(),
            total_in == total_value(hash_values(seen_inputs@), utxos@),
            total_out == output_total(made),
            total_in >= total_out,
            reward + total_in - total_out <= u64::MAX,
            transactions_result(
                transactions_view(taken@),
                utxos@,
                taken@.len() as int,
            ) is Ok,
        decreases len - n,
    {
        let candidate = &mempool[len - 1 - n].1;
        let ghost tx = candidate@;
        let ghost before = transactions_view(taken@);
        let ghost next = before.push(tx);
        let ghost old_inputs = seen_inputs@;
        let ghost old_outputs = seen_outputs@;
        proof {
            assert(pending[len - (n + 1)].1 == tx);
            lemma_push_transaction(before, tx);
        }
        let inputs_before: usize = seen_inputs.len();
        let outputs_before: usize = seen_outputs.len();
        let in_before: u128 = total_in;
        let out_before: u128 = total_out;
        let mut fits = spend_inputs(candidate, utxos, &mut seen_inputs, &mut total_in);
        if fits {
            fits = make_outputs(candidate, &mut seen_outputs, &mut total_out, Ghost(made));
        }
        if fits {
            proof {
                assert forall|i: int| 0 <= i < input_hashes(tx).len() implies utxos@.contains_key(
                    #[trigger] input_hashes(tx)[i],
                ) by {
                    assert(spent_hashes(next)[spent_hashes(before).len() + i] == input_hashes(
                        tx,
                    )[i]);
                }
            }
            fits = verify_transaction(candidate, utxos).is_ok();
        }
        if fits {
            proof {
                lemma_total_value_add(spent_hashes(before), input_hashes(tx), utxos@);
                lemma_output_total_add(made, tx.outputs);
            }
            fits = total_in - total_out <= (u64::MAX - reward) as u128;
        }
        if fits {
            let copy = candidate.clone();
            taken.push(copy);
            proof {
                made = made + tx.outputs;
                assert(transactions_view(taken@) =~= next);
                lemma_result_same(next, before, utxos@, before.len() as int);
            }
        } else {
            shorten(&mut seen_inputs, inputs_before);
            shorten(&mut seen_outputs, outputs_before);
            total_in = in_before;
            total_out = out_before;
            proof {
                assert(seen_inputs@ == old_inputs);
                assert(seen_outputs@ == old_outputs);
                lemma_total_value_add(spent_hashes(before), input_hashes(tx), utxos@);
                lemma_output_total_add(made_outputs(before), tx.outputs);
            }
        }
        n = n + 1;
    }
    let ghost chosen = transactions_view(taken@);
    let fees: u128 = total_in - total_out;
    let value: u64 = reward + fees as u64;
    let mut outputs: Vec<TransactionOutput> = Vec::new();
    outputs.push(TransactionOutput { value, unique_id, pubkey: key.clone() });
    let first = Transaction::new(Vec::new(), outputs);
    proof {
        assert(first@.inputs =~= Seq::empty());
        assert(first@.outputs =~= seq![
            TransactionOutputView { value, unique_id: unique_id@, pubkey: key@ },
        ]);
        assert(first@ == coinbase_view(value, unique_id@, key@));
    }
    let ghost first_view = first@;
    taken.remove(0);
    taken.insert(0, first);
    let ghost transactions = chosen.update(0, first_view);
    proof {
        assert(transactions_view(taken@) =~= transactions);
        lemma_first_is_free(chosen, first_view, utxos@);
        assert(transactions[0] == first_view);
        assert(output_total(first_view.outputs) == value) by {
            assert(first_view.outputs.drop_last() =~= Seq::<TransactionOutputView>::empty());
            assert(output_total(first_view.outputs.drop_last()) == 0);
        }
        assert(miner_fees_result(transactions, utxos@) == Ok::<u64, BtcError>(fees as u64));
        assert(coinbase_result(transactions, height, utxos@) is Ok);
    }
    let root = match MerkleRoot::calculate(taken.as_slice()) {
        Some(root) => root,
        None => MerkleRoot(crate::sha256::Hash::zero()),
    };
    let header = BlockHeader::new(now, 0, tip(chain), root, chain.target());
    Block::new(header, taken)
}

/// What a node does with a message: what it answers to the sender and what
/// it passes on to every peer.
#[derive(Debug)]
pub struct Response {
    pub reply: Option<Message>,
    pub broadcast: Option<Message>,
}

pub struct ResponseView {
    pub reply: Option<MessageView>,
    pub broadcast: Option<MessageView>,
}

impl View for Response {
    type V = ResponseView;

    open spec fn view(&self) -> ResponseView {
        ResponseView {
            reply: match self.reply {
                Some(m) => Some(m@),
                None => None,
            },
            broadcast: match self.broadcast {
                Some(m) => Some(m@),
                None => None,
            },
        }
    }
}

/// Neither an answer nor anything to pass on.
pub open spec fn silence() -> ResponseView {
    ResponseView { reply: None, broadcast: None }
}

/// An answer to the sender.
pub open spec fn answer(message: MessageView) -> ResponseView {
    ResponseView { reply: Some(message), broadcast: None }
}

/// The chain after a block was taken and the unspent outputs were worked
/// out anew.
pub open spec fn with_block_replayed(chain: BlockchainView, block: BlockView) -> BlockchainView {
    let after = chain.with_block(block);
    BlockchainView { utxos: replay(after.blocks, after.blocks.len() as int), ..after }
}

/// The chain after a message was handled.
pub open spec fn chain_after(chain: BlockchainView, message: MessageView, now: int)
    -> BlockchainView {
    match message {
        MessageView::SubmitTransaction(t) => if mempool_result(chain, t) is Ok {
            chain.with_pending(t, now)
        } else {
            chain
        },
        MessageView::NewTransaction(t) => if mempool_result(chain, t) is Ok {
            chain.with_pending(t, now)
        } else {
            chain
        },
        MessageView::SubmitTemplate(b) => if add_block_result(chain, b) is Ok {
            with_block_replayed(chain, b)
        } else {
            chain
        },
        MessageView::NewBlock(b) => if add_block_result(chain, b) is Ok {
            with_block_replayed(chain, b)
        } else {
            chain
        },
        _ => chain,
    }
}

/// What a node with the chain `chain` and the peers `peers` does with a
/// message. `listing` is the list of its unspent outputs.
pub open spec fn response_to(
    chain: BlockchainView,
    listing: Seq<(nat, bool, TransactionOutputView)>,
    peers: Seq<Seq<char>>,
    message: MessageView,
    unique_id: Seq<u8>,
    now: int,
) -> ResponseView {
    match message {
        MessageView::FetchUTXOs(key) => answer(
            MessageView::UTXOs(listing.filter(belongs_to(key)).map_values(with_mark())),
        ),
        MessageView::SubmitTransaction(t) => if mempool_result(chain, t) is Ok {
            ResponseView { reply: None, broadcast: Some(MessageView::NewTransaction(t)) }
        } else {
            silence()
        },
        MessageView::FetchTemplate(key) => answer(
            MessageView::Template(template_view(chain, key, unique_id, now)),
        ),
        MessageView::ValidateTemplate(b) => answer(
            MessageView::TemplateValidity(b.header.prev_block_hash == tip_value(chain)),
        ),
        MessageView::SubmitTemplate(b) => if add_block_result(chain, b) is Ok {
            ResponseView { reply: None, broadcast: Some(MessageView::NewBlock(b)) }
        } else {
            silence()
        },
        MessageView::DiscoverNodes => answer(MessageView::NodeList(peers)),
        MessageView::AskDifference(height) => answer(
            MessageView::Difference(difference_value(chain.blocks.len(), height)),
        ),
        MessageView::FetchBlock(height) => if height < chain.blocks.len() {
            answer(MessageView::NewBlock(chain.blocks[height as int]))
        } else {
            silence()
        },
        _ => silence(),
    }
}

/// Takes a block and, where it is taken, works out the unspent outputs
/// anew.
fn take_block(chain: &mut Blockchain, block: Block) -> (taken: bool)
    ensures
        taken == (add_block_result(old(chain)@, block@) is Ok),
        final(chain)@ == if taken {
            with_block_replayed(old(chain)@, block@)
        } else {
            old(chain)@
        },
{
    match chain.add_block(block) {
        Ok(_) => {
            let _ = chain.rebuild_utxos();
            true
        },
        Err(_) => false,
    }
}

/// A copy of the texts.
fn copy_texts(texts: &Vec<String>) -> (r: Vec<String>)
    ensures
        texts_view(r@) == texts_view(texts@),
{
    let mut out: Vec<String> = Vec::new();
    let mut i: usize = 0;
    while i < texts.len()
        invariant
            i <= texts.len(),
            out@.len() == i,
            forall|k: int| 0 <= k < i ==> (#[trigger] out@[k])@ == texts@[k]@,
        decreases texts.len() - i,
    {
        out.push(texts[i].clone());
        i = i + 1;
    }
    assert(texts_view(out@) =~= texts_view(texts@));
    out
}

/// Handles a message of a peer. `unique_id` is used where a block to mine is
/// put together; `now` is the instant at which the message came.
#[verifier::rlimit(30)]
pub fn respond(
    chain: &mut Blockchain,
    peers: &Vec<String>,
    message: Message,
    unique_id: [u8; 16],
    now: Timestamp,
) -> (r: Response)
    ensures
        r@ == response_to(
            old(chain)@,
            old(chain).utxo_listing(),
            texts_view(peers@),
            message@,
            unique_id@,
            now@,
        ),
        final(chain)@ == chain_after(old(chain)@, message@, now@),
{
    match message {
        Message::FetchUTXOs(key) => {
            let found = utxos_of(chain, &key);
            Response { reply: Some(Message::UTXOs(found)), broadcast: None }
        },
        Message::SubmitTransaction(t) => {
            let copy = t.clone();
            match chain.add_to_mempool_at(t, now) {
                Ok(_) => Response { reply: None, broadcast: Some(Message::NewTransaction(copy)) },
                Err(_) => Response { reply: None, broadcast: None },
            }
        },
        Message::NewTransaction(t) => {
            let _ = chain.add_to_mempool_at(t, now);
            Response { reply: None, broadcast: None }
        },
        Message::FetchTemplate(key) => {
            let template = build_template(chain, &key, unique_id, now);
            Response { reply: Some(Message::Template(template)), broadcast: None }
        },
        Message::ValidateTemplate(b) => {
            let valid = template_is_current(chain, &b);
            Response { reply: Some(Message::TemplateValidity(valid)), broadcast: None }
        },
        Message::SubmitTemplate(b) => {
            let copy = b.clone();
            if take_block(chain, b) {
                Response { reply: None, broadcast: Some(Message::NewBlock(copy)) }
            } else {
                Response { reply: None, broadcast: None }
            }
        },
        Message::NewBlock(b) => {
            let _ = take_block(chain, b);
            Response { reply: None, broadcast: None }
        },
        Message::DiscoverNodes => {
            Response { reply: Some(Message::NodeList(copy_texts(peers))), broadcast: None }
        },
        Message::AskDifference(height) => {
            Response { reply: Some(Message::Difference(difference(chain, height))), broadcast: None }
        },
        Message::FetchBlock(height) => {
            match block_at(chain, height) {
                Some(b) => Response { reply: Some(Message::NewBlock(b.clone())), broadcast: None },
                None => Response { reply: None, broadcast: None },
            }
        },
        _ => Response { reply: None, broadcast: None },
    }
}

} // verus!
