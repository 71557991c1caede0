//! What a miner decides: when to ask for a block to mine, when to ask
//! whether it is still wanted, and what to do with the answers.

use crate::crypto::PublicKey;
use crate::network::{Message, MessageView};
use crate::types::block::{Block, BlockView};
use vstd::prelude::*;

verus! {

/// The number of headers that the worker tries before it looks for a new
/// block to mine.
pub const BATCH_SIZE: usize = 2_000_000;

/// What a miner knows between two events.
#[derive(Debug)]
pub struct Miner {
    /// The key that the reward is to go to.
    pub public_key: PublicKey,
    /// The block that is mined, once the node has sent one.
    pub current_template: Option<Block>,
    /// Whether the search is on.
    pub mining: bool,
    /// The number of blocks that the node has sent so far, as far as 64 bits
    /// count. The worker sees by it that its block was replaced.
    pub generation: u64,
}

pub struct MinerView {
    pub public_key: Seq<u8>,
    pub current_template: Option<BlockView>,
    pub mining: bool,
    pub generation: u64,
}

impl View for Miner {
    type V = MinerView;

    open spec fn view(&self) -> MinerView {
        MinerView {
            public_key: self.public_key@,
            current_template: match self.current_template {
                Some(b) => Some(b@),
                None => None,
            },
            mining: self.mining,
            generation: self.generation,
        }
    }
}

/// An answer that the miner did not ask for.
#[derive(Debug)]
pub struct UnexpectedMessage(pub Message);

impl MinerView {
    /// What the miner asks the node when the clock ticks: a block to mine
    /// while it has none to search, else whether the block it searches is
    /// still wanted.
    pub open spec fn request(self) -> Option<MessageView> {
        if !self.mining {
            Some(MessageView::FetchTemplate(self.public_key))
        } else {
            match self.current_template {
                Some(b) => Some(MessageView::ValidateTemplate(b)),
                None => None,
            }
        }
    }

    /// The miner after the node's answer to its request, where the answer is
    /// one that it asked for.
    pub open spec fn after_answer(self, answer: MessageView) -> Option<MinerView> {
        if !self.mining {
            match answer {
                MessageView::Template(b) => Some(
                    MinerView {
                        current_template: Some(b),
                        mining: true,
                        generation: if self.generation == u64::MAX {
                            0
                        } else {
                            (self.generation + 1) as u64
                        },
                        ..self
                    },
                ),
                _ => None,
            }
        } else {
            match answer {
                MessageView::TemplateValidity(valid) => Some(
                    MinerView { mining: self.mining && valid, ..self },
                ),
                _ => None,
            }
        }
    }

    /// The block that the worker is to search, with its number: the current
    /// one while the search is on.
    pub open spec fn work(self) -> Option<(u64, BlockView)> {
        if self.mining {
            match self.current_template {
                Some(b) => Some((self.generation, b)),
                None => None,
            }
        } else {
            None
        }
    }
}

impl Miner {
    /// A miner that has no block yet.
    pub fn new(public_key: PublicKey) -> (r: Miner)
        ensures
            r@ == (MinerView {
                public_key: public_key@,
                current_template: None,
                mining: false,
                generation: 0,
            }),
    {
        Miner { public_key, current_template: None, mining: false, generation: 0 }
    }

    /// What to send to the node when the clock ticks, if anything.
    pub fn on_tick(&self) -> (r: Option<Message>)
        ensures
            match r {
                Some(m) => self@.request() == Some(m@),
                None => self@.request() is None,
            },
    {
        if !self.mining {
            Some(Message::FetchTemplate(self.public_key.clone()))
        } else {
            match &self.current_template {
                Some(b) => Some(Message::ValidateTemplate(b.clone())),
                None => None,
            }
        }
    }

    /// Takes the node's answer to the request of the last tick. An answer
    /// that was not asked for changes nothing and is handed back.
    pub fn on_answer(&mut self, answer: Message) -> (r: Result<(), UnexpectedMessage>)
        ensures
            match r {
                Ok(_) => old(self)@.after_answer(answer@) == Some(final(self)@),
                Err(e) => old(self)@.after_answer(answer@) is None && final(self)@ == old(self)@
                    && e.0@ == answer@,
            },
    {
        if !self.mining {
            match answer {
                Message::Template(b) => {
                    self.current_template = Some(b);
                    self.mining = true;
                    self.generation = if self.generation == u64::MAX {
                        0
                    } else {
                        self.generation + 1
                    };
                    Ok(())
                },
                other => Err(UnexpectedMessage(other)),
            }
        } else {
            match answer {
                Message::TemplateValidity(valid) => {
                    if !valid {
                        self.mining = false;
                    }
                    Ok(())
                },
                other => Err(UnexpectedMessage(other)),
            }
        }
    }

    /// The block that the worker is to search now, if any, with its number.
    pub fn work(&self) -> (r: Option<(u64, Block)>)
        ensures
            match r {
                Some((generation, b)) => self@.work() == Some((generation, b@)),
                None => self@.work() is None,
            },
    {
        if self.mining {
            match &self.current_template {
                Some(b) => Some((self.generation, b.clone())),
                None => None,
            }
        } else {
            None
        }
    }

    /// Takes a block that the worker solved: the search is over, and the
    /// block is to be sent to the node.
    pub fn on_mined(&mut self, block: Block) -> (r: Message)
        ensures
            r@ == MessageView::SubmitTemplate(block@),
            final(self)@ == (MinerView { mining: false, ..old(self)@ }),
    {
        self.mining = false;
        Message::SubmitTemplate(block)
    }
}

} // verus!
