//! The messages of the gossip protocol.

use vstd::prelude::*;
use crate::block::Block;
use crate::block::BlockView;
use crate::crypto::hash::H256;
use crate::crypto::merkle::digests_view;
use crate::transaction::content_view;
use crate::transaction::SignedTrans;
use crate::transaction::SignedTransView;

verus! {

/// One message between peers.
#[derive(Debug)]
pub enum Message {
    /// Liveness probe.
    Ping(u64),
    /// Answer to a probe: the probe's number in decimal.
    Pong(String),
    /// Blocks that the sender has.
    NewBlockHashes(Vec<H256>),
    /// Blocks that the sender wants.
    GetBlocks(Vec<H256>),
    /// Blocks delivered.
    Blocks(Vec<Block>),
    /// Transactions that the sender has.
    NewTransactionHashes(Vec<H256>),
    /// Transactions that the sender wants.
    GetTransactions(Vec<H256>),
    /// Transactions delivered.
    Transactions(Vec<SignedTrans>),
}

/// What a message holds.
pub enum MessageView {
    Ping(u64),
    Pong(Seq<char>),
    NewBlockHashes(Seq<Seq<u8>>),
    GetBlocks(Seq<Seq<u8>>),
    Blocks(Seq<BlockView>),
    NewTransactionHashes(Seq<Seq<u8>>),
    GetTransactions(Seq<Seq<u8>>),
    Transactions(Seq<SignedTransView>),
}

/// The views of a list of blocks.
pub open spec fn blocks_view(blocks: Seq<Block>) -> Seq<BlockView> {
    blocks.map_values(|b: Block| b@)
}

/// The views of a list of messages.
pub open spec fn messages_view(messages: Seq<Message>) -> Seq<MessageView> {
    messages.map_values(|m: Message| m@)
}

/// The view of a message that may be there.
pub open spec fn optional_view(m: Option<Message>) -> Option<MessageView> {
    match m {
        Some(m) => Some(m@),
        None => None,
    }
}

impl View for Message {
    type V = MessageView;

    open spec fn view(&self) -> MessageView {
        match self {
            Message::Ping(nonce) => MessageView::Ping(*nonce),
            Message::Pong(text) => MessageView::Pong(text@),
            Message::NewBlockHashes(hashes) => MessageView::NewBlockHashes(digests_view(hashes@)),
            Message::GetBlocks(hashes) => MessageView::GetBlocks(digests_view(hashes@)),
            Message::Blocks(blocks) => MessageView::Blocks(blocks_view(blocks@)),
            Message::NewTransactionHashes(hashes) => MessageView::NewTransactionHashes(
                digests_view(hashes@),
            ),
            Message::GetTransactions(hashes) => MessageView::GetTransactions(digests_view(hashes@)),
            Message::Transactions(content) => MessageView::Transactions(content_view(content@)),
        }
    }
}

/// The character of a digit.
pub open spec fn digit_char(d: nat) -> char {
    if d == 0 {
        '0'
    } else if d == 1 {
        '1'
    } else if d == 2 {
        '2'
    } else if d == 3 {
        '3'
    } else if d == 4 {
        '4'
    } else if d == 5 {
        '5'
    } else if d == 6 {
        '6'
    } else if d == 7 {
        '7'
    } else if d == 8 {
        '8'
    } else {
        '9'
    }
}

/// A number in decimal, without leading zeros.
pub open spec fn decimal(n: nat) -> Seq<char>
    decreases n,
{
    if n < 10 {
        seq![digit_char(n)]
    } else {
        decimal(n / 10).push(digit_char(n % 10))
    }
}

/// The decimal form of a number by `u64::to_string` of std, which writes
/// an integer in base ten with no sign and no leading zeros.
#[verifier::external_body]
pub(crate) fn decimal_string(n: u64) -> (text: String)
    ensures
        text@ == decimal(n as nat),
{
    n.to_string()
}

} // verus!
