//! One round of mining: read the tip, put a candidate block together, and
//! commit it to the chain store if it has its proof of work.

use vstd::prelude::*;
use crate::ambient::now_millis;
use crate::ambient::random_u32;
use crate::block::content_digests;
use crate::block::content_root;
use crate::block::Block;
use crate::block::BlockView;
use crate::block::HeaderView;
use crate::blockchain::Blockchain;
use crate::chain_state::ChainState;
use crate::crypto::hash::H256;
use crate::crypto::merkle::merkle_root;
use crate::network::message::Message;
use crate::network::message::MessageView;
use crate::network::message::optional_view;
use crate::transaction::content_view;
use crate::transaction::generate_random_signedtrans;
use crate::transaction::SignedTrans;

verus! {

/// The candidate that a miner puts together on a parent, for a target, from
/// a content, a timestamp and a nonce.
pub open spec fn candidate_spec(
    parent: Seq<u8>,
    difficulty: Seq<u8>,
    content: Seq<crate::transaction::SignedTransView>,
    timestamp: u128,
    nonce: u32,
) -> BlockView {
    BlockView {
        header: HeaderView {
            parent,
            nonce,
            difficulty,
            timestamp,
            merkle_root: merkle_root(content_digests(content)),
        },
        content,
    }
}

/// Whether a candidate is committed: it has its proof of work, and the
/// store knows its parent.
pub open spec fn commits(chain: ChainState, candidate: BlockView) -> bool {
    candidate.meets_target() && chain.knows(candidate.header.parent)
}

/// The store after a candidate was tried on it.
pub open spec fn after_attempt(chain: ChainState, candidate: BlockView) -> ChainState {
    if commits(chain, candidate) {
        chain.insert(candidate)
    } else {
        chain
    }
}

/// What is announced after a candidate was tried.
pub open spec fn announcement(chain: ChainState, candidate: BlockView) -> Option<MessageView> {
    if commits(chain, candidate) {
        Some(MessageView::NewBlockHashes(seq![candidate.hash()]))
    } else {
        None
    }
}

/// A mining attempt keeps the store consistent and
/// proof of work throughout.
pub proof fn lemma_attempt_proven(chain: ChainState, candidate: BlockView)
    requires
        chain.consistent(),
        chain.proven(),
    ensures
        after_attempt(chain, candidate).consistent(),
        after_attempt(chain, candidate).proven(),
{
    if commits(chain, candidate) {
        chain.lemma_insert_consistent(candidate);
        chain.lemma_insert_proven(candidate);
    }
}

/// A candidate on the tip that is committed becomes the tip.
pub proof fn lemma_committed_candidate_is_tip(chain: ChainState, candidate: BlockView)
    requires
        chain.consistent(),
        candidate.header.parent == chain.tip,
        candidate.meets_target(),
        !chain.knows(candidate.hash()),
    ensures
        after_attempt(chain, candidate).tip == candidate.hash(),
        after_attempt(chain, candidate).height == chain.height + 1,
        after_attempt(chain, candidate).on_chain == chain.on_chain.push(candidate.hash()),
{
    chain.lemma_tip_is_longest();
    chain.lemma_insert_on_tip(candidate);
}

/// What a candidate is built on: the tip and the target that the tip
/// declares.
pub fn template(chain: &Blockchain) -> (r: (H256, H256))
    requires
        chain.wf(),
    ensures
        r.0@ == chain@.tip,
        r.1@ == chain@.block(chain@.tip).header.difficulty,
{
    (chain.tip(), chain.get_difficulty())
}

/// Puts a candidate together.
pub fn candidate(
    parent: H256,
    difficulty: H256,
    content: Vec<SignedTrans>,
    timestamp: u128,
    nonce: u32,
) -> (b: Block)
    requires
        forall|i: int| 0 <= i < content.len() ==> (#[trigger] content[i]).hashable(),
    ensures
        b@ == candidate_spec(parent@, difficulty@, content_view(content@), timestamp, nonce),
{
    let root = content_root(&content);
    Block::new(parent, nonce, difficulty, timestamp, root, content)
}

/// Tries a candidate on the store: with its proof of work and a known
/// parent it is inserted and its identity is to be announced to every
/// peer; otherwise it is discarded and the store stays as it is.
pub fn attempt(chain: &mut Blockchain, block: &Block) -> (announce: Option<Message>)
    requires
        old(chain).wf(),
        old(chain)@.height < u32::MAX,
    ensures
        final(chain).wf(),
        final(chain)@ == after_attempt(old(chain)@, block@),
        optional_view(announce) == announcement(old(chain)@, block@),
{
    let hash = block.hash();
    if !hash.le(&block.header.difficulty) {
        return None;
    }
    if !chain.contain(block.header.parent) {
        return None;
    }
    proof {
        chain.lemma_wf_consistent();
        assert(chain@.height_of(block@.header.parent) <= chain@.height);
    }
    chain.insert(block);
    let mut hashes: Vec<H256> = Vec::new();
    hashes.push(hash);
    assert(crate::crypto::merkle::digests_view(hashes@) =~= seq![block@.hash()]);
    Some(Message::NewBlockHashes(hashes))
}

/// What a fresh candidate is: it stands on the parent, declares the
/// target, and commits to a content of one validly signed transaction.
pub open spec fn is_fresh_candidate(b: BlockView, parent: Seq<u8>, difficulty: Seq<u8>) -> bool {
    &&& b == candidate_spec(parent, difficulty, b.content, b.header.timestamp, b.header.nonce)
    &&& b.content.len() == 1
    &&& b.content[0].signature_valid()
}

/// A candidate of the miner's own making: its content one transaction
/// drawn at random and signed with a fresh key, its timestamp the current
/// time, its nonce drawn at random.
pub fn fresh_candidate(parent: H256, difficulty: H256) -> (b: Block)
    ensures
        is_fresh_candidate(b@, parent@, difficulty@),
{
    let mut content: Vec<SignedTrans> = Vec::new();
    content.push(generate_random_signedtrans());
    candidate(parent, difficulty, content, now_millis(), random_u32())
}

/// One round of mining on the store as it stands: a fresh candidate on
/// the tip with the tip's target, tried at once. Whatever was drawn, the
/// store afterwards is the store before or the store with that candidate
/// inserted, and then the candidate has its proof of work and is
/// announced.
pub fn mine_once(chain: &mut Blockchain) -> (announce: Option<Message>)
    requires
        old(chain).wf(),
        old(chain)@.height < u32::MAX,
    ensures
        final(chain).wf(),
        exists|b: BlockView|
            {
                &&& #[trigger] is_fresh_candidate(
                    b,
                    old(chain)@.tip,
                    old(chain)@.block(old(chain)@.tip).header.difficulty,
                )
                &&& final(chain)@ == after_attempt(old(chain)@, b)
                &&& optional_view(announce) == announcement(old(chain)@, b)
            },
{
    let (parent, difficulty) = template(chain);
    let block = fresh_candidate(parent, difficulty);
    attempt(chain, &block)
}

} // verus!
