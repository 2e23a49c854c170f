//! The gossip worker: what a node answers to each message, and how
//! delivered blocks pass duplicate check, proof of work and parent check
//! into the chain store, waiting in an orphan buffer while their parent is
//! missing.

use vstd::prelude::*;
use crate::block::Block;
use crate::block::BlockView;
use crate::blockchain::Blockchain;
use crate::chain_state::ChainState;
use crate::crypto::hash::H256;
use crate::crypto::merkle::digests_view;
use crate::digest_map::DigestMap;
use crate::network::frame::decode;
use crate::network::frame::message_of;
use crate::network::message::blocks_view;
use crate::network::message::decimal;
use crate::network::message::decimal_string;
use crate::network::message::messages_view;
use crate::network::message::optional_view;
use crate::network::message::Message;
use crate::network::message::MessageView;

verus! {

/// Where the handling of a batch of delivered blocks stands.
pub struct Progress {
    /// The chain store.
    pub chain: ChainState,
    /// Blocks that wait for their parent, each under the parent's identity.
    pub orphans: Map<Seq<u8>, BlockView>,
    /// Identities of the blocks admitted so far, in order.
    pub announced: Seq<Seq<u8>>,
    /// Identities of the parents found missing so far, in order.
    pub requested: Seq<Seq<u8>>,
}

/// What handling one message comes to.
pub struct Outcome {
    /// The chain store afterwards.
    pub chain: ChainState,
    /// The orphan buffer afterwards.
    pub orphans: Map<Seq<u8>, BlockView>,
    /// What goes back to the peer that sent the message, in order.
    pub reply: Seq<MessageView>,
    /// What goes out to every peer.
    pub to_all: Option<MessageView>,
}

impl Progress {
    /// Admits the orphans that wait for `last`, each in turn making way for
    /// the one that waits for it: the child leaves the buffer, enters the
    /// store and is announced, and the search goes on with the child.
    pub open spec fn drain(self, last: Seq<u8>) -> Progress
        decreases self.orphans.dom().len(),
        when self.orphans.dom().finite()
    {
        if self.orphans.contains_key(last) {
            let child = self.orphans[last];
            (Progress {
                chain: self.chain.insert(child),
                orphans: self.orphans.remove(last),
                announced: self.announced.push(child.hash()),
                requested: self.requested,
            }).drain(child.hash())
        } else {
            self
        }
    }

    /// Takes one delivered block through the checks, in this order: a
    /// block that the store knows is skipped; a block without proof of work
    /// is dropped; a block whose parent the store does not know waits in the
    /// buffer under the parent's identity, and the parent is asked for; any
    /// other block enters the store, is announced, and draws in the orphans
    /// that waited for it.
    pub open spec fn receive(self, b: BlockView) -> Progress {
        if self.chain.knows(b.hash()) {
            self
        } else if !b.meets_target() {
            self
        } else if !self.chain.knows(b.header.parent) {
            Progress {
                orphans: self.orphans.insert(b.header.parent, b),
                requested: self.requested.push(b.header.parent),
                ..self
            }
        } else {
            (Progress {
                chain: self.chain.insert(b),
                announced: self.announced.push(b.hash()),
                ..self
            }).drain(b.hash())
        }
    }

    /// Takes a batch of delivered blocks through the checks, one after the
    /// other.
    pub open spec fn receive_all(self, bs: Seq<BlockView>) -> Progress
        decreases bs.len(),
    {
        if bs.len() == 0 {
            self
        } else {
            self.receive_all(bs.drop_last()).receive(bs.last())
        }
    }
}

/// The test for an identity that the store does not know.
pub open spec fn is_unknown(chain: ChainState) -> spec_fn(Seq<u8>) -> bool {
    |h: Seq<u8>| !chain.knows(h)
}

/// The test for an identity that the store knows.
pub open spec fn is_known(chain: ChainState) -> spec_fn(Seq<u8>) -> bool {
    |h: Seq<u8>| chain.knows(h)
}

/// The identities among `hashes` that the store does not know, in order.
pub open spec fn unknown_of(chain: ChainState, hashes: Seq<Seq<u8>>) -> Seq<Seq<u8>> {
    hashes.filter(is_unknown(chain))
}

/// The blocks that the store knows among those asked for, in order.
pub open spec fn known_blocks(chain: ChainState, hashes: Seq<Seq<u8>>) -> Seq<BlockView> {
    hashes.filter(is_known(chain)).map_values(|h: Seq<u8>| chain.block(h))
}

/// One request for each missing parent.
pub open spec fn parent_requests(parents: Seq<Seq<u8>>) -> Seq<MessageView> {
    parents.map_values(|p: Seq<u8>| MessageView::GetBlocks(seq![p]))
}

/// What a node with this store and this orphan buffer does on a message.
pub open spec fn respond(
    chain: ChainState,
    orphans: Map<Seq<u8>, BlockView>,
    msg: MessageView,
) -> Outcome {
    match msg {
        MessageView::Ping(nonce) => Outcome {
            chain,
            orphans,
            reply: seq![MessageView::Pong(decimal(nonce as nat))],
            to_all: None,
        },
        MessageView::NewBlockHashes(hashes) => Outcome {
            chain,
            orphans,
            reply: if unknown_of(chain, hashes).len() > 0 {
                seq![MessageView::GetBlocks(unknown_of(chain, hashes))]
            } else {
                seq![]
            },
            to_all: None,
        },
        MessageView::GetBlocks(hashes) => Outcome {
            chain,
            orphans,
            reply: if known_blocks(chain, hashes).len() > 0 {
                seq![MessageView::Blocks(known_blocks(chain, hashes))]
            } else {
                seq![]
            },
            to_all: None,
        },
        MessageView::Blocks(blocks) => {
            let done = (Progress { chain, orphans, announced: seq![], requested: seq![] }).receive_all(
                blocks,
            );
            Outcome {
                chain: done.chain,
                orphans: done.orphans,
                reply: parent_requests(done.requested),
                to_all: if done.announced.len() > 0 {
                    Some(MessageView::NewBlockHashes(done.announced))
                } else {
                    None
                },
            }
        },
        _ => Outcome { chain, orphans, reply: seq![], to_all: None },
    }
}

/// What holds of every orphan buffer: each block stands under the parent
/// it names, and has its proof of work.
pub open spec fn orphans_sound(orphans: Map<Seq<u8>, BlockView>) -> bool {
    &&& orphans.dom().finite()
    &&& forall|k: Seq<u8>| #[trigger]
        orphans.contains_key(k) ==> orphans[k].header.parent == k && orphans[k].meets_target()
}

/// Draining keeps the store consistent, proof of work throughout, and the
/// buffer sound.
pub proof fn lemma_drain_proven(p: Progress, last: Seq<u8>)
    requires
        p.chain.consistent(),
        p.chain.proven(),
        orphans_sound(p.orphans),
    ensures
        p.drain(last).chain.consistent(),
        p.drain(last).chain.proven(),
        orphans_sound(p.drain(last).orphans),
    decreases p.orphans.dom().len(),
{
    if p.orphans.contains_key(last) {
        let child = p.orphans[last];
        p.chain.lemma_insert_consistent(child);
        p.chain.lemma_insert_proven(child);
        let next = Progress {
            chain: p.chain.insert(child),
            orphans: p.orphans.remove(last),
            announced: p.announced.push(child.hash()),
            requested: p.requested,
        };
        assert forall|k: Seq<u8>| #[trigger] next.orphans.contains_key(k) implies next.orphans[k].header.parent
            == k && next.orphans[k].meets_target() by {
            assert(p.orphans.contains_key(k));
        }
        lemma_drain_proven(next, child.hash());
    }
}

/// Taking a delivered block through the checks keeps
/// the store consistent and proof of work throughout, and the buffer sound.
/// No block without its proof of work gets into the store this way.
pub proof fn lemma_receive_proven(p: Progress, b: BlockView)
    requires
        p.chain.consistent(),
        p.chain.proven(),
        orphans_sound(p.orphans),
    ensures
        p.receive(b).chain.consistent(),
        p.receive(b).chain.proven(),
        orphans_sound(p.receive(b).orphans),
{
    if p.chain.knows(b.hash()) || !b.meets_target() {
    } else if !p.chain.knows(b.header.parent) {
        let held = p.orphans.insert(b.header.parent, b);
        assert forall|k: Seq<u8>| #[trigger] held.contains_key(k) implies held[k].header.parent == k
            && held[k].meets_target() by {
            if k != b.header.parent {
                assert(p.orphans.contains_key(k));
            }
        }
    } else {
        p.chain.lemma_insert_consistent(b);
        p.chain.lemma_insert_proven(b);
        lemma_drain_proven(
            Progress { chain: p.chain.insert(b), announced: p.announced.push(b.hash()), ..p },
            b.hash(),
        );
    }
}

/// A whole batch keeps the store consistent, proof of work throughout,
/// and the buffer sound.
pub proof fn lemma_receive_all_proven(p: Progress, bs: Seq<BlockView>)
    requires
        p.chain.consistent(),
        p.chain.proven(),
        orphans_sound(p.orphans),
    ensures
        p.receive_all(bs).chain.consistent(),
        p.receive_all(bs).chain.proven(),
        orphans_sound(p.receive_all(bs).orphans),
    decreases bs.len(),
{
    if bs.len() > 0 {
        lemma_receive_all_proven(p, bs.drop_last());
        lemma_receive_proven(p.receive_all(bs.drop_last()), bs.last());
    }
}

/// Whatever a peer sends, the store stays consistent and keeps proof of
/// work throughout.
pub proof fn lemma_respond_proven(
    chain: ChainState,
    orphans: Map<Seq<u8>, BlockView>,
    msg: MessageView,
)
    requires
        chain.consistent(),
        chain.proven(),
        orphans_sound(orphans),
    ensures
        respond(chain, orphans, msg).chain.consistent(),
        respond(chain, orphans, msg).chain.proven(),
        orphans_sound(respond(chain, orphans, msg).orphans),
{
    match msg {
        MessageView::Blocks(blocks) => {
            lemma_receive_all_proven(
                Progress { chain, orphans, announced: seq![], requested: seq![] },
                blocks,
            );
        },
        _ => {},
    }
}

/// Draining forgets nothing: what the store knew it knows afterwards, as
/// the same block at the same height.
pub proof fn lemma_drain_keeps(p: Progress, last: Seq<u8>, h: Seq<u8>)
    requires
        p.chain.knows(h),
        p.orphans.dom().finite(),
    ensures
        p.drain(last).chain.knows(h),
        p.drain(last).chain.blocks[h] == p.chain.blocks[h],
    decreases p.orphans.dom().len(),
{
    if p.orphans.contains_key(last) {
        let child = p.orphans[last];
        p.chain.lemma_insert_keeps(child, h);
        lemma_drain_keeps(
            Progress {
                chain: p.chain.insert(child),
                orphans: p.orphans.remove(last),
                announced: p.announced.push(child.hash()),
                requested: p.requested,
            },
            child.hash(),
            h,
        );
    }
}

/// A batch of delivered blocks forgets nothing, and leaves finitely many
/// blocks waiting.
pub proof fn lemma_receive_all_keeps(p: Progress, bs: Seq<BlockView>, h: Seq<u8>)
    requires
        p.chain.knows(h),
        p.orphans.dom().finite(),
    ensures
        p.receive_all(bs).chain.knows(h),
        p.receive_all(bs).chain.blocks[h] == p.chain.blocks[h],
        p.receive_all(bs).orphans.dom().finite(),
    decreases bs.len(),
{
    if bs.len() > 0 {
        lemma_receive_all_keeps(p, bs.drop_last(), h);
        let before = p.receive_all(bs.drop_last());
        let b = bs.last();
        if !before.chain.knows(b.hash()) && b.meets_target() && before.chain.knows(b.header.parent) {
            before.chain.lemma_insert_keeps(b, h);
            let grafted = Progress {
                chain: before.chain.insert(b),
                announced: before.announced.push(b.hash()),
                ..before
            };
            lemma_drain_keeps(grafted, b.hash(), h);
            lemma_drain_finite(grafted, b.hash());
        }
    }
}

/// Draining leaves finitely many blocks waiting.
pub proof fn lemma_drain_finite(p: Progress, last: Seq<u8>)
    requires
        p.orphans.dom().finite(),
    ensures
        p.drain(last).orphans.dom().finite(),
    decreases p.orphans.dom().len(),
{
    if p.orphans.contains_key(last) {
        let child = p.orphans[last];
        lemma_drain_finite(
            Progress {
                chain: p.chain.insert(child),
                orphans: p.orphans.remove(last),
                announced: p.announced.push(child.hash()),
                requested: p.requested,
            },
            child.hash(),
        );
    }
}

/// Blocks are never removed: whatever a peer sends, what the store knew it
/// knows afterwards, as the same block at the same height.
pub proof fn lemma_respond_keeps(
    chain: ChainState,
    orphans: Map<Seq<u8>, BlockView>,
    msg: MessageView,
    h: Seq<u8>,
)
    requires
        chain.knows(h),
        orphans.dom().finite(),
    ensures
        respond(chain, orphans, msg).chain.knows(h),
        respond(chain, orphans, msg).chain.blocks[h] == chain.blocks[h],
{
    match msg {
        MessageView::Blocks(blocks) => {
            lemma_receive_all_keeps(
                Progress { chain, orphans, announced: seq![], requested: seq![] },
                blocks,
                h,
            );
        },
        _ => {},
    }
}

/// Only delivered blocks change anything: every other message leaves the
/// store and the buffer as they are.
pub proof fn lemma_only_blocks_change_state(
    chain: ChainState,
    orphans: Map<Seq<u8>, BlockView>,
    msg: MessageView,
)
    requires
        !(msg is Blocks),
    ensures
        respond(chain, orphans, msg).chain == chain,
        respond(chain, orphans, msg).orphans == orphans,
        respond(chain, orphans, msg).to_all is None,
{
}

/// How many blocks a message delivers.
pub open spec fn delivered(msg: MessageView) -> nat {
    match msg {
        MessageView::Blocks(blocks) => blocks.len(),
        _ => 0,
    }
}

/// Whether 32-bit heights can count the chain however the message turns
/// out: each delivered block and each waiting orphan may lift the tip by
/// one.
pub open spec fn heights_suffice(
    chain: ChainState,
    orphans: Map<Seq<u8>, BlockView>,
    msg: MessageView,
) -> bool {
    chain.height + orphans.dom().len() + delivered(msg) < u32::MAX
}

/// The state that one gossip worker keeps between messages: its orphan
/// buffer.
pub struct Worker {
    orphans: DigestMap<Block>,
}

/// What the node is to send after a message was handled.
#[derive(Debug)]
pub struct Response {
    /// To the peer that the message came from, in this order.
    pub reply: Vec<Message>,
    /// To every peer.
    pub to_all: Option<Message>,
}

/// What handling a frame came to.
#[derive(Debug)]
pub enum Handled {
    /// The frame held a message, and this is what is to be sent.
    Answered(Response),
    /// The frame was malformed and was dropped.
    Malformed,
    /// The message was left alone, because 32-bit heights might not
    /// suffice to count the chain after it.
    HeightsExhausted,
}

impl View for Worker {
    type V = Map<Seq<u8>, BlockView>;

    closed spec fn view(&self) -> Map<Seq<u8>, BlockView> {
        self.orphans@.map_values(|b: Block| b@)
    }
}

/// One identity more: it is asked for if the store does not know it.
proof fn lemma_unknown_push(chain: ChainState, hashes: Seq<Seq<u8>>, h: Seq<u8>)
    ensures
        unknown_of(chain, hashes.push(h)) == if chain.knows(h) {
            unknown_of(chain, hashes)
        } else {
            unknown_of(chain, hashes).push(h)
        },
{
    reveal(Seq::filter);
    assert(hashes.push(h).drop_last() =~= hashes);
}

/// One identity more: its block is delivered if the store knows it.
proof fn lemma_known_push(chain: ChainState, hashes: Seq<Seq<u8>>, h: Seq<u8>)
    ensures
        known_blocks(chain, hashes.push(h)) == if chain.knows(h) {
            known_blocks(chain, hashes).push(chain.block(h))
        } else {
            known_blocks(chain, hashes)
        },
{
    reveal(Seq::filter);
    assert(hashes.push(h).drop_last() =~= hashes);
    if chain.knows(h) {
        assert(known_blocks(chain, hashes.push(h)) =~= known_blocks(chain, hashes).push(
            chain.block(h),
        ));
    }
}

impl Worker {
    /// What holds of every worker: its orphan buffer is sound.
    pub closed spec fn wf(&self) -> bool {
        &&& self.orphans.wf()
        &&& orphans_sound(self@)
    }

    /// The orphan buffer of a well-formed worker is sound.
    pub proof fn lemma_wf_sound(&self)
        requires
            self.wf(),
        ensures
            orphans_sound(self@),
    {
    }

    /// Where the handling of a batch stands, from what the worker holds.
    spec fn progress(&self, chain: &Blockchain, announced: &Vec<H256>, requested: &Vec<H256>) -> Progress {
        Progress {
            chain: chain@,
            orphans: self@,
            announced: digests_view(announced@),
            requested: digests_view(requested@),
        }
    }

    /// A worker with an empty orphan buffer.
    pub fn new() -> (w: Worker)
        ensures
            w.wf(),
            w@ == Map::<Seq<u8>, BlockView>::empty(),
    {
        let w = Worker { orphans: DigestMap::new() };
        assert(w@ =~= Map::<Seq<u8>, BlockView>::empty());
        w
    }

    /// How many blocks wait for their parent.
    pub fn orphan_count(&self) -> (n: usize)
        requires
            self.wf(),
        ensures
            n == self@.dom().len(),
    {
        assert(self@.dom() =~= self.orphans@.dom());
        self.orphans.len()
    }

    /// The block that waits for the parent of this identity.
    pub fn orphan_of(&self, parent: &H256) -> (r: Option<Block>)
        requires
            self.wf(),
        ensures
            r is Some == self@.contains_key(parent@),
            r is Some ==> r->0@ == self@[parent@],
    {
        match self.orphans.get(parent) {
            Some(b) => Some(b.clone()),
            None => None,
        }
    }

    /// Admits the orphans that wait for `last` and for each other.
    fn drain(
        &mut self,
        chain: &mut Blockchain,
        last: H256,
        announced: &mut Vec<H256>,
        requested: &Vec<H256>,
    )
        requires
            old(self).wf(),
            old(chain).wf(),
            old(chain)@.knows(last@),
            old(chain)@.height + old(self)@.dom().len() < u32::MAX,
        ensures
            final(self).wf(),
            final(chain).wf(),
            final(self).progress(final(chain), final(announced), requested) == old(self).progress(
                old(chain),
                old(announced),
                requested,
            ).drain(last@),
            final(chain)@.height + final(self)@.dom().len() <= old(chain)@.height + old(
                self,
            )@.dom().len(),
    {
        let ghost goal = self.progress(chain, announced, requested).drain(last@);
        let mut last = last;
        loop
            invariant
                self.wf(),
                chain.wf(),
                chain@.knows(last@),
                chain@.height + self@.dom().len() <= old(chain)@.height + old(self)@.dom().len(),
                old(chain)@.height + old(self)@.dom().len() < u32::MAX,
                self.progress(chain, announced, requested).drain(last@) == goal,
            ensures
                self.wf(),
                chain.wf(),
                chain@.height + self@.dom().len() <= old(chain)@.height + old(self)@.dom().len(),
                self.progress(chain, announced, requested) == goal,
            decreases self@.dom().len(),
        {
            let ghost before = self.progress(chain, announced, requested);
            proof {
                self.orphans.lemma_finite();
                assert(self@.dom() =~= self.orphans@.dom());
                chain.lemma_wf_consistent();
            }
            match self.orphans.remove(&last) {
                Some(child) => {
                    proof {
                        assert(before.orphans.contains_key(last@));
                        assert(child@ == before.orphans[last@]);
                        assert(self@ =~= before.orphans.remove(last@));
                        chain@.lemma_insert_height(child@);
                        chain@.lemma_insert_consistent(child@);
                    }
                    chain.insert(&child);
                    let hash = child.hash();
                    announced.push(hash);
                    proof {
                        assert(digests_view(announced@) =~= before.announced.push(child@.hash()));
                        assert(chain@.knows(hash@)) by {
                            if before.chain.admits(child@) {
                                assert(before.chain.insert(child@).blocks.contains_key(child@.hash()));
                            }
                        }
                    }
                    last = hash;
                },
                None => {
                    proof {
                        assert(self@ =~= before.orphans);
                        assert(!before.orphans.contains_key(last@));
                    }
                    break ;
                },
            }
        }
    }

    /// Takes one delivered block through the checks.
    fn receive(
        &mut self,
        chain: &mut Blockchain,
        block: &Block,
        announced: &mut Vec<H256>,
        requested: &mut Vec<H256>,
    )
        requires
            old(self).wf(),
            old(chain).wf(),
            old(chain)@.height + old(self)@.dom().len() + 1 < u32::MAX,
        ensures
            final(self).wf(),
            final(chain).wf(),
            final(self).progress(final(chain), final(announced), final(requested)) == old(
                self,
            ).progress(old(chain), old(announced), old(requested)).receive(block@),
            final(chain)@.height + final(self)@.dom().len() <= old(chain)@.height + old(
                self,
            )@.dom().len() + 1,
    {
        let ghost before = self.progress(chain, announced, requested);
        proof {
            self.orphans.lemma_finite();
            assert(self@.dom() =~= self.orphans@.dom());
            chain.lemma_wf_consistent();
        }
        let hash = block.hash();
        if chain.contain(hash) {
            return ;
        }
        if !hash.le(&block.header.difficulty) {
            return ;
        }
        if !chain.contain(block.header.parent) {
            self.orphans.insert(block.header.parent, block.clone());
            requested.push(block.header.parent);
            proof {
                assert(self@ =~= before.orphans.insert(block@.header.parent, block@));
                assert(digests_view(requested@) =~= before.requested.push(block@.header.parent));
                assert(self@.dom() =~= before.orphans.dom().insert(block@.header.parent));
            }
            return ;
        }
        proof {
            chain@.lemma_insert_height(block@);
            assert(chain@.height_of(block@.header.parent) <= chain@.height);
        }
        chain.insert(block);
        announced.push(hash);
        proof {
            assert(digests_view(announced@) =~= before.announced.push(block@.hash()));
            assert(chain@.knows(hash@));
        }
        self.drain(chain, hash, announced, requested);
    }

    /// Handles one message: changes the chain store and the orphan buffer
    /// as the protocol says, and tells what is to be sent.
    pub fn handle(&mut self, chain: &mut Blockchain, msg: &Message) -> (response: Response)
        requires
            old(self).wf(),
            old(chain).wf(),
            heights_suffice(old(chain)@, old(self)@, msg@),
        ensures
            final(self).wf(),
            final(chain).wf(),
            final(chain)@ == respond(old(chain)@, old(self)@, msg@).chain,
            final(self)@ == respond(old(chain)@, old(self)@, msg@).orphans,
            messages_view(response.reply@) == respond(old(chain)@, old(self)@, msg@).reply,
            optional_view(response.to_all) == respond(old(chain)@, old(self)@, msg@).to_all,
    {
        let mut reply: Vec<Message> = Vec::new();
        match msg {
            Message::Ping(nonce) => {
                reply.push(Message::Pong(decimal_string(*nonce)));
                assert(messages_view(reply@) =~= seq![MessageView::Pong(decimal(*nonce as nat))]);
                Response { reply, to_all: None }
            },
            Message::NewBlockHashes(hashes) => {
                let wanted = unknown_hashes(chain, hashes);
                if wanted.len() > 0 {
                    reply.push(Message::GetBlocks(wanted));
                    assert(messages_view(reply@) =~= seq![
                        MessageView::GetBlocks(unknown_of(chain@, digests_view(hashes@))),
                    ]);
                } else {
                    assert(messages_view(reply@) =~= Seq::<MessageView>::empty());
                }
                Response { reply, to_all: None }
            },
            Message::GetBlocks(hashes) => {
                let found = blocks_known(chain, hashes);
                if found.len() > 0 {
                    reply.push(Message::Blocks(found));
                    assert(messages_view(reply@) =~= seq![
                        MessageView::Blocks(known_blocks(chain@, digests_view(hashes@))),
                    ]);
                } else {
                    assert(messages_view(reply@) =~= Seq::<MessageView>::empty());
                }
                Response { reply, to_all: None }
            },
            Message::Blocks(blocks) => {
                let mut announced: Vec<H256> = Vec::new();
                let mut requested: Vec<H256> = Vec::new();
                let ghost start = self.progress(chain, &announced, &requested);
                let ghost all = blocks_view(blocks@);
                proof {
                    self.orphans.lemma_finite();
                    assert(self@.dom() =~= self.orphans@.dom());
                    assert(start.announced =~= Seq::<Seq<u8>>::empty());
                    assert(start.requested =~= Seq::<Seq<u8>>::empty());
                    assert(all.subrange(0, 0) =~= Seq::<BlockView>::empty());
                }
                let mut i: usize = 0;
                while i < blocks.len()
                    invariant
                        i <= blocks.len(),
                        self.wf(),
                        chain.wf(),
                        all == blocks_view(blocks@),
                        chain@.height + self@.dom().len() + (blocks.len() - i) < u32::MAX,
                        self.progress(chain, &announced, &requested) == start.receive_all(
                            all.subrange(0, i as int),
                        ),
                    decreases blocks.len() - i,
                {
                    self.receive(chain, &blocks[i], &mut announced, &mut requested);
                    proof {
                        assert(all.subrange(0, i + 1).drop_last() =~= all.subrange(0, i as int));
                        assert(all.subrange(0, i + 1).last() == blocks[i as int]@);
                    }
                    i += 1;
                }
                assert(all.subrange(0, i as int) =~= all);
                let mut j: usize = 0;
                while j < requested.len()
                    invariant
                        j <= requested.len(),
                        messages_view(reply@) == parent_requests(
                            digests_view(requested@).subrange(0, j as int),
                        ),
                    decreases requested.len() - j,
                {
                    let ghost sent = messages_view(reply@);
                    let ghost asked = digests_view(requested@);
                    let mut parent: Vec<H256> = Vec::new();
                    parent.push(requested[j]);
                    assert(digests_view(parent@) =~= seq![asked[j as int]]);
                    let request = Message::GetBlocks(parent);
                    assert(request@ == MessageView::GetBlocks(seq![asked[j as int]]));
                    reply.push(request);
                    j += 1;
                    proof {
                        assert(messages_view(reply@) =~= sent.push(request@));
                        assert(asked.subrange(0, j as int) =~= asked.subrange(0, j - 1).push(
                            asked[j - 1],
                        ));
                        assert(parent_requests(asked.subrange(0, j as int)) =~= parent_requests(
                            asked.subrange(0, j - 1),
                        ).push(request@));
                    }
                }
                assert(digests_view(requested@).subrange(0, j as int) =~= digests_view(requested@));
                let to_all = if announced.len() > 0 {
                    Some(Message::NewBlockHashes(announced))
                } else {
                    None
                };
                Response { reply, to_all }
            },
            _ => {
                assert(messages_view(reply@) =~= Seq::<MessageView>::empty());
                Response { reply, to_all: None }
            },
        }
    }
}

impl Worker {
    /// Tests `heights_suffice`.
    pub fn heights_suffice(&self, chain: &Blockchain, msg: &Message) -> (r: bool)
        requires
            self.wf(),
        ensures
            r == heights_suffice(chain@, self@, msg@),
    {
        let delivered: u128 = match msg {
            Message::Blocks(blocks) => blocks.len() as u128,
            _ => 0,
        };
        chain.get_length() as u128 + self.orphan_count() as u128 + delivered < u32::MAX as u128
    }

    /// Handles one frame: a malformed frame is dropped, a message that
    /// might take the chain past what 32-bit heights can count is left
    /// alone, and any other message is handled as `handle` says.
    pub fn handle_frame(&mut self, chain: &mut Blockchain, frame: &[u8]) -> (handled: Handled)
        requires
            old(self).wf(),
            old(chain).wf(),
        ensures
            final(self).wf(),
            final(chain).wf(),
            match message_of(frame@) {
                None => handled is Malformed && final(chain)@ == old(chain)@ && final(self)@ == old(
                    self,
                )@,
                Some(m) => if heights_suffice(old(chain)@, old(self)@, m) {
                    &&& handled matches Handled::Answered(response)
                    &&& final(chain)@ == respond(old(chain)@, old(self)@, m).chain
                    &&& final(self)@ == respond(old(chain)@, old(self)@, m).orphans
                    &&& messages_view(response.reply@) == respond(old(chain)@, old(self)@, m).reply
                    &&& optional_view(response.to_all) == respond(
                        old(chain)@,
                        old(self)@,
                        m,
                    ).to_all
                } else {
                    handled is HeightsExhausted && final(chain)@ == old(chain)@ && final(self)@
                        == old(self)@
                },
            },
    {
        match decode(frame) {
            None => Handled::Malformed,
            Some(msg) => {
                if self.heights_suffice(chain, &msg) {
                    Handled::Answered(self.handle(chain, &msg))
                } else {
                    Handled::HeightsExhausted
                }
            },
        }
    }
}

/// The identities among `hashes` that the store does not know.
fn unknown_hashes(chain: &Blockchain, hashes: &Vec<H256>) -> (wanted: Vec<H256>)
    requires
        chain.wf(),
    ensures
        digests_view(wanted@) == unknown_of(chain@, digests_view(hashes@)),
{
    let ghost all = digests_view(hashes@);
    let mut wanted: Vec<H256> = Vec::new();
    let mut i: usize = 0;
    proof {
        reveal(Seq::filter);
        assert(all.subrange(0, 0) =~= Seq::<Seq<u8>>::empty());
        assert(digests_view(wanted@) =~= unknown_of(chain@, all.subrange(0, 0)));
    }
    while i < hashes.len()
        invariant
            i <= hashes.len(),
            chain.wf(),
            all == digests_view(hashes@),
            digests_view(wanted@) == unknown_of(chain@, all.subrange(0, i as int)),
        decreases hashes.len() - i,
    {
        let ghost before = digests_view(wanted@);
        proof {
            lemma_unknown_push(chain@, all.subrange(0, i as int), all[i as int]);
            assert(all.subrange(0, i as int).push(all[i as int]) =~= all.subrange(0, i + 1));
        }
        if !chain.contain(hashes[i]) {
            wanted.push(hashes[i]);
            assert(digests_view(wanted@) =~= before.push(all[i as int]));
        }
        i += 1;
    }
    assert(all.subrange(0, i as int) =~= all);
    wanted
}

/// The blocks that the store knows among those asked for.
fn blocks_known(chain: &Blockchain, hashes: &Vec<H256>) -> (found: Vec<Block>)
    requires
        chain.wf(),
    ensures
        blocks_view(found@) == known_blocks(chain@, digests_view(hashes@)),
{
    let ghost all = digests_view(hashes@);
    let mut found: Vec<Block> = Vec::new();
    let mut i: usize = 0;
    proof {
        reveal(Seq::filter);
        assert(all.subrange(0, 0) =~= Seq::<Seq<u8>>::empty());
        assert(blocks_view(found@) =~= known_blocks(chain@, all.subrange(0, 0)));
    }
    while i < hashes.len()
        invariant
            i <= hashes.len(),
            chain.wf(),
            all == digests_view(hashes@),
            blocks_view(found@) == known_blocks(chain@, all.subrange(0, i as int)),
        decreases hashes.len() - i,
    {
        let ghost before = blocks_view(found@);
        proof {
            lemma_known_push(chain@, all.subrange(0, i as int), all[i as int]);
            assert(all.subrange(0, i as int).push(all[i as int]) =~= all.subrange(0, i + 1));
        }
        match chain.get(&hashes[i]) {
            Some(block) => {
                found.push(block);
                assert(blocks_view(found@) =~= before.push(chain@.block(all[i as int])));
            },
            None => {},
        }
        i += 1;
    }
    assert(all.subrange(0, i as int) =~= all);
    found
}

} // verus!
