//! The chain store as a mathematical object: which blocks are known, at
//! what height, and which of them lie on the longest chain. The store's
//! operations are stated over this model and its laws are proved here.

use vstd::prelude::*;
use crate::block::BlockView;
use crate::crypto::hash::zeros;

verus! {

/// The state of a chain store. Blocks are keyed by their identity.
pub struct ChainState {
    /// Every known block with its height.
    pub blocks: Map<Seq<u8>, (BlockView, nat)>,
    /// The identities on the longest chain, genesis first, tip last.
    pub on_chain: Seq<Seq<u8>>,
    /// The identity of the block at the end of the longest chain.
    pub tip: Seq<u8>,
    /// The height of the tip.
    pub height: nat,
}

/// The store that knows one block, its genesis, and nothing else.
pub open spec fn initial(genesis: BlockView) -> ChainState {
    ChainState {
        blocks: map![genesis.hash() => (genesis, 0nat)],
        on_chain: seq![genesis.hash()],
        tip: genesis.hash(),
        height: 0,
    }
}

impl ChainState {
    /// Whether a block of this identity is known.
    pub open spec fn knows(self, h: Seq<u8>) -> bool {
        self.blocks.contains_key(h)
    }

    /// The known block of this identity.
    pub open spec fn block(self, h: Seq<u8>) -> BlockView {
        self.blocks[h].0
    }

    /// The height of the known block of this identity.
    pub open spec fn height_of(self, h: Seq<u8>) -> nat {
        self.blocks[h].1
    }

    /// The parent that the known block of this identity names.
    pub open spec fn parent_of(self, h: Seq<u8>) -> Seq<u8> {
        self.blocks[h].0.header.parent
    }

    /// The identity of the genesis block.
    pub open spec fn genesis(self) -> Seq<u8> {
        self.on_chain[0]
    }

    /// What holds of a store after every operation.
    pub open spec fn consistent(self) -> bool {
        &&& self.on_chain.len() == self.height + 1
        &&& self.tip == self.on_chain[self.height as int]
        &&& forall|k: int|
            0 <= k <= self.height ==> self.knows(#[trigger] self.on_chain[k]) && self.height_of(
                self.on_chain[k],
            ) == k
        &&& forall|k: int|
            1 <= k <= self.height ==> self.parent_of(#[trigger] self.on_chain[k])
                == self.on_chain[k - 1]
        &&& forall|h: Seq<u8>| #[trigger] self.knows(h) ==> self.block(h).hash() == h
        &&& forall|h: Seq<u8>| #[trigger] self.knows(h) ==> self.height_of(h) <= self.height
        &&& forall|h: Seq<u8>|
            #[trigger] self.knows(h) && h != self.genesis() ==> self.knows(self.parent_of(h))
                && self.height_of(h) == self.height_of(self.parent_of(h)) + 1
        &&& self.parent_of(self.genesis()) == zeros(32)
    }

    /// Proof of work throughout: every known block but genesis, which is
    /// not mined, has an identity that does not exceed the target it
    /// declares.
    pub open spec fn proven(self) -> bool {
        forall|h: Seq<u8>| #[trigger]
            self.knows(h) && h != self.genesis() ==> self.block(h).meets_target()
    }

    /// The chain that ends in `h`, found by following parents `n` times:
    /// for a known block at height `n`, its ancestors from genesis on, then
    /// the block itself.
    pub open spec fn path_to(self, h: Seq<u8>, n: nat) -> Seq<Seq<u8>>
        decreases n,
    {
        if n == 0 {
            seq![h]
        } else {
            self.path_to(self.parent_of(h), (n - 1) as nat).push(h)
        }
    }

    /// Whether `insert` admits the block: it is new and its parent is known.
    pub open spec fn admits(self, b: BlockView) -> bool {
        !self.knows(b.hash()) && self.knows(b.header.parent)
    }

    /// The store after `b` was offered to it. A block that is known already
    /// and a block whose parent is unknown leave it as it is. Any other
    /// block is recorded one above its parent; if that is higher than the
    /// tip, the block becomes the tip and the longest chain becomes the
    /// chain that ends in it. At equal height the old tip stays.
    pub open spec fn insert(self, b: BlockView) -> ChainState {
        if self.admits(b) {
            let h = b.hash();
            let height = self.height_of(b.header.parent) + 1;
            let blocks = self.blocks.insert(h, (b, height));
            if height > self.height {
                let grown = ChainState { blocks, ..self };
                ChainState { blocks, on_chain: grown.path_to(h, height), tip: h, height }
            } else {
                ChainState { blocks, ..self }
            }
        } else {
            self
        }
    }

    /// The store after each block of `bs` was offered to it in turn.
    pub open spec fn insert_all(self, bs: Seq<BlockView>) -> ChainState
        decreases bs.len(),
    {
        if bs.len() == 0 {
            self
        } else {
            self.insert_all(bs.drop_last()).insert(bs.last())
        }
    }

    /// A path has one entry per height, ends in the block it was asked for,
    /// and each entry is the parent of the next.
    pub proof fn lemma_path_shape(self, h: Seq<u8>, n: nat)
        ensures
            self.path_to(h, n).len() == n + 1,
            self.path_to(h, n)[n as int] == h,
            forall|k: int|
                0 <= k < n ==> #[trigger] self.path_to(h, n)[k] == self.parent_of(
                    self.path_to(h, n)[k + 1],
                ),
        decreases n,
    {
        if n > 0 {
            let rest = self.path_to(self.parent_of(h), (n - 1) as nat);
            self.lemma_path_shape(self.parent_of(h), (n - 1) as nat);
            assert forall|k: int| 0 <= k < n implies #[trigger] self.path_to(h, n)[k]
                == self.parent_of(self.path_to(h, n)[k + 1]) by {
                if k < n - 1 {
                    assert(rest[k] == self.parent_of(rest[k + 1]));
                }
            }
        }
    }

    /// In a store that is consistent, the path to a known block at
    /// its height runs through known blocks, the one at index `k` at height
    /// `k`, and starts at genesis.
    pub proof fn lemma_path_known(self, h: Seq<u8>, n: nat)
        requires
            self.consistent(),
            self.knows(h),
            self.height_of(h) == n,
        ensures
            self.path_to(h, n).len() == n + 1,
            forall|k: int|
                0 <= k <= n ==> self.knows(#[trigger] self.path_to(h, n)[k]) && self.height_of(
                    self.path_to(h, n)[k],
                ) == k,
            self.path_to(h, n)[0] == self.genesis(),
        decreases n,
    {
        self.lemma_path_shape(h, n);
        assert(self.knows(self.on_chain[0]));
        if n > 0 {
            let p = self.parent_of(h);
            assert(h != self.genesis());
            self.lemma_path_known(p, (n - 1) as nat);
            let rest = self.path_to(p, (n - 1) as nat);
            assert forall|k: int| 0 <= k <= n implies self.knows(#[trigger] self.path_to(h, n)[k])
                && self.height_of(self.path_to(h, n)[k]) == k by {
                if k < n {
                    assert(self.knows(rest[k]));
                }
            }
        } else {
            if h != self.genesis() {
                assert(self.knows(h));
                assert(self.height_of(h) == self.height_of(self.parent_of(h)) + 1);
            }
        }
    }

    /// The path to a block on the longest chain is the chain up to it.
    pub proof fn lemma_path_on_chain(self, k: nat)
        requires
            self.consistent(),
            k <= self.height,
        ensures
            self.path_to(self.on_chain[k as int], k) == self.on_chain.subrange(0, k as int + 1),
        decreases k,
    {
        if k > 0 {
            self.lemma_path_on_chain((k - 1) as nat);
            assert(self.parent_of(self.on_chain[k as int]) == self.on_chain[k - 1]);
            assert(self.on_chain.subrange(0, k as int).push(self.on_chain[k as int])
                =~= self.on_chain.subrange(0, k as int + 1));
        } else {
            assert(seq![self.on_chain[0]] =~= self.on_chain.subrange(0, 1));
        }
    }

    /// Recording a new block does not change the path to a block known
    /// before.
    pub proof fn lemma_path_frame(self, h: Seq<u8>, n: nat, fresh: Seq<u8>, entry: (BlockView, nat))
        requires
            self.consistent(),
            self.knows(h),
            self.height_of(h) == n,
            !self.knows(fresh),
        ensures
            (ChainState { blocks: self.blocks.insert(fresh, entry), ..self }).path_to(h, n)
                == self.path_to(h, n),
        decreases n,
    {
        if n > 0 {
            assert(self.knows(self.on_chain[0]));
            assert(h != self.genesis());
            self.lemma_path_frame(self.parent_of(h), (n - 1) as nat, fresh, entry);
        }
    }

    /// The chain that ends in a newly admitted block is the path to its
    /// parent followed by the block.
    pub proof fn lemma_path_of_admitted(self, b: BlockView)
        requires
            self.consistent(),
            self.admits(b),
        ensures
            ({
                let h = b.hash();
                let height = self.height_of(b.header.parent) + 1;
                let grown = ChainState {
                    blocks: self.blocks.insert(h, (b, height as nat)),
                    ..self
                };
                grown.path_to(h, height as nat) == self.path_to(
                    b.header.parent,
                    self.height_of(b.header.parent),
                ).push(h)
            }),
    {
        let h = b.hash();
        let p = b.header.parent;
        let height = self.height_of(p) + 1;
        self.lemma_path_frame(p, self.height_of(p), h, (b, height as nat));
    }

    /// A block on top of the tip lengthens the longest chain by itself.
    pub proof fn lemma_insert_on_tip(self, b: BlockView)
        requires
            self.consistent(),
            self.admits(b),
            b.header.parent == self.tip,
        ensures
            self.insert(b).on_chain == self.on_chain.push(b.hash()),
            self.insert(b).tip == b.hash(),
            self.insert(b).height == self.height + 1,
    {
        self.lemma_path_of_admitted(b);
        self.lemma_path_on_chain(self.height);
        assert(self.on_chain.subrange(0, self.height as int + 1) =~= self.on_chain);
    }

    /// `insert` lifts the tip by one height at most and never lowers it.
    pub proof fn lemma_insert_height(self, b: BlockView)
        requires
            self.consistent(),
        ensures
            self.height <= self.insert(b).height <= self.height + 1,
    {
        if self.admits(b) {
            assert(self.knows(b.header.parent));
            assert(self.height_of(b.header.parent) <= self.height);
        }
    }

    /// `insert` leaves genesis where it is.
    pub proof fn lemma_insert_genesis(self, b: BlockView)
        requires
            self.consistent(),
        ensures
            self.insert(b).genesis() == self.genesis(),
    {
        if self.admits(b) {
            let p = b.header.parent;
            if self.height_of(p) + 1 > self.height {
                self.lemma_path_of_admitted(b);
                self.lemma_path_known(p, self.height_of(p));
            }
        }
    }

    /// The tip is a known block, and no known block stands higher.
    pub proof fn lemma_tip_is_longest(self)
        requires
            self.consistent(),
        ensures
            self.knows(self.tip),
            self.height_of(self.tip) == self.height,
            forall|h: Seq<u8>| self.knows(h) ==> self.height_of(h) <= self.height_of(self.tip),
    {
        assert(self.knows(self.on_chain[self.height as int]));
        assert forall|h: Seq<u8>| self.knows(h) implies self.height_of(h) <= self.height_of(
            self.tip,
        ) by {
            assert(self.height_of(h) <= self.height);
        }
    }

    /// At equal height the first seen stays: a new block that does not
    /// stand higher than the tip is recorded, and tip and longest chain
    /// stay as they are.
    pub proof fn lemma_first_seen_stays(self, b: BlockView)
        requires
            self.consistent(),
            self.admits(b),
            self.height_of(b.header.parent) + 1 <= self.height,
        ensures
            self.insert(b).tip == self.tip,
            self.insert(b).height == self.height,
            self.insert(b).on_chain == self.on_chain,
            self.insert(b).knows(b.hash()),
            self.insert(b).height_of(b.hash()) == self.height_of(b.header.parent) + 1,
    {
    }

    /// The longest chain is a path: every block on it but genesis has its
    /// parent on it, one height below.
    pub proof fn lemma_on_chain_is_path(self, h: Seq<u8>)
        requires
            self.consistent(),
            self.on_chain.contains(h),
            h != self.genesis(),
        ensures
            self.knows(h),
            self.on_chain.contains(self.parent_of(h)),
            self.height_of(h) == self.height_of(self.parent_of(h)) + 1,
    {
        let k = choose|k: int| 0 <= k < self.on_chain.len() && self.on_chain[k] == h;
        assert(self.knows(self.on_chain[k]));
        assert(self.parent_of(self.on_chain[k]) == self.on_chain[k - 1]);
    }

    /// Offering a block twice is offering it once.
    pub proof fn lemma_insert_idempotent(self, b: BlockView)
        ensures
            self.insert(b).insert(b) == self.insert(b),
    {
    }

    /// A block whose parent is unknown leaves the store as it is.
    pub proof fn lemma_unknown_parent_changes_nothing(self, b: BlockView)
        requires
            !self.knows(b.header.parent),
        ensures
            self.insert(b) == self,
    {
    }

    /// Blocks are never removed: what was known stays known, as the same
    /// block at the same height.
    pub proof fn lemma_insert_keeps(self, b: BlockView, h: Seq<u8>)
        requires
            self.knows(h),
        ensures
            self.insert(b).knows(h),
            self.insert(b).blocks[h] == self.blocks[h],
    {
    }

    /// A block with its proof of work keeps proof of work throughout.
    pub proof fn lemma_insert_proven(self, b: BlockView)
        requires
            self.consistent(),
            self.proven(),
            b.meets_target(),
        ensures
            self.insert(b).proven(),
    {
        self.lemma_insert_genesis(b);
        let after = self.insert(b);
        assert forall|h: Seq<u8>| #[trigger] after.knows(h) && h != after.genesis() implies after.block(
            h,
        ).meets_target() by {
            if self.admits(b) && h == b.hash() {
            } else {
                assert(self.knows(h));
            }
        }
    }

    /// A store that starts consistent stays consistent, whatever blocks are
    /// offered to it and however many.
    pub proof fn lemma_insert_all_consistent(self, bs: Seq<BlockView>)
        requires
            self.consistent(),
        ensures
            self.insert_all(bs).consistent(),
            self.insert_all(bs).genesis() == self.genesis(),
        decreases bs.len(),
    {
        if bs.len() > 0 {
            self.lemma_insert_all_consistent(bs.drop_last());
            self.insert_all(bs.drop_last()).lemma_insert_consistent(bs.last());
            self.insert_all(bs.drop_last()).lemma_insert_genesis(bs.last());
        }
    }

    /// `insert` keeps the store consistent.
    pub proof fn lemma_insert_consistent(self, b: BlockView)
        requires
            self.consistent(),
        ensures
            self.insert(b).consistent(),
    {
        if self.admits(b) {
            let h = b.hash();
            let p = b.header.parent;
            let height = self.height_of(p) + 1;
            let after = self.insert(b);
            assert(self.knows(self.on_chain[0]));
            assert forall|x: Seq<u8>| #[trigger] after.knows(x) implies after.block(x).hash()
                == x by {
                if x != h {
                    assert(self.knows(x));
                }
            }
            if height > self.height {
                self.lemma_path_of_admitted(b);
                self.lemma_path_known(p, self.height_of(p));
                self.lemma_path_shape(p, self.height_of(p));
                let path = self.path_to(p, self.height_of(p));
                assert(after.on_chain == path.push(h));
                assert(self.knows(p));
                assert(self.height_of(p) <= self.height);
                assert forall|k: int| 0 <= k <= after.height implies after.knows(
                    #[trigger] after.on_chain[k],
                ) && after.height_of(after.on_chain[k]) == k by {
                    if k < height {
                        assert(self.knows(path[k]));
                    }
                }
                assert forall|k: int| 1 <= k <= after.height implies after.parent_of(
                    #[trigger] after.on_chain[k],
                ) == after.on_chain[k - 1] by {
                    if k < height {
                        assert(self.knows(path[k]));
                        assert(path[k - 1] == self.parent_of(path[k]));
                    }
                }
                assert forall|x: Seq<u8>| #[trigger] after.knows(x) implies after.height_of(x)
                    <= after.height by {
                    if x != h {
                        assert(self.knows(x));
                    }
                }
                assert(after.genesis() == self.genesis());
            } else {
                assert forall|k: int| 0 <= k <= after.height implies after.knows(
                    #[trigger] after.on_chain[k],
                ) && after.height_of(after.on_chain[k]) == k by {
                    assert(self.knows(self.on_chain[k]));
                }
                assert forall|k: int| 1 <= k <= after.height implies after.parent_of(
                    #[trigger] after.on_chain[k],
                ) == after.on_chain[k - 1] by {
                    assert(self.knows(self.on_chain[k]));
                }
                assert forall|x: Seq<u8>| #[trigger] after.knows(x) implies after.height_of(x)
                    <= after.height by {
                    if x != h {
                        assert(self.knows(x));
                    }
                }
            }
            assert forall|x: Seq<u8>| #[trigger]
                after.knows(x) && x != after.genesis() implies after.knows(after.parent_of(x))
                && after.height_of(x) == after.height_of(after.parent_of(x)) + 1 by {
                if x != h {
                    assert(self.knows(x));
                    assert(self.knows(self.parent_of(x)));
                }
            }
        }
    }
}

/// A store that knows its genesis alone is consistent, and every block in
/// it but genesis has its proof of work, there being none.
pub proof fn lemma_initial_consistent(genesis: BlockView)
    requires
        genesis.header.parent == zeros(32),
    ensures
        initial(genesis).consistent(),
        initial(genesis).proven(),
{
    let s = initial(genesis);
    assert(s.on_chain[0] == genesis.hash());
    assert(s.blocks.contains_key(genesis.hash()));
}

/// Tip is longest, in every state that can be reached: after any blocks
/// were offered to a store that began with its genesis alone, the tip is a
/// known block at the height the store reports, and no known block stands
/// higher.
pub proof fn lemma_reachable_tip_is_longest(genesis: BlockView, bs: Seq<BlockView>)
    requires
        genesis.header.parent == zeros(32),
    ensures
        ({
            let s = initial(genesis).insert_all(bs);
            &&& s.knows(s.tip)
            &&& s.height_of(s.tip) == s.height
            &&& forall|h: Seq<u8>| s.knows(h) ==> s.height_of(h) <= s.height_of(s.tip)
        }),
{
    lemma_initial_consistent(genesis);
    initial(genesis).lemma_insert_all_consistent(bs);
    initial(genesis).insert_all(bs).lemma_tip_is_longest();
}

/// On-chain is a path, in every state that can be reached: after any
/// blocks were offered to a store that began with its genesis alone, the
/// longest chain has one block at each height from genesis to the tip,
/// starts at that genesis and ends at the tip, and every block on it but
/// genesis has its parent on it, one height below.
pub proof fn lemma_reachable_on_chain_is_path(genesis: BlockView, bs: Seq<BlockView>)
    requires
        genesis.header.parent == zeros(32),
    ensures
        ({
            let s = initial(genesis).insert_all(bs);
            &&& s.on_chain.len() == s.height + 1
            &&& s.on_chain[0] == genesis.hash()
            &&& s.on_chain[s.height as int] == s.tip
            &&& forall|k: int| 0 <= k <= s.height ==> s.height_of(#[trigger] s.on_chain[k]) == k
            &&& forall|h: Seq<u8>|
                s.on_chain.contains(h) && h != genesis.hash() ==> s.on_chain.contains(
                    #[trigger] s.parent_of(h),
                ) && s.height_of(h) == s.height_of(s.parent_of(h)) + 1
        }),
{
    lemma_initial_consistent(genesis);
    initial(genesis).lemma_insert_all_consistent(bs);
    let s = initial(genesis).insert_all(bs);
    assert forall|h: Seq<u8>| s.on_chain.contains(h) && h != genesis.hash() implies s.on_chain.contains(
        #[trigger] s.parent_of(h),
    ) && s.height_of(h) == s.height_of(s.parent_of(h)) + 1 by {
        s.lemma_on_chain_is_path(h);
    }
}

} // verus!
