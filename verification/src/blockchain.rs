//! The chain store: every block that was ever admitted, the height of each,
//! and the longest chain among them. A block is admitted below a known
//! parent only; a branch that grows past the tip takes the chain over.

use vstd::prelude::*;
use crate::block::generate_genesis_block;
use crate::block::genesis_block;
use crate::block::Block;
use crate::block::BlockView;
use crate::chain_state::initial;
use crate::chain_state::ChainState;
use crate::crypto::hash::zeros;
use crate::crypto::hash::H256;
use crate::crypto::merkle::digests_view;
use crate::digest_map::DigestMap;

verus! {

/// A known block with its height.
struct Record {
    block: Block,
    height: u32,
}

/// The chain store.
pub struct Blockchain {
    /// Every known block under its identity.
    blocks: DigestMap<Record>,
    /// The longest chain, genesis first.
    chain: Vec<H256>,
    /// Height of the tip.
    height: u32,
    /// Identity of the tip.
    tip: H256,
}

/// The records as the state sees them: each block with its height.
spec fn records_view(records: Map<Seq<u8>, Record>) -> Map<Seq<u8>, (BlockView, nat)> {
    records.map_values(|r: Record| (r.block@, r.height as nat))
}

/// The start of a path is the path to the block that stands there.
proof fn lemma_path_prefix(s: ChainState, h: Seq<u8>, n: nat, k: nat)
    requires
        k <= n,
    ensures
        s.path_to(h, n).len() == n + 1,
        s.path_to(h, n).subrange(0, k as int + 1) == s.path_to(s.path_to(h, n)[k as int], k),
    decreases n,
{
    s.lemma_path_shape(h, n);
    if k == n {
        assert(s.path_to(h, n).subrange(0, k as int + 1) =~= s.path_to(h, n));
    } else {
        let rest = s.path_to(s.parent_of(h), (n - 1) as nat);
        lemma_path_prefix(s, s.parent_of(h), (n - 1) as nat, k);
        assert(s.path_to(h, n).subrange(0, k as int + 1) =~= rest.subrange(0, k as int + 1));
    }
}

/// Cuts `chain` off above `fork`, then appends `branch` last entry first,
/// then `hash`.
fn splice(chain: &mut Vec<H256>, fork: u32, branch: &Vec<H256>, hash: H256)
    requires
        fork < old(chain).len(),
    ensures
        final(chain).len() == fork + branch.len() + 2,
        forall|k: int| 0 <= k <= fork ==> final(chain)[k] == old(chain)[k],
        forall|k: int|
            fork < k <= fork + branch.len() ==> final(chain)[k] == branch[fork + branch.len() - k],
        final(chain)[fork + branch.len() + 1] == hash,
{
    chain.truncate(fork as usize + 1);
    let mut j: usize = branch.len();
    while j > 0
        invariant
            j <= branch.len(),
            chain.len() == fork + 1 + branch.len() - j,
            forall|k: int| 0 <= k <= fork ==> chain[k] == old(chain)[k],
            forall|k: int|
                fork < k <= fork + branch.len() - j ==> chain[k] == branch[fork + branch.len() - k],
        decreases j,
    {
        j -= 1;
        chain.push(branch[j]);
    }
    chain.push(hash);
}

impl View for Blockchain {
    type V = ChainState;

    closed spec fn view(&self) -> ChainState {
        ChainState {
            blocks: records_view(self.blocks@),
            on_chain: digests_view(self.chain@),
            tip: self.tip@,
            height: self.height as nat,
        }
    }
}

impl Blockchain {
    /// What holds of every store: its state is consistent.
    pub closed spec fn wf(&self) -> bool {
        &&& self.blocks.wf()
        &&& self@.consistent()
    }

    /// The state of a well-formed store is consistent.
    pub proof fn lemma_wf_consistent(&self)
        requires
            self.wf(),
        ensures
            self@.consistent(),
    {
    }

    /// Whether a known block lies on the longest chain.
    fn record_on_chain(&self, hash: &H256, record: &Record) -> (r: bool)
        requires
            self.wf(),
            self.blocks@.contains_key(hash@),
            self.blocks@[hash@] == *record,
        ensures
            r == self@.on_chain.contains(hash@),
    {
        proof {
            assert(self@.knows(hash@));
            assert(self@.height_of(hash@) <= self@.height);
        }
        let r = self.chain[record.height as usize].same(hash);
        proof {
            let chain = self@.on_chain;
            if r {
                assert(chain[record.height as int] == hash@);
            } else if chain.contains(hash@) {
                let k = choose|k: int| 0 <= k < chain.len() && chain[k] == hash@;
                assert(self@.knows(chain[k]));
                assert(self@.height_of(chain[k]) == k);
            }
        }
        r
    }

    /// A store that knows the genesis block and nothing else.
    pub fn new() -> (store: Blockchain)
        ensures
            store.wf(),
            store@ == initial(genesis_block(zeros(32))),
            store@.consistent(),
            store@.proven(),
    {
        let genesis = generate_genesis_block(&H256::zero());
        let hash = genesis.hash();
        let mut blocks: DigestMap<Record> = DigestMap::new();
        blocks.insert(hash, Record { block: genesis, height: 0 });
        let mut chain: Vec<H256> = Vec::new();
        chain.push(hash);
        let store = Blockchain { blocks, chain, height: 0, tip: hash };
        proof {
            let g = genesis_block(zeros(32));
            assert(store@.blocks =~= map![g.hash() => (g, 0nat)]);
            assert(store@.on_chain =~= seq![g.hash()]);
        }
        store
    }

    /// Walks from a known block toward genesis until it meets the longest
    /// chain. Gives the identities passed on the way, the start first, and
    /// the height at which the chain was met.
    fn branch_to(&self, from: H256) -> (r: (Vec<H256>, u32))
        requires
            self.wf(),
            self@.knows(from@),
        ensures
            ({
                let top = self@.height_of(from@);
                let path = self@.path_to(from@, top);
                let (branch, fork) = r;
                &&& fork <= top
                &&& fork <= self@.height
                &&& branch.len() == top - fork
                &&& path.subrange(0, fork + 1) == self@.on_chain.subrange(0, fork + 1)
                &&& forall|j: int| 0 <= j < branch.len() ==> (#[trigger] branch[j])@ == path[top - j]
            }),
    {
        let ghost top = self@.height_of(from@);
        let ghost path = self@.path_to(from@, top);
        proof {
            self@.lemma_path_shape(from@, top);
            self@.lemma_path_known(from@, top);
        }
        let mut branch: Vec<H256> = Vec::new();
        let mut at: H256 = from;
        loop
            invariant
                self.wf(),
                top == self@.height_of(from@),
                path == self@.path_to(from@, top),
                path.len() == top + 1,
                forall|k: int| 0 <= k < top ==> #[trigger] path[k] == self@.parent_of(path[k + 1]),
                forall|k: int|
                    0 <= k <= top ==> self@.knows(#[trigger] path[k]) && self@.height_of(path[k])
                        == k,
                path[0] == self@.genesis(),
                self@.knows(at@),
                self@.height_of(at@) <= top,
                at@ == path[self@.height_of(at@) as int],
                branch.len() == top - self@.height_of(at@),
                forall|j: int| 0 <= j < branch.len() ==> (#[trigger] branch[j])@ == path[top - j],
            ensures
                self@.knows(at@),
                self@.height_of(at@) <= top,
                at@ == path[self@.height_of(at@) as int],
                branch.len() == top - self@.height_of(at@),
                forall|j: int| 0 <= j < branch.len() ==> (#[trigger] branch[j])@ == path[top - j],
                self@.on_chain.contains(at@),
            decreases self@.height_of(at@),
        {
            let record = match self.blocks.get(&at) {
                Some(record) => record,
                None => {
                    proof {
                        assert(false);
                    }
                    break ;
                },
            };
            if self.record_on_chain(&at, record) {
                break ;
            }
            proof {
                let here = self@.height_of(at@);
                assert(self@.knows(self@.on_chain[0]));
                assert(self@.on_chain.contains(self@.on_chain[0]));
                assert(at@ != self@.genesis());
                assert(here > 0);
                assert(path[here - 1] == self@.parent_of(path[here as int]));
                assert(self@.knows(path[here - 1]));
            }
            branch.push(at);
            at = record.block.header.parent;
        }
        let fork = match self.blocks.get(&at) {
            Some(record) => record.height,
            None => {
                proof {
                    assert(false);
                }
                0
            },
        };
        proof {
            assert(self@.height_of(at@) <= self@.height);
            let k = choose|k: int| 0 <= k < self@.on_chain.len() && self@.on_chain[k] == at@;
            assert(self@.knows(self@.on_chain[k]));
            self@.lemma_path_on_chain(fork as nat);
            lemma_path_prefix(self@, from@, top, fork as nat);
        }
        (branch, fork)
    }

    /// Offers a block to the store; its parent has to be known, and its
    /// height has to fit in 32 bits. A block that is known already leaves
    /// the store as it is. A new block is recorded one above its parent; if
    /// that is higher than the tip, it becomes the tip and the longest chain
    /// becomes the chain that ends in it.
    pub fn insert(&mut self, block: &Block)
        requires
            old(self).wf(),
            old(self)@.knows(block@.header.parent),
            old(self)@.height_of(block@.header.parent) < u32::MAX,
        ensures
            final(self).wf(),
            final(self)@ == old(self)@.insert(block@),
            final(self)@.consistent(),
            final(self)@.knows(block@.hash()),
            old(self)@.knows(block@.hash()) ==> final(self)@ == old(self)@,
    {
        let hash = block.hash();
        if self.blocks.contains_key(&hash) {
            return ;
        }
        let height = match self.blocks.get(&block.header.parent) {
            Some(parent) => parent.height + 1,
            None => {
                proof {
                    assert(false);
                }
                return ;
            },
        };
        proof {
            old(self)@.lemma_insert_consistent(block@);
            old(self)@.lemma_path_of_admitted(block@);
        }
        if height > self.height {
            let (branch, fork) = self.branch_to(block.header.parent);
            let ghost path = self@.path_to(block@.header.parent, (height - 1) as nat);
            proof {
                self@.lemma_path_shape(block@.header.parent, (height - 1) as nat);
            }
            let ghost before = self.chain@;
            splice(&mut self.chain, fork, &branch, hash);
            proof {
                let after = digests_view(self.chain@);
                assert forall|k: int| 0 <= k < after.len() implies after[k] == path.push(hash@)[k] by {
                    if k <= fork {
                        assert(self.chain@[k] == before[k]);
                        assert(digests_view(before).subrange(0, fork + 1)[k] == path.subrange(
                            0,
                            fork + 1,
                        )[k]);
                    } else if k < height {
                        assert(self.chain@[k] == branch[height - 1 - k]);
                    }
                }
                assert(after =~= path.push(hash@));
            }
            self.tip = hash;
            self.height = height;
        }
        self.blocks.insert(hash, Record { block: block.clone(), height });
        proof {
            assert(final(self)@.blocks =~= old(self)@.insert(block@).blocks);
        }
    }

    /// The identity of the block at the end of the longest chain.
    pub fn tip(&self) -> (h: H256)
        ensures
            h@ == self@.tip,
    {
        self.tip
    }

    /// The height of the tip.
    pub fn get_length(&self) -> (n: u32)
        ensures
            n == self@.height,
    {
        self.height
    }

    /// The target that the tip declares.
    pub fn get_difficulty(&self) -> (d: H256)
        requires
            self.wf(),
        ensures
            d@ == self@.block(self@.tip).header.difficulty,
    {
        proof {
            self@.lemma_tip_is_longest();
        }
        match self.blocks.get(&self.tip) {
            Some(record) => record.block.get_difficulty(),
            None => {
                proof {
                    assert(false);
                }
                self.tip
            },
        }
    }

    /// Whether the store holds a block of this identity, on the longest
    /// chain or on a side branch.
    pub fn contain(&self, h: H256) -> (r: bool)
        requires
            self.wf(),
        ensures
            r == self@.knows(h@),
    {
        self.blocks.contains_key(&h)
    }

    /// Whether the block of this identity lies on the longest chain.
    pub fn in_longest_chain(&self, h: H256) -> (r: bool)
        requires
            self.wf(),
        ensures
            r == self@.on_chain.contains(h@),
    {
        match self.blocks.get(&h) {
            Some(record) => self.record_on_chain(&h, record),
            None => {
                proof {
                    let chain = self@.on_chain;
                    if chain.contains(h@) {
                        let k = choose|k: int| 0 <= k < chain.len() && chain[k] == h@;
                        assert(self@.knows(chain[k]));
                    }
                }
                false
            },
        }
    }

    /// The height of the known block of this identity.
    pub fn height_of(&self, h: &H256) -> (r: Option<u32>)
        requires
            self.wf(),
        ensures
            r is Some == self@.knows(h@),
            r is Some ==> r->0 == self@.height_of(h@),
    {
        match self.blocks.get(h) {
            Some(record) => Some(record.height),
            None => None,
        }
    }

    /// The known block of this identity.
    pub fn get(&self, h: &H256) -> (r: Option<Block>)
        requires
            self.wf(),
        ensures
            r is Some == self@.knows(h@),
            r is Some ==> r->0@ == self@.block(h@),
    {
        match self.blocks.get(h) {
            Some(record) => Some(record.block.clone()),
            None => None,
        }
    }

    /// The identities on the longest chain, genesis first.
    pub fn all_blocks_in_longest_chain(&self) -> (hashes: Vec<H256>)
        ensures
            digests_view(hashes@) == self@.on_chain,
    {
        let mut hashes: Vec<H256> = Vec::new();
        let mut i: usize = 0;
        while i < self.chain.len()
            invariant
                i <= self.chain.len(),
                hashes@ == self.chain@.subrange(0, i as int),
            decreases self.chain.len() - i,
        {
            hashes.push(self.chain[i]);
            i += 1;
            assert(hashes@ =~= self.chain@.subrange(0, i as int));
        }
        assert(hashes@ =~= self.chain@);
        hashes
    }
}

} // verus!
