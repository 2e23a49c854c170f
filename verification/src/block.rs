//! Blocks and their headers. A block is identified by the digest of its
//! header's canonical bytes.

use vstd::prelude::*;
use crate::ambient::now_millis;
use crate::ambient::random_u32;
use crate::crypto::hash::be_value;
use crate::crypto::hash::sha256;
use crate::crypto::hash::sha256_digest;
use crate::crypto::hash::zeros;
use crate::crypto::hash::H160;
use crate::crypto::hash::H256;
use crate::crypto::key_pair::ed25519_public_key;
use crate::crypto::key_pair::ed25519_signature;
use crate::crypto::key_pair::KeyPair;
use crate::crypto::merkle::digests_view;
use crate::crypto::merkle::merkle_root;
use crate::crypto::merkle::root_of;
use crate::encoding::le_bytes;
use crate::encoding::lemma_le_bytes_len;
use crate::encoding::push_all;
use crate::encoding::push_le;
use crate::transaction::content_view;
use crate::transaction::lemma_transaction_encoded_len;
use crate::transaction::generate_random_signedtrans;
use crate::transaction::Input;
use crate::transaction::InputView;
use crate::transaction::Output;
use crate::transaction::OutputView;
use crate::transaction::SignedTrans;
use crate::transaction::SignedTransView;
use crate::transaction::Transaction;
use crate::transaction::TransactionView;

verus! {

/// What identifies a block and ties it to its parent.
#[derive(Clone, Copy, Debug)]
pub struct Header {
    pub parent: H256,
    pub nonce: u32,
    pub difficulty: H256,
    pub timestamp: u128,
    pub merkle_root: H256,
}

/// A header and the transactions it commits to.
#[derive(Debug)]
pub struct Block {
    pub header: Header,
    pub content: Vec<SignedTrans>,
}

/// What a header holds.
pub struct HeaderView {
    pub parent: Seq<u8>,
    pub nonce: u32,
    pub difficulty: Seq<u8>,
    pub timestamp: u128,
    pub merkle_root: Seq<u8>,
}

/// What a block holds.
pub struct BlockView {
    pub header: HeaderView,
    pub content: Seq<SignedTransView>,
}

impl HeaderView {
    /// Canonical bytes: the fields in order.
    pub open spec fn encoding(self) -> Seq<u8> {
        self.parent + le_bytes(self.nonce as nat, 4) + self.difficulty + le_bytes(
            self.timestamp as nat,
            16,
        ) + self.merkle_root
    }

    /// The digest of the canonical bytes.
    pub open spec fn hash(self) -> Seq<u8> {
        sha256(self.encoding())
    }
}

impl BlockView {
    /// A block's identity is its header's digest.
    pub open spec fn hash(self) -> Seq<u8> {
        self.header.hash()
    }

    /// Proof of work: the identity, read as a number, does not exceed the
    /// target that the header declares.
    pub open spec fn meets_target(self) -> bool {
        be_value(self.hash()) <= be_value(self.header.difficulty)
    }
}

impl View for Header {
    type V = HeaderView;

    open spec fn view(&self) -> HeaderView {
        HeaderView {
            parent: self.parent@,
            nonce: self.nonce,
            difficulty: self.difficulty@,
            timestamp: self.timestamp,
            merkle_root: self.merkle_root@,
        }
    }
}

impl View for Block {
    type V = BlockView;

    open spec fn view(&self) -> BlockView {
        BlockView { header: self.header@, content: content_view(self.content@) }
    }
}

/// The target of the genesis block and of blocks made for trial: the first
/// byte one, the rest zero.
pub open spec fn easy_target() -> Seq<u8> {
    zeros(32).update(0, 1u8)
}

/// The digests of a list of signed transactions.
pub open spec fn content_digests(content: Seq<SignedTransView>) -> Seq<Seq<u8>> {
    content.map_values(|t: SignedTransView| t.hash())
}

/// The one transaction of the genesis block.
pub open spec fn genesis_transaction() -> TransactionView {
    TransactionView {
        id: zeros(32),
        inputs: seq![InputView { index: 1, previous_hash: zeros(32) }],
        outputs: seq![OutputView { balance: 1, address: zeros(20) }],
    }
}

/// The content of the genesis block: its transaction, signed with the key
/// of the all-zero seed.
pub open spec fn genesis_content() -> Seq<SignedTransView> {
    seq![
        SignedTransView {
            transaction: genesis_transaction(),
            signature: ed25519_signature(zeros(32), genesis_transaction().hash()),
            public_key: ed25519_public_key(zeros(32)),
        },
    ]
}

/// The genesis block under a given parent.
pub open spec fn genesis_block(parent: Seq<u8>) -> BlockView {
    BlockView {
        header: HeaderView {
            parent,
            nonce: 0,
            difficulty: easy_target(),
            timestamp: 0,
            merkle_root: merkle_root(content_digests(genesis_content())),
        },
        content: genesis_content(),
    }
}

impl Header {
    /// When the block was made, in milliseconds since the epoch.
    pub fn get_create_time(&self) -> (t: u128)
        ensures
            t == self.timestamp,
    {
        self.timestamp
    }

    /// The canonical bytes, 116 of them.
    pub fn encode(&self) -> (out: Vec<u8>)
        ensures
            out@ == self@.encoding(),
            out@.len() == 116,
    {
        let mut out: Vec<u8> = Vec::new();
        push_all(&mut out, self.parent.bytes.as_slice());
        push_le(&mut out, self.nonce as u128, 4);
        push_all(&mut out, self.difficulty.bytes.as_slice());
        push_le(&mut out, self.timestamp, 16);
        push_all(&mut out, self.merkle_root.bytes.as_slice());
        proof {
            lemma_le_bytes_len(self.nonce as nat, 4);
            lemma_le_bytes_len(self.timestamp as nat, 16);
            assert(out@ =~= self@.encoding());
        }
        out
    }

    /// The digest of the canonical bytes.
    pub fn hash(&self) -> (h: H256)
        ensures
            h@ == self@.hash(),
    {
        let bytes = self.encode();
        sha256_digest(bytes.as_slice())
    }
}

/// The easy target as a digest.
pub fn easy_difficulty() -> (d: H256)
    ensures
        d@ == easy_target(),
{
    let mut bytes = [0u8; 32];
    bytes[0] = 1;
    let d = H256 { bytes };
    assert(d@ =~= easy_target());
    d
}

/// The Merkle root over the digests of `content`.
pub fn content_root(content: &Vec<SignedTrans>) -> (root: H256)
    requires
        forall|i: int| 0 <= i < content.len() ==> (#[trigger] content[i]).hashable(),
    ensures
        root@ == merkle_root(content_digests(content_view(content@))),
{
    let mut leaves: Vec<H256> = Vec::new();
    let mut i: usize = 0;
    while i < content.len()
        invariant
            i <= content.len(),
            forall|i: int| 0 <= i < content.len() ==> (#[trigger] content[i]).hashable(),
            leaves.len() == i,
            forall|j: int| 0 <= j < i ==> (#[trigger] leaves@[j])@ == content@[j]@.hash(),
        decreases content.len() - i,
    {
        leaves.push(content[i].hash());
        i += 1;
    }
    assert(digests_view(leaves@) =~= content_digests(content_view(content@)));
    root_of(leaves)
}

impl Clone for Block {
    fn clone(&self) -> (r: Self)
        ensures
            r@ == self@,
    {
        let mut content: Vec<SignedTrans> = Vec::new();
        let mut i: usize = 0;
        while i < self.content.len()
            invariant
                i <= self.content.len(),
                content.len() == i,
                forall|j: int| 0 <= j < i ==> (#[trigger] content@[j])@ == self.content@[j]@,
            decreases self.content.len() - i,
        {
            content.push(self.content[i].clone());
            i += 1;
        }
        assert(content_view(content@) =~= content_view(self.content@));
        Block { header: self.header, content }
    }
}

impl PartialEq for Block {
    /// Blocks are equal when their identities are.
    fn eq(&self, other: &Block) -> (r: bool) {
        let mine = self.hash();
        let theirs = other.hash();
        mine.same(&theirs)
    }
}

impl vstd::std_specs::cmp::PartialEqSpecImpl for Block {
    open spec fn obeys_eq_spec() -> bool {
        true
    }

    open spec fn eq_spec(&self, other: &Block) -> bool {
        self@.hash() == other@.hash()
    }
}

impl Block {
    /// A block of these parts.
    pub fn new(
        parent: H256,
        nonce: u32,
        difficulty: H256,
        timestamp: u128,
        merkle_root: H256,
        content: Vec<SignedTrans>,
    ) -> (b: Block)
        ensures
            b.header == (Header { parent, nonce, difficulty, timestamp, merkle_root }),
            b.content == content,
    {
        Block { header: Header { parent, nonce, difficulty, timestamp, merkle_root }, content }
    }

    /// The target that the block declares.
    pub fn get_difficulty(&self) -> (d: H256)
        ensures
            d == self.header.difficulty,
    {
        self.header.difficulty
    }

    /// The block's identity.
    pub fn hash(&self) -> (h: H256)
        ensures
            h@ == self@.hash(),
    {
        self.header.hash()
    }

    /// Tests proof of work.
    pub fn meets_target(&self) -> (ok: bool)
        ensures
            ok == self@.meets_target(),
    {
        let h = self.hash();
        h.le(&self.header.difficulty)
    }
}

/// A block under `parent` with the easy target, the given nonce and
/// timestamp, and the given content with its Merkle root.
pub fn trial_block(parent: &H256, nonce: u32, timestamp: u128, content: Vec<SignedTrans>) -> (b:
    Block)
    requires
        forall|i: int| 0 <= i < content.len() ==> (#[trigger] content[i]).hashable(),
    ensures
        b@ == (BlockView {
            header: HeaderView {
                parent: parent@,
                nonce,
                difficulty: easy_target(),
                timestamp,
                merkle_root: merkle_root(content_digests(content_view(content@))),
            },
            content: content_view(content@),
        }),
{
    let root = content_root(&content);
    Block::new(*parent, nonce, easy_difficulty(), timestamp, root, content)
}

/// A block under `parent` for trial: the easy target, three transactions
/// drawn at random and validly signed, a random nonce, the current time.
pub fn generate_random_block(parent: &H256) -> (b: Block)
    ensures
        b@.header.parent == parent@,
        b@.header.difficulty == easy_target(),
        b@.header.merkle_root == merkle_root(content_digests(b@.content)),
        b@.content.len() == 3,
        forall|i: int| 0 <= i < 3 ==> (#[trigger] b@.content[i]).signature_valid(),
{
    let mut content: Vec<SignedTrans> = Vec::new();
    content.push(generate_random_signedtrans());
    content.push(generate_random_signedtrans());
    content.push(generate_random_signedtrans());
    trial_block(parent, random_u32(), now_millis(), content)
}

/// The genesis block under `parent`: nonce and timestamp zero, the easy
/// target, and one fixed transaction signed with the key of the all-zero
/// seed. Every call gives the same block.
pub fn generate_genesis_block(parent: &H256) -> (b: Block)
    ensures
        b@ == genesis_block(parent@),
{
    let mut inputs: Vec<Input> = Vec::new();
    inputs.push(Input { index: 1, previous_hash: H256::zero() });
    let mut outputs: Vec<Output> = Vec::new();
    outputs.push(Output { balance: 1, address: H160::zero() });
    let transaction = Transaction { id: H256::zero(), inputs, outputs };
    proof {
        lemma_transaction_encoded_len(&transaction);
    }
    assert(transaction@.inputs =~= genesis_transaction().inputs);
    assert(transaction@.outputs =~= genesis_transaction().outputs);
    let key = KeyPair::from_seed([0u8; 32]);
    assert(key.seed() =~= zeros(32));
    let signed = SignedTrans::signed_by(transaction, &key);
    let mut content: Vec<SignedTrans> = Vec::new();
    content.push(signed);
    assert(content_view(content@) =~= genesis_content());
    trial_block(parent, 0, 0, content)
}

} // verus!
