//! Transactions, their signed form, and the pool of pending ones.

use vstd::prelude::*;
use crate::ambient::random_u8;
use crate::crypto::hash::sha256;
use crate::crypto::hash::sha256_digest;
use crate::crypto::hash::DIGEST_INPUT_LIMIT;
use crate::crypto::hash::H160;
use crate::crypto::hash::H256;
use crate::crypto::key_pair::ed25519_public_key;
use crate::crypto::key_pair::ed25519_signature;
use crate::crypto::key_pair::ed25519_verifies;
use crate::crypto::key_pair::verify_digest;
use crate::crypto::key_pair::KeyPair;
use crate::digest_map::DigestMap;
use crate::encoding::concat_all;
use crate::encoding::lemma_concat_all_len;
use crate::encoding::lemma_concat_all_push;
use crate::encoding::lemma_le_bytes_len;
use crate::encoding::len_prefix;
use crate::encoding::push_all;
use crate::encoding::push_len;

verus! {

/// A reference to an output of an earlier transaction.
#[derive(Clone, Copy, Debug)]
pub struct Input {
    pub index: u8,
    pub previous_hash: H256,
}

/// An amount made over to an address.
#[derive(Clone, Copy, Debug)]
pub struct Output {
    pub balance: u8,
    pub address: H160,
}

/// A transfer: what it spends and what it pays out.
#[derive(Debug)]
pub struct Transaction {
    pub id: H256,
    pub inputs: Vec<Input>,
    pub outputs: Vec<Output>,
}

/// A transaction with the signature over it and the key to check it with.
#[derive(Debug)]
pub struct SignedTrans {
    pub transaction: Transaction,
    pub signature: Vec<u8>,
    pub public_key: Vec<u8>,
}

/// What an input holds.
pub struct InputView {
    pub index: u8,
    pub previous_hash: Seq<u8>,
}

/// What an output holds.
pub struct OutputView {
    pub balance: u8,
    pub address: Seq<u8>,
}

/// What a transaction holds.
pub struct TransactionView {
    pub id: Seq<u8>,
    pub inputs: Seq<InputView>,
    pub outputs: Seq<OutputView>,
}

/// What a signed transaction holds.
pub struct SignedTransView {
    pub transaction: TransactionView,
    pub signature: Seq<u8>,
    pub public_key: Seq<u8>,
}

impl InputView {
    /// Canonical bytes: the index, then the hash referred to.
    pub open spec fn encoding(self) -> Seq<u8> {
        seq![self.index] + self.previous_hash
    }
}

impl OutputView {
    /// Canonical bytes: the amount, then the address.
    pub open spec fn encoding(self) -> Seq<u8> {
        seq![self.balance] + self.address
    }
}

impl View for Input {
    type V = InputView;

    open spec fn view(&self) -> InputView {
        InputView { index: self.index, previous_hash: self.previous_hash@ }
    }
}

impl View for Output {
    type V = OutputView;

    open spec fn view(&self) -> OutputView {
        OutputView { balance: self.balance, address: self.address@ }
    }
}

/// The views of a list of inputs.
pub open spec fn inputs_view(inputs: Seq<Input>) -> Seq<InputView> {
    inputs.map_values(|i: Input| i@)
}

/// The views of a list of outputs.
pub open spec fn outputs_view(outputs: Seq<Output>) -> Seq<OutputView> {
    outputs.map_values(|o: Output| o@)
}

/// Canonical bytes of a list of inputs: the count, then each input.
pub open spec fn inputs_encoding(inputs: Seq<InputView>) -> Seq<u8> {
    len_prefix(inputs.len()) + concat_all(inputs.map_values(|i: InputView| i.encoding()))
}

/// Canonical bytes of a list of outputs: the count, then each output.
pub open spec fn outputs_encoding(outputs: Seq<OutputView>) -> Seq<u8> {
    len_prefix(outputs.len()) + concat_all(outputs.map_values(|o: OutputView| o.encoding()))
}

/// Canonical bytes of a byte string: its length, then the bytes.
pub open spec fn bytes_encoding(bytes: Seq<u8>) -> Seq<u8> {
    len_prefix(bytes.len()) + bytes
}

impl TransactionView {
    /// Canonical bytes: the fields in order.
    pub open spec fn encoding(self) -> Seq<u8> {
        self.id + inputs_encoding(self.inputs) + outputs_encoding(self.outputs)
    }

    /// The digest that identifies the transaction and that a signature
    /// covers.
    pub open spec fn hash(self) -> Seq<u8> {
        sha256(self.encoding())
    }
}

impl SignedTransView {
    /// Canonical bytes: the fields in order.
    pub open spec fn encoding(self) -> Seq<u8> {
        self.transaction.encoding() + bytes_encoding(self.signature) + bytes_encoding(
            self.public_key,
        )
    }

    /// The digest that identifies the signed transaction.
    pub open spec fn hash(self) -> Seq<u8> {
        sha256(self.encoding())
    }

    /// Whether the signature is one of the transaction under the public key.
    pub open spec fn signature_valid(self) -> bool {
        ed25519_verifies(self.public_key, self.transaction.hash(), self.signature)
    }
}

impl View for Transaction {
    type V = TransactionView;

    open spec fn view(&self) -> TransactionView {
        TransactionView {
            id: self.id@,
            inputs: inputs_view(self.inputs@),
            outputs: outputs_view(self.outputs@),
        }
    }
}

impl View for SignedTrans {
    type V = SignedTransView;

    open spec fn view(&self) -> SignedTransView {
        SignedTransView {
            transaction: self.transaction@,
            signature: self.signature@,
            public_key: self.public_key@,
        }
    }
}

/// The views of a list of signed transactions.
pub open spec fn content_view(content: Seq<SignedTrans>) -> Seq<SignedTransView> {
    content.map_values(|t: SignedTrans| t@)
}

/// How long the canonical bytes of a transaction are.
pub proof fn lemma_transaction_encoded_len(t: &Transaction)
    ensures
        t@.encoding().len() == 48 + 33 * t.inputs.len() + 21 * t.outputs.len(),
{
    lemma_le_bytes_len(t.inputs.len() as nat, 8);
    lemma_le_bytes_len(t.outputs.len() as nat, 8);
    let ins = t@.inputs.map_values(|i: InputView| i.encoding());
    let outs = t@.outputs.map_values(|o: OutputView| o.encoding());
    assert forall|i: int| 0 <= i < ins.len() implies (#[trigger] ins[i]).len() == 33 by {
        assert(ins[i] == t.inputs@[i]@.encoding());
    }
    assert forall|i: int| 0 <= i < outs.len() implies (#[trigger] outs[i]).len() == 21 by {
        assert(outs[i] == t.outputs@[i]@.encoding());
    }
    lemma_concat_all_len(ins, 33);
    lemma_concat_all_len(outs, 21);
}

/// How long the canonical bytes of a signed transaction are.
pub proof fn lemma_signed_encoded_len(s: &SignedTrans)
    ensures
        s@.encoding().len() == s.transaction@.encoding().len() + 16 + s.signature.len()
            + s.public_key.len(),
{
    lemma_le_bytes_len(s.signature.len() as nat, 8);
    lemma_le_bytes_len(s.public_key.len() as nat, 8);
}

/// A copy of a byte string.
fn copy_bytes(src: &Vec<u8>) -> (r: Vec<u8>)
    ensures
        r@ == src@,
{
    let mut r: Vec<u8> = Vec::new();
    push_all(&mut r, src.as_slice());
    assert(r@ =~= src@);
    r
}

impl Clone for Transaction {
    fn clone(&self) -> (r: Self)
        ensures
            r@ == self@,
    {
        let mut inputs: Vec<Input> = Vec::new();
        let mut i: usize = 0;
        while i < self.inputs.len()
            invariant
                i <= self.inputs.len(),
                inputs@ == self.inputs@.subrange(0, i as int),
            decreases self.inputs.len() - i,
        {
            inputs.push(self.inputs[i]);
            i += 1;
            assert(inputs@ =~= self.inputs@.subrange(0, i as int));
        }
        assert(inputs@ =~= self.inputs@);
        assert(inputs_view(inputs@) =~= inputs_view(self.inputs@));
        let mut outputs: Vec<Output> = Vec::new();
        let mut j: usize = 0;
        while j < self.outputs.len()
            invariant
                j <= self.outputs.len(),
                outputs@ == self.outputs@.subrange(0, j as int),
            decreases self.outputs.len() - j,
        {
            outputs.push(self.outputs[j]);
            j += 1;
            assert(outputs@ =~= self.outputs@.subrange(0, j as int));
        }
        assert(outputs@ =~= self.outputs@);
        assert(outputs_view(outputs@) =~= outputs_view(self.outputs@));
        Transaction { id: self.id, inputs, outputs }
    }
}

impl Clone for SignedTrans {
    fn clone(&self) -> (r: Self)
        ensures
            r@ == self@,
    {
        SignedTrans {
            transaction: self.transaction.clone(),
            signature: copy_bytes(&self.signature),
            public_key: copy_bytes(&self.public_key),
        }
    }
}

impl Transaction {
    /// Whether the canonical bytes are short enough to be digested.
    pub open spec fn hashable(&self) -> bool {
        self@.encoding().len() < DIGEST_INPUT_LIMIT
    }

    /// Tests `hashable`.
    pub fn is_hashable(&self) -> (r: bool)
        ensures
            r == self.hashable(),
    {
        proof {
            lemma_transaction_encoded_len(self);
        }
        let n: u128 = 48 + 33 * (self.inputs.len() as u128) + 21 * (self.outputs.len() as u128);
        n < DIGEST_INPUT_LIMIT as u128
    }

    /// The canonical bytes.
    pub fn encode(&self) -> (out: Vec<u8>)
        ensures
            out@ == self@.encoding(),
    {
        let mut out: Vec<u8> = Vec::new();
        push_all(&mut out, self.id.bytes.as_slice());
        push_len(&mut out, self.inputs.len());
        let ghost head = out@;
        let ghost ins = self@.inputs.map_values(|i: InputView| i.encoding());
        let mut i: usize = 0;
        assert(ins.subrange(0, 0) =~= Seq::<Seq<u8>>::empty());
        assert(out@ =~= head + concat_all(ins.subrange(0, 0)));
        while i < self.inputs.len()
            invariant
                i <= self.inputs.len(),
                ins == self@.inputs.map_values(|i: InputView| i.encoding()),
                out@ == head + concat_all(ins.subrange(0, i as int)),
            decreases self.inputs.len() - i,
        {
            let input = &self.inputs[i];
            out.push(input.index);
            push_all(&mut out, input.previous_hash.bytes.as_slice());
            proof {
                assert(ins[i as int] =~= seq![input.index] + input.previous_hash@);
                lemma_concat_all_push(ins.subrange(0, i as int), ins[i as int]);
                assert(ins.subrange(0, i as int).push(ins[i as int]) =~= ins.subrange(
                    0,
                    i + 1,
                ));
                assert(out@ =~= head + concat_all(ins.subrange(0, i + 1)));
            }
            i += 1;
        }
        assert(ins.subrange(0, ins.len() as int) =~= ins);
        assert(out@ =~= self.id@ + inputs_encoding(self@.inputs));
        push_len(&mut out, self.outputs.len());
        let ghost mid = out@;
        let ghost outs = self@.outputs.map_values(|o: OutputView| o.encoding());
        let mut j: usize = 0;
        assert(outs.subrange(0, 0) =~= Seq::<Seq<u8>>::empty());
        assert(out@ =~= mid + concat_all(outs.subrange(0, 0)));
        while j < self.outputs.len()
            invariant
                j <= self.outputs.len(),
                outs == self@.outputs.map_values(|o: OutputView| o.encoding()),
                out@ == mid + concat_all(outs.subrange(0, j as int)),
            decreases self.outputs.len() - j,
        {
            let output = &self.outputs[j];
            out.push(output.balance);
            push_all(&mut out, output.address.bytes.as_slice());
            proof {
                assert(outs[j as int] =~= seq![output.balance] + output.address@);
                lemma_concat_all_push(outs.subrange(0, j as int), outs[j as int]);
                assert(outs.subrange(0, j as int).push(outs[j as int]) =~= outs.subrange(
                    0,
                    j + 1,
                ));
                assert(out@ =~= mid + concat_all(outs.subrange(0, j + 1)));
            }
            j += 1;
        }
        assert(outs.subrange(0, outs.len() as int) =~= outs);
        assert(out@ =~= self@.encoding());
        out
    }

    /// The digest of the canonical bytes.
    pub fn hash(&self) -> (h: H256)
        requires
            self.hashable(),
        ensures
            h@ == self@.hash(),
    {
        let bytes = self.encode();
        sha256_digest(bytes.as_slice())
    }
}

impl SignedTrans {
    /// Whether the canonical bytes are short enough to be digested.
    pub open spec fn hashable(&self) -> bool {
        self@.encoding().len() < DIGEST_INPUT_LIMIT
    }

    /// Tests `hashable`.
    pub fn is_hashable(&self) -> (r: bool)
        ensures
            r == self.hashable(),
    {
        proof {
            lemma_transaction_encoded_len(&self.transaction);
            lemma_signed_encoded_len(self);
        }
        let n: u128 = 64 + 33 * (self.transaction.inputs.len() as u128) + 21 * (
        self.transaction.outputs.len() as u128) + (self.signature.len() as u128) + (
        self.public_key.len() as u128);
        n < DIGEST_INPUT_LIMIT as u128
    }

    /// The canonical bytes.
    pub fn encode(&self) -> (out: Vec<u8>)
        ensures
            out@ == self@.encoding(),
    {
        let mut out = self.transaction.encode();
        push_len(&mut out, self.signature.len());
        push_all(&mut out, self.signature.as_slice());
        push_len(&mut out, self.public_key.len());
        push_all(&mut out, self.public_key.as_slice());
        assert(out@ =~= self@.encoding());
        out
    }

    /// The digest of the canonical bytes.
    pub fn hash(&self) -> (h: H256)
        requires
            self.hashable(),
        ensures
            h@ == self@.hash(),
    {
        let bytes = self.encode();
        sha256_digest(bytes.as_slice())
    }
}

impl SignedTrans {
    /// The transaction with the signature of `key` over it and the public
    /// key of `key`.
    pub fn signed_by(transaction: Transaction, key: &KeyPair) -> (signed: SignedTrans)
        requires
            transaction.hashable(),
        ensures
            signed@ == (SignedTransView {
                transaction: transaction@,
                signature: key.signature_spec(transaction@.hash()),
                public_key: key.public_key_spec(),
            }),
            signed@.signature_valid(),
            signed@.signature.len() == 64,
            signed@.public_key.len() == 32,
            signed@.encoding().len() == transaction@.encoding().len() + 112,
    {
        let signature = sign(&transaction, key);
        let public_key = key.public_key();
        let signed = SignedTrans { transaction, signature, public_key };
        proof {
            lemma_signed_encoded_len(&signed);
        }
        signed
    }
}

/// Signs a transaction: the signature covers the digest of its canonical
/// bytes, and it checks out under the public key of `key`.
pub fn sign(t: &Transaction, key: &KeyPair) -> (signature: Vec<u8>)
    requires
        t.hashable(),
    ensures
        signature@ == key.signature_spec(t@.hash()),
        signature@.len() == 64,
        ed25519_verifies(key.public_key_spec(), t@.hash(), signature@),
{
    let digest = t.hash();
    key.sign(&digest)
}

/// Checks a signature of a transaction against a public key.
pub fn verify(t: &Transaction, public_key: &[u8], signature: &[u8]) -> (ok: bool)
    requires
        t.hashable(),
    ensures
        ok == ed25519_verifies(public_key@, t@.hash(), signature@),
{
    let digest = t.hash();
    verify_digest(public_key, &digest, signature)
}

/// A transaction with one input and one output, all of it drawn at random.
pub fn generate_random_transaction() -> (t: Transaction)
    ensures
        t@.inputs.len() == 1,
        t@.outputs.len() == 1,
        t@.encoding().len() == 102,
{
    let mut inputs: Vec<Input> = Vec::new();
    inputs.push(Input { index: random_u8(), previous_hash: H256::random() });
    let mut outputs: Vec<Output> = Vec::new();
    outputs.push(Output { balance: random_u8(), address: H160::random() });
    let t = Transaction { id: H256::random(), inputs, outputs };
    proof {
        lemma_transaction_encoded_len(&t);
    }
    t
}

/// A random transaction, signed with a key pair made for it alone: the
/// public key, 32 bytes, and the signature, 64 bytes, are those of one key
/// pair, and the signature checks out under the key.
pub fn generate_random_signedtrans() -> (signed: SignedTrans)
    ensures
        signed@.transaction.inputs.len() == 1,
        signed@.transaction.outputs.len() == 1,
        signed@.signature.len() == 64,
        signed@.public_key.len() == 32,
        exists|seed: Seq<u8>|
            signed@.public_key == #[trigger] ed25519_public_key(seed) && signed@.signature
                == ed25519_signature(seed, signed@.transaction.hash()),
        signed@.signature_valid(),
        signed@.encoding().len() == 214,
{
    let key = KeyPair::random();
    let t = generate_random_transaction();
    let signed = SignedTrans::signed_by(t, &key);
    proof {
        assert(signed@.public_key == ed25519_public_key(key.seed()));
    }
    signed
}

/// The pool of signed transactions that wait to be put in a block, each
/// under its digest.
pub struct Mempool {
    pool: DigestMap<SignedTrans>,
}

impl View for Mempool {
    type V = Map<Seq<u8>, SignedTransView>;

    closed spec fn view(&self) -> Map<Seq<u8>, SignedTransView> {
        self.pool@.map_values(|t: SignedTrans| t@)
    }
}

impl Mempool {
    /// What holds of every pool: each transaction stands under its own
    /// digest, and there are finitely many.
    pub closed spec fn wf(&self) -> bool {
        &&& self.pool.wf()
        &&& forall|h: Seq<u8>| #[trigger] self.pool@.contains_key(h) ==> self.pool@[h]@.hash() == h
    }

    /// In a pool every transaction stands under its own digest.
    pub proof fn lemma_keyed_by_hash(&self)
        requires
            self.wf(),
        ensures
            self@.dom().finite(),
            forall|h: Seq<u8>| #[trigger] self@.contains_key(h) ==> self@[h].hash() == h,
    {
        self.pool.lemma_finite();
        assert(self@.dom() =~= self.pool@.dom());
    }

    /// The empty pool.
    pub fn new() -> (m: Mempool)
        ensures
            m.wf(),
            m@ == Map::<Seq<u8>, SignedTransView>::empty(),
    {
        let m = Mempool { pool: DigestMap::new() };
        assert(m@ =~= Map::<Seq<u8>, SignedTransView>::empty());
        m
    }

    /// Adds a transaction under its digest. One that is in the pool already
    /// changes nothing.
    pub fn add(&mut self, signed: &SignedTrans)
        requires
            old(self).wf(),
            signed.hashable(),
        ensures
            final(self).wf(),
            final(self)@ == if old(self)@.contains_key(signed@.hash()) {
                old(self)@
            } else {
                old(self)@.insert(signed@.hash(), signed@)
            },
    {
        let hash = signed.hash();
        if !self.pool.contains_key(&hash) {
            let copy = signed.clone();
            self.pool.insert(hash, copy);
            assert(self@ =~= old(self)@.insert(signed@.hash(), signed@));
        } else {
            assert(old(self)@.contains_key(signed@.hash()));
        }
    }

    /// Adds a transaction if its signature checks out under the key it
    /// carries, and says whether it did; a transaction that fails the check
    /// is dropped.
    pub fn add_verified(&mut self, signed: &SignedTrans) -> (added: bool)
        requires
            old(self).wf(),
            signed.hashable(),
        ensures
            final(self).wf(),
            added == signed@.signature_valid(),
            final(self)@ == if added && !old(self)@.contains_key(signed@.hash()) {
                old(self)@.insert(signed@.hash(), signed@)
            } else {
                old(self)@
            },
    {
        proof {
            lemma_signed_encoded_len(signed);
        }
        if verify(&signed.transaction, signed.public_key.as_slice(), signed.signature.as_slice()) {
            self.add(signed);
            true
        } else {
            false
        }
    }

    /// Takes a transaction out of the pool. One that is not in the pool
    /// changes nothing.
    pub fn remove(&mut self, signed: &SignedTrans)
        requires
            old(self).wf(),
            signed.hashable(),
        ensures
            final(self).wf(),
            final(self)@ == old(self)@.remove(signed@.hash()),
    {
        let hash = signed.hash();
        let _ = self.pool.remove(&hash);
        assert(self@ =~= old(self)@.remove(signed@.hash()));
    }

    /// How many transactions wait in the pool.
    pub fn len(&self) -> (n: usize)
        requires
            self.wf(),
        ensures
            n == self@.dom().len(),
    {
        assert(self@.dom() =~= self.pool@.dom());
        self.pool.len()
    }

    /// Whether a transaction of this digest waits in the pool.
    pub fn contains(&self, h: &H256) -> (r: bool)
        requires
            self.wf(),
        ensures
            r == self@.contains_key(h@),
    {
        self.pool.contains_key(h)
    }

    /// The transaction of this digest.
    pub fn get(&self, h: &H256) -> (r: Option<SignedTrans>)
        requires
            self.wf(),
        ensures
            r is Some == self@.contains_key(h@),
            r is Some ==> r->0@ == self@[h@],
    {
        match self.pool.get(h) {
            Some(t) => Some(t.clone()),
            None => None,
        }
    }
}

} // verus!
