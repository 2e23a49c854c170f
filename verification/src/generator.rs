//! One round of the transaction generator: make a signed transaction,
//! stage it in the pool, and announce it.

use vstd::prelude::*;
use crate::crypto::hash::H256;
use crate::crypto::merkle::digests_view;
use crate::network::message::Message;
use crate::network::message::MessageView;
use crate::transaction::generate_random_signedtrans;
use crate::transaction::Mempool;
use crate::transaction::SignedTrans;

verus! {

/// Stages a signed transaction in the pool and gives the announcement of
/// it that goes to every peer.
pub fn stage(pool: &mut Mempool, signed: &SignedTrans) -> (announce: Message)
    requires
        old(pool).wf(),
        signed.hashable(),
    ensures
        final(pool).wf(),
        final(pool)@ == if old(pool)@.contains_key(signed@.hash()) {
            old(pool)@
        } else {
            old(pool)@.insert(signed@.hash(), signed@)
        },
        announce@ == MessageView::NewTransactionHashes(seq![signed@.hash()]),
{
    pool.add(signed);
    let mut hashes: Vec<H256> = Vec::new();
    hashes.push(signed.hash());
    assert(digests_view(hashes@) =~= seq![signed@.hash()]);
    Message::NewTransactionHashes(hashes)
}

/// One round of the generator: a random transaction, signed with a fresh
/// key, is staged and announced. Whatever was drawn, the transaction is
/// validly signed and is in the pool afterwards under the digest announced.
pub fn generate_once(pool: &mut Mempool) -> (announce: Message)
    requires
        old(pool).wf(),
    ensures
        final(pool).wf(),
        exists|h: Seq<u8>|
            {
                &&& announce@ == MessageView::NewTransactionHashes(seq![h])
                &&& #[trigger] final(pool)@.contains_key(h)
                &&& final(pool)@[h].signature_valid() || old(pool)@.contains_key(h)
                &&& forall|k: Seq<u8>|
                    k != h ==> (final(pool)@.contains_key(k) <==> old(pool)@.contains_key(k))
                &&& forall|k: Seq<u8>| old(pool)@.contains_key(k) ==> final(pool)@[k] == old(pool)@[k]
            },
{
    let signed = generate_random_signedtrans();
    let announce = stage(pool, &signed);
    proof {
        let h = signed@.hash();
        assert(final(pool)@.contains_key(h));
    }
    announce
}

} // verus!
