//! Ed25519 key pairs, held as their 32-byte seed, and the two operations on
//! them that the ledger needs: signing a digest and checking a signature.

use vstd::prelude::*;
use crate::crypto::hash::H256;
use crate::ambient::random_bytes_32;

verus! {

/// The Ed25519 public key that belongs to a seed.
pub uninterp spec fn ed25519_public_key(seed: Seq<u8>) -> Seq<u8>;

/// The Ed25519 signature of a message under the key of a seed.
pub uninterp spec fn ed25519_signature(seed: Seq<u8>, msg: Seq<u8>) -> Seq<u8>;

/// Whether a signature of a message checks out under a public key.
pub uninterp spec fn ed25519_verifies(public_key: Seq<u8>, msg: Seq<u8>, signature: Seq<u8>) -> bool;

/// A signing key.
pub struct KeyPair {
    seed: [u8; 32],
}

/// The public key of a seed, by `ring::signature::Ed25519KeyPair::from_seed_unchecked`
/// and `ring::signature::KeyPair::public_key`. It is a function of the seed
/// and 32 bytes long.
#[verifier::external_body]
fn derive_public_key(seed: &[u8; 32]) -> (public_key: Vec<u8>)
    ensures
        public_key@ == ed25519_public_key(seed@),
        public_key@.len() == 32,
{
    let pair = ring::signature::Ed25519KeyPair::from_seed_unchecked(seed).unwrap();
    ring::signature::KeyPair::public_key(&pair).as_ref().to_vec()
}

/// The signature of a digest, by `ring::signature::Ed25519KeyPair::sign` on
/// the key pair of the seed. Ed25519 signing draws no randomness: the
/// signature is a function of seed and message. It is 64 bytes long, and it
/// checks out under the public key of the same seed.
#[verifier::external_body]
fn sign_digest(seed: &[u8; 32], msg: &H256) -> (signature: Vec<u8>)
    ensures
        signature@ == ed25519_signature(seed@, msg@),
        signature@.len() == 64,
        ed25519_verifies(ed25519_public_key(seed@), msg@, signature@),
{
    let pair = ring::signature::Ed25519KeyPair::from_seed_unchecked(seed).unwrap();
    pair.sign(&msg.bytes).as_ref().to_vec()
}

/// The verdict of `ring::signature::UnparsedPublicKey::verify` with
/// `ring::signature::ED25519` on a digest. A key or a signature of the wrong
/// length is a failed check, not an error.
#[verifier::external_body]
pub(crate) fn verify_digest(public_key: &[u8], msg: &H256, signature: &[u8]) -> (ok: bool)
    ensures
        ok == ed25519_verifies(public_key@, msg@, signature@),
{
    let key = ring::signature::UnparsedPublicKey::new(&ring::signature::ED25519, public_key);
    key.verify(&msg.bytes, signature).is_ok()
}

impl KeyPair {
    /// The seed that the key pair is made from.
    pub closed spec fn seed(&self) -> Seq<u8> {
        self.seed@
    }

    /// The public key of this key pair.
    pub open spec fn public_key_spec(&self) -> Seq<u8> {
        ed25519_public_key(self.seed())
    }

    /// The signature that this key pair gives a digest.
    pub open spec fn signature_spec(&self, msg: Seq<u8>) -> Seq<u8> {
        ed25519_signature(self.seed(), msg)
    }

    /// The key pair of a seed.
    pub fn from_seed(seed: [u8; 32]) -> (key: KeyPair)
        ensures
            key.seed() == seed@,
    {
        KeyPair { seed }
    }

    /// A key pair with a seed drawn at random.
    pub fn random() -> (key: KeyPair) {
        KeyPair { seed: random_bytes_32() }
    }

    /// The public key, 32 bytes.
    pub fn public_key(&self) -> (public_key: Vec<u8>)
        ensures
            public_key@ == self.public_key_spec(),
            public_key@.len() == 32,
    {
        derive_public_key(&self.seed)
    }

    /// Signs a digest. The signature is 64 bytes and checks out under this
    /// key pair's public key.
    pub fn sign(&self, msg: &H256) -> (signature: Vec<u8>)
        ensures
            signature@ == self.signature_spec(msg@),
            signature@.len() == 64,
            ed25519_verifies(self.public_key_spec(), msg@, signature@),
    {
        sign_digest(&self.seed, msg)
    }
}

} // verus!
