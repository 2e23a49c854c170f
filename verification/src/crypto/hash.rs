//! Fixed-width digests: 256-bit block and transaction identities, 160-bit
//! addresses, and the big-endian numeric order that proof of work is tested
//! against.

use vstd::prelude::*;
use crate::ambient::random_bytes_20;
use crate::ambient::random_bytes_32;

verus! {

/// SHA-256 of a byte string.
pub uninterp spec fn sha256(data: Seq<u8>) -> Seq<u8>;

/// The digest takes inputs of fewer than 2^61 bytes: the length in bits has
/// to fit in 64 bits.
pub const DIGEST_INPUT_LIMIT: u64 = 0x2000_0000_0000_0000;

/// A 256-bit digest.
#[derive(Clone, Copy, Debug, PartialEq, Eq, Hash)]
pub struct H256 {
    pub bytes: [u8; 32],
}

/// A 160-bit address.
#[derive(Clone, Copy, Debug, PartialEq, Eq, Hash)]
pub struct H160 {
    pub bytes: [u8; 20],
}

impl View for H256 {
    type V = Seq<u8>;

    open spec fn view(&self) -> Seq<u8> {
        self.bytes@
    }
}

impl View for H160 {
    type V = Seq<u8>;

    open spec fn view(&self) -> Seq<u8> {
        self.bytes@
    }
}

/// The number that a byte string denotes when read most significant byte
/// first.
pub open spec fn be_value(s: Seq<u8>) -> nat
    decreases s.len(),
{
    if s.len() == 0 {
        0
    } else {
        be_value(s.drop_last()) * 256 + s.last() as nat
    }
}

/// The all-zero byte string of a given length.
pub open spec fn zeros(n: nat) -> Seq<u8> {
    Seq::new(n, |i: int| 0u8)
}

/// Two strings of one length that first differ at `i` are ordered, as
/// numbers, the way their bytes at `i` are.
pub proof fn lemma_be_value_first_difference(a: Seq<u8>, b: Seq<u8>, i: int)
    requires
        a.len() == b.len(),
        0 <= i < a.len(),
        forall|j: int| 0 <= j < i ==> a[j] == b[j],
        a[i] < b[i],
    ensures
        be_value(a) < be_value(b),
    decreases a.len(),
{
    let a1 = a.drop_last();
    let b1 = b.drop_last();
    if i == a.len() - 1 {
        assert(a1 =~= b1);
    } else {
        lemma_be_value_first_difference(a1, b1, i);
    }
}

/// Strings of one length that denote the same number are the same string.
pub proof fn lemma_be_value_injective(a: Seq<u8>, b: Seq<u8>)
    requires
        a.len() == b.len(),
        be_value(a) == be_value(b),
    ensures
        a == b,
    decreases a.len(),
{
    if a.len() > 0 {
        lemma_be_value_injective(a.drop_last(), b.drop_last());
        assert(a =~= a.drop_last().push(a.last()));
        assert(b =~= b.drop_last().push(b.last()));
    } else {
        assert(a =~= b);
    }
}

/// SHA-256 by `ring::digest::digest` with `ring::digest::SHA256`: the result
/// is the digest of exactly the bytes given. Longer inputs than the limit
/// are left out because the outside function does not return on them.
#[verifier::external_body]
pub(crate) fn sha256_digest(data: &[u8]) -> (h: H256)
    requires
        data@.len() < DIGEST_INPUT_LIMIT,
    ensures
        h@ == sha256(data@),
{
    let d = ring::digest::digest(&ring::digest::SHA256, data);
    let mut bytes = [0u8; 32];
    bytes.copy_from_slice(d.as_ref());
    H256 { bytes }
}

impl H256 {
    /// The digest with these bytes.
    pub fn from_bytes(bytes: [u8; 32]) -> (h: H256)
        ensures
            h@ == bytes@,
            h.bytes == bytes,
    {
        H256 { bytes }
    }

    /// The all-zero digest, which stands for "no parent".
    pub fn zero() -> (h: H256)
        ensures
            h@ == zeros(32),
    {
        let h = H256 { bytes: [0u8; 32] };
        assert(h@ =~= zeros(32));
        h
    }

    /// The bytes, most significant first.
    pub fn as_bytes(&self) -> (b: [u8; 32])
        ensures
            b@ == self@,
    {
        self.bytes
    }

    /// The bytes as a vector.
    pub fn to_vec(&self) -> (v: Vec<u8>)
        ensures
            v@ == self@,
    {
        let mut v: Vec<u8> = Vec::new();
        let mut i: usize = 0;
        while i < 32
            invariant
                i <= 32,
                v@ == self@.subrange(0, i as int),
            decreases 32 - i,
        {
            v.push(self.bytes[i]);
            i += 1;
            assert(v@ =~= self@.subrange(0, i as int));
        }
        assert(v@ =~= self@);
        v
    }

    /// Whether two digests are the same.
    pub fn same(&self, other: &H256) -> (r: bool)
        ensures
            r == (self@ == other@),
    {
        let mut i: usize = 0;
        while i < 32
            invariant
                i <= 32,
                forall|j: int| 0 <= j < i ==> self@[j] == other@[j],
            decreases 32 - i,
        {
            if self.bytes[i] != other.bytes[i] {
                return false;
            }
            i += 1;
        }
        assert(self@ =~= other@);
        true
    }

    /// Whether `self`, read as a big-endian number, is at most `other`.
    pub fn le(&self, other: &H256) -> (r: bool)
        ensures
            r == (be_value(self@) <= be_value(other@)),
    {
        let mut i: usize = 0;
        while i < 32
            invariant
                i <= 32,
                forall|j: int| 0 <= j < i ==> self@[j] == other@[j],
            decreases 32 - i,
        {
            let a: u8 = self.bytes[i];
            let b: u8 = other.bytes[i];
            if a < b {
                proof {
                    lemma_be_value_first_difference(self@, other@, i as int);
                }
                return true;
            }
            if a > b {
                proof {
                    lemma_be_value_first_difference(other@, self@, i as int);
                }
                return false;
            }
            i += 1;
        }
        assert(self@ =~= other@);
        true
    }

    /// A digest drawn at random.
    pub fn random() -> (h: H256) {
        H256 { bytes: random_bytes_32() }
    }
}

impl H160 {
    /// The address with these bytes.
    pub fn from_bytes(bytes: [u8; 20]) -> (h: H160)
        ensures
            h@ == bytes@,
            h.bytes == bytes,
    {
        H160 { bytes }
    }

    /// The all-zero address.
    pub fn zero() -> (h: H160)
        ensures
            h@ == zeros(20),
    {
        let h = H160 { bytes: [0u8; 20] };
        assert(h@ =~= zeros(20));
        h
    }

    /// An address drawn at random.
    pub fn random() -> (h: H160) {
        H160 { bytes: random_bytes_20() }
    }
}

} // verus!
