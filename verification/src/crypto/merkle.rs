//! The Merkle root that a block header commits its content with.

use vstd::prelude::*;
use crate::crypto::hash::sha256;
use crate::crypto::hash::sha256_digest;
use crate::crypto::hash::zeros;
use crate::crypto::hash::H256;
use crate::encoding::push_all;

verus! {

/// The digest of two digests side by side.
pub open spec fn pair_digest(left: Seq<u8>, right: Seq<u8>) -> Seq<u8> {
    sha256(left + right)
}

/// The level above `level`: each pair of neighbours digested together, a
/// last item without a neighbour paired with itself.
pub open spec fn level_up(level: Seq<Seq<u8>>) -> Seq<Seq<u8>> {
    Seq::new(
        ((level.len() + 1) / 2) as nat,
        |i: int|
            pair_digest(
                level[2 * i],
                if 2 * i + 1 < level.len() {
                    level[2 * i + 1]
                } else {
                    level[2 * i]
                },
            ),
    )
}

/// The root over a list of leaf digests: the single item left after going
/// up level by level; all zeros for no leaves.
pub open spec fn merkle_root(leaves: Seq<Seq<u8>>) -> Seq<u8>
    decreases leaves.len(),
{
    if leaves.len() == 0 {
        zeros(32)
    } else if leaves.len() == 1 {
        leaves[0]
    } else {
        merkle_root(level_up(leaves))
    }
}

/// The digests of a list as byte strings.
pub open spec fn digests_view(digests: Seq<H256>) -> Seq<Seq<u8>> {
    digests.map_values(|h: H256| h@)
}

/// The digest of two digests side by side.
fn digest_pair(left: &H256, right: &H256) -> (h: H256)
    ensures
        h@ == pair_digest(left@, right@),
{
    let mut bytes: Vec<u8> = Vec::new();
    push_all(&mut bytes, left.bytes.as_slice());
    push_all(&mut bytes, right.bytes.as_slice());
    assert(bytes@ =~= left@ + right@);
    sha256_digest(bytes.as_slice())
}

/// The level above `level`.
fn next_level(level: &Vec<H256>) -> (next: Vec<H256>)
    ensures
        digests_view(next@) == level_up(digests_view(level@)),
        next.len() == (level.len() + 1) / 2,
{
    let n = level.len();
    let ghost below = digests_view(level@);
    let mut next: Vec<H256> = Vec::new();
    let mut k: usize = 0;
    while k < n
        invariant
            n == level.len(),
            below == digests_view(level@),
            k <= n,
            k == 2 * next.len() || (k == n && n == 2 * next.len() - 1),
            forall|i: int| 0 <= i < next.len() ==> (#[trigger] next@[i])@ == level_up(below)[i],
        decreases n - k,
    {
        if k + 1 < n {
            let h = digest_pair(&level[k], &level[k + 1]);
            next.push(h);
            k += 2;
        } else {
            let h = digest_pair(&level[k], &level[k]);
            next.push(h);
            k += 1;
        }
    }
    assert(digests_view(next@) =~= level_up(below));
    next
}

/// The Merkle root over `leaves`.
pub fn root_of(leaves: Vec<H256>) -> (root: H256)
    ensures
        root@ == merkle_root(digests_view(leaves@)),
{
    if leaves.len() == 0 {
        return H256::zero();
    }
    let mut level = leaves;
    while level.len() > 1
        invariant
            level.len() >= 1,
            merkle_root(digests_view(level@)) == merkle_root(digests_view(leaves@)),
        decreases level.len(),
    {
        level = next_level(&level);
    }
    level[0]
}

} // verus!
