//! Orphan convergence: a branch of new blocks reaches the chain store
//! whole, in whatever order its blocks are delivered, because a block that
//! comes before its parent waits in the orphan buffer and is drawn in when
//! the parent arrives.

use vstd::prelude::*;
use vstd::set_lib::lemma_int_range;
use vstd::set_lib::lemma_subset_equality;
use vstd::set_lib::set_int_range;
use crate::block::BlockView;
use crate::chain_state::ChainState;
use crate::network::message::MessageView;
use crate::network::worker::respond;
use crate::network::worker::Progress;

verus! {

/// Each block names the one before it as its parent.
pub open spec fn linked(bs: Seq<BlockView>) -> bool {
    forall|i: int| 1 <= i < bs.len() ==> (#[trigger] bs[i]).header.parent == bs[i - 1].hash()
}

/// No two blocks have one identity.
pub open spec fn distinct(bs: Seq<BlockView>) -> bool {
    forall|i: int, j: int|
        0 <= i < bs.len() && 0 <= j < bs.len() && i != j ==> (#[trigger] bs[i]).hash() != (
        #[trigger] bs[j]).hash()
}

/// A branch for the store: blocks that the store does not know, each with
/// its proof of work, each the parent of the next, the first on a block
/// that the store knows.
pub open spec fn is_branch(chain: ChainState, bs: Seq<BlockView>) -> bool {
    &&& bs.len() > 0 ==> chain.knows(bs[0].header.parent)
    &&& linked(bs)
    &&& distinct(bs)
    &&& forall|i: int|
        0 <= i < bs.len() ==> !chain.knows((#[trigger] bs[i]).hash()) && bs[i].meets_target()
}

/// An order of delivery for `n` blocks: each of `0..n` once.
pub open spec fn is_order(order: Seq<int>, n: nat) -> bool {
    &&& order.len() == n
    &&& order.no_duplicates()
    &&& forall|t: int| 0 <= t < n ==> 0 <= #[trigger] order[t] < n
}

/// The blocks in the order of delivery.
pub open spec fn delivery(bs: Seq<BlockView>, order: Seq<int>) -> Seq<BlockView> {
    order.map_values(|i: int| bs[i])
}

/// A worker that is about to take a batch, its orphan buffer empty.
pub open spec fn fresh(chain: ChainState) -> Progress {
    Progress { chain, orphans: Map::empty(), announced: seq![], requested: seq![] }
}

/// The store and the buffer after each block of `bs` came in a message of
/// its own.
pub open spec fn delivered_singly(
    chain: ChainState,
    orphans: Map<Seq<u8>, BlockView>,
    bs: Seq<BlockView>,
) -> (ChainState, Map<Seq<u8>, BlockView>)
    decreases bs.len(),
{
    if bs.len() == 0 {
        (chain, orphans)
    } else {
        let before = delivered_singly(chain, orphans, bs.drop_last());
        let outcome = respond(before.0, before.1, MessageView::Blocks(seq![bs.last()]));
        (outcome.chain, outcome.orphans)
    }
}

/// What draining does to store and buffer does not depend on what was
/// announced and requested before.
proof fn lemma_drain_ignores_log(p: Progress, q: Progress, last: Seq<u8>)
    requires
        p.chain == q.chain,
        p.orphans == q.orphans,
        p.orphans.dom().finite(),
    ensures
        p.drain(last).chain == q.drain(last).chain,
        p.drain(last).orphans == q.drain(last).orphans,
        p.drain(last).orphans.dom().finite(),
    decreases p.orphans.dom().len(),
{
    if p.orphans.contains_key(last) {
        let child = p.orphans[last];
        lemma_drain_ignores_log(
            Progress {
                chain: p.chain.insert(child),
                orphans: p.orphans.remove(last),
                announced: p.announced.push(child.hash()),
                requested: p.requested,
            },
            Progress {
                chain: q.chain.insert(child),
                orphans: q.orphans.remove(last),
                announced: q.announced.push(child.hash()),
                requested: q.requested,
            },
            child.hash(),
        );
    }
}

/// What a delivered block does to store and buffer does not depend on
/// what was announced and requested before.
proof fn lemma_receive_ignores_log(p: Progress, q: Progress, b: BlockView)
    requires
        p.chain == q.chain,
        p.orphans == q.orphans,
        p.orphans.dom().finite(),
    ensures
        p.receive(b).chain == q.receive(b).chain,
        p.receive(b).orphans == q.receive(b).orphans,
        p.receive(b).orphans.dom().finite(),
{
    if !p.chain.knows(b.hash()) && b.meets_target() && p.chain.knows(b.header.parent) {
        lemma_drain_ignores_log(
            Progress { chain: p.chain.insert(b), announced: p.announced.push(b.hash()), ..p },
            Progress { chain: q.chain.insert(b), announced: q.announced.push(b.hash()), ..q },
            b.hash(),
        );
    }
}

/// Batching does not matter: blocks that come one message each leave the
/// store and the buffer as the same blocks in one message do.
pub proof fn lemma_batching_does_not_matter(
    chain: ChainState,
    orphans: Map<Seq<u8>, BlockView>,
    bs: Seq<BlockView>,
)
    requires
        orphans.dom().finite(),
    ensures
        delivered_singly(chain, orphans, bs).0 == respond(
            chain,
            orphans,
            MessageView::Blocks(bs),
        ).chain,
        delivered_singly(chain, orphans, bs).1 == respond(
            chain,
            orphans,
            MessageView::Blocks(bs),
        ).orphans,
        delivered_singly(chain, orphans, bs).1.dom().finite(),
    decreases bs.len(),
{
    let start = Progress { chain, orphans, announced: seq![], requested: seq![] };
    if bs.len() > 0 {
        lemma_batching_does_not_matter(chain, orphans, bs.drop_last());
        let before = delivered_singly(chain, orphans, bs.drop_last());
        let alone = Progress {
            chain: before.0,
            orphans: before.1,
            announced: seq![],
            requested: seq![],
        };
        let one = seq![bs.last()];
        assert(one.drop_last() =~= Seq::<BlockView>::empty());
        assert(alone.receive_all(one.drop_last()) == alone);
        assert(alone.receive_all(one) == alone.receive(bs.last()));
        lemma_receive_ignores_log(alone, start.receive_all(bs.drop_last()), bs.last());
    }
}

/// The store with the first `k` blocks of the branch inserted in order.
spec fn grown(chain: ChainState, bs: Seq<BlockView>, k: int) -> ChainState {
    chain.insert_all(bs.subrange(0, k))
}

/// Whether `h` is the identity of one of the first `k` blocks.
spec fn is_id_below(bs: Seq<BlockView>, k: int, h: Seq<u8>) -> bool {
    exists|i: int| 0 <= i < k && (#[trigger] bs[i]).hash() == h
}

/// The first index from `j` on that is not in `d`, or `n`.
spec fn front(d: Set<int>, j: int, n: int) -> int
    decreases n - j,
{
    if j < n && d.contains(j) {
        front(d, j + 1, n)
    } else {
        j
    }
}

/// Whether the block at `i` was delivered and has to wait, counting from
/// `m` on.
spec fn waits(bs: Seq<BlockView>, d: Set<int>, m: int, i: int) -> bool {
    m <= i < bs.len() && 1 <= i && d.contains(i)
}

/// Whether a block that has to wait stands under `key`.
spec fn waits_under(bs: Seq<BlockView>, d: Set<int>, m: int, key: Seq<u8>) -> bool {
    exists|i: int| #[trigger] waits(bs, d, m, i) && bs[i - 1].hash() == key
}

/// The buffer holds the delivered blocks from index `m` on, each under its
/// parent, and nothing else.
spec fn waiting(orphans: Map<Seq<u8>, BlockView>, bs: Seq<BlockView>, d: Set<int>, m: int) -> bool {
    &&& orphans.dom().finite()
    &&& forall|i: int| #[trigger]
        waits(bs, d, m, i) ==> orphans.contains_key(bs[i - 1].hash()) && orphans[bs[i
            - 1].hash()] == bs[i]
    &&& forall|key: Seq<u8>| #[trigger] orphans.contains_key(key) ==> waits_under(bs, d, m, key)
}

/// What `front` gives: every index before it is in `d`, and it is not.
proof fn lemma_front(d: Set<int>, j: int, n: int)
    requires
        j <= n,
    ensures
        j <= front(d, j, n) <= n,
        forall|i: int| j <= i < front(d, j, n) ==> d.contains(i),
        front(d, j, n) < n ==> !d.contains(front(d, j, n)),
    decreases n - j,
{
    if j < n && d.contains(j) {
        lemma_front(d, j + 1, n);
    }
}

/// An index that every index before it is in `d` and that is not in `d`
/// itself is what `front` gives.
proof fn lemma_front_is(d: Set<int>, j: int, n: int, k: int)
    requires
        j <= k <= n,
        forall|i: int| j <= i < k ==> d.contains(i),
        k < n ==> !d.contains(k),
    ensures
        front(d, j, n) == k,
    decreases n - j,
{
    if j < k {
        lemma_front_is(d, j + 1, n, k);
    }
}

/// The store with the first `k` blocks is consistent, knows what the
/// store knew and those blocks, and takes the next block of the branch.
proof fn lemma_grown(chain: ChainState, bs: Seq<BlockView>, k: int)
    requires
        chain.consistent(),
        is_branch(chain, bs),
        0 <= k <= bs.len(),
    ensures
        grown(chain, bs, k).consistent(),
        forall|h: Seq<u8>|
            grown(chain, bs, k).knows(h) <==> chain.knows(h) || is_id_below(bs, k, h),
        k < bs.len() ==> grown(chain, bs, k).admits(bs[k]),
        k < bs.len() ==> grown(chain, bs, k + 1) == grown(chain, bs, k).insert(bs[k]),
    decreases k,
{
    if k > 0 {
        lemma_grown(chain, bs, k - 1);
        let before = grown(chain, bs, k - 1);
        assert(bs.subrange(0, k).drop_last() =~= bs.subrange(0, k - 1));
        assert(grown(chain, bs, k) == before.insert(bs[k - 1]));
        before.lemma_insert_consistent(bs[k - 1]);
        assert forall|h: Seq<u8>|
            grown(chain, bs, k).knows(h) <==> chain.knows(h) || is_id_below(bs, k, h) by {
            if is_id_below(bs, k, h) {
                let i = choose|i: int| 0 <= i < k && (#[trigger] bs[i]).hash() == h;
                if i < k - 1 {
                    assert(is_id_below(bs, k - 1, h));
                }
            }
            if is_id_below(bs, k - 1, h) {
                let i = choose|i: int| 0 <= i < k - 1 && (#[trigger] bs[i]).hash() == h;
                assert(bs[i].hash() == h);
            }
            if h == bs[k - 1].hash() {
                assert(is_id_below(bs, k, h));
            }
        }
    } else {
        assert(bs.subrange(0, 0) =~= Seq::<BlockView>::empty());
        assert forall|h: Seq<u8>|
            grown(chain, bs, k).knows(h) <==> chain.knows(h) || is_id_below(bs, k, h) by {}
    }
    if k < bs.len() {
        let here = grown(chain, bs, k);
        assert(bs.subrange(0, k + 1).drop_last() =~= bs.subrange(0, k));
        assert(bs.subrange(0, k + 1).last() == bs[k]);
        assert(!here.knows(bs[k].hash())) by {
            if is_id_below(bs, k, bs[k].hash()) {
                let i = choose|i: int| 0 <= i < k && (#[trigger] bs[i]).hash() == bs[k].hash();
                assert(bs[i].hash() != bs[k].hash());
            }
        }
        assert(here.knows(bs[k].header.parent)) by {
            if k > 0 {
                assert(bs[k].header.parent == bs[k - 1].hash());
                assert(is_id_below(bs, k, bs[k - 1].hash()));
            }
        }
    }
}

/// From index `k` on, no block of the branch is known to the store that
/// has the first `k` of them.
proof fn lemma_rest_unknown(chain: ChainState, bs: Seq<BlockView>, k: int, j: int)
    requires
        chain.consistent(),
        is_branch(chain, bs),
        0 <= k <= j < bs.len(),
    ensures
        !grown(chain, bs, k).knows(bs[j].hash()),
{
    lemma_grown(chain, bs, k);
    if is_id_below(bs, k, bs[j].hash()) {
        let i = choose|i: int| 0 <= i < k && (#[trigger] bs[i]).hash() == bs[j].hash();
        assert(bs[i].hash() != bs[j].hash());
    }
}

/// Draining after the block at `m - 1` entered the store draws in the
/// delivered blocks that follow it without a gap, and leaves the others
/// waiting.
proof fn lemma_drain_branch(
    chain: ChainState,
    bs: Seq<BlockView>,
    d: Set<int>,
    p: Progress,
    m: int,
)
    requires
        chain.consistent(),
        is_branch(chain, bs),
        1 <= m <= bs.len(),
        p.chain == grown(chain, bs, m),
        waiting(p.orphans, bs, d, m),
    ensures
        p.drain(bs[m - 1].hash()).chain == grown(chain, bs, front(d, m, bs.len() as int)),
        waiting(p.drain(bs[m - 1].hash()).orphans, bs, d, front(d, m, bs.len() as int)),
    decreases bs.len() - m,
{
    let n = bs.len() as int;
    let last = bs[m - 1].hash();
    if m < n && d.contains(m) {
        assert(waits(bs, d, m, m));
        let child = p.orphans[last];
        assert(child == bs[m]);
        lemma_grown(chain, bs, m);
        let next = Progress {
            chain: p.chain.insert(child),
            orphans: p.orphans.remove(last),
            announced: p.announced.push(child.hash()),
            requested: p.requested,
        };
        assert(waiting(next.orphans, bs, d, m + 1)) by {
            assert forall|i: int| #[trigger] waits(bs, d, m + 1, i) implies next.orphans.contains_key(
                bs[i - 1].hash(),
            ) && next.orphans[bs[i - 1].hash()] == bs[i] by {
                assert(waits(bs, d, m, i));
                assert(bs[i - 1].hash() != bs[m - 1].hash());
            }
            assert forall|key: Seq<u8>| #[trigger] next.orphans.contains_key(key) implies waits_under(
                bs,
                d,
                m + 1,
                key,
            ) by {
                assert(p.orphans.contains_key(key));
                let i = choose|i: int| #[trigger] waits(bs, d, m, i) && bs[i - 1].hash() == key;
                if i == m {
                    assert(false);
                }
                assert(waits(bs, d, m + 1, i));
            }
        }
        lemma_drain_branch(chain, bs, d, next, m + 1);
    } else {
        if p.orphans.contains_key(last) {
            assert(waits_under(bs, d, m, last));
            let i = choose|i: int| #[trigger] waits(bs, d, m, i) && bs[i - 1].hash() == last;
            if i != m {
                assert(bs[i - 1].hash() != bs[m - 1].hash());
            }
            assert(false);
        }
    }
}

/// The block at the front of what is still missing is admitted, and with
/// it the store has one block more of the branch.
proof fn lemma_next_admitted(chain: ChainState, bs: Seq<BlockView>, k: int)
    requires
        chain.consistent(),
        is_branch(chain, bs),
        0 <= k < bs.len(),
    ensures
        grown(chain, bs, k).admits(bs[k]),
        grown(chain, bs, k + 1) == grown(chain, bs, k).insert(bs[k]),
{
    lemma_grown(chain, bs, k);
}

/// Delivery of the block at the front of what is missing: it enters the
/// store and draws in those that waited for it.
proof fn lemma_deliver_front(
    chain: ChainState,
    bs: Seq<BlockView>,
    d: Set<int>,
    before: Progress,
    k: int,
)
    requires
        chain.consistent(),
        is_branch(chain, bs),
        0 <= k < bs.len(),
        !d.contains(k),
        k == front(d, 0, bs.len() as int),
        before.chain == grown(chain, bs, k),
        waiting(before.orphans, bs, d, k),
    ensures
        before.receive(bs[k]).chain == grown(
            chain,
            bs,
            front(d.insert(k), 0, bs.len() as int),
        ),
        waiting(
            before.receive(bs[k]).orphans,
            bs,
            d.insert(k),
            front(d.insert(k), 0, bs.len() as int),
        ),
{
    let n = bs.len() as int;
    let d2 = d.insert(k);
    lemma_next_admitted(chain, bs, k);
    let grafted = Progress {
        chain: before.chain.insert(bs[k]),
        announced: before.announced.push(bs[k].hash()),
        ..before
    };
    assert(before.receive(bs[k]) == grafted.drain(bs[k].hash()));
    assert(waiting(grafted.orphans, bs, d2, k + 1)) by {
        assert forall|i: int| #[trigger] waits(bs, d2, k + 1, i) implies grafted.orphans.contains_key(
            bs[i - 1].hash(),
        ) && grafted.orphans[bs[i - 1].hash()] == bs[i] by {
            assert(waits(bs, d, k, i));
        }
        assert forall|key: Seq<u8>| #[trigger] grafted.orphans.contains_key(key) implies waits_under(
            bs,
            d2,
            k + 1,
            key,
        ) by {
            assert(waits_under(bs, d, k, key));
            let i = choose|i: int| #[trigger] waits(bs, d, k, i) && bs[i - 1].hash() == key;
            assert(waits(bs, d2, k + 1, i));
        }
    }
    lemma_drain_branch(chain, bs, d2, grafted, k + 1);
    let k2 = front(d2, k + 1, n);
    lemma_front(d, 0, n);
    lemma_front(d2, k + 1, n);
    assert forall|i: int| 0 <= i < k2 implies d2.contains(i) by {
        if i < k {
            assert(d.contains(i));
        }
    }
    lemma_front_is(d2, 0, n, k2);
}

/// Delivery of a block further on: its parent is missing, so it waits.
proof fn lemma_deliver_later(
    chain: ChainState,
    bs: Seq<BlockView>,
    d: Set<int>,
    before: Progress,
    k: int,
    j: int,
)
    requires
        chain.consistent(),
        is_branch(chain, bs),
        0 <= k < j < bs.len(),
        !d.contains(j),
        !d.contains(k),
        k == front(d, 0, bs.len() as int),
        before.chain == grown(chain, bs, k),
        waiting(before.orphans, bs, d, k),
    ensures
        before.receive(bs[j]).chain == grown(chain, bs, k),
        front(d.insert(j), 0, bs.len() as int) == k,
        waiting(before.receive(bs[j]).orphans, bs, d.insert(j), k),
{
    let n = bs.len() as int;
    let d2 = d.insert(j);
    let after = before.receive(bs[j]);
    lemma_rest_unknown(chain, bs, k, j);
    lemma_rest_unknown(chain, bs, k, j - 1);
    assert(bs[j].header.parent == bs[j - 1].hash());
    let key = bs[j - 1].hash();
    assert(after.orphans == before.orphans.insert(key, bs[j]));
    lemma_front(d, 0, n);
    assert forall|i: int| 0 <= i < k implies d2.contains(i) by {
        assert(d.contains(i));
    }
    lemma_front_is(d2, 0, n, k);
    assert forall|i: int| #[trigger] waits(bs, d2, k, i) implies after.orphans.contains_key(
        bs[i - 1].hash(),
    ) && after.orphans[bs[i - 1].hash()] == bs[i] by {
        if i != j {
            assert(waits(bs, d, k, i));
            assert(bs[i - 1].hash() != bs[j - 1].hash());
        }
    }
    assert forall|key2: Seq<u8>| #[trigger] after.orphans.contains_key(key2) implies waits_under(
        bs,
        d2,
        k,
        key2,
    ) by {
        if key2 == key {
            assert(waits(bs, d2, k, j));
        } else {
            assert(before.orphans.contains_key(key2));
            assert(waits_under(bs, d, k, key2));
            let i = choose|i: int| #[trigger] waits(bs, d, k, i) && bs[i - 1].hash() == key2;
            assert(waits(bs, d2, k, i));
        }
    }
}

/// The indices delivered by the first `t` deliveries are those of the
/// first `t - 1` and the one delivered last, which is new.
proof fn lemma_delivered_set(order: Seq<int>, t: int)
    requires
        order.no_duplicates(),
        1 <= t <= order.len(),
    ensures
        order.subrange(0, t).to_set() == order.subrange(0, t - 1).to_set().insert(order[t - 1]),
        !order.subrange(0, t - 1).to_set().contains(order[t - 1]),
{
    let sooner = order.subrange(0, t - 1);
    let sent = order.subrange(0, t);
    let j = order[t - 1];
    assert forall|i: int| sent.to_set().contains(i) <==> sooner.to_set().insert(j).contains(i) by {
        if sent.contains(i) {
            let s = choose|s: int| 0 <= s < sent.len() && sent[s] == i;
            if s < t - 1 {
                assert(sooner[s] == i);
            }
        }
        if sooner.contains(i) {
            let s = choose|s: int| 0 <= s < sooner.len() && sooner[s] == i;
            assert(sent[s] == i);
        }
        if i == j {
            assert(sent[t - 1] == i);
        }
    }
    assert(sent.to_set() =~= sooner.to_set().insert(j));
    if sooner.contains(j) {
        let s = choose|s: int| 0 <= s < sooner.len() && sooner[s] == j;
        assert(order[s] == order[t - 1]);
    }
}

/// Where a worker stands after the first `t` deliveries: the store has
/// the longest run of blocks from the start of the branch that were all
/// delivered, and the buffer has the other delivered blocks.
proof fn lemma_delivered(chain: ChainState, bs: Seq<BlockView>, order: Seq<int>, t: int)
    requires
        chain.consistent(),
        is_branch(chain, bs),
        is_order(order, bs.len()),
        0 <= t <= bs.len(),
    ensures
        fresh(chain).receive_all(delivery(bs, order).subrange(0, t)).chain == grown(
            chain,
            bs,
            front(order.subrange(0, t).to_set(), 0, bs.len() as int),
        ),
        waiting(
            fresh(chain).receive_all(delivery(bs, order).subrange(0, t)).orphans,
            bs,
            order.subrange(0, t).to_set(),
            front(order.subrange(0, t).to_set(), 0, bs.len() as int),
        ),
    decreases t,
{
    let n = bs.len() as int;
    if t == 0 {
        let d = order.subrange(0, 0).to_set();
        assert(delivery(bs, order).subrange(0, 0) =~= Seq::<BlockView>::empty());
        assert(bs.subrange(0, 0) =~= Seq::<BlockView>::empty());
        assert(forall|i: int| !d.contains(i));
        lemma_front(d, 0, n);
        assert(fresh(chain).orphans.dom() =~= Set::<Seq<u8>>::empty());
    } else {
        lemma_delivered(chain, bs, order, t - 1);
        lemma_delivered_set(order, t);
        let all = delivery(bs, order);
        let before = fresh(chain).receive_all(all.subrange(0, t - 1));
        let d = order.subrange(0, t - 1).to_set();
        let k = front(d, 0, n);
        let j = order[t - 1];
        assert(all.subrange(0, t).drop_last() =~= all.subrange(0, t - 1));
        assert(all.subrange(0, t).last() == bs[j]);
        assert(fresh(chain).receive_all(all.subrange(0, t)) == before.receive(bs[j]));
        lemma_front(d, 0, n);
        if j == k {
            lemma_deliver_front(chain, bs, d, before, k);
        } else {
            lemma_deliver_later(chain, bs, d, before, k, j);
        }
    }
}

/// An order of delivery names every index.
proof fn lemma_order_is_onto(order: Seq<int>, n: nat)
    requires
        is_order(order, n),
    ensures
        order.to_set() == set_int_range(0, n as int),
{
    order.unique_seq_to_set();
    vstd::seq_lib::seq_to_set_is_finite(order);
    lemma_int_range(0, n as int);
    assert(order.to_set().subset_of(set_int_range(0, n as int))) by {
        assert forall|i: int| order.to_set().contains(i) implies set_int_range(0, n as int).contains(
            i,
        ) by {
            let s = choose|s: int| 0 <= s < order.len() && order[s] == i;
            assert(0 <= order[s] < n);
        }
    }
    lemma_subset_equality(order.to_set(), set_int_range(0, n as int));
}

/// Orphan convergence. When the blocks of a branch are delivered to a
/// worker with an empty orphan buffer, one by one in any order, the store
/// ends as if they had been inserted in the order of the branch, and no
/// block is left waiting.
pub proof fn lemma_orphan_convergence(chain: ChainState, bs: Seq<BlockView>, order: Seq<int>)
    requires
        chain.consistent(),
        is_branch(chain, bs),
        is_order(order, bs.len()),
    ensures
        fresh(chain).receive_all(delivery(bs, order)).chain == chain.insert_all(bs),
        fresh(chain).receive_all(delivery(bs, order)).orphans == Map::<
            Seq<u8>,
            BlockView,
        >::empty(),
{
    let n = bs.len() as int;
    let all = delivery(bs, order);
    lemma_delivered(chain, bs, order, n);
    lemma_order_is_onto(order, bs.len());
    assert(all.subrange(0, n) =~= all);
    assert(order.subrange(0, n) =~= order);
    let d = order.to_set();
    lemma_front_is(d, 0, n, n);
    assert(bs.subrange(0, n) =~= bs);
    let done = fresh(chain).receive_all(all);
    assert(done.orphans =~= Map::<Seq<u8>, BlockView>::empty()) by {
        assert forall|key: Seq<u8>| !done.orphans.contains_key(key) by {
            if done.orphans.contains_key(key) {
                assert(waits_under(bs, d, n, key));
            }
        }
    }
}

/// Orphan convergence, message by message. When the blocks of a branch
/// come to a worker with an empty orphan buffer one message each, in any
/// order, the store ends as if they had been inserted in the order of the
/// branch, and no block is left waiting.
pub proof fn lemma_orphan_convergence_singly(
    chain: ChainState,
    bs: Seq<BlockView>,
    order: Seq<int>,
)
    requires
        chain.consistent(),
        is_branch(chain, bs),
        is_order(order, bs.len()),
    ensures
        delivered_singly(chain, Map::empty(), delivery(bs, order)).0 == chain.insert_all(bs),
        delivered_singly(chain, Map::empty(), delivery(bs, order)).1 == Map::<
            Seq<u8>,
            BlockView,
        >::empty(),
{
    lemma_orphan_convergence(chain, bs, order);
    lemma_batching_does_not_matter(chain, Map::empty(), delivery(bs, order));
}

/// The order of the branch itself is an order of delivery.
proof fn lemma_branch_order(bs: Seq<BlockView>)
    ensures
        is_order(Seq::new(bs.len(), |i: int| i), bs.len()),
        delivery(bs, Seq::new(bs.len(), |i: int| i)) == bs,
{
    assert(delivery(bs, Seq::new(bs.len(), |i: int| i)) =~= bs);
}

/// Any order of delivery ends with the store that delivery in the order
/// of the branch, parent before child, ends with: the same blocks, the
/// same longest chain, the same tip.
pub proof fn lemma_order_does_not_matter(chain: ChainState, bs: Seq<BlockView>, order: Seq<int>)
    requires
        chain.consistent(),
        is_branch(chain, bs),
        is_order(order, bs.len()),
    ensures
        fresh(chain).receive_all(delivery(bs, order)).chain == fresh(chain).receive_all(bs).chain,
        fresh(chain).receive_all(delivery(bs, order)).chain.tip == fresh(chain).receive_all(
            bs,
        ).chain.tip,
{
    lemma_orphan_convergence(chain, bs, order);
    lemma_branch_order(bs);
    lemma_orphan_convergence(chain, bs, Seq::new(bs.len(), |i: int| i));
}

} // verus!
