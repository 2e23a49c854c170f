use chain_core::block::Block;
use chain_core::blockchain::Blockchain;
use chain_core::crypto::hash::H256;
use chain_core::network::message::Message;
use chain_core::network::worker::{Response, Worker};

/// A block with no content that passes proof of work.
fn block_on(parent: &H256, tag: u32) -> Block {
    Block::new(*parent, tag, H256::from_bytes([0xff; 32]), 0, H256::zero(), Vec::new())
}

/// A block with no content that fails proof of work.
fn weak_block_on(parent: &H256, tag: u32) -> Block {
    Block::new(*parent, tag, H256::zero(), 0, H256::zero(), Vec::new())
}

fn get_blocks(m: &Message) -> Vec<H256> {
    match m {
        Message::GetBlocks(hashes) => hashes.clone(),
        other => panic!("expected GetBlocks, got {:?}", other),
    }
}

fn new_block_hashes(r: &Response) -> Vec<H256> {
    match &r.to_all {
        Some(Message::NewBlockHashes(hashes)) => hashes.clone(),
        other => panic!("expected NewBlockHashes, got {:?}", other),
    }
}

fn silent(r: &Response) -> bool {
    r.reply.is_empty() && r.to_all.is_none()
}

#[test]
fn ping_is_answered_in_decimal() {
    let mut chain = Blockchain::new();
    let mut worker = Worker::new();
    for (nonce, text) in [
        (0u64, "0"),
        (7, "7"),
        (10, "10"),
        (1234567890, "1234567890"),
        (u64::MAX, "18446744073709551615"),
    ] {
        let r = worker.handle(&mut chain, &Message::Ping(nonce));
        assert!(r.to_all.is_none());
        assert_eq!(r.reply.len(), 1);
        match &r.reply[0] {
            Message::Pong(answer) => assert_eq!(answer, text),
            other => panic!("expected Pong, got {:?}", other),
        }
    }
}

#[test]
fn pong_and_transaction_messages_need_no_answer() {
    let mut chain = Blockchain::new();
    let mut worker = Worker::new();
    let tip = chain.tip();
    assert!(silent(&worker.handle(&mut chain, &Message::Pong("5".to_string()))));
    assert!(silent(&worker.handle(&mut chain, &Message::NewTransactionHashes(vec![tip]))));
    assert!(silent(&worker.handle(&mut chain, &Message::GetTransactions(vec![tip]))));
    assert!(silent(&worker.handle(&mut chain, &Message::Transactions(Vec::new()))));
    assert_eq!(chain.tip(), tip);
}

#[test]
fn announced_hashes_are_requested_when_unknown() {
    let mut chain = Blockchain::new();
    let mut worker = Worker::new();
    let g = chain.tip();
    let b1 = block_on(&g, 1);
    chain.insert(&b1);
    let x = H256::from_bytes([1; 32]);
    let y = H256::from_bytes([2; 32]);
    let r = worker.handle(&mut chain, &Message::NewBlockHashes(vec![x, b1.hash(), y, g]));
    assert!(r.to_all.is_none());
    assert_eq!(r.reply.len(), 1);
    assert_eq!(get_blocks(&r.reply[0]), vec![x, y]);
}

#[test]
fn duplicate_announce_is_silent() {
    let mut chain = Blockchain::new();
    let mut worker = Worker::new();
    let b1 = block_on(&chain.tip(), 1);
    chain.insert(&b1);
    let r = worker.handle(&mut chain, &Message::NewBlockHashes(vec![b1.hash()]));
    assert!(silent(&r));
    let r = worker.handle(&mut chain, &Message::NewBlockHashes(Vec::new()));
    assert!(silent(&r));
}

#[test]
fn requested_blocks_are_delivered_when_known() {
    let mut chain = Blockchain::new();
    let mut worker = Worker::new();
    let g = chain.tip();
    let b1 = block_on(&g, 1);
    let b2 = block_on(&g, 2);
    chain.insert(&b1);
    chain.insert(&b2);
    let stranger = H256::from_bytes([9; 32]);
    let r = worker.handle(&mut chain, &Message::GetBlocks(vec![b2.hash(), stranger, b1.hash()]));
    assert!(r.to_all.is_none());
    assert_eq!(r.reply.len(), 1);
    match &r.reply[0] {
        Message::Blocks(blocks) => {
            let hashes: Vec<H256> = blocks.iter().map(|b| b.hash()).collect();
            assert_eq!(hashes, vec![b2.hash(), b1.hash()]);
        }
        other => panic!("expected Blocks, got {:?}", other),
    }
    let r = worker.handle(&mut chain, &Message::GetBlocks(vec![stranger]));
    assert!(silent(&r));
}

#[test]
fn orphan_waits_and_is_drained() {
    let mut chain = Blockchain::new();
    let mut worker = Worker::new();
    let g = chain.tip();
    let b2 = block_on(&g, 2);
    let b3 = block_on(&b2.hash(), 3);

    let r = worker.handle(&mut chain, &Message::Blocks(vec![b3.clone()]));
    assert!(r.to_all.is_none());
    assert_eq!(r.reply.len(), 1);
    assert_eq!(get_blocks(&r.reply[0]), vec![b2.hash()]);
    assert_eq!(worker.orphan_count(), 1);
    assert_eq!(worker.orphan_of(&b2.hash()).unwrap().hash(), b3.hash());
    assert_eq!(chain.tip(), g);
    assert_eq!(chain.get_length(), 0);
    assert!(!chain.contain(b3.hash()));

    let r = worker.handle(&mut chain, &Message::Blocks(vec![b2.clone()]));
    assert!(r.reply.is_empty());
    assert_eq!(new_block_hashes(&r), vec![b2.hash(), b3.hash()]);
    assert_eq!(worker.orphan_count(), 0);
    assert!(chain.contain(g));
    assert!(chain.contain(b2.hash()));
    assert!(chain.contain(b3.hash()));
    assert_eq!(chain.tip(), b3.hash());
    assert_eq!(chain.all_blocks_in_longest_chain(), vec![g, b2.hash(), b3.hash()]);
}

#[test]
fn block_without_proof_of_work_is_dropped() {
    let mut chain = Blockchain::new();
    let mut worker = Worker::new();
    let g = chain.tip();
    let weak = weak_block_on(&g, 1);
    assert!(!weak.meets_target());
    let r = worker.handle(&mut chain, &Message::Blocks(vec![weak.clone()]));
    assert!(silent(&r));
    assert_eq!(worker.orphan_count(), 0);
    assert_eq!(chain.tip(), g);
    assert!(!chain.contain(weak.hash()));

    let weak_orphan = weak_block_on(&H256::from_bytes([5; 32]), 2);
    let r = worker.handle(&mut chain, &Message::Blocks(vec![weak_orphan]));
    assert!(silent(&r));
    assert_eq!(worker.orphan_count(), 0);
}

#[test]
fn delivered_duplicate_is_skipped() {
    let mut chain = Blockchain::new();
    let mut worker = Worker::new();
    let b1 = block_on(&chain.tip(), 1);
    let r = worker.handle(&mut chain, &Message::Blocks(vec![b1.clone()]));
    assert_eq!(new_block_hashes(&r), vec![b1.hash()]);
    let r = worker.handle(&mut chain, &Message::Blocks(vec![b1.clone(), b1.clone()]));
    assert!(silent(&r));
    assert_eq!(chain.get_length(), 1);
}

#[test]
fn batch_is_taken_in_order() {
    let mut chain = Blockchain::new();
    let mut worker = Worker::new();
    let g = chain.tip();
    let b1 = block_on(&g, 1);
    let b2 = block_on(&b1.hash(), 2);
    let b3 = block_on(&b2.hash(), 3);
    let lost = block_on(&H256::from_bytes([4; 32]), 4);
    let batch = vec![b3.clone(), lost.clone(), b1.clone(), b2.clone()];
    let r = worker.handle(&mut chain, &Message::Blocks(batch));
    assert_eq!(r.reply.len(), 2);
    assert_eq!(get_blocks(&r.reply[0]), vec![b2.hash()]);
    assert_eq!(get_blocks(&r.reply[1]), vec![H256::from_bytes([4; 32])]);
    assert_eq!(new_block_hashes(&r), vec![b1.hash(), b2.hash(), b3.hash()]);
    assert_eq!(chain.tip(), b3.hash());
    assert_eq!(worker.orphan_count(), 1);
}

#[test]
fn last_orphan_of_a_parent_wins() {
    let mut chain = Blockchain::new();
    let mut worker = Worker::new();
    let g = chain.tip();
    let p = block_on(&g, 1);
    let first = block_on(&p.hash(), 2);
    let second = block_on(&p.hash(), 3);
    worker.handle(&mut chain, &Message::Blocks(vec![first.clone()]));
    worker.handle(&mut chain, &Message::Blocks(vec![second.clone()]));
    assert_eq!(worker.orphan_count(), 1);
    let r = worker.handle(&mut chain, &Message::Blocks(vec![p.clone()]));
    assert_eq!(new_block_hashes(&r), vec![p.hash(), second.hash()]);
    assert!(!chain.contain(first.hash()));
}

#[test]
fn any_order_of_a_chain_ends_on_the_same_tip() {
    let genesis = Blockchain::new().tip();
    let mut blocks = Vec::new();
    let mut parent = genesis;
    for tag in 0..5 {
        let b = block_on(&parent, tag);
        parent = b.hash();
        blocks.push(b);
    }
    let mut in_order = Blockchain::new();
    for b in &blocks {
        in_order.insert(b);
    }
    let orders: [[usize; 5]; 5] =
        [[0, 1, 2, 3, 4], [4, 3, 2, 1, 0], [2, 0, 4, 1, 3], [1, 3, 0, 4, 2], [3, 4, 0, 2, 1]];
    for order in orders {
        let mut chain = Blockchain::new();
        let mut worker = Worker::new();
        for i in order {
            worker.handle(&mut chain, &Message::Blocks(vec![blocks[i].clone()]));
        }
        assert_eq!(chain.tip(), in_order.tip());
        assert_eq!(chain.get_length(), 5);
        assert_eq!(
            chain.all_blocks_in_longest_chain(),
            in_order.all_blocks_in_longest_chain()
        );
        assert_eq!(worker.orphan_count(), 0);
    }
}

#[test]
fn store_never_takes_a_block_without_proof_of_work() {
    let mut chain = Blockchain::new();
    let mut worker = Worker::new();
    let g = chain.tip();
    let b1 = block_on(&g, 1);
    let weak = weak_block_on(&b1.hash(), 2);
    let b3 = block_on(&weak.hash(), 3);
    worker.handle(&mut chain, &Message::Blocks(vec![b3.clone(), weak.clone(), b1.clone()]));
    assert!(chain.contain(b1.hash()));
    assert!(!chain.contain(weak.hash()));
    assert!(!chain.contain(b3.hash()));
    for h in chain.all_blocks_in_longest_chain() {
        if h != g {
            assert!(chain.get(&h).unwrap().meets_target());
        }
    }
}
