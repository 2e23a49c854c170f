use chain_core::block::{generate_genesis_block, generate_random_block, Block};
use chain_core::blockchain::Blockchain;
use chain_core::crypto::hash::H256;
use std::collections::HashMap;

/// A block with no content whose identity depends on `tag`.
fn block_on(parent: &H256, tag: u32) -> Block {
    Block::new(*parent, tag, H256::from_bytes([0xff; 32]), 0, H256::zero(), Vec::new())
}

#[test]
fn insert_one() {
    let mut blockchain = Blockchain::new();
    let genesis_hash = blockchain.tip();
    let block = generate_random_block(&genesis_hash);
    blockchain.insert(&block);
    assert_eq!(blockchain.tip(), block.hash());
}

#[test]
fn verify_several() {
    let mut t: HashMap<i32, i32> = HashMap::new();
    t.insert(1, 2);
    t.insert(2, 3);
    t.insert(3, 2);
    t.insert(4, 1);
    println!("----------{:?}", t.len());
    let mut i = 1;
    while t.contains_key(&i) {
        let next = t.get(&i).unwrap().clone();
        t.remove(&i);
        i = next;
    }
    println!("----------{:?}", t.len());

    let mut blockchain = Blockchain::new();
    let genesis_hash = blockchain.tip();
    let block = generate_random_block(&genesis_hash);
    let block2 = generate_random_block(&genesis_hash);
    let block3 = generate_random_block(&block2.hash());
    let block4 = generate_random_block(&block.hash());
    let block5 = generate_random_block(&block3.hash());
    blockchain.insert(&block);
    blockchain.insert(&block2);
    blockchain.insert(&block3);
    blockchain.insert(&block4);
    blockchain.insert(&block5);
    let result = blockchain.all_blocks_in_longest_chain();
    for i in 0..result.len() {
        println!("{:?}", result[i]);
    }
    assert_eq!(result, vec![genesis_hash, block2.hash(), block3.hash(), block5.hash()]);
}

#[test]
fn new_store_holds_genesis_only() {
    let store = Blockchain::new();
    let genesis = generate_genesis_block(&H256::zero());
    assert_eq!(store.tip(), genesis.hash());
    assert_eq!(store.get_length(), 0);
    assert_eq!(store.all_blocks_in_longest_chain(), vec![genesis.hash()]);
    assert!(store.in_longest_chain(genesis.hash()));
    assert!(store.contain(genesis.hash()));
    assert_eq!(store.height_of(&genesis.hash()), Some(0));
    assert_eq!(store.get(&genesis.hash()).unwrap().header.parent, H256::zero());
    let mut easy = [0u8; 32];
    easy[0] = 1;
    assert_eq!(store.get_difficulty(), H256::from_bytes(easy));
}

#[test]
fn genesis_is_the_same_every_time() {
    let a = Blockchain::new();
    let b = Blockchain::new();
    assert_eq!(a.tip(), b.tip());
    let g1 = generate_genesis_block(&H256::zero());
    let g2 = generate_genesis_block(&H256::zero());
    assert_eq!(g1.header.merkle_root, g2.header.merkle_root);
    assert_eq!(g1.header.get_create_time(), 0);
    assert_eq!(g1.header.nonce, 0);
    assert_eq!(g1.content.len(), 1);
    assert_eq!(g1.content[0].signature, g2.content[0].signature);
}

#[test]
fn extend_tip() {
    let mut store = Blockchain::new();
    let g = store.tip();
    let b1 = block_on(&g, 1);
    store.insert(&b1);
    assert_eq!(store.tip(), b1.hash());
    assert_eq!(store.get_length(), 1);
    assert_eq!(store.all_blocks_in_longest_chain(), vec![g, b1.hash()]);
    assert_eq!(store.get_difficulty(), H256::from_bytes([0xff; 32]));
}

#[test]
fn fork_ends_on_the_longer_branch() {
    let mut store = Blockchain::new();
    let g = store.tip();
    let b1 = block_on(&g, 1);
    let b2 = block_on(&g, 2);
    let b3 = block_on(&b2.hash(), 3);
    let b4 = block_on(&b1.hash(), 4);
    let b5 = block_on(&b3.hash(), 5);
    for b in [&b1, &b2, &b3, &b4, &b5] {
        store.insert(b);
    }
    assert_eq!(
        store.all_blocks_in_longest_chain(),
        vec![g, b2.hash(), b3.hash(), b5.hash()]
    );
    assert_eq!(store.tip(), b5.hash());
    assert_eq!(store.get_length(), 3);
    assert!(store.contain(b1.hash()));
    assert!(store.contain(b4.hash()));
    assert!(!store.in_longest_chain(b1.hash()));
    assert!(!store.in_longest_chain(b4.hash()));
    assert!(store.in_longest_chain(b3.hash()));
    assert_eq!(store.height_of(&b4.hash()), Some(2));
}

#[test]
fn reorg_switches_tip() {
    let mut store = Blockchain::new();
    let g = store.tip();
    let b1 = block_on(&g, 1);
    store.insert(&b1);
    assert_eq!(store.tip(), b1.hash());
    let b2 = block_on(&g, 2);
    store.insert(&b2);
    assert_eq!(store.tip(), b1.hash());
    assert_eq!(store.get_length(), 1);
    let b3 = block_on(&b2.hash(), 3);
    store.insert(&b3);
    assert_eq!(store.tip(), b3.hash());
    assert_eq!(store.get_length(), 2);
    assert_eq!(store.all_blocks_in_longest_chain(), vec![g, b2.hash(), b3.hash()]);
    assert!(store.contain(b1.hash()));
    assert!(!store.in_longest_chain(b1.hash()));
}

#[test]
fn deep_reorg_replaces_the_whole_suffix() {
    let mut store = Blockchain::new();
    let g = store.tip();
    let a1 = block_on(&g, 11);
    let a2 = block_on(&a1.hash(), 12);
    let a3 = block_on(&a2.hash(), 13);
    let c1 = block_on(&g, 21);
    let c2 = block_on(&c1.hash(), 22);
    let c3 = block_on(&c2.hash(), 23);
    let c4 = block_on(&c3.hash(), 24);
    for b in [&a1, &a2, &a3, &c1, &c2, &c3] {
        store.insert(b);
    }
    assert_eq!(store.tip(), a3.hash());
    store.insert(&c4);
    assert_eq!(store.tip(), c4.hash());
    assert_eq!(store.get_length(), 4);
    assert_eq!(
        store.all_blocks_in_longest_chain(),
        vec![g, c1.hash(), c2.hash(), c3.hash(), c4.hash()]
    );
    let a4 = block_on(&a3.hash(), 14);
    let a5 = block_on(&a4.hash(), 15);
    store.insert(&a4);
    assert_eq!(store.tip(), c4.hash());
    store.insert(&a5);
    assert_eq!(
        store.all_blocks_in_longest_chain(),
        vec![g, a1.hash(), a2.hash(), a3.hash(), a4.hash(), a5.hash()]
    );
}

#[test]
fn equal_height_keeps_first_seen() {
    let mut store = Blockchain::new();
    let g = store.tip();
    let b1 = block_on(&g, 1);
    let b2 = block_on(&g, 2);
    store.insert(&b1);
    store.insert(&b2);
    assert_eq!(store.tip(), b1.hash());
    assert_eq!(store.height_of(&b2.hash()), Some(1));
}

#[test]
fn inserting_twice_is_inserting_once() {
    let mut once = Blockchain::new();
    let mut twice = Blockchain::new();
    let g = once.tip();
    let b1 = block_on(&g, 1);
    let b2 = block_on(&b1.hash(), 2);
    once.insert(&b1);
    once.insert(&b2);
    twice.insert(&b1);
    twice.insert(&b1);
    twice.insert(&b2);
    twice.insert(&b1);
    twice.insert(&b2);
    assert_eq!(once.tip(), twice.tip());
    assert_eq!(once.get_length(), twice.get_length());
    assert_eq!(
        once.all_blocks_in_longest_chain(),
        twice.all_blocks_in_longest_chain()
    );
}

#[test]
fn tip_height_is_the_greatest_height() {
    let mut store = Blockchain::new();
    let g = store.tip();
    let b1 = block_on(&g, 1);
    let b2 = block_on(&g, 2);
    let b3 = block_on(&b2.hash(), 3);
    let all = [&b1, &b2, &b3];
    for b in all {
        store.insert(b);
        let top = store.height_of(&store.tip()).unwrap();
        assert_eq!(top, store.get_length());
        for known in all {
            if let Some(h) = store.height_of(&known.hash()) {
                assert!(h <= top);
            }
        }
    }
}

#[test]
fn longest_chain_is_a_path() {
    let mut store = Blockchain::new();
    let g = store.tip();
    let b1 = block_on(&g, 1);
    let b2 = block_on(&g, 2);
    let b3 = block_on(&b2.hash(), 3);
    let b4 = block_on(&b3.hash(), 4);
    for b in [&b1, &b2, &b3, &b4] {
        store.insert(b);
    }
    let chain = store.all_blocks_in_longest_chain();
    for k in 1..chain.len() {
        let block = store.get(&chain[k]).unwrap();
        assert_eq!(block.header.parent, chain[k - 1]);
        assert!(store.in_longest_chain(block.header.parent));
        assert_eq!(store.height_of(&chain[k]), Some(k as u32));
    }
}

#[test]
fn store_holds_side_branches_too() {
    let mut store = Blockchain::new();
    let g = store.tip();
    let target = store.get_difficulty();
    let make = |parent: H256, nonce: u32| {
        Block::new(parent, nonce, target, 0, H256::from_bytes([0u8; 32]), vec![])
    };
    let b1 = make(g, 1);
    let b2 = make(g, 2);
    let b3 = make(g, 3);
    store.insert(&b1);
    store.insert(&b2);
    assert!(store.contain(g));
    assert!(store.contain(b1.hash()));
    assert!(store.contain(b2.hash()));
    assert!(!store.contain(b3.hash()));
    assert!(store.in_longest_chain(g));
    assert!(store.in_longest_chain(b1.hash()));
    assert!(!store.in_longest_chain(b2.hash()));
    assert!(!store.in_longest_chain(b3.hash()));
}

#[test]
fn blocks_are_equal_by_identity() {
    let g = Blockchain::new().tip();
    let a = block_on(&g, 1);
    let b = block_on(&g, 2);
    let same_header = Block::new(
        g,
        1,
        H256::from_bytes([0xff; 32]),
        0,
        H256::zero(),
        vec![chain_core::transaction::generate_random_signedtrans()],
    );
    assert!(a == a.clone());
    assert!(a != b);
    assert!(a == same_header);
}

#[test]
fn unknown_hash_is_not_found() {
    let store = Blockchain::new();
    let stranger = H256::from_bytes([7; 32]);
    assert!(!store.contain(stranger));
    assert!(!store.in_longest_chain(stranger));
    assert!(store.get(&stranger).is_none());
    assert_eq!(store.height_of(&stranger), None);
}
