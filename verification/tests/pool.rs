use chain_core::crypto::hash::{H160, H256};
use chain_core::crypto::key_pair::KeyPair;
use chain_core::generator::{generate_once, stage};
use chain_core::network::message::Message;
use chain_core::transaction::{
    verify, Input, Mempool, Output, SignedTrans, Transaction,
};

fn signed(tag: u8) -> SignedTrans {
    let t = Transaction {
        id: H256::from_bytes([tag; 32]),
        inputs: vec![Input { index: tag, previous_hash: H256::zero() }],
        outputs: vec![Output { balance: tag, address: H160::zero() }],
    };
    SignedTrans::signed_by(t, &KeyPair::from_seed([tag; 32]))
}

#[test]
fn add_is_idempotent() {
    let mut pool = Mempool::new();
    assert_eq!(pool.len(), 0);
    let a = signed(1);
    pool.add(&a);
    assert_eq!(pool.len(), 1);
    pool.add(&a);
    assert_eq!(pool.len(), 1);
    assert!(pool.contains(&a.hash()));
    assert_eq!(pool.get(&a.hash()).unwrap().hash(), a.hash());
}

#[test]
fn remove_takes_out_and_ignores_absent() {
    let mut pool = Mempool::new();
    let a = signed(1);
    let b = signed(2);
    let c = signed(3);
    pool.add(&a);
    pool.add(&b);
    pool.add(&c);
    pool.remove(&a);
    assert_eq!(pool.len(), 2);
    assert!(!pool.contains(&a.hash()));
    assert!(pool.contains(&b.hash()));
    assert!(pool.contains(&c.hash()));
    pool.remove(&a);
    assert_eq!(pool.len(), 2);
    assert!(pool.get(&a.hash()).is_none());
    pool.remove(&c);
    pool.remove(&b);
    assert_eq!(pool.len(), 0);
}

#[test]
fn only_validly_signed_transactions_are_added_when_verified() {
    let mut pool = Mempool::new();
    let good = signed(5);
    let mut forged = signed(6);
    forged.signature[0] ^= 1;
    let mut wrong_key = signed(7);
    wrong_key.public_key = KeyPair::from_seed([8; 32]).public_key();
    assert!(pool.add_verified(&good));
    assert!(!pool.add_verified(&forged));
    assert!(!pool.add_verified(&wrong_key));
    assert_eq!(pool.len(), 1);
    assert!(pool.contains(&good.hash()));
    assert!(!pool.contains(&forged.hash()));
    assert!(pool.add_verified(&good));
    assert_eq!(pool.len(), 1);
}

#[test]
fn stage_adds_and_announces() {
    let mut pool = Mempool::new();
    let a = signed(4);
    match stage(&mut pool, &a) {
        Message::NewTransactionHashes(hashes) => assert_eq!(hashes, vec![a.hash()]),
        other => panic!("unexpected announcement {:?}", other),
    }
    assert!(pool.contains(&a.hash()));
    assert_eq!(pool.len(), 1);
}

#[test]
fn generator_round_stages_a_valid_transaction() {
    let mut pool = Mempool::new();
    let announced = match generate_once(&mut pool) {
        Message::NewTransactionHashes(hashes) => hashes,
        other => panic!("unexpected announcement {:?}", other),
    };
    assert_eq!(announced.len(), 1);
    assert_eq!(pool.len(), 1);
    let t = pool.get(&announced[0]).unwrap();
    assert_eq!(t.hash(), announced[0]);
    assert!(verify(&t.transaction, &t.public_key, &t.signature));
    generate_once(&mut pool);
    assert_eq!(pool.len(), 2);
}
