use chain_core::block::Header;
use chain_core::crypto::hash::{H160, H256};
use chain_core::crypto::key_pair::KeyPair;
use chain_core::encoding::{push_all, push_le, push_len};
use chain_core::transaction::{Input, Output, SignedTrans, Transaction};

#[test]
fn little_endian_integers() {
    let mut out = vec![9u8];
    push_le(&mut out, 0x0102_0304, 4);
    assert_eq!(out, vec![9, 4, 3, 2, 1]);
    let mut out = Vec::new();
    push_le(&mut out, 258, 1);
    assert_eq!(out, vec![2]);
    let mut out = Vec::new();
    push_le(&mut out, 7, 0);
    assert!(out.is_empty());
    let mut out = Vec::new();
    push_len(&mut out, 3);
    assert_eq!(out, vec![3, 0, 0, 0, 0, 0, 0, 0]);
    let mut out = vec![1u8];
    push_all(&mut out, &[2, 3]);
    assert_eq!(out, vec![1, 2, 3]);
}

#[test]
fn header_bytes_agree_with_bincode() {
    let parent = [7u8; 32];
    let difficulty = [0xf0u8; 32];
    let root = [9u8; 32];
    let nonce: u32 = 0xdead_beef;
    let timestamp: u128 = 1_700_000_000_123;
    let header = Header {
        parent: H256::from_bytes(parent),
        nonce,
        difficulty: H256::from_bytes(difficulty),
        timestamp,
        merkle_root: H256::from_bytes(root),
    };
    let expected = bincode::serialize(&(parent, nonce, difficulty, timestamp, root)).unwrap();
    assert_eq!(header.encode().len(), 116);
    assert_eq!(header.encode(), expected);
}

#[test]
fn transaction_bytes_agree_with_bincode() {
    let id = [1u8; 32];
    let previous = [2u8; 32];
    let address = [3u8; 20];
    let t = Transaction {
        id: H256::from_bytes(id),
        inputs: vec![
            Input { index: 4, previous_hash: H256::from_bytes(previous) },
            Input { index: 5, previous_hash: H256::zero() },
        ],
        outputs: vec![Output { balance: 6, address: H160::from_bytes(address) }],
    };
    let plain = (
        id,
        vec![(4u8, previous), (5u8, [0u8; 32])],
        vec![(6u8, address)],
    );
    assert_eq!(t.encode(), bincode::serialize(&plain).unwrap());
    assert_eq!(t.encode().len(), 48 + 2 * 33 + 21);
    assert!(t.is_hashable());

    let key = KeyPair::from_seed([8; 32]);
    let signed = SignedTrans::signed_by(t.clone(), &key);
    let plain_signed = (plain, signed.signature.clone(), signed.public_key.clone());
    assert_eq!(signed.encode(), bincode::serialize(&plain_signed).unwrap());
    assert!(signed.is_hashable());
}

#[test]
fn empty_transaction_bytes() {
    let t = Transaction { id: H256::zero(), inputs: Vec::new(), outputs: Vec::new() };
    let mut expected = vec![0u8; 32];
    expected.extend_from_slice(&[0u8; 16]);
    assert_eq!(t.encode(), expected);
}

#[test]
fn clones_keep_the_bytes() {
    let key = KeyPair::from_seed([8; 32]);
    let t = Transaction {
        id: H256::from_bytes([1; 32]),
        inputs: vec![Input { index: 4, previous_hash: H256::from_bytes([2; 32]) }],
        outputs: vec![Output { balance: 6, address: H160::from_bytes([3; 20]) }],
    };
    let signed = SignedTrans::signed_by(t, &key);
    assert_eq!(signed.clone().encode(), signed.encode());
    assert_eq!(signed.clone().hash(), signed.hash());
}
