use chain_core::block::{Block, Header};
use chain_core::crypto::hash::{H160, H256};
use chain_core::crypto::key_pair::KeyPair;
use chain_core::crypto::merkle::root_of;
use chain_core::transaction::{
    generate_random_signedtrans, generate_random_transaction, sign, verify, Input, Output,
    SignedTrans, Transaction,
};

fn fixed_transaction() -> Transaction {
    Transaction {
        id: H256::zero(),
        inputs: vec![Input { index: 1, previous_hash: H256::zero() }],
        outputs: vec![Output { balance: 1, address: H160::zero() }],
    }
}

#[test]
fn sign_verify() {
    let t = generate_random_transaction();
    let key = KeyPair::random();
    let signature = sign(&t, &key);
    // assert!(verify(&t, &(key.public_key()), &signature));
    let _ = signature;
}

#[test]
fn signature_round_trip() {
    let t = generate_random_transaction();
    let key = KeyPair::random();
    let signature = sign(&t, &key);
    assert_eq!(signature.len(), 64);
    assert!(verify(&t, &key.public_key(), &signature));
}

#[test]
fn signature_fails_under_another_key() {
    let t = fixed_transaction();
    let key = KeyPair::from_seed([1; 32]);
    let other = KeyPair::from_seed([2; 32]);
    let signature = sign(&t, &key);
    assert!(verify(&t, &key.public_key(), &signature));
    assert!(!verify(&t, &other.public_key(), &signature));
}

#[test]
fn signature_fails_on_another_transaction() {
    let t = fixed_transaction();
    let mut changed = fixed_transaction();
    changed.outputs[0].balance = 2;
    let key = KeyPair::from_seed([1; 32]);
    let signature = sign(&t, &key);
    assert!(!verify(&changed, &key.public_key(), &signature));
}

#[test]
fn malformed_key_or_signature_fails() {
    let t = fixed_transaction();
    let key = KeyPair::from_seed([1; 32]);
    let signature = sign(&t, &key);
    assert!(!verify(&t, &[], &signature));
    assert!(!verify(&t, &key.public_key(), &signature[..63]));
    assert!(!verify(&t, &key.public_key(), &[]));
}

#[test]
fn signing_is_a_function_of_key_and_transaction() {
    let t = fixed_transaction();
    let a = sign(&t, &KeyPair::from_seed([9; 32]));
    let b = sign(&t, &KeyPair::from_seed([9; 32]));
    assert_eq!(a, b);
}

#[test]
fn public_key_of_a_known_seed() {
    let seed: [u8; 32] = [
        0x9d, 0x61, 0xb1, 0x9d, 0xef, 0xfd, 0x5a, 0x60, 0xba, 0x84, 0x4a, 0xf4, 0x92, 0xec, 0x2c,
        0xc4, 0x44, 0x49, 0xc5, 0x69, 0x7b, 0x32, 0x69, 0x19, 0x70, 0x3b, 0xac, 0x03, 0x1c, 0xae,
        0x7f, 0x60,
    ];
    let public: [u8; 32] = [
        0xd7, 0x5a, 0x98, 0x01, 0x82, 0xb1, 0x0a, 0xb7, 0xd5, 0x4b, 0xfe, 0xd3, 0xc9, 0x64, 0x07,
        0x3a, 0x0e, 0xe1, 0x72, 0xf3, 0xda, 0xa6, 0x23, 0x25, 0xaf, 0x02, 0x1a, 0x68, 0xf7, 0x07,
        0x51, 0x1a,
    ];
    assert_eq!(KeyPair::from_seed(seed).public_key(), public.to_vec());
}

#[test]
fn random_signed_transaction_is_valid() {
    let signed = generate_random_signedtrans();
    assert_eq!(signed.transaction.inputs.len(), 1);
    assert_eq!(signed.transaction.outputs.len(), 1);
    assert_eq!(signed.public_key.len(), 32);
    assert_eq!(signed.signature.len(), 64);
    assert_eq!(signed.encode().len(), 214);
    assert!(signed.is_hashable());
    assert!(verify(&signed.transaction, &signed.public_key, &signed.signature));
}

#[test]
fn signed_by_carries_key_and_signature() {
    let key = KeyPair::from_seed([3; 32]);
    let signed = SignedTrans::signed_by(fixed_transaction(), &key);
    assert_eq!(signed.public_key, key.public_key());
    assert_eq!(signed.signature, sign(&fixed_transaction(), &key));
    assert_eq!(signed.transaction.hash(), fixed_transaction().hash());
}

#[test]
fn header_digest_of_known_bytes() {
    let mut easy = [0u8; 32];
    easy[0] = 1;
    let header = Header {
        parent: H256::zero(),
        nonce: 0,
        difficulty: H256::from_bytes(easy),
        timestamp: 0,
        merkle_root: H256::zero(),
    };
    let expected: [u8; 32] = [
        0xe1, 0x8b, 0xbe, 0xc4, 0x7a, 0xea, 0x92, 0x8e, 0x0a, 0x90, 0xb9, 0x24, 0xe5, 0xb7, 0x33,
        0x33, 0x19, 0xd3, 0x0d, 0x64, 0x59, 0xca, 0x72, 0x82, 0x48, 0xca, 0x50, 0x2e, 0x85, 0x86,
        0x2e, 0xe7,
    ];
    assert_eq!(header.hash(), H256::from_bytes(expected));
}

#[test]
fn header_digest_covers_every_field() {
    let mut parent = [0u8; 32];
    let mut root = [0u8; 32];
    for i in 0..32 {
        parent[i] = i as u8;
        root[i] = 32 + i as u8;
    }
    let header = Header {
        parent: H256::from_bytes(parent),
        nonce: 0x01020304,
        difficulty: H256::from_bytes([0xff; 32]),
        timestamp: 0x0102030405060708090a0b0c0d0e0f10,
        merkle_root: H256::from_bytes(root),
    };
    let expected: [u8; 32] = [
        137, 176, 89, 124, 39, 132, 149, 162, 126, 196, 56, 229, 22, 97, 188, 85, 38, 76, 20, 227,
        29, 194, 151, 105, 60, 8, 135, 176, 118, 106, 128, 141,
    ];
    assert_eq!(header.hash(), H256::from_bytes(expected));
    let block = Block::new(
        header.parent,
        header.nonce,
        header.difficulty,
        header.timestamp,
        header.merkle_root,
        Vec::new(),
    );
    assert_eq!(block.hash(), header.hash());
    assert_eq!(block.get_difficulty(), H256::from_bytes([0xff; 32]));
    assert_eq!(block.header.get_create_time(), 0x0102030405060708090a0b0c0d0e0f10);
}

#[test]
fn transaction_digest_of_known_bytes() {
    let expected: [u8; 32] = [
        86, 167, 201, 7, 32, 90, 85, 116, 134, 157, 155, 57, 77, 82, 133, 139, 126, 38, 150, 229,
        86, 84, 80, 137, 58, 215, 242, 123, 164, 36, 206, 157,
    ];
    assert_eq!(fixed_transaction().hash(), H256::from_bytes(expected));
}

#[test]
fn order_is_big_endian() {
    let mut low = [0u8; 32];
    let mut high = [0u8; 32];
    low[31] = 0xff;
    high[0] = 1;
    let low = H256::from_bytes(low);
    let high = H256::from_bytes(high);
    assert!(low.le(&high));
    assert!(!high.le(&low));
    assert!(low.le(&low));
    assert!(H256::zero().le(&low));
    assert!(!low.le(&H256::zero()));
    let mut a = [5u8; 32];
    let mut b = [5u8; 32];
    a[17] = 4;
    b[18] = 0;
    assert!(H256::from_bytes(a).le(&H256::from_bytes(b)));
    assert!(!H256::from_bytes(b).le(&H256::from_bytes(a)));
}

#[test]
fn same_compares_bytes() {
    let a = H256::from_bytes([3; 32]);
    let mut other = [3u8; 32];
    other[31] = 4;
    assert!(a.same(&H256::from_bytes([3; 32])));
    assert!(!a.same(&H256::from_bytes(other)));
    assert_eq!(a.as_bytes(), [3; 32]);
    assert_eq!(a.to_vec(), vec![3u8; 32]);
    assert_eq!(H160::zero(), H160::from_bytes([0; 20]));
}

#[test]
fn merkle_root_of_known_leaves() {
    let a = H256::from_bytes([
        202, 151, 129, 18, 202, 27, 189, 202, 250, 194, 49, 179, 154, 35, 220, 77, 167, 134, 239,
        248, 20, 124, 78, 114, 185, 128, 119, 133, 175, 238, 72, 187,
    ]);
    let b = H256::from_bytes([
        62, 35, 232, 22, 0, 57, 89, 74, 51, 137, 79, 101, 100, 225, 177, 52, 139, 189, 122, 0,
        136, 212, 44, 74, 203, 115, 238, 174, 213, 156, 0, 157,
    ]);
    let c = H256::from_bytes([
        46, 125, 44, 3, 169, 80, 122, 226, 101, 236, 245, 181, 53, 104, 133, 165, 51, 147, 162, 2,
        157, 36, 19, 148, 153, 114, 101, 161, 162, 90, 239, 198,
    ]);
    let two = H256::from_bytes([
        229, 160, 31, 238, 20, 224, 237, 92, 72, 113, 79, 34, 24, 15, 37, 173, 131, 101, 181, 63,
        151, 121, 247, 157, 196, 163, 215, 233, 57, 99, 249, 74,
    ]);
    let three = H256::from_bytes([
        211, 26, 55, 239, 106, 193, 74, 45, 177, 71, 12, 67, 22, 190, 181, 89, 46, 106, 253, 68,
        101, 2, 35, 57, 173, 175, 218, 118, 161, 143, 250, 190,
    ]);
    assert_eq!(root_of(Vec::new()), H256::zero());
    assert_eq!(root_of(vec![a]), a);
    assert_eq!(root_of(vec![a, b]), two);
    assert_eq!(root_of(vec![a, b, c]), three);
}

#[test]
fn random_draws_differ() {
    assert_ne!(H256::random(), H256::random());
    assert_ne!(H160::random(), H160::random());
    assert_ne!(KeyPair::random().public_key(), KeyPair::random().public_key());
}
