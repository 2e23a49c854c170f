use chain_core::block::Block;
use chain_core::blockchain::Blockchain;
use chain_core::crypto::hash::{H160, H256};
use chain_core::crypto::key_pair::KeyPair;
use chain_core::network::frame::{decode, encode};
use chain_core::network::message::Message;
use chain_core::network::worker::{Handled, Worker};
use chain_core::transaction::{Input, Output, SignedTrans, Transaction};

type PlainTransaction = ([u8; 32], Vec<(u8, [u8; 32])>, Vec<(u8, [u8; 20])>);
type PlainSigned = (PlainTransaction, Vec<u8>, Vec<u8>);
type PlainHeader = ([u8; 32], u32, [u8; 32], u128, [u8; 32]);
type PlainBlock = (PlainHeader, Vec<PlainSigned>);

fn signed(tag: u8) -> SignedTrans {
    let t = Transaction {
        id: H256::from_bytes([tag; 32]),
        inputs: vec![
            Input { index: tag, previous_hash: H256::from_bytes([tag + 1; 32]) },
            Input { index: tag + 2, previous_hash: H256::zero() },
        ],
        outputs: vec![Output { balance: tag + 3, address: H160::from_bytes([tag + 4; 20]) }],
    };
    SignedTrans::signed_by(t, &KeyPair::from_seed([tag; 32]))
}

fn plain_signed(t: &SignedTrans) -> PlainSigned {
    (
        (
            t.transaction.id.bytes,
            t.transaction.inputs.iter().map(|i| (i.index, i.previous_hash.bytes)).collect(),
            t.transaction.outputs.iter().map(|o| (o.balance, o.address.bytes)).collect(),
        ),
        t.signature.clone(),
        t.public_key.clone(),
    )
}

fn block(tag: u8, content: Vec<SignedTrans>) -> Block {
    Block::new(
        H256::from_bytes([tag; 32]),
        0x0a0b0c0d + tag as u32,
        H256::from_bytes([0xff; 32]),
        1_700_000_000_000 + tag as u128,
        H256::from_bytes([tag + 1; 32]),
        content,
    )
}

fn plain_block(b: &Block) -> PlainBlock {
    (
        (
            b.header.parent.bytes,
            b.header.nonce,
            b.header.difficulty.bytes,
            b.header.timestamp,
            b.header.merkle_root.bytes,
        ),
        b.content.iter().map(plain_signed).collect(),
    )
}

fn hashes() -> Vec<H256> {
    vec![H256::from_bytes([1; 32]), H256::zero(), H256::from_bytes([0xfe; 32])]
}

fn plain_hashes() -> Vec<[u8; 32]> {
    hashes().iter().map(|h| h.bytes).collect()
}

/// The frame is what bincode writes for the same values, and it is read back
/// with the same bytes again.
fn check(message: Message, expected: Vec<u8>) {
    let frame = encode(&message);
    assert_eq!(frame, expected);
    let back = decode(&frame).expect("a frame that was written is read back");
    assert_eq!(encode(&back), frame);
    let mut longer = frame.clone();
    longer.extend_from_slice(&[0xab, 0xcd]);
    assert_eq!(encode(&decode(&longer).unwrap()), frame);
    for cut in 0..frame.len() {
        if let Some(m) = decode(&frame[..cut]) {
            assert_ne!(encode(&m), frame);
        }
    }
}

#[test]
fn ping_frame() {
    check(Message::Ping(5), bincode::serialize(&(0u32, 5u64)).unwrap());
    check(Message::Ping(u64::MAX), bincode::serialize(&(0u32, u64::MAX)).unwrap());
    assert_eq!(encode(&Message::Ping(258)), vec![0, 0, 0, 0, 2, 1, 0, 0, 0, 0, 0, 0]);
    match decode(&[0, 0, 0, 0, 2, 1, 0, 0, 0, 0, 0, 0]) {
        Some(Message::Ping(n)) => assert_eq!(n, 258),
        other => panic!("expected Ping, got {:?}", other),
    }
}

#[test]
fn pong_frame() {
    for text in ["", "7", "18446744073709551615", "h\u{e9}llo \u{4e16}\u{754c} \u{1f600}"] {
        check(
            Message::Pong(text.to_string()),
            bincode::serialize(&(1u32, text.to_string())).unwrap(),
        );
        match decode(&encode(&Message::Pong(text.to_string()))) {
            Some(Message::Pong(back)) => assert_eq!(back, text),
            other => panic!("expected Pong, got {:?}", other),
        }
    }
}

#[test]
fn hash_list_frames() {
    check(Message::NewBlockHashes(hashes()), bincode::serialize(&(2u32, plain_hashes())).unwrap());
    check(Message::GetBlocks(hashes()), bincode::serialize(&(3u32, plain_hashes())).unwrap());
    check(
        Message::NewTransactionHashes(hashes()),
        bincode::serialize(&(5u32, plain_hashes())).unwrap(),
    );
    check(Message::GetTransactions(hashes()), bincode::serialize(&(6u32, plain_hashes())).unwrap());
    check(
        Message::GetBlocks(Vec::new()),
        bincode::serialize(&(3u32, Vec::<[u8; 32]>::new())).unwrap(),
    );
    match decode(&encode(&Message::GetBlocks(hashes()))) {
        Some(Message::GetBlocks(back)) => assert_eq!(back, hashes()),
        other => panic!("expected GetBlocks, got {:?}", other),
    }
}

#[test]
fn blocks_frame() {
    let blocks = vec![block(1, vec![signed(10), signed(20)]), block(2, Vec::new())];
    let plain: Vec<PlainBlock> = blocks.iter().map(plain_block).collect();
    check(Message::Blocks(blocks.clone()), bincode::serialize(&(4u32, plain)).unwrap());
    match decode(&encode(&Message::Blocks(blocks.clone()))) {
        Some(Message::Blocks(back)) => {
            assert_eq!(back.len(), 2);
            assert_eq!(back[0].hash(), blocks[0].hash());
            assert_eq!(back[1].hash(), blocks[1].hash());
            assert_eq!(back[0].content.len(), 2);
            assert_eq!(back[0].content[1].hash(), blocks[0].content[1].hash());
            assert_eq!(back[0].header.get_create_time(), 1_700_000_000_001);
        }
        other => panic!("expected Blocks, got {:?}", other),
    }
}

#[test]
fn transactions_frame() {
    let content = vec![signed(30), signed(40)];
    let plain: Vec<PlainSigned> = content.iter().map(plain_signed).collect();
    check(Message::Transactions(content.clone()), bincode::serialize(&(7u32, plain)).unwrap());
    match decode(&encode(&Message::Transactions(content.clone()))) {
        Some(Message::Transactions(back)) => {
            assert_eq!(back.len(), 2);
            assert_eq!(back[0].hash(), content[0].hash());
            assert_eq!(back[1].signature, content[1].signature);
        }
        other => panic!("expected Transactions, got {:?}", other),
    }
}

#[test]
fn frames_are_read_as_bincode_reads_them() {
    let frame = encode(&Message::Blocks(vec![block(3, vec![signed(50)])]));
    let (tag, blocks): (u32, Vec<PlainBlock>) = bincode::deserialize(&frame).unwrap();
    assert_eq!(tag, 4);
    assert_eq!(blocks, vec![plain_block(&block(3, vec![signed(50)]))]);
    let frame = encode(&Message::Pong("42".to_string()));
    let (tag, text): (u32, String) = bincode::deserialize(&frame).unwrap();
    assert_eq!((tag, text.as_str()), (1, "42"));
}

#[test]
fn malformed_frames_are_refused() {
    assert!(decode(&[]).is_none());
    assert!(decode(&[0, 0, 0]).is_none());
    assert!(decode(&[8, 0, 0, 0, 1, 2, 3, 4, 5, 6, 7, 8]).is_none());
    assert!(decode(&[0, 0, 0, 1, 1, 2, 3, 4, 5, 6, 7, 8]).is_none());
    assert!(decode(&[0, 0, 0, 0, 1, 2, 3, 4, 5, 6, 7]).is_none());
    // a text that is not UTF-8
    assert!(decode(&[1, 0, 0, 0, 2, 0, 0, 0, 0, 0, 0, 0, 0xff, 0xfe]).is_none());
    assert!(bincode::deserialize::<(u32, String)>(&[1, 0, 0, 0, 2, 0, 0, 0, 0, 0, 0, 0, 0xff, 0xfe])
        .is_err());
    // a text shorter than it says
    assert!(decode(&[1, 0, 0, 0, 3, 0, 0, 0, 0, 0, 0, 0, b'a', b'b']).is_none());
    // a list that says more digests than it holds
    let mut short = vec![2, 0, 0, 0, 2, 0, 0, 0, 0, 0, 0, 0];
    short.extend_from_slice(&[7; 32]);
    short.extend_from_slice(&[8; 31]);
    assert!(decode(&short).is_none());
    assert!(bincode::deserialize::<(u32, Vec<[u8; 32]>)>(&short).is_err());
    // a list that says an impossible length
    let mut huge = vec![3, 0, 0, 0];
    huge.extend_from_slice(&[0xff; 8]);
    huge.extend_from_slice(&[1; 64]);
    assert!(decode(&huge).is_none());
    // a block cut inside its content
    let whole = encode(&Message::Blocks(vec![block(1, vec![signed(1)])]));
    assert!(decode(&whole[..whole.len() - 1]).is_none());
    assert!(decode(&whole[..4 + 8 + 116]).is_none());
}

#[test]
fn worker_handles_frames() {
    let mut chain = Blockchain::new();
    let mut worker = Worker::new();
    let g = chain.tip();
    match worker.handle_frame(&mut chain, &encode(&Message::Ping(77))) {
        Handled::Answered(r) => {
            assert!(r.to_all.is_none());
            assert_eq!(encode(&r.reply[0]), encode(&Message::Pong("77".to_string())));
        }
        other => panic!("expected an answer, got {:?}", other),
    }
    match worker.handle_frame(&mut chain, &[9, 9, 9]) {
        Handled::Malformed => {}
        other => panic!("expected a malformed frame, got {:?}", other),
    }
    assert_eq!(chain.tip(), g);
    let b1 = Block::new(g, 1, H256::from_bytes([0xff; 32]), 0, H256::zero(), vec![signed(1)]);
    match worker.handle_frame(&mut chain, &encode(&Message::Blocks(vec![b1.clone()]))) {
        Handled::Answered(r) => {
            assert!(r.reply.is_empty());
            assert_eq!(
                encode(&r.to_all.unwrap()),
                encode(&Message::NewBlockHashes(vec![b1.hash()]))
            );
        }
        other => panic!("expected an answer, got {:?}", other),
    }
    assert_eq!(chain.tip(), b1.hash());
    assert_eq!(chain.get(&b1.hash()).unwrap().content[0].hash(), signed(1).hash());
    let msg = Message::Blocks(vec![b1]);
    assert!(worker.heights_suffice(&chain, &msg));
}
