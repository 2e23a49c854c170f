use chain_core::block::{generate_random_block, Block};
use chain_core::blockchain::Blockchain;
use chain_core::control::{ControlSignal, Directive, OperatingState, Watch};
use chain_core::crypto::hash::H256;
use chain_core::miner::{attempt, candidate, fresh_candidate, mine_once, template};
use chain_core::network::message::Message;
use chain_core::transaction::generate_random_signedtrans;

#[test]
fn template_is_tip_and_its_target() {
    let chain = Blockchain::new();
    let (parent, difficulty) = template(&chain);
    assert_eq!(parent, chain.tip());
    let mut easy = [0u8; 32];
    easy[0] = 1;
    assert_eq!(difficulty, H256::from_bytes(easy));
}

#[test]
fn candidate_commits_to_its_content() {
    let content = vec![generate_random_signedtrans(), generate_random_signedtrans()];
    let leaves: Vec<H256> = content.iter().map(|t| t.hash()).collect();
    let parent = H256::from_bytes([1; 32]);
    let target = H256::from_bytes([2; 32]);
    let b = candidate(parent, target, content, 77, 5);
    assert_eq!(b.header.parent, parent);
    assert_eq!(b.header.difficulty, target);
    assert_eq!(b.header.timestamp, 77);
    assert_eq!(b.header.nonce, 5);
    assert_eq!(b.header.merkle_root, chain_core::crypto::merkle::root_of(leaves));
    assert_eq!(b.content.len(), 2);
}

#[test]
fn fresh_candidate_carries_one_signed_transaction() {
    let parent = H256::from_bytes([1; 32]);
    let target = H256::from_bytes([2; 32]);
    let b = fresh_candidate(parent, target);
    assert_eq!(b.header.parent, parent);
    assert_eq!(b.header.difficulty, target);
    assert_eq!(b.content.len(), 1);
    let t = &b.content[0];
    assert!(chain_core::transaction::verify(&t.transaction, &t.public_key, &t.signature));
    assert_eq!(b.header.merkle_root, t.hash());
    assert!(b.header.get_create_time() > 1_600_000_000_000);
}

#[test]
fn attempt_commits_only_with_proof_of_work() {
    let mut chain = Blockchain::new();
    let g = chain.tip();
    let weak = Block::new(g, 1, H256::zero(), 0, H256::zero(), Vec::new());
    assert!(attempt(&mut chain, &weak).is_none());
    assert_eq!(chain.tip(), g);
    assert!(!chain.contain(weak.hash()));

    let strong = Block::new(g, 1, H256::from_bytes([0xff; 32]), 0, H256::zero(), Vec::new());
    match attempt(&mut chain, &strong) {
        Some(Message::NewBlockHashes(hashes)) => assert_eq!(hashes, vec![strong.hash()]),
        other => panic!("unexpected announcement {:?}", other),
    }
    assert_eq!(chain.tip(), strong.hash());
    assert_eq!(chain.get_length(), 1);

    let stray = Block::new(
        H256::from_bytes([3; 32]),
        1,
        H256::from_bytes([0xff; 32]),
        0,
        H256::zero(),
        Vec::new(),
    );
    assert!(attempt(&mut chain, &stray).is_none());
    assert_eq!(chain.tip(), strong.hash());
}

#[test]
fn mining_rounds_extend_the_tip_they_read() {
    let mut chain = Blockchain::new();
    let mut height = 0;
    for _ in 0..3000 {
        let before = chain.tip();
        match mine_once(&mut chain) {
            Some(Message::NewBlockHashes(hashes)) => {
                height += 1;
                assert_eq!(hashes, vec![chain.tip()]);
                let mined = chain.get(&chain.tip()).unwrap();
                assert_eq!(mined.header.parent, before);
                assert!(mined.meets_target());
                assert_eq!(mined.content.len(), 1);
            }
            Some(other) => panic!("unexpected announcement {:?}", other),
            None => assert_eq!(chain.tip(), before),
        }
        assert_eq!(chain.get_length(), height);
        if height == 2 {
            break;
        }
    }
    assert!(height >= 1);
}

#[test]
fn random_block_is_built_on_its_parent() {
    let parent = H256::from_bytes([6; 32]);
    let b = generate_random_block(&parent);
    assert_eq!(b.header.parent, parent);
    assert_eq!(b.content.len(), 3);
    let leaves: Vec<H256> = b.content.iter().map(|t| t.hash()).collect();
    assert_eq!(b.header.merkle_root, chain_core::crypto::merkle::root_of(leaves));
    let mut easy = [0u8; 32];
    easy[0] = 1;
    assert_eq!(b.get_difficulty(), H256::from_bytes(easy));
    assert!(b.header.get_create_time() > 1_600_000_000_000);
    assert_eq!(b.clone().hash(), b.hash());
}

#[test]
fn paused_loop_waits_for_a_signal() {
    let s = OperatingState::Paused;
    assert_eq!(s.watch(), Watch::Block);
    assert_eq!(s.advance(None), (OperatingState::Paused, Directive::Recheck));
    assert_eq!(
        s.advance(Some(ControlSignal::Start(250))),
        (OperatingState::Run(250), Directive::Recheck)
    );
    assert_eq!(
        s.advance(Some(ControlSignal::Exit)),
        (OperatingState::ShutDown, Directive::Recheck)
    );
}

#[test]
fn running_loop_polls_and_works() {
    let s = OperatingState::Run(100);
    assert_eq!(s.watch(), Watch::Poll);
    assert_eq!(s.advance(None), (OperatingState::Run(100), Directive::Work(100)));
    assert_eq!(
        s.advance(Some(ControlSignal::Start(0))),
        (OperatingState::Run(0), Directive::Work(0))
    );
    assert_eq!(
        s.advance(Some(ControlSignal::Exit)),
        (OperatingState::ShutDown, Directive::Stop)
    );
}

#[test]
fn shut_down_loop_stops() {
    let s = OperatingState::ShutDown;
    assert_eq!(s.watch(), Watch::Ignore);
    assert_eq!(s.advance(None), (OperatingState::ShutDown, Directive::Stop));
    assert_eq!(
        s.advance(Some(ControlSignal::Start(5))),
        (OperatingState::ShutDown, Directive::Stop)
    );
}

#[test]
fn signals_set_the_state() {
    assert_eq!(
        OperatingState::Paused.handle_control_signal(ControlSignal::Start(9)),
        OperatingState::Run(9)
    );
    assert_eq!(
        OperatingState::Run(1).handle_control_signal(ControlSignal::Exit),
        OperatingState::ShutDown
    );
    assert_eq!(
        OperatingState::Run(1).handle_control_signal(ControlSignal::Start(2)),
        OperatingState::Run(2)
    );
}
