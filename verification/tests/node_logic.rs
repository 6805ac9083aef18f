use crypto_lib::blockchain::{Block, Blockchain};
use crypto_lib::client::Client;
use crypto_lib::codec;
use crypto_lib::keys::KeyPair;
use crypto_lib::mining;
use crypto_lib::mining::MineOutcome;
use crypto_lib::node::{handle_blockchain, handle_transaction, TxAdmission};
use crypto_lib::transaction::Transaction;

fn key(seed: u8) -> KeyPair {
    KeyPair::from_secret([seed; 32])
}

fn mine(chain: &Blockchain, block: &mut Block) {
    let difficulty = chain.difficulty(block);
    assert!(mining::mine_attempt(block, difficulty, 10_000_000));
}

/// Walks the nonce until the block misses the target, so that admission
/// tests see an unmined candidate.
fn de_mine(chain: &Blockchain, block: &mut Block) {
    while mining::mined(block, chain.difficulty(block)) {
        block.nonce = block.nonce.wrapping_add(1);
    }
}

/// A chain of `n` blocks sharing one timestamp, so that each block's
/// difficulty climbs by one and the weight grows quadratically.
fn dense_chain(miner: &KeyPair, n: usize, ts: u64) -> Blockchain {
    let mut chain = Blockchain::new();
    for _ in 0..n {
        let mut block = chain.generate_block_at(miner.public, ts);
        mine(&chain, &mut block);
        assert!(chain.add_block_at(block, ts).is_ok());
    }
    chain
}

#[test]
fn fork_choice_adopts_heavier_and_drops_lighter() {
    let alice = key(1);
    let bob = key(2);
    // Node holds a three-block chain; a peer offers four blocks.
    let mut chain = dense_chain(&alice, 3, 100);
    let heavier = dense_chain(&bob, 4, 100);
    let lighter = dense_chain(&bob, 2, 100);
    assert!(heavier.weight > chain.weight);
    assert!(lighter.weight < chain.weight);
    let weight_a = chain.weight;

    let mut candidate = chain.generate_block_at(alice.public, 100);
    let payload = codec::encode_blocks(&heavier.blocks);
    assert!(handle_blockchain(
        &mut chain,
        &mut candidate,
        &payload,
        alice.public,
        100
    ));
    assert_eq!(chain.blocks.len(), 4);
    assert_eq!(chain.weight, heavier.weight);
    assert!(chain.weight > weight_a);
    // The candidate was regenerated atop the adopted tip.
    assert_eq!(candidate.prev_hash, chain.blocks[3].hash());
    assert_eq!(candidate.transactions.len(), 0);

    // A lighter chain is dropped without touching anything.
    let payload = codec::encode_blocks(&lighter.blocks);
    let before = candidate.prev_hash;
    assert!(!handle_blockchain(
        &mut chain,
        &mut candidate,
        &payload,
        alice.public,
        100
    ));
    assert_eq!(chain.blocks.len(), 4);
    assert_eq!(chain.weight, heavier.weight);
    assert_eq!(candidate.prev_hash, before);
}

#[test]
fn garbage_chain_payload_dropped() {
    let alice = key(1);
    let mut chain = dense_chain(&alice, 2, 100);
    let mut candidate = chain.generate_block_at(alice.public, 100);
    let weight = chain.weight;
    assert!(!handle_blockchain(
        &mut chain,
        &mut candidate,
        &vec![9, 9, 9],
        alice.public,
        100
    ));
    assert_eq!(chain.weight, weight);

    // A well-formed payload whose blocks do not validate is dropped too.
    let other = dense_chain(&alice, 5, 100);
    let mut broken = other.blocks.clone();
    broken[3].nonce = broken[3].nonce.wrapping_add(1);
    let mut tries = 0u64;
    while mining::mined(&broken[3], 2) {
        broken[3].nonce = broken[3].nonce.wrapping_add(1);
        tries += 1;
        assert!(tries < 1000);
    }
    let payload = codec::encode_blocks(&broken);
    assert!(!handle_blockchain(
        &mut chain,
        &mut candidate,
        &payload,
        alice.public,
        100
    ));
    assert_eq!(chain.weight, weight);
    assert_eq!(chain.blocks.len(), 2);
}

#[test]
fn transaction_admitted_against_balance_and_pending_spend() {
    let alice = key(1);
    let bob = key(2);
    let mut chain = Blockchain::new();
    let mut genesis = chain.generate_block_at(alice.public, 100);
    mine(&chain, &mut genesis);
    assert!(chain.add_block_at(genesis, 100).is_ok());
    // Alice holds 100.
    let mut candidate = chain.generate_block_at(alice.public, 200);
    while mining::mined(&candidate, chain.difficulty(&candidate)) {
        candidate.nonce += 1;
    }

    let t1 = codec::encode_transaction(&Transaction::new(bob.public, 60, &alice));
    assert_eq!(
        handle_transaction(&chain, &mut candidate, &t1),
        TxAdmission::Added
    );
    assert_eq!(candidate.transactions.len(), 1);
    de_mine(&chain, &mut candidate);

    // 60 is already pending; another 60 does not fit under 100.
    let t2 = codec::encode_transaction(&Transaction::new(bob.public, 60, &alice));
    assert_eq!(
        handle_transaction(&chain, &mut candidate, &t2),
        TxAdmission::InsufficientFunds
    );
    assert_eq!(candidate.transactions.len(), 1);
    de_mine(&chain, &mut candidate);

    // 40 still fits exactly.
    let t3 = codec::encode_transaction(&Transaction::new(bob.public, 40, &alice));
    assert_eq!(
        handle_transaction(&chain, &mut candidate, &t3),
        TxAdmission::Added
    );
    assert_eq!(candidate.transactions.len(), 2);
}

#[test]
fn transaction_with_bad_signature_or_shape_dropped() {
    let alice = key(1);
    let bob = key(2);
    let mut chain = Blockchain::new();
    let mut genesis = chain.generate_block_at(alice.public, 100);
    mine(&chain, &mut genesis);
    assert!(chain.add_block_at(genesis, 100).is_ok());
    let mut candidate = chain.generate_block_at(alice.public, 200);
    while mining::mined(&candidate, chain.difficulty(&candidate)) {
        candidate.nonce += 1;
    }

    let mut forged = Transaction::new(bob.public, 10, &bob);
    forged.data.from = alice.public;
    let payload = codec::encode_transaction(&forged);
    assert_eq!(
        handle_transaction(&chain, &mut candidate, &payload),
        TxAdmission::InvalidSignature
    );
    de_mine(&chain, &mut candidate);
    assert_eq!(
        handle_transaction(&chain, &mut candidate, &vec![1, 2]),
        TxAdmission::MalformedPayload
    );
    assert_eq!(candidate.transactions.len(), 0);
}

#[test]
fn mined_candidate_accepts_no_more_transactions() {
    let alice = key(1);
    let bob = key(2);
    let mut chain = Blockchain::new();
    let mut genesis = chain.generate_block_at(alice.public, 100);
    mine(&chain, &mut genesis);
    assert!(chain.add_block_at(genesis, 100).is_ok());
    let mut candidate = chain.generate_block_at(alice.public, 200);
    mine(&chain, &mut candidate);
    let payload = codec::encode_transaction(&Transaction::new(bob.public, 1, &alice));
    assert_eq!(
        handle_transaction(&chain, &mut candidate, &payload),
        TxAdmission::AlreadyMined
    );
    assert_eq!(candidate.transactions.len(), 0);
}

#[test]
fn stale_mining_abandoned() {
    let alice = key(1);
    let bob = key(2);
    // The miner solved a candidate atop tip T.
    let mut chain = dense_chain(&alice, 1, 100);
    let mut solved = chain.generate_block_at(alice.public, 100);
    mine(&chain, &mut solved);

    // Meanwhile a heavier chain arrived and the shared candidate was
    // regenerated atop a different tip.
    let heavier = dense_chain(&bob, 3, 100);
    let mut shared = chain.generate_block_at(alice.public, 100);
    let payload = codec::encode_blocks(&heavier.blocks);
    assert!(handle_blockchain(
        &mut chain,
        &mut shared,
        &payload,
        alice.public,
        100
    ));

    // The stale solution is discarded by the unchanged-candidate check.
    let stale_nonce = shared.nonce;
    assert!(!mining::adopt_solution(&mut shared, solved.clone()));
    assert_eq!(shared.nonce, stale_nonce);
    assert_eq!(shared.prev_hash, chain.blocks[2].hash());

    // A solution for the current candidate is installed.
    let mut fresh = chain.generate_block_at(alice.public, 100);
    mine(&chain, &mut fresh);
    assert!(mining::adopt_solution(&mut shared, fresh.clone()));
    assert_eq!(shared.nonce, fresh.nonce);
}

#[test]
fn mine_round_searches_and_reports() {
    let alice = key(1);
    let mut chain = Blockchain::new();
    let mut genesis = chain.generate_block_at(alice.public, 100);
    mine(&chain, &mut genesis);
    assert!(chain.add_block_at(genesis, 100).is_ok());

    let mut candidate = chain.generate_block_at(alice.public, 200);
    while mining::mined(&candidate, chain.difficulty(&candidate)) {
        candidate.nonce += 1;
    }
    let r = mining::mine_round(&chain, &mut candidate, 123_456_789, 200, 1_000_000);
    assert_eq!(r, MineOutcome::Found);
    assert_eq!(candidate.timestamp, 200);
    assert!(mining::mined(&candidate, chain.difficulty(&candidate)));

    // A second round sees the candidate already mined and leaves it alone.
    let nonce = candidate.nonce;
    let r = mining::mine_round(&chain, &mut candidate, 5, 300, 1_000_000);
    assert_eq!(r, MineOutcome::AlreadyMined);
    assert_eq!(candidate.nonce, nonce);
    assert_eq!(candidate.timestamp, 200);
}

#[test]
fn client_queues_signed_transfers_in_order() {
    let bob = key(2);
    let mut client = Client::new();
    let own = client.key_pair.public;
    client.send_transaction(bob.public, 11);
    client.send_transaction(bob.public, 22);
    let first = client.next_outgoing().unwrap();
    assert_eq!(first.data.amount, 11);
    assert_eq!(first.data.from.bytes, own.bytes);
    assert_eq!(first.data.to.bytes, bob.public.bytes);
    assert!(first.valid());
    let second = client.next_outgoing().unwrap();
    assert_eq!(second.data.amount, 22);
    assert!(client.next_outgoing().is_none());
}
