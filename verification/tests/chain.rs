use crypto_lib::blockchain::{Block, BlockValidationError, Blockchain};
use crypto_lib::keys::{KeyPair, PublicKey};
use crypto_lib::mining;
use crypto_lib::transaction::Transaction;

fn key(seed: u8) -> KeyPair {
    KeyPair::from_secret([seed; 32])
}

/// Searches nonces until the block meets the difficulty the chain demands
/// of it.
fn mine(chain: &Blockchain, block: &mut Block) {
    let difficulty = chain.difficulty(block);
    let found = mining::mine_attempt(block, difficulty, 10_000_000);
    assert!(found);
}

#[test]
fn genesis_mining() {
    let alice = key(1);
    let chain = Blockchain::new();
    let mut block = chain.generate_block_at(alice.public, 100);
    let mut chain = chain;
    mine(&chain, &mut block);
    assert!(chain.add_block_at(block, 100).is_ok());
    assert_eq!(chain.blocks.len(), 1);
    assert_eq!(chain.weight, 0);
    assert_eq!(chain.balances.get(&alice.public), 100);
}

#[test]
fn valid_transfer() {
    let alice = key(1);
    let bob = key(2);
    let mut chain = Blockchain::new();
    let mut genesis = chain.generate_block_at(alice.public, 100);
    mine(&chain, &mut genesis);
    assert!(chain.add_block_at(genesis, 100).is_ok());
    assert_eq!(chain.balances.get(&alice.public), 100);

    let mut block = chain.generate_block_at(alice.public, 200);
    block
        .transactions
        .push(Transaction::new(bob.public, 30, &alice));
    mine(&chain, &mut block);
    assert!(chain.add_block_at(block, 200).is_ok());
    assert_eq!(chain.balances.get(&alice.public), 170);
    assert_eq!(chain.balances.get(&bob.public), 30);
}

#[test]
fn overspend_rejected() {
    let alice = key(1);
    let bob = key(2);
    let carol = key(3);
    let mut chain = Blockchain::new();
    let mut genesis = chain.generate_block_at(alice.public, 100);
    mine(&chain, &mut genesis);
    assert!(chain.add_block_at(genesis, 100).is_ok());
    let mut block = chain.generate_block_at(alice.public, 200);
    block
        .transactions
        .push(Transaction::new(bob.public, 30, &alice));
    mine(&chain, &mut block);
    assert!(chain.add_block_at(block, 200).is_ok());
    assert_eq!(chain.balances.get(&bob.public), 30);

    // Bob holds 30 and signs away 50.
    let mut block = chain.generate_block_at(alice.public, 300);
    block
        .transactions
        .push(Transaction::new(carol.public, 50, &bob));
    mine(&chain, &mut block);
    let blocks_before = chain.blocks.len();
    let alice_before = chain.balances.get(&alice.public);
    let bob_before = chain.balances.get(&bob.public);
    let r = chain.add_block_at(block, 300);
    assert_eq!(r, Err(BlockValidationError::ExcessiveTransactionAmount));
    assert_eq!(chain.blocks.len(), blocks_before);
    assert_eq!(chain.balances.get(&alice.public), alice_before);
    assert_eq!(chain.balances.get(&bob.public), bob_before);
    assert_eq!(chain.balances.get(&carol.public), 0);
}

#[test]
fn bad_signature_rejected() {
    let alice = key(1);
    let bob = key(2);
    let carol = key(3);
    let mut chain = Blockchain::new();
    let mut genesis = chain.generate_block_at(alice.public, 100);
    mine(&chain, &mut genesis);
    assert!(chain.add_block_at(genesis, 100).is_ok());

    // A transfer out of Alice's account signed with Carol's key.
    let mut forged = Transaction::new(bob.public, 10, &carol);
    forged.data.from = alice.public;
    assert!(!forged.valid());
    let mut block = chain.generate_block_at(alice.public, 200);
    block.transactions.push(forged);
    mine(&chain, &mut block);
    let r = chain.add_block_at(block, 200);
    assert_eq!(r, Err(BlockValidationError::InvalidTransactionSignature));
    assert_eq!(chain.blocks.len(), 1);
}

#[test]
fn empty_chain_difficulty_is_zero() {
    let alice = key(1);
    let chain = Blockchain::new();
    let block = chain.generate_block_at(alice.public, 12345);
    assert_eq!(chain.difficulty(&block), 0);
    let hash = crypto_lib::hashes::Hash256::zero();
    assert_eq!(block.prev_hash, hash);
}

#[test]
fn timestamp_equal_accepted() {
    let alice = key(1);
    let mut chain = Blockchain::new();
    let mut genesis = chain.generate_block_at(alice.public, 100);
    mine(&chain, &mut genesis);
    assert!(chain.add_block_at(genesis, 100).is_ok());
    let mut block = chain.generate_block_at(alice.public, 100);
    mine(&chain, &mut block);
    assert!(chain.add_block_at(block, 100).is_ok());
    assert_eq!(chain.blocks.len(), 2);
}

#[test]
fn timestamp_before_tip_rejected() {
    let alice = key(1);
    let mut chain = Blockchain::new();
    let mut genesis = chain.generate_block_at(alice.public, 100);
    mine(&chain, &mut genesis);
    assert!(chain.add_block_at(genesis, 100).is_ok());
    // The proof-of-work check comes after the timestamp check, so an
    // unmined block suffices here.
    let block = chain.generate_block_at(alice.public, 99);
    let r = chain.add_block_at(block, 200);
    assert_eq!(r, Err(BlockValidationError::InvalidTimestamp));
    assert_eq!(chain.blocks.len(), 1);
}

#[test]
fn timestamp_in_future_rejected() {
    let alice = key(1);
    let mut chain = Blockchain::new();
    let mut genesis = chain.generate_block_at(alice.public, 100);
    mine(&chain, &mut genesis);
    assert!(chain.add_block_at(genesis, 100).is_ok());
    let block = chain.generate_block_at(alice.public, 500);
    let r = chain.add_block_at(block, 400);
    assert_eq!(r, Err(BlockValidationError::InvalidTimestamp));
    assert_eq!(chain.blocks.len(), 1);
}

#[test]
fn prev_hash_mismatch_rejected() {
    let alice = key(1);
    let mut chain = Blockchain::new();
    let mut genesis = chain.generate_block_at(alice.public, 100);
    mine(&chain, &mut genesis);
    assert!(chain.add_block_at(genesis, 100).is_ok());
    // A block generated atop the empty chain carries the zero prev-hash,
    // which no longer matches the tip.
    let empty = Blockchain::new();
    let mut stale = empty.generate_block_at(alice.public, 200);
    mine(&empty, &mut stale);
    let r = chain.add_block_at(stale, 200);
    assert_eq!(r, Err(BlockValidationError::PrevHashMismatch));
    assert_eq!(chain.blocks.len(), 1);
}

#[test]
fn unmined_block_rejected() {
    let alice = key(1);
    let mut chain = Blockchain::new();
    let mut block = chain.generate_block_at(alice.public, 100);
    // Walk nonces until one misses the difficulty-zero target.
    while mining::mined(&block, 0) {
        block.nonce += 1;
    }
    let r = chain.add_block_at(block, 100);
    assert_eq!(r, Err(BlockValidationError::BlockNotMinedCorrectly));
    assert_eq!(chain.blocks.len(), 0);
}

#[test]
fn replay_rebuilds_identical_state() {
    let alice = key(1);
    let bob = key(2);
    let mut chain = Blockchain::new();
    let mut genesis = chain.generate_block_at(alice.public, 100);
    mine(&chain, &mut genesis);
    assert!(chain.add_block_at(genesis, 100).is_ok());
    let mut block = chain.generate_block_at(alice.public, 200);
    block
        .transactions
        .push(Transaction::new(bob.public, 25, &alice));
    mine(&chain, &mut block);
    assert!(chain.add_block_at(block, 200).is_ok());

    let replayed = Blockchain::construct_at(chain.blocks.clone(), 200).unwrap();
    assert_eq!(replayed.blocks.len(), chain.blocks.len());
    assert_eq!(replayed.weight, chain.weight);
    assert_eq!(replayed.cur_dif, chain.cur_dif);
    assert_eq!(
        replayed.balances.get(&alice.public),
        chain.balances.get(&alice.public)
    );
    assert_eq!(
        replayed.balances.get(&bob.public),
        chain.balances.get(&bob.public)
    );
}

#[test]
fn spendings_sums_a_users_outgoing_amounts() {
    let alice = key(1);
    let bob = key(2);
    let chain = Blockchain::new();
    let mut block = chain.generate_block_at(alice.public, 100);
    block
        .transactions
        .push(Transaction::new(bob.public, 10, &alice));
    block
        .transactions
        .push(Transaction::new(bob.public, 7, &alice));
    block
        .transactions
        .push(Transaction::new(alice.public, 5, &bob));
    assert_eq!(block.spendings(&alice.public), 17);
    assert_eq!(block.spendings(&bob.public), 5);
    let carol = key(3);
    assert_eq!(block.spendings(&carol.public), 0);
}

#[test]
fn verify_transaction_checks_cover() {
    let alice = key(1);
    let bob = key(2);
    let mut chain = Blockchain::new();
    let mut genesis = chain.generate_block_at(alice.public, 100);
    mine(&chain, &mut genesis);
    assert!(chain.add_block_at(genesis, 100).is_ok());
    assert!(chain.verify_transaction(&Transaction::new(bob.public, 100, &alice)));
    assert!(!chain.verify_transaction(&Transaction::new(bob.public, 101, &alice)));
    assert!(!chain.verify_transaction(&Transaction::new(alice.public, 1, &bob)));
}

#[test]
fn block_hash_is_not_the_encoding() {
    let alice = PublicKey { bytes: [0; 32] };
    let chain = Blockchain::new();
    let mut block = chain.generate_block_at(alice, 0);
    block.mined_by = PublicKey { bytes: [0; 32] };
    // The block's encoding starts with zero bytes; a digest that simply
    // handed bytes back would make this hash zero.
    let h = block.hash();
    assert!(!(h.w0 == 0 && h.w1 == 0 && h.w2 == 0 && h.w3 == 0));
    // The hash tracks the nonce.
    let h1 = block.hash();
    block.nonce += 1;
    let h2 = block.hash();
    assert_ne!(h1, h2);
}
