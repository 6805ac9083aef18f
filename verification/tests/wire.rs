use crypto_lib::blockchain::Blockchain;
use crypto_lib::codec;
use crypto_lib::keys::KeyPair;
use crypto_lib::mining;
use crypto_lib::transaction::Transaction;

fn key(seed: u8) -> KeyPair {
    KeyPair::from_secret([seed; 32])
}

fn mine(chain: &Blockchain, block: &mut crypto_lib::blockchain::Block) {
    let difficulty = chain.difficulty(block);
    assert!(mining::mine_attempt(block, difficulty, 10_000_000));
}

#[test]
fn transaction_round_trip() {
    let alice = key(1);
    let bob = key(2);
    let tx = Transaction::new(bob.public, 42, &alice);
    let bytes = codec::encode_transaction(&tx);
    assert_eq!(bytes.len(), 136);
    let back = codec::decode_transaction(&bytes).unwrap();
    assert_eq!(back.data.from.bytes, tx.data.from.bytes);
    assert_eq!(back.data.to.bytes, tx.data.to.bytes);
    assert_eq!(back.data.amount, tx.data.amount);
    assert_eq!(back.signature.bytes.to_vec(), tx.signature.bytes.to_vec());
    assert!(back.valid());
}

#[test]
fn transaction_trailing_bytes_refused() {
    let alice = key(1);
    let bob = key(2);
    let tx = Transaction::new(bob.public, 42, &alice);
    let mut bytes = codec::encode_transaction(&tx);
    bytes.push(0);
    assert!(codec::decode_transaction(&bytes).is_none());
    assert!(codec::decode_transaction(&vec![1, 2, 3]).is_none());
    assert!(codec::decode_transaction(&Vec::new()).is_none());
}

#[test]
fn blocks_round_trip() {
    let alice = key(1);
    let bob = key(2);
    let mut chain = Blockchain::new();
    let mut genesis = chain.generate_block_at(alice.public, 100);
    mine(&chain, &mut genesis);
    assert!(chain.add_block_at(genesis, 100).is_ok());
    let mut block = chain.generate_block_at(alice.public, 200);
    block
        .transactions
        .push(Transaction::new(bob.public, 30, &alice));
    mine(&chain, &mut block);
    assert!(chain.add_block_at(block, 200).is_ok());

    let bytes = codec::encode_blocks(&chain.blocks);
    let back = codec::decode_blocks(&bytes).unwrap();
    assert_eq!(back.len(), 2);
    assert_eq!(back[0].timestamp, 100);
    assert_eq!(back[1].timestamp, 200);
    assert_eq!(back[1].transactions.len(), 1);
    assert_eq!(back[1].transactions[0].data.amount, 30);
    assert_eq!(back[0].nonce, chain.blocks[0].nonce);
    assert_eq!(back[1].prev_hash, chain.blocks[1].prev_hash);
    assert_eq!(back[0].mined_by.bytes, alice.public.bytes);
    // The decoded list replays to the same chain.
    let replayed = Blockchain::construct_at(back, 200).unwrap();
    assert_eq!(replayed.weight, chain.weight);
    assert_eq!(
        replayed.balances.get(&bob.public),
        chain.balances.get(&bob.public)
    );
}

#[test]
fn blocks_trailing_bytes_refused() {
    let alice = key(1);
    let chain = Blockchain::new();
    let mut genesis = chain.generate_block_at(alice.public, 100);
    let mut chain = chain;
    mine(&chain, &mut genesis);
    assert!(chain.add_block_at(genesis, 100).is_ok());
    let mut bytes = codec::encode_blocks(&chain.blocks);
    bytes.push(7);
    assert!(codec::decode_blocks(&bytes).is_none());
    assert!(codec::decode_blocks(&vec![0, 1]).is_none());
}

#[test]
fn empty_block_list_round_trips() {
    let blocks: Vec<crypto_lib::blockchain::Block> = Vec::new();
    let bytes = codec::encode_blocks(&blocks);
    assert_eq!(bytes.len(), 8);
    let back = codec::decode_blocks(&bytes).unwrap();
    assert_eq!(back.len(), 0);
}

#[test]
fn signing_key_determines_public_key() {
    let a1 = key(9);
    let a2 = key(9);
    let b = key(10);
    assert_eq!(a1.public.bytes, a2.public.bytes);
    assert_ne!(a1.public.bytes, b.public.bytes);
    // A signature verifies only under the matching public key.
    let tx = Transaction::new(b.public, 5, &a1);
    assert!(tx.valid());
    let mut wrong = tx;
    wrong.data.from = b.public;
    assert!(!wrong.valid());
}
