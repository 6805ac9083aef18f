use crypto_lib::blockchain::Blockchain;
use crypto_lib::keys::KeyPair;
use crypto_lib::mining;
use crypto_lib::mining::calculate_dif_offset;

fn key(seed: u8) -> KeyPair {
    KeyPair::from_secret([seed; 32])
}

fn mine(chain: &Blockchain, block: &mut crypto_lib::blockchain::Block) {
    let difficulty = chain.difficulty(block);
    assert!(mining::mine_attempt(block, difficulty, 10_000_000));
}

#[test]
fn offset_rises_for_fast_blocks_and_falls_per_widening() {
    // At or under half the target interval the offset is one step up.
    assert_eq!(calculate_dif_offset(0), 1);
    assert_eq!(calculate_dif_offset(15), 1);
    // One widening past the allowance costs one step.
    assert_eq!(calculate_dif_offset(16), 0);
    assert_eq!(calculate_dif_offset(22), 0);
    assert_eq!(calculate_dif_offset(23), -1);
    assert_eq!(calculate_dif_offset(30), -1);
}

#[test]
fn offset_bottoms_out() {
    assert_eq!(calculate_dif_offset(1935), -255);
    assert_eq!(calculate_dif_offset(1936), -256);
    assert_eq!(calculate_dif_offset(10_000_000), -256);
    assert_eq!(calculate_dif_offset(u64::MAX), -256);
}

#[test]
fn offset_is_monotonic_on_samples() {
    let samples = [
        0u64,
        1,
        15,
        16,
        22,
        23,
        30,
        100,
        1000,
        1935,
        1936,
        100_000,
        u64::MAX,
    ];
    let mut last = i32::MAX;
    for dt in samples {
        let off = calculate_dif_offset(dt);
        assert!(off <= last);
        last = off;
    }
}

#[test]
fn difficulty_follows_the_gap_to_the_tip() {
    let alice = key(1);
    let mut chain = Blockchain::new();
    let mut genesis = chain.generate_block_at(alice.public, 1000);
    mine(&chain, &mut genesis);
    assert!(chain.add_block_at(genesis, 1000).is_ok());
    assert_eq!(chain.cur_dif, 0);

    // A block right on the tip's heels raises the difficulty by one.
    let fast = chain.generate_block_at(alice.public, 1000);
    assert_eq!(chain.difficulty(&fast), 1);
    // A slow block cannot push it below zero.
    let slow = chain.generate_block_at(alice.public, 5000);
    assert_eq!(chain.difficulty(&slow), 0);

    let mut fast = fast;
    mine(&chain, &mut fast);
    assert!(chain.add_block_at(fast, 1000).is_ok());
    assert_eq!(chain.cur_dif, 1);
    assert_eq!(chain.weight, 1);
}
