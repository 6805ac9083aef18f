//! Proof-of-work: the difficulty offset, the acceptance predicate, and the
//! nonce search.
//!
//! Difficulty is adjusted by an offset computed from the time gap to the
//! predecessor block: one step up when blocks come faster than half the
//! target interval, and one step down per further widening of the gap,
//! bottoming out. The acceptance predicate [`spec_mined`] is the single
//! source of truth for when a block counts as mined.

use vstd::prelude::*;
use crate::blockchain::{Block, BlockView, Blockchain, spec_block_hash, spec_difficulty};
use crate::hashes;
use crate::hashes::hash_nat;
use vstd::arithmetic::power2::pow2;

verus! {

/// The offset recursion: from step `k`, keep widening the allowance
/// (`30 + 15k` is twice the allowed gap) while it still lies below twice
/// the observed gap and the answer has not bottomed out; the answer is one
/// minus the number of steps taken.
pub open spec fn offset_from(dt2: int, k: int) -> int
    recommends
        0 <= k <= 257,
    decreases 257 - k,
{
    if k < 257 && 30 + 15 * k < dt2 {
        offset_from(dt2, k + 1)
    } else {
        1 - k
    }
}

/// The difficulty offset for a time gap of `dt` seconds.
pub open spec fn offset_spec(dt: u64) -> int {
    offset_from(2 * dt, 0)
}

/// Computes the difficulty offset: `+1` for a gap below half the target
/// interval, one less per further widening, down to the floor.
pub fn calculate_dif_offset(time_dif: u64) -> (r: i32)
    ensures
        r == offset_spec(time_dif),
{
    let dt2: u128 = 2 * (time_dif as u128);
    let mut answer: i32 = 1;
    // Twice the allowance, so that the half-interval step stays integral.
    let mut slack2: u128 = crate::TIME_BASE as u128;
    while slack2 < dt2 && answer > -256
        invariant
            -256 <= answer <= 1,
            slack2 == 30 + 15 * (1 - answer),
            dt2 == 2 * time_dif,
            offset_from(2 * time_dif as int, 0) == offset_from(2 * time_dif as int, 1 - answer),
        decreases answer + 256,
    {
        slack2 = slack2 + crate::TIME_BASE as u128 / 2;
        answer = answer - 1;
    }
    answer
}

/// The offset lies between the floor and one.
pub proof fn lemma_offset_bounds(dt: u64)
    ensures
        -256 <= offset_spec(dt) <= 1,
{
    lemma_offset_from_bounds(2 * dt, 0);
}

proof fn lemma_offset_from_bounds(dt2: int, k: int)
    requires
        0 <= k <= 257,
    ensures
        -256 <= offset_from(dt2, k) <= 1 - k,
    decreases 257 - k,
{
    if k < 257 && 30 + 15 * k < dt2 {
        lemma_offset_from_bounds(dt2, k + 1);
    }
}

/// The offset never rises as the time gap widens.
pub proof fn lemma_offset_monotone(dt1: u64, dt2: u64)
    requires
        dt1 <= dt2,
    ensures
        offset_spec(dt1) >= offset_spec(dt2),
{
    lemma_offset_from_monotone(2 * dt1, 2 * dt2, 0);
}

proof fn lemma_offset_from_monotone(a: int, b: int, k: int)
    requires
        a <= b,
        0 <= k <= 257,
    ensures
        offset_from(a, k) >= offset_from(b, k),
    decreases 257 - k,
{
    if k < 257 && 30 + 15 * k < a {
        lemma_offset_from_monotone(a, b, k + 1);
    } else if k < 257 && 30 + 15 * k < b {
        lemma_offset_from_bounds(b, k + 1);
    }
}

/// From a gap wide enough, the offset sits at its floor.
pub proof fn lemma_offset_saturates(dt: u64)
    requires
        dt >= 1936,
    ensures
        offset_spec(dt) == -256,
{
    lemma_offset_from_saturates(2 * dt, 0);
}

proof fn lemma_offset_from_saturates(dt2: int, k: int)
    requires
        dt2 > 3870,
        0 <= k <= 257,
    ensures
        offset_from(dt2, k) == -256,
    decreases 257 - k,
{
    if k < 257 {
        lemma_offset_from_saturates(dt2, k + 1);
    }
}

/// Whether a block meets the proof-of-work target for difficulty `d`: its
/// hash is divisible by `2^(d+1)`.
pub open spec fn spec_mined(b: BlockView, difficulty: u32) -> bool {
    hash_nat(spec_block_hash(b)) % pow2(difficulty as nat + 1) == 0
}

/// Checks the proof-of-work target: the block's hash divides evenly by
/// `2 << difficulty`.
pub fn mined(block: &Block, difficulty: u32) -> (r: bool)
    ensures
        r == spec_mined(block@, difficulty),
{
    let h = block.hash();
    hashes::low_bits_zero(&h, difficulty as u64 + 1)
}

/// A block with its nonce replaced.
pub open spec fn with_nonce(b: BlockView, n: u64) -> BlockView {
    BlockView { nonce: n, ..b }
}

/// A block with its nonce and timestamp replaced.
pub open spec fn restamped(b: BlockView, n: u64, ts: u64) -> BlockView {
    BlockView { nonce: n, timestamp: ts, ..b }
}

/// Tries up to `attempts` consecutive nonces from the block's current one;
/// stops at the first that meets the target.
pub fn mine_attempt(block: &mut Block, difficulty: u32, attempts: u64) -> (r: bool)
    requires
        old(block).nonce + attempts <= u64::MAX,
    ensures
        final(block)@ == with_nonce(old(block)@, final(block).nonce),
        r ==> {
            &&& spec_mined(final(block)@, difficulty)
            &&& old(block).nonce <= final(block).nonce < old(block).nonce + attempts
            &&& forall|j: u64|
                old(block).nonce <= j < final(block).nonce ==> !spec_mined(
                    with_nonce(old(block)@, j),
                    difficulty,
                )
        },
        !r ==> {
            &&& final(block).nonce == old(block).nonce + attempts
            &&& forall|j: u64|
                old(block).nonce <= j < old(block).nonce + attempts ==> !spec_mined(
                    with_nonce(old(block)@, j),
                    difficulty,
                )
        },
{
    let ghost start = old(block)@;
    let mut i: u64 = 0;
    while i < attempts
        invariant
            i <= attempts,
            start == old(block)@,
            start.nonce + attempts <= u64::MAX,
            block.nonce == start.nonce + i,
            block@ == with_nonce(start, block.nonce),
            forall|j: u64|
                start.nonce <= j < block.nonce ==> !spec_mined(with_nonce(start, j), difficulty),
        decreases attempts - i,
    {
        if mined(block, difficulty) {
            return true;
        }
        block.nonce = block.nonce + 1;
        i = i + 1;
    }
    false
}

/// What one mining round ended with.
#[derive(Clone, Copy, Debug, PartialEq, Eq, Structural)]
pub enum MineOutcome {
    /// The candidate already met the target; nothing was changed.
    AlreadyMined,
    /// A nonce meeting the target was found and written into the block.
    Found,
    /// The whole window of nonces missed the target.
    Exhausted,
}

/// One mining round over a snapshot: if the candidate is not already
/// mined, restart from a fresh nonce (halved to leave search room), stamp
/// the current time, and search a window of consecutive nonces against the
/// difficulty the chain demands of the restamped block.
pub fn mine_round(
    chain: &Blockchain,
    block: &mut Block,
    fresh_nonce: u64,
    now: u64,
    attempts: u64,
) -> (r: MineOutcome)
    requires
        chain.wf(),
        attempts <= 0x8000000000000000,
        chain.blocks@.len() > 0 ==> chain@.blocks.last().timestamp <= old(block).timestamp,
        chain.blocks@.len() > 0 ==> chain@.blocks.last().timestamp <= now,
    ensures
        r == MineOutcome::AlreadyMined ==> final(block)@ == old(block)@ && spec_mined(
            old(block)@,
            spec_difficulty(chain@, old(block)@),
        ),
        r != MineOutcome::AlreadyMined ==> {
            &&& !spec_mined(old(block)@, spec_difficulty(chain@, old(block)@))
            &&& final(block)@ == restamped(old(block)@, final(block).nonce, now)
        },
        r == MineOutcome::Found ==> {
            &&& spec_mined(final(block)@, spec_difficulty(chain@, final(block)@))
            &&& fresh_nonce / 2 <= final(block).nonce < fresh_nonce / 2 + attempts
        },
        r == MineOutcome::Exhausted ==> {
            &&& final(block).nonce == fresh_nonce / 2 + attempts
            &&& forall|j: u64|
                fresh_nonce / 2 <= j < fresh_nonce / 2 + attempts ==> !spec_mined(
                    restamped(old(block)@, j, now),
                    spec_difficulty(chain@, final(block)@),
                )
        },
{
    let difficulty = chain.difficulty(block);
    if mined(block, difficulty) {
        return MineOutcome::AlreadyMined;
    }
    block.nonce = fresh_nonce / 2;
    block.timestamp = now;
    let ghost stamped = block@;
    let difficulty = chain.difficulty(block);
    if mine_attempt(block, difficulty, attempts) {
        proof {
            assert(block@ == with_nonce(stamped, block.nonce));
            assert(block@ == restamped(old(block)@, block.nonce, now));
            assert(spec_difficulty(chain@, block@) == difficulty);
        }
        MineOutcome::Found
    } else {
        proof {
            assert(block@ == with_nonce(stamped, block.nonce));
            assert(block@ == restamped(old(block)@, block.nonce, now));
            assert(spec_difficulty(chain@, block@) == difficulty);
            assert forall|j: u64|
                fresh_nonce / 2 <= j < fresh_nonce / 2 + attempts implies !spec_mined(
                restamped(old(block)@, j, now),
                difficulty,
            ) by {
                assert(restamped(old(block)@, j, now) == with_nonce(stamped, j));
            }
        }
        MineOutcome::Exhausted
    }
}

/// Installs a found block into the shared candidate slot, but only when
/// the candidate was not replaced meanwhile (same predecessor hash);
/// otherwise the stale solution is discarded.
pub fn adopt_solution(shared: &mut Block, found: Block) -> (r: bool)
    ensures
        r == (old(shared).prev_hash == found.prev_hash),
        r ==> final(shared)@ == found@,
        !r ==> final(shared)@ == old(shared)@,
{
    if shared.prev_hash == found.prev_hash {
        *shared = found;
        true
    } else {
        false
    }
}

} // verus!
