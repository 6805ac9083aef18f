//! The chain state machine: blocks, the balance ledger, and the chain.
//!
//! A block batches transactions under a proof-of-work nonce and links to its
//! predecessor by hash. The chain replays blocks into a balance ledger,
//! tracks the current difficulty and the cumulative weight used for fork
//! choice, and owns the consensus rules in `add_block`.

use vstd::prelude::*;
use crate::codec;
use crate::hashes;
use crate::hashes::{Hash256, limbs_of, sha256_of, zero_hash};
use crate::keys::PublicKey;
use crate::mining;
use crate::mining::{offset_spec, spec_mined};
use crate::transaction::{tx_valid, Transaction, TxView};
use crate::MINING_REW;

verus! {

/// A batch of transactions with a proof-of-work nonce, linked to the
/// predecessor block by hash.
#[derive(Clone, Debug)]
pub struct Block {
    pub transactions: Vec<Transaction>,
    pub nonce: u64,
    pub timestamp: u64,
    pub mined_by: PublicKey,
    pub prev_hash: Hash256,
}

/// The mathematical image of a [`Block`].
pub ghost struct BlockView {
    pub transactions: Seq<TxView>,
    pub nonce: u64,
    pub timestamp: u64,
    pub mined_by: Seq<u8>,
    pub prev_hash: Hash256,
}

/// The viewwise image of a block sequence.
pub open spec fn blocks_view(s: Seq<Block>) -> Seq<BlockView> {
    s.map(|i: int, b: Block| b@)
}

impl View for Block {
    type V = BlockView;

    open spec fn view(&self) -> BlockView {
        BlockView {
            transactions: crate::transaction::txs_view(self.transactions@),
            nonce: self.nonce,
            timestamp: self.timestamp,
            mined_by: self.mined_by@,
            prev_hash: self.prev_hash,
        }
    }
}

/// The shape every runtime block has: 32-byte miner key, a transaction
/// count a u64 can hold, and well-shaped transactions.
pub open spec fn block_wf(b: BlockView) -> bool {
    &&& b.mined_by.len() == 32
    &&& b.transactions.len() <= u64::MAX
    &&& forall|i: int| 0 <= i < b.transactions.len() ==> codec::tx_wf(#[trigger] b.transactions[i])
}

/// Every runtime block is well shaped.
pub proof fn lemma_block_view_wf(b: &Block)
    ensures
        block_wf(b@),
{
    assert(b.transactions@.len() == b.transactions.len());
    assert forall|i: int| 0 <= i < b@.transactions.len() implies codec::tx_wf(
        #[trigger] b@.transactions[i],
    ) by {
        assert(b@.transactions[i] == b.transactions@[i]@);
    }
}

/// The hash of a block: SHA-256 over its deterministic encoding, read as a
/// 256-bit value.
pub open spec fn spec_block_hash(b: BlockView) -> Hash256 {
    limbs_of(sha256_of(codec::enc_block(b)))
}

/// The sum a user spends across a transaction sequence.
pub open spec fn spec_spendings(txs: Seq<TxView>, user: Seq<u8>) -> nat
    decreases txs.len(),
{
    if txs.len() == 0 {
        0
    } else {
        (if txs[0].data.from == user {
            txs[0].data.amount as nat
        } else {
            0
        }) + spec_spendings(txs.skip(1), user)
    }
}

/// The spend sum is bounded by the count of transactions times the largest
/// amount.
proof fn lemma_spendings_bound(txs: Seq<TxView>, user: Seq<u8>)
    ensures
        spec_spendings(txs, user) <= txs.len() * (u64::MAX as nat),
    decreases txs.len(),
{
    if txs.len() == 0 {
    } else {
        lemma_spendings_bound(txs.skip(1), user);
        assert((txs.len() - 1) * (u64::MAX as nat) + (u64::MAX as nat) == txs.len() * (
        u64::MAX as nat)) by (nonlinear_arith);
    }
}

impl Block {
    /// SHA-256 over the block's deterministic encoding.
    pub fn hash(&self) -> (r: Hash256)
        ensures
            r == spec_block_hash(self@),
    {
        let bytes = codec::encode_block(self);
        let digest = hashes::sha256(&bytes);
        hashes::bytes32_to_hash(&digest)
    }

    /// The exact sum of amounts this block's transactions spend from
    /// `user`, wide enough never to overflow.
    pub fn pending_spend(&self, user: &PublicKey) -> (r: u128)
        ensures
            r == spec_spendings(self@.transactions, user@),
            r <= u128::MAX - u64::MAX,
    {
        let ghost txs = self@.transactions;
        let mut acc: u128 = 0;
        let mut i: usize = 0;
        proof {
            lemma_spendings_bound(txs, user@);
            assert(txs =~= txs.skip(0));
        }
        while i < self.transactions.len()
            invariant
                i <= self.transactions.len(),
                txs == self@.transactions,
                txs.len() == self.transactions.len(),
                acc + spec_spendings(txs.skip(i as int), user@) == spec_spendings(txs, user@),
                spec_spendings(txs, user@) <= txs.len() * (u64::MAX as nat),
                txs.len() <= usize::MAX,
            decreases self.transactions.len() - i,
        {
            proof {
                assert(txs.skip(i as int)[0] == txs[i as int]);
                assert(txs.skip(i as int).skip(1) =~= txs.skip(i as int + 1));
                vstd::arithmetic::mul::lemma_mul_inequality(
                    txs.len() as int,
                    u64::MAX as int + 1,
                    u64::MAX as int,
                );
            }
            let t = &self.transactions[i];
            if t.data.from == *user {
                proof {
                    assert(txs[i as int].data.from == user@);
                    assert(acc + t.data.amount <= txs.len() * (u64::MAX as nat));
                    assert(txs.len() * (u64::MAX as nat) < u128::MAX) by (nonlinear_arith)
                        requires
                            txs.len() <= usize::MAX,
                    ;
                }
                acc = acc + t.data.amount as u128;
            } else {
                proof {
                    assert(txs[i as int].data.from != user@);
                }
            }
            i = i + 1;
        }
        proof {
            assert(txs.skip(txs.len() as int).len() == 0);
            assert(txs.len() * (u64::MAX as nat) <= u128::MAX - u64::MAX) by (nonlinear_arith)
                requires
                    txs.len() <= usize::MAX,
            ;
        }
        acc
    }

    /// The sum of amounts this block's transactions spend from `user`,
    /// saturating at the largest u64.
    pub fn spendings(&self, user: &PublicKey) -> (r: u64)
        ensures
            spec_spendings(self@.transactions, user@) <= u64::MAX ==> r as nat == spec_spendings(
                self@.transactions,
                user@,
            ),
            spec_spendings(self@.transactions, user@) > u64::MAX ==> r == u64::MAX,
    {
        let acc = self.pending_spend(user);
        if acc > u64::MAX as u128 {
            u64::MAX
        } else {
            acc as u64
        }
    }
}

/// The reason a block was refused.
#[derive(Clone, Copy, Debug, PartialEq, Eq, Structural)]
pub enum BlockValidationError {
    /// The block does not link to the current tip.
    PrevHashMismatch,
    /// The block's hash misses the proof-of-work target.
    BlockNotMinedCorrectly,
    /// A transaction spends more than its sender holds.
    ExcessiveTransactionAmount,
    /// A transaction's signature does not verify.
    InvalidTransactionSignature,
    /// The block's timestamp precedes the tip's or lies in the future.
    InvalidTimestamp,
    /// Adopting the block would overflow the ledger or the weight counter.
    ArithmeticOverflow,
}

/// The balance ledger: an association list from account key to balance,
/// with each key held at most once, viewed as a map.
#[derive(Clone, Debug)]
pub struct Ledger {
    pub entries: Vec<(PublicKey, u64)>,
}

/// The map an entry list stands for, later entries winning.
pub open spec fn entries_map(s: Seq<(PublicKey, u64)>) -> Map<Seq<u8>, u64>
    decreases s.len(),
{
    if s.len() == 0 {
        Map::empty()
    } else {
        entries_map(s.drop_last()).insert(s.last().0@, s.last().1)
    }
}

impl View for Ledger {
    type V = Map<Seq<u8>, u64>;

    open spec fn view(&self) -> Map<Seq<u8>, u64> {
        entries_map(self.entries@)
    }
}

/// The balance of `k` in map `m`, zero when absent.
pub open spec fn bal_of(m: Map<Seq<u8>, u64>, k: Seq<u8>) -> u64 {
    if m.dom().contains(k) {
        m[k]
    } else {
        0
    }
}

/// No key occurs twice in the entry list.
pub open spec fn entries_unique(s: Seq<(PublicKey, u64)>) -> bool {
    forall|i: int, j: int| 0 <= i < j < s.len() ==> (#[trigger] s[i]).0@ != (#[trigger] s[j]).0@
}

/// An entry's key is in the map with the entry's value.
proof fn lemma_entries_map_get(s: Seq<(PublicKey, u64)>, i: int)
    requires
        entries_unique(s),
        0 <= i < s.len(),
    ensures
        entries_map(s).dom().contains(s[i].0@),
        entries_map(s)[s[i].0@] == s[i].1,
    decreases s.len(),
{
    if i == s.len() - 1 {
    } else {
        assert(s.drop_last()[i] == s[i]);
        lemma_entries_map_get(s.drop_last(), i);
        assert(s[i].0@ != s.last().0@);
    }
}

/// A key no entry holds is not in the map.
proof fn lemma_entries_map_absent(s: Seq<(PublicKey, u64)>, k: Seq<u8>)
    requires
        forall|i: int| 0 <= i < s.len() ==> (#[trigger] s[i]).0@ != k,
    ensures
        !entries_map(s).dom().contains(k),
    decreases s.len(),
{
    if s.len() == 0 {
    } else {
        assert(forall|i: int| 0 <= i < s.drop_last().len() ==> (#[trigger] s.drop_last()[i]) == s[i]);
        lemma_entries_map_absent(s.drop_last(), k);
        assert(s.last() == s[s.len() - 1]);
    }
}

/// Updating the value at an existing entry inserts into the map.
proof fn lemma_entries_map_update(s: Seq<(PublicKey, u64)>, i: int, v: u64)
    requires
        entries_unique(s),
        0 <= i < s.len(),
    ensures
        entries_map(s.update(i, (s[i].0, v))) =~= entries_map(s).insert(s[i].0@, v),
    decreases s.len(),
{
    let s2 = s.update(i, (s[i].0, v));
    if i == s.len() - 1 {
        assert(s2.drop_last() =~= s.drop_last());
        assert(s2.last() == (s[i].0, v));
    } else {
        assert(s2.last() == s.last());
        assert(s2.drop_last() =~= s.drop_last().update(i, (s[i].0, v)));
        assert(s.drop_last()[i] == s[i]);
        lemma_entries_map_update(s.drop_last(), i, v);
        assert(s[i].0@ != s.last().0@);
    }
}

impl Ledger {
    /// The representation invariant: each key at most once.
    pub open spec fn wf(&self) -> bool {
        entries_unique(self.entries@)
    }

    /// An empty ledger.
    pub fn new() -> (r: Ledger)
        ensures
            r.wf(),
            r@ =~= Map::<Seq<u8>, u64>::empty(),
    {
        Ledger { entries: Vec::new() }
    }

    /// The balance of `k`, zero when the key is unknown.
    pub fn get(&self, k: &PublicKey) -> (r: u64)
        requires
            self.wf(),
        ensures
            r == bal_of(self@, k@),
    {
        let ghost s = self.entries@;
        let mut i: usize = 0;
        while i < self.entries.len()
            invariant
                i <= s.len(),
                s == self.entries@,
                self.wf(),
                forall|j: int| 0 <= j < i ==> (#[trigger] s[j]).0@ != k@,
            decreases s.len() - i,
        {
            let e = &self.entries[i];
            if e.0 == *k {
                proof {
                    lemma_entries_map_get(s, i as int);
                }
                return e.1;
            }
            i = i + 1;
        }
        proof {
            lemma_entries_map_absent(s, k@);
        }
        0
    }

    /// Sets the balance of `k` to `v`.
    pub fn set(&mut self, k: &PublicKey, v: u64)
        requires
            old(self).wf(),
        ensures
            final(self).wf(),
            final(self)@ =~= old(self)@.insert(k@, v),
    {
        let ghost s = self.entries@;
        let mut i: usize = 0;
        while i < self.entries.len()
            invariant
                i <= s.len(),
                s == self.entries@,
                s == old(self).entries@,
                self.wf(),
                forall|j: int| 0 <= j < i ==> (#[trigger] s[j]).0@ != k@,
            decreases s.len() - i,
        {
            let found = self.entries[i].0 == *k;
            if found {
                let e = vstd::std_specs::vec::vec_index_mut(&mut self.entries, i);
                e.1 = v;
                proof {
                    assert(s[i as int].0@ == k@);
                    assert(self.entries@ =~= s.update(i as int, (s[i as int].0, v)));
                    lemma_entries_map_update(s, i as int, v);
                    assert(entries_unique(self.entries@)) by {
                        assert(forall|j: int|
                            0 <= j < s.len() ==> (#[trigger] self.entries@[j]).0
                                == s[j].0);
                    }
                }
                return ;
            }
            i = i + 1;
        }
        self.entries.push((*k, v));
        proof {
            assert(self.entries@.drop_last() =~= s);
            assert(self.entries@.last() == (*k, v));
            assert(entries_unique(self.entries@)) by {
                assert(forall|j: int| 0 <= j < s.len() ==> (#[trigger] self.entries@[j]) == s[j]);
                assert(self.entries@[s.len() as int].0@ == k@);
            }
        }
    }
}

// ---------------------------------------------------------------------------
// The chain
// ---------------------------------------------------------------------------

/// The ordered, validated block list with its replayed ledger, the current
/// difficulty, and the cumulative weight used for fork choice.
#[derive(Clone, Debug)]
pub struct Blockchain {
    pub blocks: Vec<Block>,
    pub balances: Ledger,
    pub cur_dif: u32,
    pub weight: u32,
}

/// The mathematical image of a [`Blockchain`].
pub ghost struct ChainView {
    pub blocks: Seq<BlockView>,
    pub balances: Map<Seq<u8>, u64>,
    pub cur_dif: u32,
    pub weight: u32,
}

impl View for Blockchain {
    type V = ChainView;

    open spec fn view(&self) -> ChainView {
        ChainView {
            blocks: blocks_view(self.blocks@),
            balances: self.balances@,
            cur_dif: self.cur_dif,
            weight: self.weight,
        }
    }
}

/// The empty chain: no blocks, no balances, difficulty and weight zero.
pub open spec fn empty_chain() -> ChainView {
    ChainView { blocks: Seq::empty(), balances: Map::empty(), cur_dif: 0, weight: 0 }
}

/// The difficulty the chain demands of `b`: zero on an empty chain, else
/// the current difficulty moved by the offset for the time gap to the tip,
/// clamped to the u32 range.
pub open spec fn spec_difficulty(c: ChainView, b: BlockView) -> u32 {
    if c.blocks.len() == 0 {
        0
    } else {
        let tip = c.blocks.last();
        let dt: u64 = if b.timestamp >= tip.timestamp {
            (b.timestamp - tip.timestamp) as u64
        } else {
            0
        };
        let raw = c.cur_dif + offset_spec(dt);
        if raw < 0 {
            0
        } else if raw > u32::MAX {
            u32::MAX
        } else {
            raw as u32
        }
    }
}

/// The block links to the current tip (or to nothing on an empty chain).
pub open spec fn spec_tip_ok(c: ChainView, b: BlockView) -> bool {
    c.blocks.len() == 0 || b.prev_hash == spec_block_hash(c.blocks.last())
}

/// The block's timestamp does not precede the tip's and does not pass
/// `now`.
pub open spec fn spec_ts_ok(c: ChainView, b: BlockView, now: u64) -> bool {
    c.blocks.len() == 0 || (c.blocks.last().timestamp <= b.timestamp && b.timestamp <= now)
}

/// The balance of `k` in an integer-valued map, zero when absent.
pub open spec fn ibal(m: Map<Seq<u8>, int>, k: Seq<u8>) -> int {
    if m.dom().contains(k) {
        m[k]
    } else {
        0
    }
}

/// A u64-valued map widened to integers.
pub open spec fn map_to_int(m: Map<Seq<u8>, u64>) -> Map<Seq<u8>, int> {
    Map::new(|k: Seq<u8>| m.dom().contains(k), |k: Seq<u8>| m[k] as int)
}

/// Every value fits a u64.
pub open spec fn map_fits(m: Map<Seq<u8>, int>) -> bool {
    forall|k: Seq<u8>| #[trigger] m.dom().contains(k) ==> 0 <= m[k] <= u64::MAX
}

/// An integer-valued map narrowed to u64.
pub open spec fn map_to_u64(m: Map<Seq<u8>, int>) -> Map<Seq<u8>, u64> {
    Map::new(|k: Seq<u8>| m.dom().contains(k), |k: Seq<u8>| m[k] as u64)
}

/// Debits each transaction's amount from its sender, in order, after
/// checking its signature and cover; the first failure names the error.
pub open spec fn spec_debits(m: Map<Seq<u8>, int>, txs: Seq<TxView>) -> Result<
    Map<Seq<u8>, int>,
    BlockValidationError,
>
    decreases txs.len(),
{
    if txs.len() == 0 {
        Ok(m)
    } else {
        let t = txs[0];
        if !tx_valid(t) {
            Err(BlockValidationError::InvalidTransactionSignature)
        } else if ibal(m, t.data.from) < t.data.amount {
            Err(BlockValidationError::ExcessiveTransactionAmount)
        } else {
            spec_debits(
                m.insert(t.data.from, ibal(m, t.data.from) - t.data.amount),
                txs.skip(1),
            )
        }
    }
}

/// Credits each transaction's amount to its recipient, in order.
pub open spec fn spec_credits(m: Map<Seq<u8>, int>, txs: Seq<TxView>) -> Map<Seq<u8>, int>
    decreases txs.len(),
{
    if txs.len() == 0 {
        m
    } else {
        let t = txs[0];
        spec_credits(m.insert(t.data.to, ibal(m, t.data.to) + t.data.amount), txs.skip(1))
    }
}

/// Credits the coinbase reward to the block's miner.
pub open spec fn spec_coinbase(m: Map<Seq<u8>, int>, miner: Seq<u8>) -> Map<Seq<u8>, int> {
    m.insert(miner, ibal(m, miner) + MINING_REW)
}

/// What one `add_block` does: each validation in order, then the ledger
/// update, the weight and difficulty update, and the append.
pub open spec fn spec_add(c: ChainView, b: BlockView, now: u64) -> Result<
    ChainView,
    BlockValidationError,
> {
    if !spec_tip_ok(c, b) {
        Err(BlockValidationError::PrevHashMismatch)
    } else if !spec_ts_ok(c, b, now) {
        Err(BlockValidationError::InvalidTimestamp)
    } else {
        let d = spec_difficulty(c, b);
        if !spec_mined(b, d) {
            Err(BlockValidationError::BlockNotMinedCorrectly)
        } else {
            match spec_debits(map_to_int(c.balances), b.transactions) {
                Err(e) => Err(e),
                Ok(m1) => {
                    let m2 = spec_coinbase(spec_credits(m1, b.transactions), b.mined_by);
                    if !map_fits(m2) {
                        Err(BlockValidationError::ArithmeticOverflow)
                    } else if c.weight + d > u32::MAX {
                        Err(BlockValidationError::ArithmeticOverflow)
                    } else {
                        Ok(
                            ChainView {
                                blocks: c.blocks.push(b),
                                balances: map_to_u64(m2),
                                cur_dif: d,
                                weight: (c.weight + d) as u32,
                            },
                        )
                    }
                },
            }
        }
    }
}

/// How an `add_block` call relates the state before and after to its
/// result.
pub open spec fn add_outcome(
    pre: ChainView,
    post: ChainView,
    b: BlockView,
    now: u64,
    r: Result<(), BlockValidationError>,
) -> bool {
    match spec_add(pre, b, now) {
        Ok(c) => r is Ok && post == c,
        Err(e) => r == Err::<(), BlockValidationError>(e) && post == pre,
    }
}

/// Replaying a block list from the empty chain: the state after all blocks
/// were added, or the first error.
pub open spec fn spec_replay(blocks: Seq<BlockView>, now: u64) -> Result<
    ChainView,
    BlockValidationError,
>
    decreases blocks.len(),
{
    if blocks.len() == 0 {
        Ok(empty_chain())
    } else {
        match spec_replay(blocks.drop_last(), now) {
            Ok(c) => spec_add(c, blocks.last(), now),
            Err(e) => Err(e),
        }
    }
}

/// A failed prefix decides the whole replay.
pub proof fn lemma_replay_prefix_err(blocks: Seq<BlockView>, j: int, now: u64)
    requires
        0 <= j <= blocks.len(),
        spec_replay(blocks.take(j), now) is Err,
    ensures
        spec_replay(blocks, now) == spec_replay(blocks.take(j), now),
    decreases blocks.len() - j,
{
    if j == blocks.len() {
        assert(blocks.take(j) =~= blocks);
    } else {
        assert(blocks.take(j + 1).drop_last() =~= blocks.take(j));
        assert(blocks.take(j + 1).last() == blocks[j]);
        lemma_replay_prefix_err(blocks, j + 1, now);
    }
}

/// Narrowing after widening gives the map back.
proof fn lemma_map_round_trip(m: Map<Seq<u8>, u64>)
    ensures
        map_to_u64(map_to_int(m)) =~= m,
{
}

/// Crediting never lowers any balance.
proof fn lemma_credits_monotone(m: Map<Seq<u8>, int>, txs: Seq<TxView>, k: Seq<u8>)
    requires
        forall|k2: Seq<u8>| ibal(m, k2) >= 0,
    ensures
        ibal(spec_credits(m, txs), k) >= ibal(m, k),
        forall|k2: Seq<u8>| ibal(spec_credits(m, txs), k2) >= 0,
    decreases txs.len(),
{
    if txs.len() == 0 {
    } else {
        let t = txs[0];
        let m2 = m.insert(t.data.to, ibal(m, t.data.to) + t.data.amount);
        assert(ibal(m, t.data.to) >= 0);
        assert forall|k2: Seq<u8>| ibal(m2, k2) >= 0 by {
            assert(ibal(m, k2) >= 0);
        }
        lemma_credits_monotone(m2, txs.skip(1), k);
        assert(ibal(m2, k) >= ibal(m, k)) by {
            assert(ibal(m, k) >= 0);
        }
    }
}

// ---------------------------------------------------------------------------
// Chain laws: what holds of every state a replay can reach
// ---------------------------------------------------------------------------

/// The sum a user receives across a transaction sequence.
pub open spec fn spec_received(txs: Seq<TxView>, user: Seq<u8>) -> nat
    decreases txs.len(),
{
    if txs.len() == 0 {
        0
    } else {
        (if txs[0].data.to == user {
            txs[0].data.amount as nat
        } else {
            0
        }) + spec_received(txs.skip(1), user)
    }
}

/// The sum a user spends across a whole block list.
pub open spec fn spec_sent_total(blocks: Seq<BlockView>, user: Seq<u8>) -> nat
    decreases blocks.len(),
{
    if blocks.len() == 0 {
        0
    } else {
        spec_sent_total(blocks.drop_last(), user) + spec_spendings(
            blocks.last().transactions,
            user,
        )
    }
}

/// The sum a user receives across a whole block list.
pub open spec fn spec_received_total(blocks: Seq<BlockView>, user: Seq<u8>) -> nat
    decreases blocks.len(),
{
    if blocks.len() == 0 {
        0
    } else {
        spec_received_total(blocks.drop_last(), user) + spec_received(
            blocks.last().transactions,
            user,
        )
    }
}

/// The coinbase rewards credited to a user across a whole block list.
pub open spec fn spec_coinbase_total(blocks: Seq<BlockView>, user: Seq<u8>) -> nat
    decreases blocks.len(),
{
    if blocks.len() == 0 {
        0
    } else {
        spec_coinbase_total(blocks.drop_last(), user) + (if blocks.last().mined_by == user {
            MINING_REW as nat
        } else {
            0
        })
    }
}

/// The chain state after replaying the first `i` blocks.
pub open spec fn state_at(blocks: Seq<BlockView>, t: u64, i: int) -> ChainView {
    match spec_replay(blocks.take(i), t) {
        Ok(c) => c,
        Err(_) => empty_chain(),
    }
}

/// The difficulty block `i` was held to at its insertion.
pub open spec fn difficulty_at(blocks: Seq<BlockView>, t: u64, i: int) -> u32 {
    spec_difficulty(state_at(blocks, t, i), blocks[i])
}

/// The sum of the first `n` insertion difficulties.
pub open spec fn spec_weight_sum(blocks: Seq<BlockView>, t: u64, n: int) -> int
    decreases n,
{
    if n <= 0 {
        0
    } else {
        spec_weight_sum(blocks, t, n - 1) + difficulty_at(blocks, t, n - 1)
    }
}

/// Debiting changes each balance by exactly what the user spends.
proof fn lemma_debits_delta(m: Map<Seq<u8>, int>, txs: Seq<TxView>, k: Seq<u8>)
    requires
        spec_debits(m, txs) is Ok,
    ensures
        ibal(spec_debits(m, txs)->Ok_0, k) == ibal(m, k) - spec_spendings(txs, k),
    decreases txs.len(),
{
    if txs.len() == 0 {
    } else {
        let t = txs[0];
        let m1 = m.insert(t.data.from, ibal(m, t.data.from) - t.data.amount);
        lemma_debits_delta(m1, txs.skip(1), k);
    }
}

/// Crediting changes each balance by exactly what the user receives.
proof fn lemma_credits_delta(m: Map<Seq<u8>, int>, txs: Seq<TxView>, k: Seq<u8>)
    ensures
        ibal(spec_credits(m, txs), k) == ibal(m, k) + spec_received(txs, k),
    decreases txs.len(),
{
    if txs.len() == 0 {
    } else {
        let t = txs[0];
        let m1 = m.insert(t.data.to, ibal(m, t.data.to) + t.data.amount);
        lemma_credits_delta(m1, txs.skip(1), k);
    }
}

/// A successful debit pass checked every signature.
proof fn lemma_debits_valid(m: Map<Seq<u8>, int>, txs: Seq<TxView>)
    requires
        spec_debits(m, txs) is Ok,
    ensures
        forall|j: int| 0 <= j < txs.len() ==> tx_valid(#[trigger] txs[j]),
    decreases txs.len(),
{
    if txs.len() == 0 {
    } else {
        let t = txs[0];
        let m1 = m.insert(t.data.from, ibal(m, t.data.from) - t.data.amount);
        lemma_debits_valid(m1, txs.skip(1));
        assert forall|j: int| 0 <= j < txs.len() implies tx_valid(#[trigger] txs[j]) by {
            if j > 0 {
                assert(txs[j] == txs.skip(1)[j - 1]);
            }
        }
    }
}

/// No transaction a debit pass admits spends more than its sender's
/// balance before the pass.
proof fn lemma_debits_covered(m: Map<Seq<u8>, int>, txs: Seq<TxView>)
    requires
        spec_debits(m, txs) is Ok,
    ensures
        forall|j: int|
            0 <= j < txs.len() ==> (#[trigger] txs[j]).data.amount <= ibal(m, txs[j].data.from),
    decreases txs.len(),
{
    if txs.len() == 0 {
    } else {
        let t = txs[0];
        let m1 = m.insert(t.data.from, ibal(m, t.data.from) - t.data.amount);
        lemma_debits_covered(m1, txs.skip(1));
        assert forall|j: int|
            0 <= j < txs.len() implies (#[trigger] txs[j]).data.amount <= ibal(
            m,
            txs[j].data.from,
        ) by {
            if j > 0 {
                assert(txs[j] == txs.skip(1)[j - 1]);
                assert(ibal(m1, txs[j].data.from) <= ibal(m, txs[j].data.from));
            }
        }
    }
}

/// A narrowed map reads like the wide one when every value fits.
proof fn lemma_bal_of_narrow(m: Map<Seq<u8>, int>, k: Seq<u8>)
    requires
        map_fits(m),
    ensures
        bal_of(map_to_u64(m), k) == ibal(m, k),
{
}

/// The first `n` insertion difficulties only depend on the first `n + 1`
/// blocks.
proof fn lemma_weight_sum_prefix(blocks: Seq<BlockView>, pre: Seq<BlockView>, t: u64, n: int)
    requires
        0 <= n <= pre.len(),
        pre.len() <= blocks.len(),
        forall|i: int| 0 <= i < pre.len() ==> blocks[i] == pre[i],
    ensures
        spec_weight_sum(blocks, t, n) == spec_weight_sum(pre, t, n),
    decreases n,
{
    if n > 0 {
        lemma_weight_sum_prefix(blocks, pre, t, n - 1);
        assert(blocks.take(n - 1) =~= pre.take(n - 1));
        assert(blocks[n - 1] == pre[n - 1]);
    }
}

/// The basic facts a successful replay guarantees: the state lists exactly
/// the replayed blocks, every adjacent pair is linked by hash, and
/// timestamps never decrease nor pass the replay time.
proof fn lemma_replay_facts_basic(blocks: Seq<BlockView>, t: u64, c: ChainView)
    requires
        spec_replay(blocks, t) == Ok::<ChainView, BlockValidationError>(c),
    ensures
        c.blocks == blocks,
        forall|i: int|
            1 <= i < blocks.len() ==> (#[trigger] blocks[i]).prev_hash == spec_block_hash(
                blocks[i - 1],
            ),
        forall|i: int|
            1 <= i < blocks.len() ==> (#[trigger] blocks[i]).timestamp >= blocks[i - 1].timestamp,
    decreases blocks.len(),
{
    if blocks.len() == 0 {
        assert(c.blocks =~= blocks);
    } else {
        let pre = blocks.drop_last();
        let b = blocks.last();
        let c0 = spec_replay(pre, t)->Ok_0;
        lemma_replay_facts_basic(pre, t, c0);
        let n = blocks.len() as int;
        assert(c.blocks == c0.blocks.push(b));
        assert(c.blocks =~= blocks);
        assert(spec_ts_ok(c0, b, t));
        assert forall|i: int|
            1 <= i < blocks.len() implies (#[trigger] blocks[i]).prev_hash == spec_block_hash(
            blocks[i - 1],
        ) && blocks[i].timestamp >= blocks[i - 1].timestamp by {
            if i < n - 1 {
                assert(blocks[i] == pre[i]);
                assert(blocks[i - 1] == pre[i - 1]);
            } else {
                assert(pre.len() > 0);
                assert(spec_tip_ok(c0, b));
                assert(c0.blocks.last() == blocks[n - 2]);
            }
        }
    }
}

/// Every proper prefix of a block list is shared with its front part.
proof fn lemma_take_prefix(blocks: Seq<BlockView>, pre: Seq<BlockView>)
    requires
        blocks.len() > 0,
        pre == blocks.drop_last(),
    ensures
        forall|i: int| 0 <= i <= pre.len() ==> blocks.take(i) == pre.take(i),
{
    assert forall|i: int| 0 <= i <= pre.len() implies blocks.take(i) == pre.take(i) by {
        assert(blocks.take(i) =~= pre.take(i));
    }
}

/// Block `i` of a successful replay meets its insertion difficulty.
#[verifier::rlimit(100)]
#[verifier::spinoff_prover]
proof fn lemma_replay_mined_at(blocks: Seq<BlockView>, t: u64, c: ChainView, i: int)
    requires
        spec_replay(blocks, t) == Ok::<ChainView, BlockValidationError>(c),
        0 <= i < blocks.len(),
    ensures
        spec_mined(blocks[i], difficulty_at(blocks, t, i)),
    decreases blocks.len(),
{
    let pre = blocks.drop_last();
    let b = blocks.last();
    let c0 = spec_replay(pre, t)->Ok_0;
    let n = blocks.len() as int;
    if i < n - 1 {
        lemma_replay_mined_at(pre, t, c0, i);
        assert(blocks.take(i) =~= pre.take(i));
        assert(blocks[i] == pre[i]);
    } else {
        assert(blocks.take(n - 1) =~= pre);
        assert(state_at(blocks, t, i) == c0);
        assert(spec_mined(b, spec_difficulty(c0, b)));
    }
}

/// A successful replay sums exactly the insertion difficulties into the
/// weight.
#[verifier::rlimit(100)]
#[verifier::spinoff_prover]
proof fn lemma_replay_facts_weight(blocks: Seq<BlockView>, t: u64, c: ChainView)
    requires
        spec_replay(blocks, t) == Ok::<ChainView, BlockValidationError>(c),
    ensures
        c.weight == spec_weight_sum(blocks, t, blocks.len() as int),
    decreases blocks.len(),
{
    if blocks.len() == 0 {
    } else {
        let pre = blocks.drop_last();
        let b = blocks.last();
        let c0 = spec_replay(pre, t)->Ok_0;
        lemma_replay_facts_weight(pre, t, c0);
        let d = spec_difficulty(c0, b);
        let n = blocks.len() as int;
        assert(blocks.take(n - 1) =~= pre);
        lemma_take_prefix(blocks, pre);
        lemma_weight_sum_prefix(blocks, pre, t, n - 1);
        assert(state_at(blocks, t, n - 1) == c0);
        assert(difficulty_at(blocks, t, n - 1) == d);
        assert(c.weight == c0.weight + d);
    }
}

/// A successful replay leaves each balance at the user's coinbase credits
/// plus receipts minus spends.
#[verifier::rlimit(100)]
#[verifier::spinoff_prover]
proof fn lemma_replay_facts_ledger(blocks: Seq<BlockView>, t: u64, c: ChainView)
    requires
        spec_replay(blocks, t) == Ok::<ChainView, BlockValidationError>(c),
    ensures
        forall|k: Seq<u8>|
            #[trigger] bal_of(c.balances, k) as int == spec_coinbase_total(blocks, k)
                + spec_received_total(blocks, k) - spec_sent_total(blocks, k),
    decreases blocks.len(),
{
    if blocks.len() == 0 {
        assert forall|k: Seq<u8>|
            #[trigger] bal_of(c.balances, k) as int == spec_coinbase_total(blocks, k)
                + spec_received_total(blocks, k) - spec_sent_total(blocks, k) by {
            assert(!c.balances.dom().contains(k));
        }
    } else {
        let pre = blocks.drop_last();
        let b = blocks.last();
        let c0 = spec_replay(pre, t)->Ok_0;
        lemma_replay_facts_ledger(pre, t, c0);
        let m0 = map_to_int(c0.balances);
        let txs = b.transactions;
        let m1 = spec_debits(m0, txs)->Ok_0;
        let mc = spec_credits(m1, txs);
        let m2 = spec_coinbase(mc, b.mined_by);
        assert(map_fits(m2));
        assert(c.balances == map_to_u64(m2));
        assert forall|k: Seq<u8>|
            #[trigger] bal_of(c.balances, k) as int == spec_coinbase_total(blocks, k)
                + spec_received_total(blocks, k) - spec_sent_total(blocks, k) by {
            lemma_bal_of_narrow(m2, k);
            lemma_credits_delta(m1, txs, k);
            lemma_debits_delta(m0, txs, k);
            assert(ibal(m0, k) == bal_of(c0.balances, k));
            assert(blocks.drop_last() == pre);
        }
    }
}

/// A successful replay admitted only signed transactions, each covered by
/// its sender's balance before the block it sits in.
#[verifier::rlimit(100)]
#[verifier::spinoff_prover]
proof fn lemma_replay_facts_txs(blocks: Seq<BlockView>, t: u64, c: ChainView)
    requires
        spec_replay(blocks, t) == Ok::<ChainView, BlockValidationError>(c),
    ensures
        forall|i: int, j: int|
            #![trigger blocks[i].transactions[j]]
            0 <= i < blocks.len() && 0 <= j < blocks[i].transactions.len() ==> tx_valid(
                blocks[i].transactions[j],
            ),
        forall|i: int, j: int|
            #![trigger blocks[i].transactions[j]]
            0 <= i < blocks.len() && 0 <= j < blocks[i].transactions.len()
                ==> blocks[i].transactions[j].data.amount <= ibal(
                map_to_int(state_at(blocks, t, i).balances),
                blocks[i].transactions[j].data.from,
            ),
    decreases blocks.len(),
{
    if blocks.len() == 0 {
    } else {
        let pre = blocks.drop_last();
        let b = blocks.last();
        let c0 = spec_replay(pre, t)->Ok_0;
        lemma_replay_facts_txs(pre, t, c0);
        let m0 = map_to_int(c0.balances);
        let txs = b.transactions;
        let n = blocks.len() as int;
        assert(blocks.take(n - 1) =~= pre);
        lemma_take_prefix(blocks, pre);
        lemma_debits_valid(m0, txs);
        lemma_debits_covered(m0, txs);
        assert forall|i: int, j: int|
            #![trigger blocks[i].transactions[j]]
            0 <= i < blocks.len() && 0 <= j < blocks[i].transactions.len() implies tx_valid(
            blocks[i].transactions[j],
        ) && blocks[i].transactions[j].data.amount <= ibal(
            map_to_int(state_at(blocks, t, i).balances),
            blocks[i].transactions[j].data.from,
        ) by {
            if i < n - 1 {
                assert(blocks[i] == pre[i]);
                assert(state_at(blocks, t, i) == state_at(pre, t, i));
                assert(pre[i].transactions[j] == blocks[i].transactions[j]);
            } else {
                assert(state_at(blocks, t, i) == c0);
                assert(blocks[i] == b);
            }
        }
    }
}

/// Every adjacent pair of blocks is linked: the later block's `prev_hash`
/// is the hash of the earlier one, and timestamps never decrease.
pub proof fn lemma_chain_linked(blocks: Seq<BlockView>, t: u64, c: ChainView)
    requires
        spec_replay(blocks, t) == Ok::<ChainView, BlockValidationError>(c),
    ensures
        c.blocks == blocks,
        forall|i: int|
            1 <= i < blocks.len() ==> (#[trigger] blocks[i]).prev_hash == spec_block_hash(
                blocks[i - 1],
            ),
        forall|i: int|
            1 <= i < blocks.len() ==> (#[trigger] blocks[i]).timestamp >= blocks[i - 1].timestamp,
{
    lemma_replay_facts_basic(blocks, t, c);
}

/// Every block meets the proof-of-work target it was held to when it was
/// adopted.
pub proof fn lemma_chain_mined(blocks: Seq<BlockView>, t: u64, c: ChainView)
    requires
        spec_replay(blocks, t) == Ok::<ChainView, BlockValidationError>(c),
    ensures
        forall|i: int|
            0 <= i < blocks.len() ==> spec_mined(#[trigger] blocks[i], difficulty_at(blocks, t, i)),
{
    assert forall|i: int|
        0 <= i < blocks.len() implies spec_mined(
        #[trigger] blocks[i],
        difficulty_at(blocks, t, i),
    ) by {
        lemma_replay_mined_at(blocks, t, c, i);
    }
}

/// The chain's weight is the sum of the difficulty each block was adopted
/// at.
pub proof fn lemma_chain_weight(blocks: Seq<BlockView>, t: u64, c: ChainView)
    requires
        spec_replay(blocks, t) == Ok::<ChainView, BlockValidationError>(c),
    ensures
        c.weight == spec_weight_sum(blocks, t, blocks.len() as int),
{
    lemma_replay_facts_weight(blocks, t, c);
}

/// Every balance equals the user's coinbase credits plus everything
/// received minus everything spent, across all blocks.
pub proof fn lemma_chain_balances(blocks: Seq<BlockView>, t: u64, c: ChainView)
    requires
        spec_replay(blocks, t) == Ok::<ChainView, BlockValidationError>(c),
    ensures
        forall|k: Seq<u8>|
            #[trigger] bal_of(c.balances, k) as int == spec_coinbase_total(blocks, k)
                + spec_received_total(blocks, k) - spec_sent_total(blocks, k),
{
    lemma_replay_facts_ledger(blocks, t, c);
}

/// Every transaction in every adopted block carries a valid signature.
pub proof fn lemma_chain_signatures(blocks: Seq<BlockView>, t: u64, c: ChainView)
    requires
        spec_replay(blocks, t) == Ok::<ChainView, BlockValidationError>(c),
    ensures
        forall|i: int, j: int|
            #![trigger blocks[i].transactions[j]]
            0 <= i < blocks.len() && 0 <= j < blocks[i].transactions.len() ==> tx_valid(
                blocks[i].transactions[j],
            ),
{
    lemma_replay_facts_txs(blocks, t, c);
}

/// No adopted transaction spent more than its sender's balance before the
/// block it sits in.
pub proof fn lemma_chain_no_overspend(blocks: Seq<BlockView>, t: u64, c: ChainView)
    requires
        spec_replay(blocks, t) == Ok::<ChainView, BlockValidationError>(c),
    ensures
        forall|i: int, j: int|
            #![trigger blocks[i].transactions[j]]
            0 <= i < blocks.len() && 0 <= j < blocks[i].transactions.len()
                ==> blocks[i].transactions[j].data.amount <= ibal(
                map_to_int(state_at(blocks, t, i).balances),
                blocks[i].transactions[j].data.from,
            ),
{
    lemma_replay_facts_txs(blocks, t, c);
}

/// An empty chain demands difficulty zero of any block, and accepts any
/// transaction-free block whose hash divides evenly by two, whatever its
/// predecessor hash or timestamp.
pub proof fn lemma_empty_chain_accepts(b: BlockView, now: u64)
    ensures
        spec_difficulty(empty_chain(), b) == 0,
        b.transactions.len() == 0 && spec_mined(b, 0) ==> spec_add(empty_chain(), b, now) is Ok,
{
    if b.transactions.len() == 0 && spec_mined(b, 0) {
        let m0 = map_to_int(empty_chain().balances);
        assert(spec_debits(m0, b.transactions) == Ok::<Map<Seq<u8>, int>, BlockValidationError>(
            m0,
        ));
        let m2 = spec_coinbase(spec_credits(m0, b.transactions), b.mined_by);
        assert(map_fits(m2)) by {
            assert(forall|k: Seq<u8>| #[trigger] m2.dom().contains(k) ==> k == b.mined_by);
            assert(ibal(m0, b.mined_by) == 0);
        }
    }
}

/// Replaying a chain's own block list at any time not before its last
/// timestamp rebuilds the identical state.
pub proof fn lemma_chain_replay(blocks: Seq<BlockView>, t: u64, t2: u64, c: ChainView)
    requires
        spec_replay(blocks, t) == Ok::<ChainView, BlockValidationError>(c),
        blocks.len() > 0 ==> blocks.last().timestamp <= t2,
    ensures
        spec_replay(blocks, t2) == Ok::<ChainView, BlockValidationError>(c),
    decreases blocks.len(),
{
    if blocks.len() == 0 {
    } else {
        let pre = blocks.drop_last();
        let b = blocks.last();
        let c0 = spec_replay(pre, t)->Ok_0;
        lemma_replay_facts_basic(pre, t, c0);
        if pre.len() > 0 {
            assert(spec_ts_ok(c0, b, t));
            assert(c0.blocks.last().timestamp <= b.timestamp);
            assert(pre.last().timestamp <= t2);
        }
        lemma_chain_replay(pre, t, t2, c0);
        assert(spec_ts_ok(c0, b, t2));
    }
}

impl Blockchain {
    /// The representation invariant: the ledger holds each key once.
    pub open spec fn wf(&self) -> bool {
        self.balances.wf()
    }

    /// A fresh, empty chain.
    pub fn new() -> (r: Blockchain)
        ensures
            r.wf(),
            r@ == empty_chain(),
    {
        let r = Blockchain { blocks: Vec::new(), balances: Ledger::new(), cur_dif: 0, weight: 0 };
        proof {
            assert(blocks_view(r.blocks@) =~= Seq::<BlockView>::empty());
            assert(r@.balances =~= Map::<Seq<u8>, u64>::empty());
        }
        r
    }

    /// The difficulty demanded of `block` atop the current tip.
    pub fn difficulty(&self, block: &Block) -> (r: u32)
        requires
            self.blocks@.len() > 0 ==> self@.blocks.last().timestamp <= block.timestamp,
        ensures
            r == spec_difficulty(self@, block@),
    {
        if self.blocks.len() == 0 {
            return 0;
        }
        let tip = &self.blocks[self.blocks.len() - 1];
        proof {
            assert(self@.blocks.last() == tip@);
        }
        let off = mining::calculate_dif_offset(block.timestamp - tip.timestamp);
        let raw: i64 = self.cur_dif as i64 + off as i64;
        proof {
            mining::lemma_offset_bounds((block.timestamp - tip.timestamp) as u64);
        }
        if raw < 0 {
            0
        } else if raw > u32::MAX as i64 {
            u32::MAX
        } else {
            raw as u32
        }
    }

    /// A fresh candidate block atop the current tip, stamped `timestamp`.
    pub fn generate_block_at(&self, mined_by: PublicKey, timestamp: u64) -> (r: Block)
        ensures
            r@.transactions == Seq::<TxView>::empty(),
            r@.nonce == 0,
            r@.timestamp == timestamp,
            r@.mined_by == mined_by@,
            r@.prev_hash == if self@.blocks.len() == 0 {
                zero_hash()
            } else {
                spec_block_hash(self@.blocks.last())
            },
    {
        let prev_hash = if self.blocks.len() == 0 {
            Hash256::zero()
        } else {
            let tip = &self.blocks[self.blocks.len() - 1];
            proof {
                assert(self@.blocks.last() == tip@);
            }
            tip.hash()
        };
        let r = Block {
            transactions: Vec::new(),
            nonce: 0,
            timestamp,
            mined_by,
            prev_hash,
        };
        proof {
            assert(r@.transactions =~= Seq::<TxView>::empty());
        }
        r
    }

    /// A fresh candidate block atop the current tip, stamped with the
    /// clock.
    pub fn generate_block(&self, mined_by: PublicKey) -> (r: Block)
        ensures
            r@.transactions == Seq::<TxView>::empty(),
            r@.nonce == 0,
            r@.mined_by == mined_by@,
            r@.prev_hash == if self@.blocks.len() == 0 {
                zero_hash()
            } else {
                spec_block_hash(self@.blocks.last())
            },
    {
        let timestamp = crate::now();
        self.generate_block_at(mined_by, timestamp)
    }

    /// Whether the sender's current balance covers the amount. A cheap
    /// pre-admission check; signature validity is checked separately.
    pub fn verify_transaction(&self, transaction: &Transaction) -> (r: bool)
        requires
            self.wf(),
        ensures
            r == (bal_of(self@.balances, transaction@.data.from) >= transaction.data.amount),
    {
        self.balances.get(&transaction.data.from) >= transaction.data.amount
    }

    /// Validates `block` against the chain at time `now` and appends it,
    /// updating the ledger, difficulty and weight; on any failure the chain
    /// is left unchanged and the first failed check names the error.
    pub fn add_block_at(&mut self, block: Block, now: u64) -> (r: Result<
        (),
        BlockValidationError,
    >)
        requires
            old(self).wf(),
        ensures
            final(self).wf(),
            add_outcome(old(self)@, final(self)@, block@, now, r),
    {
        let ghost pre = self@;
        let ghost bv = block@;
        if self.blocks.len() > 0 {
            let tip = &self.blocks[self.blocks.len() - 1];
            proof {
                assert(pre.blocks.last() == tip@);
            }
            let tip_hash = tip.hash();
            if tip_hash != block.prev_hash {
                return Err(BlockValidationError::PrevHashMismatch);
            }
            if block.timestamp > now || tip.timestamp > block.timestamp {
                return Err(BlockValidationError::InvalidTimestamp);
            }
        }
        let d = self.difficulty(&block);
        if !mining::mined(&block, d) {
            return Err(BlockValidationError::BlockNotMinedCorrectly);
        }
        let ghost m0 = map_to_int(pre.balances);
        let ghost txs = bv.transactions;
        let mut scratch = self.balances.clone_ledger();
        let mut i: usize = 0;
        proof {
            assert(txs.skip(0) =~= txs);
        }
        while i < block.transactions.len()
            invariant
                i <= block.transactions.len(),
                *self == *old(self),
                self.wf(),
                pre == old(self)@,
                bv == block@,
                spec_tip_ok(pre, bv),
                spec_ts_ok(pre, bv, now),
                d == spec_difficulty(pre, bv),
                spec_mined(bv, d),
                txs == block@.transactions,
                txs.len() == block.transactions.len(),
                scratch.wf(),
                m0 == map_to_int(pre.balances),
                spec_debits(m0, txs) == spec_debits(map_to_int(scratch@), txs.skip(i as int)),
            decreases block.transactions.len() - i,
        {
            let ghost cur = map_to_int(scratch@);
            proof {
                assert(txs.skip(i as int)[0] == txs[i as int]);
                assert(txs.skip(i as int).skip(1) =~= txs.skip(i as int + 1));
            }
            let t = &block.transactions[i];
            proof {
                assert(t@ == txs[i as int]);
            }
            if !t.valid() {
                return Err(BlockValidationError::InvalidTransactionSignature);
            }
            let bal = scratch.get(&t.data.from);
            proof {
                assert(bal == ibal(cur, t@.data.from)) by {
                    assert(bal == bal_of(scratch@, t@.data.from));
                }
            }
            if bal < t.data.amount {
                return Err(BlockValidationError::ExcessiveTransactionAmount);
            }
            scratch.set(&t.data.from, bal - t.data.amount);
            proof {
                assert(map_to_int(scratch@) =~= cur.insert(
                    t@.data.from,
                    ibal(cur, t@.data.from) - t@.data.amount,
                ));
            }
            i = i + 1;
        }
        proof {
            assert(txs.skip(txs.len() as int).len() == 0);
        }
        let ghost m1 = map_to_int(scratch@);
        proof {
            assert(spec_debits(m0, txs) == Ok::<Map<Seq<u8>, int>, BlockValidationError>(m1));
            assert(forall|k2: Seq<u8>| ibal(m1, k2) >= 0);
        }
        let mut i: usize = 0;
        proof {
            assert(txs.skip(0) =~= txs);
        }
        while i < block.transactions.len()
            invariant
                i <= block.transactions.len(),
                *self == *old(self),
                self.wf(),
                pre == old(self)@,
                bv == block@,
                spec_tip_ok(pre, bv),
                spec_ts_ok(pre, bv, now),
                d == spec_difficulty(pre, bv),
                spec_mined(bv, d),
                txs == block@.transactions,
                txs.len() == block.transactions.len(),
                scratch.wf(),
                m0 == map_to_int(pre.balances),
                spec_debits(m0, txs) == Ok::<Map<Seq<u8>, int>, BlockValidationError>(m1),
                spec_credits(m1, txs) == spec_credits(map_to_int(scratch@), txs.skip(i as int)),
                forall|k2: Seq<u8>| ibal(map_to_int(scratch@), k2) >= 0,
            decreases block.transactions.len() - i,
        {
            let ghost cur = map_to_int(scratch@);
            proof {
                assert(txs.skip(i as int)[0] == txs[i as int]);
                assert(txs.skip(i as int).skip(1) =~= txs.skip(i as int + 1));
            }
            let t = &block.transactions[i];
            proof {
                assert(t@ == txs[i as int]);
            }
            let bal = scratch.get(&t.data.to);
            proof {
                assert(bal == ibal(cur, t@.data.to));
            }
            if u64::MAX - bal < t.data.amount {
                proof {
                    let stepped = cur.insert(t@.data.to, ibal(cur, t@.data.to) + t@.data.amount);
                    assert(forall|k2: Seq<u8>| ibal(stepped, k2) >= 0);
                    lemma_credits_monotone(stepped, txs.skip(i as int + 1), t@.data.to);
                    let after = spec_credits(cur, txs.skip(i as int));
                    assert(ibal(after, t@.data.to) > u64::MAX);
                    let m2 = spec_coinbase(spec_credits(m1, txs), bv.mined_by);
                    assert(ibal(m2, t@.data.to) >= ibal(after, t@.data.to)) by {
                        if bv.mined_by == t@.data.to {
                        } else {
                        }
                    }
                    assert(!map_fits(m2)) by {
                        assert(m2.dom().contains(t@.data.to));
                    }
                }
                return Err(BlockValidationError::ArithmeticOverflow);
            }
            scratch.set(&t.data.to, bal + t.data.amount);
            proof {
                assert(map_to_int(scratch@) =~= cur.insert(
                    t@.data.to,
                    ibal(cur, t@.data.to) + t@.data.amount,
                ));
            }
            i = i + 1;
        }
        proof {
            assert(txs.skip(txs.len() as int).len() == 0);
        }
        let ghost mc = map_to_int(scratch@);
        proof {
            assert(spec_credits(m1, txs) == mc);
        }
        let miner_bal = scratch.get(&block.mined_by);
        proof {
            assert(miner_bal == ibal(mc, bv.mined_by));
        }
        if u64::MAX - miner_bal < MINING_REW {
            proof {
                let m2 = spec_coinbase(mc, bv.mined_by);
                assert(ibal(m2, bv.mined_by) > u64::MAX);
                assert(!map_fits(m2)) by {
                    assert(m2.dom().contains(bv.mined_by));
                }
            }
            return Err(BlockValidationError::ArithmeticOverflow);
        }
        scratch.set(&block.mined_by, miner_bal + MINING_REW);
        let ghost m2 = spec_coinbase(mc, bv.mined_by);
        proof {
            assert(map_to_int(scratch@) =~= m2);
            assert(map_fits(m2));
        }
        if u32::MAX - self.weight < d {
            return Err(BlockValidationError::ArithmeticOverflow);
        }
        self.balances = scratch;
        self.weight = self.weight + d;
        self.cur_dif = d;
        self.blocks.push(block);
        proof {
            assert(map_to_u64(m2) =~= self.balances@) by {
                lemma_map_round_trip(self.balances@);
            }
            assert(blocks_view(self.blocks@) =~= pre.blocks.push(bv));
        }
        Ok(())
    }

    /// Validates `block` against the chain at the clock's current time and
    /// appends it.
    pub fn add_block(&mut self, block: Block) -> (r: Result<(), BlockValidationError>)
        requires
            old(self).wf(),
        ensures
            final(self).wf(),
            exists|t: u64| add_outcome(old(self)@, final(self)@, block@, t, r),
    {
        let t = crate::now();
        let r = self.add_block_at(block, t);
        proof {
            assert(add_outcome(old(self)@, self@, block@, t, r));
        }
        r
    }

    /// Replays a block list from the empty chain at time `now`, validating
    /// each block in turn; the first failure names the error.
    pub fn construct_at(blocks: Vec<Block>, now: u64) -> (r: Result<
        Blockchain,
        BlockValidationError,
    >)
        ensures
            match r {
                Ok(c) => c.wf() && spec_replay(blocks_view(blocks@), now) == Ok::<
                    ChainView,
                    BlockValidationError,
                >(c@),
                Err(e) => spec_replay(blocks_view(blocks@), now) == Err::<
                    ChainView,
                    BlockValidationError,
                >(e),
            },
    {
        let ghost bs = blocks_view(blocks@);
        let mut rest = blocks;
        let mut result = Blockchain::new();
        let ghost j: int = 0;
        proof {
            assert(bs.take(0) =~= Seq::<BlockView>::empty());
            assert(blocks_view(rest@) =~= bs.skip(0));
        }
        while rest.len() > 0
            invariant
                bs == blocks_view(blocks@),
                0 <= j <= bs.len(),
                blocks_view(rest@) == bs.skip(j),
                rest@.len() == bs.len() - j,
                result.wf(),
                spec_replay(bs.take(j), now) == Ok::<ChainView, BlockValidationError>(result@),
            decreases rest@.len(),
        {
            let ghost old_rest = rest@;
            let b = rest.remove(0);
            proof {
                assert(blocks_view(old_rest)[0] == old_rest[0]@);
                assert(b@ == bs.skip(j)[0]);
                assert(b@ == bs[j]);
                assert forall|x: int| 0 <= x < rest@.len() implies blocks_view(rest@)[x]
                    == bs.skip(j + 1)[x] by {
                    assert(rest@[x] == old_rest[x + 1]);
                    assert(blocks_view(rest@)[x] == rest@[x]@);
                    assert(blocks_view(old_rest)[x + 1] == old_rest[x + 1]@);
                    assert(bs.skip(j)[x + 1] == bs[j + 1 + x]);
                    assert(bs.skip(j + 1)[x] == bs[j + 1 + x]);
                }
                assert(blocks_view(rest@) =~= bs.skip(j + 1));
                assert(bs.take(j + 1).drop_last() =~= bs.take(j));
                assert(bs.take(j + 1).last() == bs[j]);
            }
            match result.add_block_at(b, now) {
                Ok(()) => {
                    proof {
                        j = j + 1;
                    }
                },
                Err(e) => {
                    proof {
                        assert(spec_replay(bs.take(j + 1), now) == Err::<
                            ChainView,
                            BlockValidationError,
                        >(e));
                        lemma_replay_prefix_err(bs, j + 1, now);
                    }
                    return Err(e);
                },
            }
        }
        proof {
            assert(bs.take(j) =~= bs);
        }
        Ok(result)
    }

    /// Replays a block list from the empty chain at the clock's current
    /// time.
    pub fn construct(blocks: Vec<Block>) -> (r: Result<Blockchain, BlockValidationError>)
        ensures
            match r {
                Ok(c) => c.wf() && exists|t: u64|
                    spec_replay(blocks_view(blocks@), t) == Ok::<
                        ChainView,
                        BlockValidationError,
                    >(c@),
                Err(e) => exists|t: u64|
                    spec_replay(blocks_view(blocks@), t) == Err::<
                        ChainView,
                        BlockValidationError,
                    >(e),
            },
    {
        let ghost bs = blocks_view(blocks@);
        let t = crate::now();
        let r = Blockchain::construct_at(blocks, t);
        proof {
            if r is Ok {
                assert(spec_replay(bs, t) == Ok::<ChainView, BlockValidationError>(
                    (r->Ok_0)@,
                ));
            } else {
                assert(spec_replay(bs, t) == Err::<ChainView, BlockValidationError>(r->Err_0));
            }
        }
        r
    }
}

impl Default for Blockchain {
    /// A fresh, empty chain.
    fn default() -> (r: Blockchain)
        ensures
            r.wf(),
            r@ == empty_chain(),
    {
        Blockchain::new()
    }
}

impl Ledger {
    /// An exact copy of the ledger.
    pub fn clone_ledger(&self) -> (r: Ledger)
        ensures
            r.entries@ == self.entries@,
            r@ == self@,
            self.wf() ==> r.wf(),
    {
        let mut entries: Vec<(PublicKey, u64)> = Vec::new();
        let mut i: usize = 0;
        while i < self.entries.len()
            invariant
                i <= self.entries@.len(),
                entries@ == self.entries@.take(i as int),
            decreases self.entries@.len() - i,
        {
            entries.push(self.entries[i]);
            proof {
                assert(self.entries@.take(i as int).push(self.entries@[i as int])
                    =~= self.entries@.take(i as int + 1));
            }
            i = i + 1;
        }
        proof {
            assert(self.entries@.take(self.entries@.len() as int) =~= self.entries@);
        }
        Ledger { entries }
    }
}

} // verus!
