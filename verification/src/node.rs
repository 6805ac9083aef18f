//! The node's decisions on inbound gossip.
//!
//! The event loop around the library hands each inbound payload to one of
//! the two handlers here, under the guards it holds: chain payloads go
//! through [`handle_blockchain`] (replay, then weight-based fork choice),
//! transaction payloads through [`handle_transaction`] (mempool admission
//! into the candidate block).

use vstd::prelude::*;
use crate::blockchain::{
    bal_of, spec_block_hash, spec_difficulty, spec_replay, spec_spendings, Block, BlockView,
    Blockchain, ChainView,
};
use crate::codec;
use crate::hashes::zero_hash;
use crate::keys::PublicKey;
use crate::mining;
use crate::mining::spec_mined;
use crate::transaction::{tx_valid, TxView};

verus! {

/// What became of an inbound chain payload when the replayed candidate is
/// strictly heavier: the chain is replaced and the candidate block is
/// regenerated atop the new tip at time `now` for `rew_pkey`.
pub open spec fn adopted(
    c: ChainView,
    chain: ChainView,
    candidate: BlockView,
    rew_pkey: Seq<u8>,
    now: u64,
) -> bool {
    &&& chain == c
    &&& candidate.transactions == Seq::<TxView>::empty()
    &&& candidate.nonce == 0
    &&& candidate.timestamp == now
    &&& candidate.mined_by == rew_pkey
    &&& candidate.prev_hash == if c.blocks.len() == 0 {
        zero_hash()
    } else {
        spec_block_hash(c.blocks.last())
    }
}

/// Handles an inbound chain payload: decode it, replay it from scratch at
/// time `now`, and adopt the result exactly when it is strictly heavier
/// than the chain held now; on adoption the candidate block is regenerated
/// atop the new tip. Returns whether the chain was replaced.
pub fn handle_blockchain(
    chain: &mut Blockchain,
    candidate: &mut Block,
    data: &Vec<u8>,
    rew_pkey: PublicKey,
    now: u64,
) -> (r: bool)
    requires
        old(chain).wf(),
    ensures
        final(chain).wf(),
        match codec::dec_blocks_payload(data@) {
            Some(bs) => match spec_replay(bs, now) {
                Ok(c) => if c.weight > old(chain)@.weight {
                    r && adopted(c, final(chain)@, final(candidate)@, rew_pkey@, now)
                } else {
                    !r && final(chain)@ == old(chain)@ && final(candidate)@ == old(candidate)@
                },
                Err(_) => !r && final(chain)@ == old(chain)@ && final(candidate)@ == old(candidate)@,
            },
            None => !r && final(chain)@ == old(chain)@ && final(candidate)@ == old(candidate)@,
        },
{
    let blocks = match codec::decode_blocks(data) {
        Some(blocks) => blocks,
        None => {
            return false;
        },
    };
    let new_chain = match Blockchain::construct_at(blocks, now) {
        Ok(new_chain) => new_chain,
        Err(_) => {
            return false;
        },
    };
    if new_chain.weight > chain.weight {
        *chain = new_chain;
        *candidate = chain.generate_block_at(rew_pkey, now);
        true
    } else {
        false
    }
}

/// What became of an inbound transaction payload.
#[derive(Clone, Copy, Debug, PartialEq, Eq, Structural)]
pub enum TxAdmission {
    /// The transaction was appended to the candidate block.
    Added,
    /// The candidate is already mined; the payload was dropped.
    AlreadyMined,
    /// The payload did not decode as one transaction.
    MalformedPayload,
    /// The signature did not verify.
    InvalidSignature,
    /// The sender's balance does not cover the pending spend plus this
    /// amount.
    InsufficientFunds,
}

/// Handles an inbound transaction payload: unless the candidate block is
/// already mined, decode the transaction, check its signature, and admit
/// it exactly when the sender's balance covers what the candidate already
/// spends for them plus the new amount.
pub fn handle_transaction(chain: &Blockchain, candidate: &mut Block, data: &Vec<u8>) -> (r:
    TxAdmission)
    requires
        chain.wf(),
        chain.blocks@.len() > 0 ==> chain@.blocks.last().timestamp <= old(candidate).timestamp,
    ensures
        r != TxAdmission::Added ==> final(candidate)@ == old(candidate)@,
        r == TxAdmission::AlreadyMined <==> spec_mined(
            old(candidate)@,
            spec_difficulty(chain@, old(candidate)@),
        ),
        r != TxAdmission::AlreadyMined ==> match codec::dec_transaction_payload(data@) {
            None => r == TxAdmission::MalformedPayload,
            Some(t) => if !tx_valid(t) {
                r == TxAdmission::InvalidSignature
            } else if bal_of(chain@.balances, t.data.from) >= spec_spendings(
                old(candidate)@.transactions,
                t.data.from,
            ) + t.data.amount {
                r == TxAdmission::Added && final(candidate)@.transactions == old(candidate)@.transactions.push(t) && final(candidate)@.nonce == old(candidate)@.nonce
                    && final(candidate)@.timestamp == old(candidate)@.timestamp && final(candidate)@.mined_by == old(candidate)@.mined_by && final(candidate)@.prev_hash == old(candidate)@.prev_hash
            } else {
                r == TxAdmission::InsufficientFunds
            },
        },
{
    let difficulty = chain.difficulty(candidate);
    if mining::mined(candidate, difficulty) {
        return TxAdmission::AlreadyMined;
    }
    let transaction = match codec::decode_transaction(data) {
        Some(transaction) => transaction,
        None => {
            return TxAdmission::MalformedPayload;
        },
    };
    if !transaction.valid() {
        return TxAdmission::InvalidSignature;
    }
    let user_spendings = candidate.pending_spend(&transaction.data.from);
    let user_balance = chain.balances.get(&transaction.data.from);
    if (user_balance as u128) >= user_spendings + (transaction.data.amount as u128) {
        let ghost before = candidate@;
        candidate.transactions.push(transaction);
        proof {
            assert(candidate@.transactions =~= before.transactions.push(transaction@));
        }
        TxAdmission::Added
    } else {
        TxAdmission::InsufficientFunds
    }
}

} // verus!
