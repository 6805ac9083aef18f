//! The client: a key pair and the queue of transfers it has signed but not
//! yet handed to the network.
//!
//! The wallet-facing surface around the library drains the queue, encodes
//! each transaction with the codec, and publishes it on the transactions
//! topic.

use vstd::prelude::*;
use crate::keys::{KeyPair, PublicKey};
use crate::transaction::{tx_valid, Transaction};

verus! {

/// A signing identity and its outbound transaction queue.
pub struct Client {
    pub key_pair: KeyPair,
    pub outgoing: Vec<Transaction>,
}

impl Client {
    /// A client with a freshly drawn key pair and nothing queued.
    pub fn new() -> (r: Client)
        ensures
            r.key_pair.wf(),
            r.outgoing@.len() == 0,
    {
        Client { key_pair: KeyPair::generate(), outgoing: Vec::new() }
    }

    /// Signs a transfer of `amount` to `payee` and queues it for
    /// publication.
    pub fn send_transaction(&mut self, payee: PublicKey, amount: u64)
        requires
            old(self).key_pair.wf(),
        ensures
            final(self).key_pair == old(self).key_pair,
            final(self).outgoing@.len() == old(self).outgoing@.len() + 1,
            forall|i: int|
                0 <= i < old(self).outgoing@.len() ==> final(self).outgoing@[i] == old(self).outgoing@[i],
            ({
                let t = final(self).outgoing@.last();
                &&& t.data.from == old(self).key_pair.public
                &&& t.data.to == payee
                &&& t.data.amount == amount
                &&& tx_valid(t@)
            }),
    {
        let transaction = Transaction::new(payee, amount, &self.key_pair);
        self.outgoing.push(transaction);
    }

    /// Takes the oldest queued transaction, if any, for publication.
    pub fn next_outgoing(&mut self) -> (r: Option<Transaction>)
        ensures
            final(self).key_pair == old(self).key_pair,
            old(self).outgoing@.len() == 0 ==> r is None && final(self).outgoing@ == old(self).outgoing@,
            old(self).outgoing@.len() > 0 ==> r == Some(old(self).outgoing@[0]) && final(self).outgoing@ == old(self).outgoing@.skip(1),
    {
        if self.outgoing.len() == 0 {
            None
        } else {
            let t = self.outgoing.remove(0);
            proof {
                assert(self.outgoing@ =~= old(self).outgoing@.skip(1));
            }
            Some(t)
        }
    }
}

} // verus!
