//! Signed value-transfer transactions.
//!
//! A transaction carries its payload (`from`, `to`, `amount`) and a detached
//! ed25519 signature over the payload's deterministic encoding. A
//! transaction is valid exactly when the signature verifies under the payer
//! key it names.

use vstd::prelude::*;
use crate::codec;
use crate::keys;
use crate::keys::{KeyPair, PublicKey, Signature};

verus! {

/// The signed payload of a transfer: payer, payee, and amount.
#[derive(Clone, Copy, Debug)]
pub struct TransactionData {
    pub from: PublicKey,
    pub to: PublicKey,
    pub amount: u64,
}

/// The mathematical image of a [`TransactionData`].
pub ghost struct TxDataView {
    pub from: Seq<u8>,
    pub to: Seq<u8>,
    pub amount: u64,
}

impl View for TransactionData {
    type V = TxDataView;

    open spec fn view(&self) -> TxDataView {
        TxDataView { from: self.from@, to: self.to@, amount: self.amount }
    }
}

/// A signed transfer: the payload and a signature over its encoding.
#[derive(Clone, Copy, Debug)]
pub struct Transaction {
    pub data: TransactionData,
    pub signature: Signature,
}

/// The mathematical image of a [`Transaction`].
pub ghost struct TxView {
    pub data: TxDataView,
    pub signature: Seq<u8>,
}

impl View for Transaction {
    type V = TxView;

    open spec fn view(&self) -> TxView {
        TxView { data: self.data@, signature: self.signature@ }
    }
}

/// The viewwise image of a transaction sequence.
pub open spec fn txs_view(s: Seq<Transaction>) -> Seq<TxView> {
    s.map(|i: int, t: Transaction| t@)
}

/// A transaction is valid when its signature verifies, under the payer key
/// it names, over the payload's deterministic encoding.
pub open spec fn tx_valid(t: TxView) -> bool {
    keys::sig_ok(t.data.from, codec::enc_txdata(t.data), t.signature)
}

impl Transaction {
    /// Builds and signs a transfer of `amount` from the key pair's account
    /// to `to`.
    pub fn new(to: PublicKey, amount: u64, key_pair: &KeyPair) -> (r: Transaction)
        requires
            key_pair.wf(),
        ensures
            r.data.from == key_pair.public,
            r.data.to == to,
            r.data.amount == amount,
            tx_valid(r@),
    {
        let data = TransactionData { from: key_pair.public, to, amount };
        let message = codec::encode_txdata(&data);
        let signature = key_pair.sign(&message);
        Transaction { data, signature }
    }

    /// Whether the signature verifies against the payload under the payer
    /// key.
    pub fn valid(&self) -> (r: bool)
        ensures
            r == tx_valid(self@),
    {
        let message = codec::encode_txdata(&self.data);
        keys::verify(&self.data.from, &message, &self.signature)
    }
}

} // verus!
