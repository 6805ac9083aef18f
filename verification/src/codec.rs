//! Deterministic wire codec.
//!
//! Every value that crosses the wire or feeds a hash is encoded by the
//! functions here: integers little-endian, keys and signatures as raw bytes,
//! sequences with a leading count. The encoders and decoders are verified
//! against spec-level functions, and round-trip lemmas state that decoding
//! an encoding yields the value back.

use vstd::prelude::*;
use vstd::bytes::{spec_u64_to_le_bytes, spec_u64_from_le_bytes, lemma_auto_spec_u64_to_from_le_bytes};
use vstd::slice::slice_subrange;
use crate::blockchain::{Block, BlockView, block_wf};
use crate::hashes::Hash256;
use crate::transaction::{Transaction, TransactionData, TxDataView, TxView};

verus! {

// ---------------------------------------------------------------------------
// Spec-level encoders
// ---------------------------------------------------------------------------

/// Encoding of a transaction payload: payer key, payee key, amount.
pub open spec fn enc_txdata(d: TxDataView) -> Seq<u8> {
    d.from + d.to + spec_u64_to_le_bytes(d.amount)
}

/// Encoding of a transaction: payload then signature.
pub open spec fn enc_tx(t: TxView) -> Seq<u8> {
    enc_txdata(t.data) + t.signature
}

/// The payload shape every runtime transaction has: 32-byte keys.
pub open spec fn txdata_wf(d: TxDataView) -> bool {
    d.from.len() == 32 && d.to.len() == 32
}

/// The shape every runtime transaction has: 32-byte keys, 64-byte
/// signature.
pub open spec fn tx_wf(t: TxView) -> bool {
    txdata_wf(t.data) && t.signature.len() == 64
}

// ---------------------------------------------------------------------------
// Spec-level decoders: each consumes a prefix and returns the rest
// ---------------------------------------------------------------------------

/// Reads a little-endian u64 off the front.
pub open spec fn dec_u64(s: Seq<u8>) -> Option<(u64, Seq<u8>)> {
    if s.len() >= 8 {
        Some((spec_u64_from_le_bytes(s.take(8)), s.skip(8)))
    } else {
        None
    }
}

/// Reads `n` raw bytes off the front.
pub open spec fn dec_bytes(s: Seq<u8>, n: int) -> Option<(Seq<u8>, Seq<u8>)> {
    if s.len() >= n {
        Some((s.take(n), s.skip(n)))
    } else {
        None
    }
}

/// Reads a transaction payload off the front.
pub open spec fn dec_txdata(s: Seq<u8>) -> Option<(TxDataView, Seq<u8>)> {
    match dec_bytes(s, 32) {
        Some((from, s1)) => match dec_bytes(s1, 32) {
            Some((to, s2)) => match dec_u64(s2) {
                Some((amount, s3)) => Some((TxDataView { from, to, amount }, s3)),
                None => None,
            },
            None => None,
        },
        None => None,
    }
}

/// Reads a transaction off the front.
pub open spec fn dec_tx(s: Seq<u8>) -> Option<(TxView, Seq<u8>)> {
    match dec_txdata(s) {
        Some((data, s1)) => match dec_bytes(s1, 64) {
            Some((signature, s2)) => Some((TxView { data, signature }, s2)),
            None => None,
        },
        None => None,
    }
}

/// A whole-payload transaction: trailing bytes are refused.
pub open spec fn dec_transaction_payload(s: Seq<u8>) -> Option<TxView> {
    match dec_tx(s) {
        Some((t, rest)) => if rest.len() == 0 {
            Some(t)
        } else {
            None
        },
        None => None,
    }
}

// ---------------------------------------------------------------------------
// Round-trip lemmas
// ---------------------------------------------------------------------------

/// Decoding a u64 encoding returns the value and the rest.
pub proof fn lemma_dec_u64(x: u64, rest: Seq<u8>)
    ensures
        dec_u64(spec_u64_to_le_bytes(x) + rest) == Some((x, rest)),
{
    lemma_auto_spec_u64_to_from_le_bytes();
    let s = spec_u64_to_le_bytes(x) + rest;
    assert(s.take(8) =~= spec_u64_to_le_bytes(x));
    assert(s.skip(8) =~= rest);
}

/// Decoding a raw-byte encoding returns the bytes and the rest.
pub proof fn lemma_dec_bytes(b: Seq<u8>, rest: Seq<u8>)
    ensures
        dec_bytes(b + rest, b.len() as int) == Some((b, rest)),
{
    let s = b + rest;
    assert(s.take(b.len() as int) =~= b);
    assert(s.skip(b.len() as int) =~= rest);
}

/// Decoding a payload encoding returns the payload and the rest.
pub proof fn lemma_dec_txdata(d: TxDataView, rest: Seq<u8>)
    requires
        txdata_wf(d),
    ensures
        dec_txdata(enc_txdata(d) + rest) == Some((d, rest)),
{
    let s = enc_txdata(d) + rest;
    assert(s =~= d.from + (d.to + (spec_u64_to_le_bytes(d.amount) + rest)));
    lemma_dec_bytes(d.from, d.to + (spec_u64_to_le_bytes(d.amount) + rest));
    lemma_dec_bytes(d.to, spec_u64_to_le_bytes(d.amount) + rest);
    lemma_dec_u64(d.amount, rest);
}

/// Decoding a transaction encoding returns the transaction and the rest.
pub proof fn lemma_dec_tx(t: TxView, rest: Seq<u8>)
    requires
        tx_wf(t),
    ensures
        dec_tx(enc_tx(t) + rest) == Some((t, rest)),
{
    let s = enc_tx(t) + rest;
    assert(s =~= enc_txdata(t.data) + (t.signature + rest));
    lemma_dec_txdata(t.data, t.signature + rest);
    lemma_dec_bytes(t.signature, rest);
}

/// A transaction round-trips through the codec.
pub proof fn lemma_transaction_round_trip(t: TxView)
    requires
        tx_wf(t),
    ensures
        dec_transaction_payload(enc_tx(t)) == Some(t),
{
    assert(enc_tx(t) =~= enc_tx(t) + Seq::<u8>::empty());
    lemma_dec_tx(t, Seq::<u8>::empty());
}

// ---------------------------------------------------------------------------
// Executable encoders
// ---------------------------------------------------------------------------

/// Appends the little-endian bytes of `x`.
fn push_u64(out: &mut Vec<u8>, x: u64)
    ensures
        final(out)@ == old(out)@ + spec_u64_to_le_bytes(x),
{
    let mut bytes = vstd::bytes::u64_to_le_bytes(x);
    out.append(&mut bytes);
}

/// Appends 32 raw bytes.
fn push_bytes32(out: &mut Vec<u8>, b: &[u8; 32])
    ensures
        final(out)@ == old(out)@ + b@,
{
    let mut i: usize = 0;
    while i < 32
        invariant
            i <= 32,
            out@ == old(out)@ + b@.take(i as int),
        decreases 32 - i,
    {
        out.push(b[i]);
        proof {
            assert(old(out)@ + b@.take(i as int) + seq![b@[i as int]] =~= old(out)@ + b@.take(
                i as int + 1));
        }
        i = i + 1;
    }
    proof {
        assert(b@.take(32) =~= b@);
    }
}

/// Appends 64 raw bytes.
fn push_bytes64(out: &mut Vec<u8>, b: &[u8; 64])
    ensures
        final(out)@ == old(out)@ + b@,
{
    let mut i: usize = 0;
    while i < 64
        invariant
            i <= 64,
            out@ == old(out)@ + b@.take(i as int),
        decreases 64 - i,
    {
        out.push(b[i]);
        proof {
            assert(old(out)@ + b@.take(i as int) + seq![b@[i as int]] =~= old(out)@ + b@.take(
                i as int + 1));
        }
        i = i + 1;
    }
    proof {
        assert(b@.take(64) =~= b@);
    }
}

/// Appends the encoding of a transaction payload.
fn push_txdata(out: &mut Vec<u8>, d: &TransactionData)
    ensures
        final(out)@ == old(out)@ + enc_txdata(d@),
{
    push_bytes32(out, &d.from.bytes);
    push_bytes32(out, &d.to.bytes);
    push_u64(out, d.amount);
    proof {
        assert(old(out)@ + d.from@ + d.to@ + spec_u64_to_le_bytes(d.amount) =~= old(out)@
            + enc_txdata(d@));
    }
}

/// Encodes a transaction payload; this is also the byte string a
/// transaction's signature covers.
pub fn encode_txdata(d: &TransactionData) -> (r: Vec<u8>)
    ensures
        r@ == enc_txdata(d@),
{
    let mut out: Vec<u8> = Vec::new();
    push_txdata(&mut out, d);
    proof {
        assert(Seq::<u8>::empty() + enc_txdata(d@) =~= enc_txdata(d@));
    }
    out
}

/// Appends the encoding of a transaction.
fn push_tx(out: &mut Vec<u8>, t: &Transaction)
    ensures
        final(out)@ == old(out)@ + enc_tx(t@),
{
    push_txdata(out, &t.data);
    push_bytes64(out, &t.signature.bytes);
    proof {
        assert(old(out)@ + enc_txdata(t.data@) + t.signature@ =~= old(out)@ + enc_tx(t@));
    }
}

/// Encodes a transaction for the wire.
pub fn encode_transaction(t: &Transaction) -> (r: Vec<u8>)
    ensures
        r@ == enc_tx(t@),
{
    let mut out: Vec<u8> = Vec::new();
    push_tx(&mut out, t);
    proof {
        assert(Seq::<u8>::empty() + enc_tx(t@) =~= enc_tx(t@));
    }
    out
}

// ---------------------------------------------------------------------------
// Executable decoders
// ---------------------------------------------------------------------------

/// Reads a u64 at `pos`, returning the value and the next position.
fn read_u64(data: &Vec<u8>, pos: usize) -> (r: Option<(u64, usize)>)
    requires
        pos <= data@.len(),
    ensures
        match r {
            Some(v) => {
                &&& dec_u64(data@.skip(pos as int)) == Some((v.0, data@.skip(v.1 as int)))
                &&& pos < v.1 <= data@.len()
            },
            None => dec_u64(data@.skip(pos as int)) is None,
        },
{
    if data.len() - pos >= 8 {
        let s = slice_subrange(data.as_slice(), pos, pos + 8);
        let x = vstd::bytes::u64_from_le_bytes(s);
        proof {
            assert(data@.skip(pos as int).take(8) =~= data@.subrange(pos as int, pos + 8));
            assert(data@.skip(pos as int).skip(8) =~= data@.skip(pos + 8));
        }
        Some((x, pos + 8))
    } else {
        None
    }
}

/// Reads 32 raw bytes at `pos`.
fn read_bytes32(data: &Vec<u8>, pos: usize) -> (r: Option<([u8; 32], usize)>)
    requires
        pos <= data@.len(),
    ensures
        match r {
            Some(v) => {
                &&& dec_bytes(data@.skip(pos as int), 32) == Some((v.0@, data@.skip(v.1 as int)))
                &&& pos < v.1 <= data@.len()
            },
            None => dec_bytes(data@.skip(pos as int), 32) is None,
        },
{
    if data.len() - pos >= 32 {
        let mut arr = [0u8; 32];
        let mut i: usize = 0;
        while i < 32
            invariant
                i <= 32,
                pos + 32 <= data@.len(),
                pos + 32 <= usize::MAX,
                arr@.len() == 32,
                arr@.take(i as int) == data@.subrange(pos as int, pos + i),
            decreases 32 - i,
        {
            arr[i] = data[pos + i];
            proof {
                assert(arr@.take(i + 1) =~= data@.subrange(pos as int, pos + i + 1));
            }
            i = i + 1;
        }
        proof {
            assert(arr@ =~= arr@.take(32));
            assert(data@.skip(pos as int).take(32) =~= data@.subrange(pos as int, pos + 32));
            assert(data@.skip(pos as int).skip(32) =~= data@.skip(pos + 32));
        }
        Some((arr, pos + 32))
    } else {
        None
    }
}

/// Reads 64 raw bytes at `pos`.
fn read_bytes64(data: &Vec<u8>, pos: usize) -> (r: Option<([u8; 64], usize)>)
    requires
        pos <= data@.len(),
    ensures
        match r {
            Some(v) => {
                &&& dec_bytes(data@.skip(pos as int), 64) == Some((v.0@, data@.skip(v.1 as int)))
                &&& pos < v.1 <= data@.len()
            },
            None => dec_bytes(data@.skip(pos as int), 64) is None,
        },
{
    if data.len() - pos >= 64 {
        let mut arr = [0u8; 64];
        let mut i: usize = 0;
        while i < 64
            invariant
                i <= 64,
                pos + 64 <= data@.len(),
                pos + 64 <= usize::MAX,
                arr@.len() == 64,
                arr@.take(i as int) == data@.subrange(pos as int, pos + i),
            decreases 64 - i,
        {
            arr[i] = data[pos + i];
            proof {
                assert(arr@.take(i + 1) =~= data@.subrange(pos as int, pos + i + 1));
            }
            i = i + 1;
        }
        proof {
            assert(arr@ =~= arr@.take(64));
            assert(data@.skip(pos as int).take(64) =~= data@.subrange(pos as int, pos + 64));
            assert(data@.skip(pos as int).skip(64) =~= data@.skip(pos + 64));
        }
        Some((arr, pos + 64))
    } else {
        None
    }
}

/// Reads a transaction payload at `pos`.
fn read_txdata(data: &Vec<u8>, pos: usize) -> (r: Option<(TransactionData, usize)>)
    requires
        pos <= data@.len(),
    ensures
        match r {
            Some(v) => {
                &&& dec_txdata(data@.skip(pos as int)) == Some((v.0@, data@.skip(v.1 as int)))
                &&& pos < v.1 <= data@.len()
            },
            None => dec_txdata(data@.skip(pos as int)) is None,
        },
{
    match read_bytes32(data, pos) {
        Some((from, p1)) => match read_bytes32(data, p1) {
            Some((to, p2)) => match read_u64(data, p2) {
                Some((amount, p3)) => Some(
                    (
                        TransactionData {
                            from: crate::keys::PublicKey { bytes: from },
                            to: crate::keys::PublicKey { bytes: to },
                            amount,
                        },
                        p3,
                    ),
                ),
                None => None,
            },
            None => None,
        },
        None => None,
    }
}

/// Reads a transaction at `pos`.
fn read_tx(data: &Vec<u8>, pos: usize) -> (r: Option<(Transaction, usize)>)
    requires
        pos <= data@.len(),
    ensures
        match r {
            Some(v) => {
                &&& dec_tx(data@.skip(pos as int)) == Some((v.0@, data@.skip(v.1 as int)))
                &&& pos < v.1 <= data@.len()
            },
            None => dec_tx(data@.skip(pos as int)) is None,
        },
{
    match read_txdata(data, pos) {
        Some((d, p1)) => match read_bytes64(data, p1) {
            Some((sig, p2)) => Some(
                (Transaction { data: d, signature: crate::keys::Signature { bytes: sig } }, p2),
            ),
            None => None,
        },
        None => None,
    }
}

// ---------------------------------------------------------------------------
// Blocks
// ---------------------------------------------------------------------------

/// Encoding of a hash: four limbs, little-endian, least significant first.
pub open spec fn enc_hash(h: Hash256) -> Seq<u8> {
    spec_u64_to_le_bytes(h.w0) + spec_u64_to_le_bytes(h.w1) + spec_u64_to_le_bytes(h.w2)
        + spec_u64_to_le_bytes(h.w3)
}

/// Encoding of a transaction sequence, one after the other.
pub open spec fn enc_txs(s: Seq<TxView>) -> Seq<u8>
    decreases s.len(),
{
    if s.len() == 0 {
        Seq::empty()
    } else {
        enc_tx(s[0]) + enc_txs(s.skip(1))
    }
}

/// Encoding of a block: transaction count, transactions, nonce, timestamp,
/// miner key, predecessor hash. This is also the byte string a block's hash
/// covers.
pub open spec fn enc_block(b: BlockView) -> Seq<u8> {
    spec_u64_to_le_bytes(b.transactions.len() as u64) + enc_txs(b.transactions)
        + spec_u64_to_le_bytes(b.nonce) + spec_u64_to_le_bytes(b.timestamp) + b.mined_by
        + enc_hash(b.prev_hash)
}

/// Encoding of a block sequence, one after the other.
pub open spec fn enc_blocks_body(s: Seq<BlockView>) -> Seq<u8>
    decreases s.len(),
{
    if s.len() == 0 {
        Seq::empty()
    } else {
        enc_block(s[0]) + enc_blocks_body(s.skip(1))
    }
}

/// Encoding of a whole chain payload: block count, then the blocks.
pub open spec fn enc_blocks(s: Seq<BlockView>) -> Seq<u8> {
    spec_u64_to_le_bytes(s.len() as u64) + enc_blocks_body(s)
}

/// Reads a hash off the front.
pub open spec fn dec_hash(s: Seq<u8>) -> Option<(Hash256, Seq<u8>)> {
    match dec_u64(s) {
        Some((w0, s1)) => match dec_u64(s1) {
            Some((w1, s2)) => match dec_u64(s2) {
                Some((w2, s3)) => match dec_u64(s3) {
                    Some((w3, s4)) => Some((Hash256 { w0, w1, w2, w3 }, s4)),
                    None => None,
                },
                None => None,
            },
            None => None,
        },
        None => None,
    }
}

/// Reads `n` transactions off the front.
pub open spec fn dec_txs(s: Seq<u8>, n: nat) -> Option<(Seq<TxView>, Seq<u8>)>
    decreases n,
{
    if n == 0 {
        Some((Seq::empty(), s))
    } else {
        match dec_tx(s) {
            Some((t, s1)) => match dec_txs(s1, (n - 1) as nat) {
                Some((ts, s2)) => Some((seq![t] + ts, s2)),
                None => None,
            },
            None => None,
        }
    }
}

/// Reads a block off the front.
pub open spec fn dec_block(s: Seq<u8>) -> Option<(BlockView, Seq<u8>)> {
    match dec_u64(s) {
        Some((count, s1)) => match dec_txs(s1, count as nat) {
            Some((transactions, s2)) => match dec_u64(s2) {
                Some((nonce, s3)) => match dec_u64(s3) {
                    Some((timestamp, s4)) => match dec_bytes(s4, 32) {
                        Some((mined_by, s5)) => match dec_hash(s5) {
                            Some((prev_hash, s6)) => Some(
                                (
                                    BlockView {
                                        transactions,
                                        nonce,
                                        timestamp,
                                        mined_by,
                                        prev_hash,
                                    },
                                    s6,
                                ),
                            ),
                            None => None,
                        },
                        None => None,
                    },
                    None => None,
                },
                None => None,
            },
            None => None,
        },
        None => None,
    }
}

/// Reads `n` blocks off the front.
pub open spec fn dec_blocks(s: Seq<u8>, n: nat) -> Option<(Seq<BlockView>, Seq<u8>)>
    decreases n,
{
    if n == 0 {
        Some((Seq::empty(), s))
    } else {
        match dec_block(s) {
            Some((b, s1)) => match dec_blocks(s1, (n - 1) as nat) {
                Some((bs, s2)) => Some((seq![b] + bs, s2)),
                None => None,
            },
            None => None,
        }
    }
}

/// A whole-payload block sequence: trailing bytes are refused.
pub open spec fn dec_blocks_payload(s: Seq<u8>) -> Option<Seq<BlockView>> {
    match dec_u64(s) {
        Some((count, s1)) => match dec_blocks(s1, count as nat) {
            Some((bs, rest)) => if rest.len() == 0 {
                Some(bs)
            } else {
                None
            },
            None => None,
        },
        None => None,
    }
}

// ---------------------------------------------------------------------------
// Round-trip lemmas for blocks
// ---------------------------------------------------------------------------

/// Decoding a hash encoding returns the hash and the rest.
pub proof fn lemma_dec_hash(h: Hash256, rest: Seq<u8>)
    ensures
        dec_hash(enc_hash(h) + rest) == Some((h, rest)),
{
    let s = enc_hash(h) + rest;
    let r1 = spec_u64_to_le_bytes(h.w1) + (spec_u64_to_le_bytes(h.w2) + (spec_u64_to_le_bytes(
        h.w3,
    ) + rest));
    let r2 = spec_u64_to_le_bytes(h.w2) + (spec_u64_to_le_bytes(h.w3) + rest);
    let r3 = spec_u64_to_le_bytes(h.w3) + rest;
    assert(s =~= spec_u64_to_le_bytes(h.w0) + r1);
    lemma_dec_u64(h.w0, r1);
    lemma_dec_u64(h.w1, r2);
    lemma_dec_u64(h.w2, r3);
    lemma_dec_u64(h.w3, rest);
}

/// Appending one transaction to a sequence appends its encoding.
pub proof fn lemma_enc_txs_snoc(s: Seq<TxView>, t: TxView)
    ensures
        enc_txs(s.push(t)) == enc_txs(s) + enc_tx(t),
    decreases s.len(),
{
    if s.len() == 0 {
        assert(s.push(t)[0] == t);
        assert(s.push(t).skip(1) =~= Seq::<TxView>::empty());
        assert(enc_txs(s.push(t)) == enc_tx(t) + enc_txs(Seq::<TxView>::empty()));
        assert(enc_tx(t) + Seq::<u8>::empty() =~= Seq::<u8>::empty() + enc_tx(t));
    } else {
        assert(s.push(t)[0] == s[0]);
        assert(s.push(t).skip(1) =~= s.skip(1).push(t));
        lemma_enc_txs_snoc(s.skip(1), t);
        assert(enc_tx(s[0]) + (enc_txs(s.skip(1)) + enc_tx(t)) =~= (enc_tx(s[0]) + enc_txs(
            s.skip(1),
        )) + enc_tx(t));
    }
}

/// Appending one block to a sequence appends its encoding.
pub proof fn lemma_enc_blocks_body_snoc(s: Seq<BlockView>, b: BlockView)
    ensures
        enc_blocks_body(s.push(b)) == enc_blocks_body(s) + enc_block(b),
    decreases s.len(),
{
    if s.len() == 0 {
        assert(s.push(b)[0] == b);
        assert(s.push(b).skip(1) =~= Seq::<BlockView>::empty());
        assert(enc_blocks_body(s.push(b)) == enc_block(b) + enc_blocks_body(
            Seq::<BlockView>::empty()));
        assert(enc_block(b) + Seq::<u8>::empty() =~= Seq::<u8>::empty() + enc_block(b));
    } else {
        assert(s.push(b)[0] == s[0]);
        assert(s.push(b).skip(1) =~= s.skip(1).push(b));
        lemma_enc_blocks_body_snoc(s.skip(1), b);
        assert(enc_block(s[0]) + (enc_blocks_body(s.skip(1)) + enc_block(b)) =~= (enc_block(s[0])
            + enc_blocks_body(s.skip(1))) + enc_block(b));
    }
}

/// Decoding a transaction-sequence encoding returns the sequence and the
/// rest.
pub proof fn lemma_dec_txs(s: Seq<TxView>, rest: Seq<u8>)
    requires
        forall|i: int| 0 <= i < s.len() ==> tx_wf(#[trigger] s[i]),
    ensures
        dec_txs(enc_txs(s) + rest, s.len()) == Some((s, rest)),
    decreases s.len(),
{
    if s.len() == 0 {
        assert(enc_txs(s) + rest =~= rest);
        assert(dec_txs(rest, 0) == Some((Seq::<TxView>::empty(), rest)));
        assert(s =~= Seq::<TxView>::empty());
    } else {
        let tail = s.skip(1);
        assert(enc_txs(s) + rest =~= enc_tx(s[0]) + (enc_txs(tail) + rest));
        lemma_dec_tx(s[0], enc_txs(tail) + rest);
        lemma_dec_txs(tail, rest);
        assert(seq![s[0]] + tail =~= s);
    }
}

/// Decoding a block encoding returns the block and the rest.
pub proof fn lemma_dec_block(b: BlockView, rest: Seq<u8>)
    requires
        block_wf(b),
    ensures
        dec_block(enc_block(b) + rest) == Some((b, rest)),
{
    let n = b.transactions.len() as u64;
    let r1 = enc_txs(b.transactions) + (spec_u64_to_le_bytes(b.nonce) + (spec_u64_to_le_bytes(
        b.timestamp,
    ) + (b.mined_by + (enc_hash(b.prev_hash) + rest))));
    let r2 = spec_u64_to_le_bytes(b.nonce) + (spec_u64_to_le_bytes(b.timestamp) + (b.mined_by + (
    enc_hash(b.prev_hash) + rest)));
    let r3 = spec_u64_to_le_bytes(b.timestamp) + (b.mined_by + (enc_hash(b.prev_hash) + rest));
    let r4 = b.mined_by + (enc_hash(b.prev_hash) + rest);
    let r5 = enc_hash(b.prev_hash) + rest;
    assert(enc_block(b) + rest =~= spec_u64_to_le_bytes(n) + r1);
    lemma_dec_u64(n, r1);
    assert(n as nat == b.transactions.len());
    lemma_dec_txs(b.transactions, r2);
    assert(r1 =~= enc_txs(b.transactions) + r2);
    lemma_dec_u64(b.nonce, r3);
    lemma_dec_u64(b.timestamp, r4);
    lemma_dec_bytes(b.mined_by, r5);
    lemma_dec_hash(b.prev_hash, rest);
}

/// Decoding a block-sequence encoding returns the sequence and the rest.
pub proof fn lemma_dec_blocks(s: Seq<BlockView>, rest: Seq<u8>)
    requires
        forall|i: int| 0 <= i < s.len() ==> block_wf(#[trigger] s[i]),
    ensures
        dec_blocks(enc_blocks_body(s) + rest, s.len()) == Some((s, rest)),
    decreases s.len(),
{
    if s.len() == 0 {
        assert(enc_blocks_body(s) + rest =~= rest);
        assert(s =~= Seq::<BlockView>::empty());
    } else {
        let tail = s.skip(1);
        assert(enc_blocks_body(s) + rest =~= enc_block(s[0]) + (enc_blocks_body(tail) + rest));
        lemma_dec_block(s[0], enc_blocks_body(tail) + rest);
        lemma_dec_blocks(tail, rest);
        assert(seq![s[0]] + tail =~= s);
    }
}

/// A block round-trips through the codec.
pub proof fn lemma_block_round_trip(b: BlockView)
    requires
        block_wf(b),
    ensures
        dec_block(enc_block(b)) == Some((b, Seq::<u8>::empty())),
{
    assert(enc_block(b) =~= enc_block(b) + Seq::<u8>::empty());
    lemma_dec_block(b, Seq::<u8>::empty());
}

/// A chain payload (its block list) round-trips through the codec.
pub proof fn lemma_blocks_round_trip(s: Seq<BlockView>)
    requires
        forall|i: int| 0 <= i < s.len() ==> block_wf(#[trigger] s[i]),
        s.len() <= u64::MAX,
    ensures
        dec_blocks_payload(enc_blocks(s)) == Some(s),
{
    let n = s.len() as u64;
    assert(enc_blocks(s) =~= spec_u64_to_le_bytes(n) + (enc_blocks_body(s) + Seq::<u8>::empty()));
    lemma_dec_u64(n, enc_blocks_body(s) + Seq::<u8>::empty());
    lemma_dec_blocks(s, Seq::<u8>::empty());
}

// ---------------------------------------------------------------------------
// Executable block encoders
// ---------------------------------------------------------------------------

/// Appends the encoding of a hash.
fn push_hash(out: &mut Vec<u8>, h: &Hash256)
    ensures
        final(out)@ == old(out)@ + enc_hash(*h),
{
    push_u64(out, h.w0);
    push_u64(out, h.w1);
    push_u64(out, h.w2);
    push_u64(out, h.w3);
    proof {
        assert(old(out)@ + spec_u64_to_le_bytes(h.w0) + spec_u64_to_le_bytes(h.w1)
            + spec_u64_to_le_bytes(h.w2) + spec_u64_to_le_bytes(h.w3) =~= old(out)@ + enc_hash(
            *h));
    }
}

/// Appends the encoding of a block.
fn push_block(out: &mut Vec<u8>, b: &Block)
    ensures
        final(out)@ == old(out)@ + enc_block(b@),
{
    let ghost txs = b@.transactions;
    push_u64(out, b.transactions.len() as u64);
    let ghost head = old(out)@ + spec_u64_to_le_bytes(b.transactions.len() as u64);
    let mut i: usize = 0;
    proof {
        assert(txs.take(0) =~= Seq::<TxView>::empty());
        assert(out@ =~= head + enc_txs(txs.take(0)));
    }
    while i < b.transactions.len()
        invariant
            i <= b.transactions.len(),
            txs == b@.transactions,
            txs.len() == b.transactions.len(),
            out@ == head + enc_txs(txs.take(i as int)),
        decreases b.transactions.len() - i,
    {
        push_tx(out, &b.transactions[i]);
        proof {
            assert(txs.take(i as int).push(txs[i as int]) =~= txs.take(i as int + 1));
            lemma_enc_txs_snoc(txs.take(i as int), txs[i as int]);
            assert(head + enc_txs(txs.take(i as int)) + enc_tx(txs[i as int]) =~= head + enc_txs(
                txs.take(i as int + 1)));
        }
        i = i + 1;
    }
    proof {
        assert(txs.take(txs.len() as int) =~= txs);
    }
    push_u64(out, b.nonce);
    push_u64(out, b.timestamp);
    push_bytes32(out, &b.mined_by.bytes);
    push_hash(out, &b.prev_hash);
    proof {
        assert(head + enc_txs(txs) + spec_u64_to_le_bytes(b.nonce) + spec_u64_to_le_bytes(
            b.timestamp,
        ) + b.mined_by@ + enc_hash(b.prev_hash) =~= old(out)@ + enc_block(b@));
    }
}

/// Encodes one block; this is the byte string its hash covers.
pub fn encode_block(b: &Block) -> (r: Vec<u8>)
    ensures
        r@ == enc_block(b@),
{
    let mut out: Vec<u8> = Vec::new();
    push_block(&mut out, b);
    proof {
        assert(Seq::<u8>::empty() + enc_block(b@) =~= enc_block(b@));
    }
    out
}

/// Encodes a chain's block list for the wire.
pub fn encode_blocks(blocks: &Vec<Block>) -> (r: Vec<u8>)
    ensures
        r@ == enc_blocks(crate::blockchain::blocks_view(blocks@)),
{
    let ghost bs = crate::blockchain::blocks_view(blocks@);
    let mut out: Vec<u8> = Vec::new();
    push_u64(&mut out, blocks.len() as u64);
    let ghost head = spec_u64_to_le_bytes(blocks.len() as u64);
    let mut i: usize = 0;
    proof {
        assert(bs.take(0) =~= Seq::<BlockView>::empty());
        assert(out@ =~= Seq::<u8>::empty() + head);
        assert(out@ =~= head + enc_blocks_body(bs.take(0)));
    }
    while i < blocks.len()
        invariant
            i <= blocks.len(),
            bs == crate::blockchain::blocks_view(blocks@),
            bs.len() == blocks.len(),
            out@ == head + enc_blocks_body(bs.take(i as int)),
        decreases blocks.len() - i,
    {
        push_block(&mut out, &blocks[i]);
        proof {
            assert(bs[i as int] == blocks@[i as int]@);
            assert(bs.take(i as int).push(bs[i as int]) =~= bs.take(i as int + 1));
            lemma_enc_blocks_body_snoc(bs.take(i as int), bs[i as int]);
            assert(head + enc_blocks_body(bs.take(i as int)) + enc_block(bs[i as int]) =~= head
                + enc_blocks_body(bs.take(i as int + 1)));
        }
        i = i + 1;
    }
    proof {
        assert(bs.take(bs.len() as int) =~= bs);
        assert(head + enc_blocks_body(bs) =~= enc_blocks(bs));
    }
    out
}

// ---------------------------------------------------------------------------
// Executable block decoders
// ---------------------------------------------------------------------------

/// Reads a hash at `pos`.
fn read_hash(data: &Vec<u8>, pos: usize) -> (r: Option<(Hash256, usize)>)
    requires
        pos <= data@.len(),
    ensures
        match r {
            Some(v) => {
                &&& dec_hash(data@.skip(pos as int)) == Some((v.0, data@.skip(v.1 as int)))
                &&& pos < v.1 <= data@.len()
            },
            None => dec_hash(data@.skip(pos as int)) is None,
        },
{
    match read_u64(data, pos) {
        Some((w0, p1)) => match read_u64(data, p1) {
            Some((w1, p2)) => match read_u64(data, p2) {
                Some((w2, p3)) => match read_u64(data, p3) {
                    Some((w3, p4)) => Some((Hash256 { w0, w1, w2, w3 }, p4)),
                    None => None,
                },
                None => None,
            },
            None => None,
        },
        None => None,
    }
}

/// Reads a block at `pos`.
fn read_block(data: &Vec<u8>, pos: usize) -> (r: Option<(Block, usize)>)
    requires
        pos <= data@.len(),
    ensures
        match r {
            Some(v) => {
                &&& dec_block(data@.skip(pos as int)) == Some((v.0@, data@.skip(v.1 as int)))
                &&& pos < v.1 <= data@.len()
            },
            None => dec_block(data@.skip(pos as int)) is None,
        },
{
    let (count, p1) = match read_u64(data, pos) {
        Some(v) => v,
        None => {
            return None;
        },
    };
    let mut txs: Vec<Transaction> = Vec::new();
    let mut p = p1;
    let mut i: u64 = 0;
    proof {
        assert(crate::transaction::txs_view(txs@) =~= Seq::<TxView>::empty());
        match dec_txs(data@.skip(p as int), (count - i) as nat) {
            Some((s, rest)) => {
                assert(crate::transaction::txs_view(txs@) + s =~= s);
            },
            None => {},
        }
    }
    while i < count
        invariant
            i <= count,
            p1 <= p <= data@.len(),
            txs@.len() == i,
            dec_u64(data@.skip(pos as int)) == Some((count, data@.skip(p1 as int))),
            pos < p1 <= data@.len(),
            match dec_txs(data@.skip(p as int), (count - i) as nat) {
                Some((s, rest)) => dec_txs(data@.skip(p1 as int), count as nat) == Some(
                    (crate::transaction::txs_view(txs@) + s, rest),
                ),
                None => dec_txs(data@.skip(p1 as int), count as nat) is None,
            },
        decreases count - i,
    {
        match read_tx(data, p) {
            Some((t, p2)) => {
                proof {
                    let n = (count - i) as nat;
                    assert(dec_tx(data@.skip(p as int)) == Some((t@, data@.skip(p2 as int))));
                    match dec_txs(data@.skip(p2 as int), (n - 1) as nat) {
                        Some((s2, rest)) => {
                            assert(dec_txs(data@.skip(p as int), n) == Some(
                                (seq![t@] + s2, rest),
                            ));
                            assert(crate::transaction::txs_view(txs@.push(t)) =~= crate::transaction::txs_view(txs@) + seq![t@]);
                            assert(crate::transaction::txs_view(txs@) + (seq![t@] + s2) =~= (
                            crate::transaction::txs_view(txs@) + seq![t@]) + s2);
                        },
                        None => {
                            assert(dec_txs(data@.skip(p as int), n) is None);
                        },
                    }
                }
                txs.push(t);
                p = p2;
            },
            None => {
                proof {
                    assert(dec_txs(data@.skip(p as int), (count - i) as nat) is None);
                }
                return None;
            },
        }
        i = i + 1;
    }
    proof {
        assert(dec_txs(data@.skip(p as int), 0) == Some(
            (Seq::<TxView>::empty(), data@.skip(p as int)),
        ));
        assert(crate::transaction::txs_view(txs@) + Seq::<TxView>::empty() =~= crate::transaction::txs_view(txs@));
    }
    let (nonce, p3) = match read_u64(data, p) {
        Some(v) => v,
        None => {
            return None;
        },
    };
    let (timestamp, p4) = match read_u64(data, p3) {
        Some(v) => v,
        None => {
            return None;
        },
    };
    let (mined_by, p5) = match read_bytes32(data, p4) {
        Some(v) => v,
        None => {
            return None;
        },
    };
    let (prev_hash, p6) = match read_hash(data, p5) {
        Some(v) => v,
        None => {
            return None;
        },
    };
    let block = Block {
        transactions: txs,
        nonce,
        timestamp,
        mined_by: crate::keys::PublicKey { bytes: mined_by },
        prev_hash,
    };
    Some((block, p6))
}

/// Decodes a whole wire payload as a chain's block list; trailing bytes are
/// refused.
pub fn decode_blocks(data: &Vec<u8>) -> (r: Option<Vec<Block>>)
    ensures
        match r {
            Some(blocks) => dec_blocks_payload(data@) == Some(
                crate::blockchain::blocks_view(blocks@),
            ),
            None => dec_blocks_payload(data@) is None,
        },
{
    proof {
        assert(data@.skip(0) =~= data@);
    }
    let (count, p1) = match read_u64(data, 0) {
        Some(v) => v,
        None => {
            return None;
        },
    };
    let mut blocks: Vec<Block> = Vec::new();
    let mut p = p1;
    let mut i: u64 = 0;
    proof {
        assert(crate::blockchain::blocks_view(blocks@) =~= Seq::<BlockView>::empty());
        match dec_blocks(data@.skip(p as int), (count - i) as nat) {
            Some((s, rest)) => {
                assert(crate::blockchain::blocks_view(blocks@) + s =~= s);
            },
            None => {},
        }
    }
    while i < count
        invariant
            i <= count,
            p1 <= p <= data@.len(),
            blocks@.len() == i,
            dec_u64(data@) == Some((count, data@.skip(p1 as int))),
            p1 <= data@.len(),
            match dec_blocks(data@.skip(p as int), (count - i) as nat) {
                Some((s, rest)) => dec_blocks(data@.skip(p1 as int), count as nat) == Some(
                    (crate::blockchain::blocks_view(blocks@) + s, rest),
                ),
                None => dec_blocks(data@.skip(p1 as int), count as nat) is None,
            },
        decreases count - i,
    {
        match read_block(data, p) {
            Some((b, p2)) => {
                proof {
                    let n = (count - i) as nat;
                    match dec_blocks(data@.skip(p2 as int), (n - 1) as nat) {
                        Some((s2, rest)) => {
                            assert(dec_blocks(data@.skip(p as int), n) == Some(
                                (seq![b@] + s2, rest),
                            ));
                            assert(crate::blockchain::blocks_view(blocks@.push(b)) =~= crate::blockchain::blocks_view(blocks@) + seq![b@]);
                            assert(crate::blockchain::blocks_view(blocks@) + (seq![b@] + s2) =~= (
                            crate::blockchain::blocks_view(blocks@) + seq![b@]) + s2);
                        },
                        None => {
                            assert(dec_blocks(data@.skip(p as int), n) is None);
                        },
                    }
                }
                blocks.push(b);
                p = p2;
            },
            None => {
                proof {
                    assert(dec_blocks(data@.skip(p as int), (count - i) as nat) is None);
                }
                return None;
            },
        }
        i = i + 1;
    }
    proof {
        assert(dec_blocks(data@.skip(p as int), 0) == Some(
            (Seq::<BlockView>::empty(), data@.skip(p as int)),
        ));
        assert(crate::blockchain::blocks_view(blocks@) + Seq::<BlockView>::empty()
            =~= crate::blockchain::blocks_view(blocks@));
    }
    if p == data.len() {
        proof {
            assert(data@.skip(p as int).len() == 0);
        }
        Some(blocks)
    } else {
        None
    }
}

/// Decodes a whole wire payload as one transaction; trailing bytes are
/// refused.
pub fn decode_transaction(data: &Vec<u8>) -> (r: Option<Transaction>)
    ensures
        match r {
            Some(t) => dec_transaction_payload(data@) == Some(t@),
            None => dec_transaction_payload(data@) is None,
        },
{
    proof {
        assert(data@.skip(0) =~= data@);
    }
    match read_tx(data, 0) {
        Some((t, p)) => {
            if p == data.len() {
                proof {
                    assert(data@.skip(p as int).len() == 0);
                }
                Some(t)
            } else {
                None
            }
        },
        None => None,
    }
}

} // verus!
