//! 256-bit block hashes.
//!
//! A hash is held as four 64-bit little-endian limbs, viewed in
//! specifications as the natural number [`hash_nat`]. The digest itself
//! comes from the `crypto_hash` crate behind a trusted wrapper; what SHA-256
//! returns on given bytes is named by the uninterpreted function
//! [`sha256_of`]. The proof-of-work acceptance test "the hash is divisible
//! by 2^k" is the verified function [`low_bits_zero`].

use vstd::prelude::*;
use vstd::arithmetic::power2::{
    pow2, lemma_pow2_adds, lemma_pow2_pos, lemma_pow2_strictly_increases,
};
use vstd::arithmetic::div_mod::{lemma_breakdown, lemma_small_mod};
use vstd::bits::{low_bits_mask, lemma_u64_low_bits_mask_is_mod, lemma_u64_pow2_no_overflow};

verus! {

/// A 256-bit hash as four 64-bit limbs, least significant first. The
/// all-zero value denotes "no predecessor".
#[derive(Clone, Copy, PartialEq, Eq, Structural, Debug)]
pub struct Hash256 {
    pub w0: u64,
    pub w1: u64,
    pub w2: u64,
    pub w3: u64,
}

/// The natural number a hash stands for.
pub open spec fn hash_nat(h: Hash256) -> nat {
    (h.w0 + pow2(64) * (h.w1 + pow2(64) * (h.w2 + pow2(64) * h.w3))) as nat
}

/// The zero hash, written as a block's `prev_hash` when it has no
/// predecessor.
pub open spec fn zero_hash() -> Hash256 {
    Hash256 { w0: 0, w1: 0, w2: 0, w3: 0 }
}

impl Hash256 {
    /// The zero hash as a runtime value.
    pub fn zero() -> (r: Hash256)
        ensures
            r == zero_hash(),
    {
        Hash256 { w0: 0, w1: 0, w2: 0, w3: 0 }
    }
}

/// What SHA-256 returns on given input bytes. A pure function of the bytes.
pub uninterp spec fn sha256_of(data: Seq<u8>) -> Seq<u8>;

/// Relies on crypto_hash::digest with Algorithm::SHA256: the digest is a
/// function of the input bytes alone, named sha256_of, and is 32 bytes long.
#[verifier::external_body]
pub(crate) fn sha256(data: &Vec<u8>) -> (r: [u8; 32])
    ensures
        r@ == sha256_of(data@),
{
    let digest = crypto_hash::digest(crypto_hash::Algorithm::SHA256, data.as_slice());
    digest.try_into().unwrap()
}

/// The 64-bit value read little-endian from eight bytes of `s` starting at
/// `off`.
pub open spec fn le64_at(s: Seq<u8>, off: int) -> u64
    recommends
        0 <= off,
        off + 8 <= s.len(),
{
    (s[off] as u64) | (s[off + 1] as u64) << 8 | (s[off + 2] as u64) << 16 | (s[off + 3] as u64)
        << 24 | (s[off + 4] as u64) << 32 | (s[off + 5] as u64) << 40 | (s[off + 6] as u64) << 48
        | (s[off + 7] as u64) << 56
}

/// The hash whose limbs are read little-endian from a 32-byte digest.
pub open spec fn limbs_of(s: Seq<u8>) -> Hash256 {
    Hash256 { w0: le64_at(s, 0), w1: le64_at(s, 8), w2: le64_at(s, 16), w3: le64_at(s, 24) }
}

fn le64_read(d: &[u8; 32], off: usize) -> (r: u64)
    requires
        off + 8 <= 32,
    ensures
        r == le64_at(d@, off as int),
{
    (d[off] as u64) | (d[off + 1] as u64) << 8u64 | (d[off + 2] as u64) << 16u64 | (d[off + 3]
        as u64) << 24u64 | (d[off + 4] as u64) << 32u64 | (d[off + 5] as u64) << 40u64 | (d[off
        + 6] as u64) << 48u64 | (d[off + 7] as u64) << 56u64
}

/// Packs a 32-byte digest into a hash value.
pub fn bytes32_to_hash(d: &[u8; 32]) -> (r: Hash256)
    ensures
        r == limbs_of(d@),
{
    Hash256 {
        w0: le64_read(d, 0),
        w1: le64_read(d, 8),
        w2: le64_read(d, 16),
        w3: le64_read(d, 24),
    }
}

/// Whether the low `s` bits of a 64-bit word are all zero, i.e. whether the
/// word is divisible by 2^s.
fn u64_low_zero(w: u64, s: u64) -> (r: bool)
    requires
        s <= 64,
    ensures
        r == (w as nat % pow2(s as nat) == 0),
{
    if s == 64 {
        proof {
            vstd::arithmetic::power2::lemma2_to64_rest();
            lemma_small_mod(w as nat, pow2(64));
        }
        w == 0
    } else {
        proof {
            lemma_u64_pow2_no_overflow(s as nat);
            lemma_u64_low_bits_mask_is_mod(w, s as nat);
            lemma_pow2_pos(s as nat);
        }
        w & (low_bits_mask_u64(s)) == 0
    }
}

/// The mask with the low `s` bits set.
fn low_bits_mask_u64(s: u64) -> (r: u64)
    requires
        s < 64,
    ensures
        r == low_bits_mask(s as nat),
{
    proof {
        lemma_u64_pow2_no_overflow(s as nat);
        vstd::bits::lemma_u64_shl_is_mul(1u64, s);
        lemma_pow2_pos(s as nat);
    }
    (1u64 << s) - 1
}

/// A sum `a + 2^64 * b` with `a < 2^64` is divisible by `2^k` (for
/// `k >= 64`) exactly when `a` is zero and `b` is divisible by `2^(k-64)`.
proof fn lemma_split_mod(a: nat, b: nat, k: nat)
    requires
        a < pow2(64),
        k >= 64,
    ensures
        ((a + pow2(64) * b) % pow2(k) == 0) <==> (a == 0 && b % pow2(((k - 64) as nat)) == 0),
{
    let a: int = a as int;
    let b: int = b as int;
    let y: int = pow2(64) as int;
    let z: int = pow2(((k - 64) as nat)) as int;
    let x: int = a + y * b;
    lemma_pow2_pos(64);
    lemma_pow2_pos(((k - 64) as nat));
    lemma_pow2_adds(64, ((k - 64) as nat));
    assert(pow2(k) == y * z);
    assert(0 <= y * b) by (nonlinear_arith)
        requires 0 <= y, 0 <= b,
    ;
    lemma_breakdown(x, y, z);
    assert(x % (y * z) == y * ((x / y) % z) + x % y);
    assert(x % y == a && x / y == b) by {
        vstd::arithmetic::div_mod::lemma_fundamental_div_mod_converse(x, y, b, a);
    }
    assert(x % (y * z) == y * (b % z) + a);
    assert(0 <= b % z) by {
        vstd::arithmetic::div_mod::lemma_mod_bound(b, z);
    }
    assert(x % (pow2(k) as int) == x % (y * z));
    if b % z == 0 && a == 0 {
        assert(x % (y * z) == y * 0 + 0);
    }
    if x % (y * z) == 0 {
        assert(0 <= y * (b % z)) by (nonlinear_arith)
            requires 0 <= y, 0 <= b % z,
        ;
        assert(y * (b % z) == 0 && a == 0);
        assert(b % z == 0) by (nonlinear_arith)
            requires y * (b % z) == 0, y > 0, 0 <= b % z,
        ;
    }
}

/// The value of a hash is below 2^256.
proof fn lemma_hash_nat_bound(h: Hash256)
    ensures
        hash_nat(h) < pow2(256),
{
    let y = pow2(64);
    lemma_pow2_pos(64);
    vstd::arithmetic::power2::lemma2_to64_rest();
    assert(h.w2 + y * h.w3 < y * y) by (nonlinear_arith)
        requires h.w2 < y, h.w3 < y, y > 0,
    ;
    assert(h.w1 + y * (h.w2 + y * h.w3) < y * (y * y)) by (nonlinear_arith)
        requires h.w1 < y, h.w2 + y * h.w3 < y * y, y > 0,
    ;
    assert(h.w0 + y * (h.w1 + y * (h.w2 + y * h.w3)) < y * (y * (y * y))) by (nonlinear_arith)
        requires h.w0 < y, h.w1 + y * (h.w2 + y * h.w3) < y * (y * y), y > 0,
    ;
    lemma_pow2_adds(64, 64);
    lemma_pow2_adds(64, 128);
    lemma_pow2_adds(64, 192);
    assert(y * (y * (y * y)) == pow2(256)) by (nonlinear_arith)
        requires y == pow2(64), y * y == pow2(128), y * pow2(128) == pow2(192), y * pow2(192) == pow2(256),
    ;
}

/// Whether the low `k` bits of a hash are all zero, i.e. whether its value
/// is divisible by 2^k. This is the proof-of-work acceptance test.
pub fn low_bits_zero(h: &Hash256, k: u64) -> (r: bool)
    ensures
        r == (hash_nat(*h) % pow2(k as nat) == 0),
{
    proof {
        lemma_pow2_pos(64);
    }
    if k >= 256 {
        proof {
            lemma_hash_nat_bound(*h);
            if k > 256 {
                lemma_pow2_strictly_increases(256, k as nat);
            }
            lemma_small_mod(hash_nat(*h), pow2(k as nat));
            if h.w0 == 0 && h.w1 == 0 && h.w2 == 0 && h.w3 == 0 {
                assert(hash_nat(*h) == 0) by (nonlinear_arith)
                    requires h.w0 == 0, h.w1 == 0, h.w2 == 0, h.w3 == 0,
                ;
            }
            if hash_nat(*h) == 0 {
                lemma_limbs_zero(*h);
            }
        }
        h.w0 == 0 && h.w1 == 0 && h.w2 == 0 && h.w3 == 0
    } else if k >= 192 {
        proof {
            lemma_unroll_levels(*h, k as nat);
        }
        h.w0 == 0 && h.w1 == 0 && h.w2 == 0 && u64_low_zero(h.w3, k - 192)
    } else if k >= 128 {
        proof {
            lemma_unroll_levels(*h, k as nat);
        }
        h.w0 == 0 && h.w1 == 0 && u64_low_zero(h.w2, k - 128)
    } else if k >= 64 {
        proof {
            lemma_unroll_levels(*h, k as nat);
        }
        h.w0 == 0 && u64_low_zero(h.w1, k - 64)
    } else {
        proof {
            vstd::arithmetic::power2::lemma2_to64_rest();
            let t1: nat = (h.w1 + pow2(64) * (h.w2 + pow2(64) * h.w3)) as nat;
            assert(0 <= pow2(64) * (h.w2 + pow2(64) * h.w3)) by (nonlinear_arith)
                requires pow2(64) > 0, h.w2 >= 0, h.w3 >= 0, pow2(64) * h.w3 >= 0,
            ;
            lemma_mod_of_low_part(h.w0 as nat, t1, k as nat);
        }
        u64_low_zero(h.w0, k)
    }
}

/// A sum `a + 2^64 * b` with `a < 2^64` has, for `k <= 64`, the same
/// remainder modulo 2^k as `a` alone.
proof fn lemma_mod_of_low_part(a: nat, b: nat, k: nat)
    requires
        a < pow2(64),
        k <= 64,
    ensures
        (a + pow2(64) * b) % pow2(k) == a % pow2(k),
{
    lemma_pow2_pos(k);
    lemma_pow2_adds(k, ((64 - k) as nat));
    let a: int = a as int;
    let b: int = b as int;
    let m: int = pow2(k) as int;
    let c: int = pow2(((64 - k) as nat)) as int;
    assert(pow2(64) * b == m * (c * b)) by (nonlinear_arith)
        requires pow2(64) == m * c,
    ;
    vstd::arithmetic::div_mod::lemma_add_mod_noop(a, m * (c * b), m);
    assert((m * (c * b)) % m == 0) by {
        vstd::arithmetic::div_mod::lemma_mod_multiples_basic(c * b, m);
        assert(m * (c * b) == (c * b) * m) by (nonlinear_arith);
    }
    vstd::arithmetic::div_mod::lemma_mod_twice(a, m);
    assert((a % m + 0) % m == a % m) by {
        vstd::arithmetic::div_mod::lemma_mod_bound(a, m);
        lemma_small_mod((a % m) as nat, pow2(k));
    }
}

/// If a hash's value is zero, every limb is zero.
proof fn lemma_limbs_zero(h: Hash256)
    requires
        hash_nat(h) == 0,
    ensures
        h.w0 == 0 && h.w1 == 0 && h.w2 == 0 && h.w3 == 0,
{
    let y = pow2(64);
    lemma_pow2_pos(64);
    assert(h.w0 == 0 && h.w1 == 0 && h.w2 == 0 && h.w3 == 0) by (nonlinear_arith)
        requires
            h.w0 + y * (h.w1 + y * (h.w2 + y * h.w3)) == 0,
            y > 0,
            h.w0 >= 0,
            h.w1 >= 0,
            h.w2 >= 0,
            h.w3 >= 0,
    ;
}

/// Unrolls [`lemma_split_mod`] through the limb levels for `64 <= k < 256`.
proof fn lemma_unroll_levels(h: Hash256, k: nat)
    requires
        64 <= k < 256,
    ensures
        192 <= k ==> ((hash_nat(h) % pow2(k) == 0) <==> (h.w0 == 0 && h.w1 == 0 && h.w2 == 0
            && h.w3 as nat % pow2(((k - 192) as nat)) == 0)),
        128 <= k < 192 ==> ((hash_nat(h) % pow2(k) == 0) <==> (h.w0 == 0 && h.w1 == 0
            && h.w2 as nat % pow2(((k - 128) as nat)) == 0)),
        64 <= k < 128 ==> ((hash_nat(h) % pow2(k) == 0) <==> (h.w0 == 0
            && h.w1 as nat % pow2(((k - 64) as nat)) == 0)),
{
    let y = pow2(64);
    lemma_pow2_pos(64);
    vstd::arithmetic::power2::lemma2_to64_rest();
    let t2: nat = (h.w2 + y * h.w3) as nat;
    let t1: nat = (h.w1 + y * t2) as nat;
    assert(0 <= y * h.w3 && 0 <= y * t2 && 0 <= y * t1) by (nonlinear_arith)
        requires y > 0, h.w3 >= 0, t2 >= 0, t1 >= 0,
    ;
    assert(hash_nat(h) == h.w0 + y * t1);
    lemma_split_mod(h.w0 as nat, t1, k);
    if k >= 128 {
        lemma_split_mod(h.w1 as nat, t2, ((k - 64) as nat));
        if k >= 192 {
            lemma_split_mod(h.w2 as nat, h.w3 as nat, ((k - 128) as nat));
        } else {
            lemma_mod_of_low_part(h.w2 as nat, h.w3 as nat, ((k - 128) as nat));
        }
    } else {
        lemma_mod_of_low_part(h.w1 as nat, t2, ((k - 64) as nat));
    }
}

} // verus!
