//! Ed25519 key material and detached signatures, held as plain byte arrays.
//!
//! The library stores a public key as its 32-byte encoding (which doubles as
//! an account identifier in the ledger) and a signature as its 64-byte
//! encoding. The ed25519 operations themselves come from the `ed25519_dalek`
//! crate behind trusted wrappers; what a signature check returns on given
//! bytes is named by the uninterpreted predicate [`sig_ok`].

use vstd::prelude::*;

verus! {

/// An ed25519 public key in its 32-byte encoding; also the account
/// identifier used by the ledger.
#[derive(Clone, Copy, Debug)]
pub struct PublicKey {
    pub bytes: [u8; 32],
}

impl View for PublicKey {
    type V = Seq<u8>;

    open spec fn view(&self) -> Seq<u8> {
        self.bytes@
    }
}

impl PartialEq for PublicKey {
    fn eq(&self, other: &PublicKey) -> (r: bool) {
        bytes32_eq(&self.bytes, &other.bytes)
    }
}

impl vstd::std_specs::cmp::PartialEqSpecImpl for PublicKey {
    open spec fn obeys_eq_spec() -> bool {
        true
    }

    open spec fn eq_spec(&self, other: &PublicKey) -> bool {
        self.bytes@ == other.bytes@
    }
}

/// An ed25519 detached signature in its 64-byte encoding.
#[derive(Clone, Copy, Debug)]
pub struct Signature {
    pub bytes: [u8; 64],
}

impl View for Signature {
    type V = Seq<u8>;

    open spec fn view(&self) -> Seq<u8> {
        self.bytes@
    }
}

/// A signing key pair: the secret scalar seed and the public key derived
/// from it. `wf` ties the two together.
#[derive(Clone, Copy)]
pub struct KeyPair {
    pub secret: [u8; 32],
    pub public: PublicKey,
}

impl KeyPair {
    /// The public half is the one ed25519 derives from the secret half.
    pub open spec fn wf(&self) -> bool {
        self.public@ == pk_of(self.secret@)
    }

    /// Builds the key pair determined by a 32-byte secret seed.
    pub fn from_secret(secret: [u8; 32]) -> (r: KeyPair)
        ensures
            r.wf(),
            r.public@ == pk_of(secret@),
    {
        let public = derive_public(&secret);
        KeyPair { secret, public: PublicKey { bytes: public } }
    }

    /// Draws a fresh random key pair from the operating system's entropy.
    pub fn generate() -> (r: KeyPair)
        ensures
            r.wf(),
    {
        let secret = random_secret();
        KeyPair::from_secret(secret)
    }

    /// Signs a message with the secret half; the signature verifies under
    /// the public half.
    pub fn sign(&self, message: &Vec<u8>) -> (r: Signature)
        requires
            self.wf(),
        ensures
            sig_ok(self.public@, message@, r@),
    {
        let bytes = ed25519_sign(&self.secret, message);
        Signature { bytes }
    }
}

/// What ed25519 signature verification returns on a public key, a message
/// and a signature, each given as bytes. A pure function of its arguments.
pub uninterp spec fn sig_ok(public_key: Seq<u8>, message: Seq<u8>, signature: Seq<u8>) -> bool;

/// The 32-byte public key that ed25519 derives from a 32-byte secret seed.
/// A pure function of the seed.
pub uninterp spec fn pk_of(secret: Seq<u8>) -> Seq<u8>;

/// Verifies a detached signature.
pub fn verify(public_key: &PublicKey, message: &Vec<u8>, signature: &Signature) -> (r: bool)
    ensures
        r == sig_ok(public_key@, message@, signature@),
{
    ed25519_verify(&public_key.bytes, message, &signature.bytes)
}

/// Relies on ed25519_dalek::PublicKey::from(&SecretKey): public-key
/// derivation is a deterministic function of the secret seed, named pk_of.
#[verifier::external_body]
fn derive_public(secret: &[u8; 32]) -> (r: [u8; 32])
    ensures
        r@ == pk_of(secret@),
{
    let sk = ed25519_dalek::SecretKey::from_bytes(secret).unwrap();
    let pk = ed25519_dalek::PublicKey::from(&sk);
    pk.to_bytes()
}

/// Relies on ed25519_dalek::ExpandedSecretKey::sign: signing is
/// deterministic, and the documentation promises that a produced signature
/// verifies under the public key derived from the same secret, which is
/// stated through sig_ok.
#[verifier::external_body]
fn ed25519_sign(secret: &[u8; 32], message: &Vec<u8>) -> (r: [u8; 64])
    ensures
        sig_ok(pk_of(secret@), message@, r@),
{
    let sk = ed25519_dalek::SecretKey::from_bytes(secret).unwrap();
    let pk = ed25519_dalek::PublicKey::from(&sk);
    let expanded = ed25519_dalek::ExpandedSecretKey::from(&sk);
    expanded.sign(message.as_slice(), &pk).to_bytes()
}

/// Relies on ed25519_dalek::PublicKey::verify (through the Verifier trait):
/// acceptance is a deterministic function of the three byte strings, named
/// sig_ok; bytes that parse as no key or no signature are rejected.
#[verifier::external_body]
fn ed25519_verify(public_key: &[u8; 32], message: &Vec<u8>, signature: &[u8; 64]) -> (r: bool)
    ensures
        r == sig_ok(public_key@, message@, signature@),
{
    let pk = match ed25519_dalek::PublicKey::from_bytes(public_key) {
        Ok(pk) => pk,
        Err(_) => return false,
    };
    let sig = match ed25519_dalek::Signature::from_bytes(signature) {
        Ok(sig) => sig,
        Err(_) => return false,
    };
    ed25519_dalek::Verifier::verify(&pk, message.as_slice(), &sig).is_ok()
}

/// Relies on ed25519_dalek::Keypair::generate with rand's OsRng: the result
/// is a fresh 32-byte secret seed. Nothing is assumed about the value.
#[verifier::external_body]
fn random_secret() -> (r: [u8; 32]) {
    let mut csprng = rand::rngs::OsRng {};
    let kp = ed25519_dalek::Keypair::generate(&mut csprng);
    kp.secret.to_bytes()
}

/// Compares two 32-byte arrays for equality.
pub fn bytes32_eq(a: &[u8; 32], b: &[u8; 32]) -> (r: bool)
    ensures
        r == (a@ == b@),
{
    let mut i: usize = 0;
    while i < 32
        invariant
            i <= 32,
            forall|j: int| 0 <= j < i ==> a@[j] == b@[j],
        decreases 32 - i,
    {
        if a[i] != b[i] {
            return false;
        }
        i = i + 1;
    }
    proof {
        assert(a@ =~= b@);
    }
    true
}

} // verus!
