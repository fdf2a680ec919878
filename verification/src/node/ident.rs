//! Ed25519 identities: host keys and signatures.

use crate::hexes;
use crate::ordmap::same_bytes;
use crate::storage::record::read_32;
use crate::text;
use vstd::bytes::u64_from_le_bytes;
use vstd::prelude::*;
use vstd::slice::slice_subrange;

verus! {

/// The public key that belongs to a seed.
pub uninterp spec fn public_of(seed: Seq<u8>) -> Seq<u8>;

/// The signature of a message under a seed.
pub uninterp spec fn signature_of(seed: Seq<u8>, msg: Seq<u8>) -> Seq<u8>;

/// Is the signature of the message good under the public key?
pub uninterp spec fn verifies(public: Seq<u8>, msg: Seq<u8>, sig: Seq<u8>) -> bool;

/// `ed25519_dalek::SigningKey::from_bytes` and `verifying_key`: the public key is a
/// function of the seed.
#[verifier::external_body]
fn ed_public(seed: &[u8; 32]) -> (r: [u8; 32])
    ensures
        r@ == public_of(seed@),
{
    ed25519_dalek::SigningKey::from_bytes(seed).verifying_key().to_bytes()
}

/// `ed25519_dalek::Signer::sign` with the key of the seed. The signature is a function
/// of the seed and the message, and it is good under the seed's public key.
#[verifier::external_body]
fn ed_sign(seed: &[u8; 32], msg: &[u8]) -> (r: [u8; 64])
    ensures
        r@ == signature_of(seed@, msg@),
        verifies(public_of(seed@), msg@, r@),
{
    ed25519_dalek::Signer::sign(&ed25519_dalek::SigningKey::from_bytes(seed), msg).to_bytes()
}

/// `ed25519_dalek::Verifier::verify`; false too where the bytes are no public key. The
/// answer is a function of the three arguments.
#[verifier::external_body]
fn ed_verify(public: &[u8; 32], msg: &[u8], sig: &[u8; 64]) -> (r: bool)
    ensures
        r == verifies(public@, msg@, sig@),
{
    let sig = ed25519_dalek::Signature::from_bytes(sig);
    ed25519_dalek::VerifyingKey::from_bytes(public).is_ok_and(|k| {
        ed25519_dalek::Verifier::verify(&k, msg, &sig).is_ok()
    })
}

/// `getrandom::fill`: 32 bytes of the operating system's randomness, or nothing where
/// it gives none. Nothing is promised of the bytes.
#[verifier::external_body]
fn random_seed() -> (r: Option<[u8; 32]>) {
    let mut seed = [0u8; 32];
    getrandom::fill(&mut seed).ok().map(|_| seed)
}

/// A number drawn from the operating system's randomness, or nothing where it gives
/// none. Nothing is promised of the number.
pub fn random_nonce() -> (r: Option<u64>) {
    match random_seed() {
        Some(s) => Some(u64_from_le_bytes(slice_subrange(s.as_slice(), 0, 8))),
        None => None,
    }
}

/// A public key.
#[derive(Debug, Clone, Copy, PartialEq, Eq, Hash)]
pub struct PublicKey([u8; 32]);

impl View for PublicKey {
    type V = Seq<u8>;

    closed spec fn view(&self) -> Seq<u8> {
        self.0@
    }
}

/// A signing key pair; its private half never leaves the data directory.
#[derive(Clone, Copy)]
pub struct Keypair([u8; 32]);

/// A host's identity is its root public key.
pub type HostId = PublicKey;

impl Keypair {
    /// The seed of the pair.
    pub closed spec fn seed(&self) -> Seq<u8> {
        self.0@
    }

    /// A fresh pair; nothing where the operating system gives no randomness. Any pair
    /// may come back.
    pub fn generate() -> (r: Option<Keypair>) {
        match random_seed() {
            Some(seed) => Some(Keypair(seed)),
            None => None,
        }
    }

    pub fn from_seed(seed: [u8; 32]) -> (k: Keypair)
        ensures
            k.seed() == seed@,
    {
        Keypair(seed)
    }

    pub fn public(&self) -> (p: PublicKey)
        ensures
            p@ == public_of(self.seed()),
    {
        PublicKey(ed_public(&self.0))
    }

    /// The seed, for keeping the private key.
    pub fn to_seed(&self) -> (s: [u8; 32])
        ensures
            s@ == self.seed(),
    {
        self.0
    }

    /// Sign a message.
    pub fn sign(&self, bytes: &[u8]) -> (sig: [u8; 64])
        ensures
            sig@ == signature_of(self.seed(), bytes@),
            verifies(public_of(self.seed()), bytes@, sig@),
    {
        ed_sign(&self.0, bytes)
    }
}

/// Why a text is no public key.
pub open spec fn key_fault(s: Seq<char>) -> Seq<char> {
    if s.len() % 2 == 0 && hexes::all_hex(s) {
        "expected 32 bytes, got "@ + text::decimal(s.len() as int / 2)
    } else {
        "invalid hex: "@ + hexes::hex_fault(s)
    }
}

/// 64 hexadecimal digits.
pub open spec fn is_key_text(s: Seq<char>) -> bool {
    s.len() == 64 && hexes::all_hex(s)
}

impl PublicKey {
    /// A key is 32 bytes long.
    pub proof fn lemma_len(&self)
        ensures
            self@.len() == 32,
    {
    }

    pub fn from_bytes(b: [u8; 32]) -> (p: PublicKey)
        ensures
            p@ == b@,
    {
        PublicKey(b)
    }

    pub fn to_bytes(&self) -> (b: [u8; 32])
        ensures
            b@ == self@,
    {
        self.0
    }

    /// Is the signature of the message good under this key?
    pub fn verify(&self, bytes: &[u8], sig: &[u8; 64]) -> (r: bool)
        ensures
            r == verifies(self@, bytes@, sig@),
    {
        ed_verify(&self.0, bytes, sig)
    }

    /// Are the two keys the same?
    pub fn same(&self, other: &PublicKey) -> (r: bool)
        ensures
            r == (self@ == other@),
    {
        same_bytes(self.0.as_slice(), other.0.as_slice())
    }

    /// The key as 64 lower-case hexadecimal digits.
    pub fn to_hex(&self) -> (s: String)
        ensures
            s@ == hexes::hex_text(self@),
    {
        hexes::hex_encode(self.0.as_slice())
    }

    /// Read a key from 64 hexadecimal digits of either case.
    pub fn from_hex(s: &str) -> (r: Result<PublicKey, String>)
        ensures
            match r {
                Ok(p) => is_key_text(s@) && p@ == hexes::hex_bytes(s@),
                Err(e) => !is_key_text(s@) && e@ == key_fault(s@),
            },
    {
        match hexes::hex_decode(s) {
            Err(e) => Err(text::join2("invalid hex: ", e.as_str())),
            Ok(b) => {
                if b.len() != 32 {
                    return Err(text::join2("expected 32 bytes, got ", text::dec(b.len() as u64).as_str()));
                }
                let a = read_32(b.as_slice(), 0);
                assert(b@.subrange(0, 32) =~= b@);
                Ok(PublicKey(a))
            },
        }
    }
}

impl std::str::FromStr for PublicKey {
    type Err = String;

    fn from_str(s: &str) -> (r: Result<PublicKey, String>) {
        PublicKey::from_hex(s)
    }
}

/// Reading a key's text gives the key back.
pub proof fn law_key_text_round_trip(key: PublicKey)
    ensures
        is_key_text(hexes::hex_text(key@)),
        hexes::hex_bytes(hexes::hex_text(key@)) == key@,
{
    hexes::law_hex_round_trip(key@);
}

} // verus!
