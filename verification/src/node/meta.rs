//! The node's key file: magic `BMDMETA1`, the root public key and the private seed.

use crate::node::ident;
use crate::node::ident::{Keypair, PublicKey};
use crate::ordmap::same_bytes;
use crate::storage::record::{push_bytes, read_32};
use crate::text;
use vstd::prelude::*;
use vstd::slice::slice_subrange;

verus! {

/// `BMDMETA1`.
pub open spec fn meta_magic() -> Seq<u8> {
    seq![66u8, 77, 68, 77, 69, 84, 65, 49]
}

/// The node's own keys.
pub struct NodeKeys {
    pub keypair: Keypair,
}

impl NodeKeys {
    /// The root public key.
    pub fn root(&self) -> (p: PublicKey)
        ensures
            p@ == ident::public_of(self.keypair.seed()),
    {
        self.keypair.public()
    }
}

/// The key file of a seed.
pub open spec fn file_of(seed: Seq<u8>) -> Seq<u8> {
    meta_magic() + ident::public_of(seed) + seed
}

/// Does the file hold a key?
pub open spec fn is_key_file(bytes: Seq<u8>) -> bool {
    bytes.len() == 72 && bytes.take(8) == meta_magic()
}

fn magic_bytes() -> (r: Vec<u8>)
    ensures
        r@ == meta_magic(),
{
    let r = vec![66u8, 77, 68, 77, 69, 84, 65, 49];
    assert(r@ =~= meta_magic());
    r
}

/// What the key file holds for a key pair.
pub fn write(kp: &Keypair) -> (bytes: Vec<u8>)
    ensures
        bytes@ == file_of(kp.seed()),
{
    let mut out = magic_bytes();
    push_bytes(&mut out, kp.public().to_bytes().as_slice());
    push_bytes(&mut out, kp.to_seed().as_slice());
    out
}

/// A fresh key pair for a directory that has no key file yet, and the file to keep. A
/// directory that has one is refused; so is a system without randomness.
pub fn init(dir: &str, exists: bool) -> (r: Result<(Keypair, Vec<u8>), String>)
    ensures
        exists ==> (r matches Err(e) && e@ == dir@ + " already initialized (meta.bin exists)"@),
        !exists ==> match r {
            Ok((kp, bytes)) => bytes@ == file_of(kp.seed()),
            Err(e) => e@ == "os rng failure"@,
        },
{
    if exists {
        return Err(text::join2(dir, " already initialized (meta.bin exists)"));
    }
    match Keypair::generate() {
        Some(kp) => {
            let bytes = write(&kp);
            Ok((kp, bytes))
        },
        None => Err(text::copy_text("os rng failure")),
    }
}

/// The key pair in a key file.
pub fn load(path: &str, bytes: &[u8]) -> (r: Result<Keypair, String>)
    ensures
        match r {
            Ok(kp) => is_key_file(bytes@) && kp.seed() == bytes@.skip(40),
            Err(e) => !is_key_file(bytes@) && e@ == text::debug_text(path@)
                + " is not a bunnymeshdb meta.bin"@,
        },
{
    if bytes.len() == 72 {
        let head = slice_subrange(bytes, 0, 8);
        assert(head@ =~= bytes@.take(8));
        if same_bytes(head, magic_bytes().as_slice()) {
            let seed = read_32(bytes, 40);
            assert(bytes@.subrange(40, 72) =~= bytes@.skip(40));
            return Ok(Keypair::from_seed(seed));
        }
    }
    Err(text::join2(text::debug_string(path).as_str(), " is not a bunnymeshdb meta.bin"))
}

/// Reading a key file gives back the key pair that it was written for.
pub proof fn law_key_file_round_trip(seed: Seq<u8>)
    requires
        seed.len() == 32,
        ident::public_of(seed).len() == 32,
    ensures
        is_key_file(file_of(seed)),
        file_of(seed).skip(40) == seed,
{
    let f = file_of(seed);
    assert(f.take(8) =~= meta_magic());
    assert(f.skip(40) =~= seed);
}

} // verus!
