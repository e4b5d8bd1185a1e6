//! Fingerprints of ciphertext batches.

use vstd::prelude::*;
use vstd::std_specs::convert::FromSpecImpl;

verus! {

/// The BLAKE3 digest of `data`: 32 bytes that depend on `data` alone.
pub uninterp spec fn blake3_digest(data: Seq<u8>) -> Seq<u8>;

/// Calls `anchor_lang::solana_program::blake3::hash` on the bytes of `data`
/// and hands back the bytes of the hash it returns.
///
/// Trusted: that the outside function computes a function of its input, here
/// named [`blake3_digest`]. Nothing is claimed about which bytes come out.
#[verifier::external_body]
fn blake3_of(data: &Vec<u8>) -> (digest: [u8; 32])
    ensures
        digest@ == blake3_digest(data@),
{
    anchor_lang::solana_program::blake3::hash(data.as_slice()).to_bytes()
}

/// The fingerprint of a ciphertext batch: a 32-byte digest.
#[derive(Clone, Copy, Debug)]
pub struct Fingerprint(pub [u8; 32]);

impl View for Fingerprint {
    type V = Seq<u8>;

    open spec fn view(&self) -> Seq<u8> {
        self.0@
    }
}

impl From<[u8; 32]> for Fingerprint {
    /// The fingerprint that holds the bytes of `hash`.
    fn from(hash: [u8; 32]) -> (fingerprint: Fingerprint) {
        Fingerprint(hash)
    }
}

impl FromSpecImpl<[u8; 32]> for Fingerprint {
    open spec fn obeys_from_spec() -> bool {
        true
    }

    open spec fn from_spec(hash: [u8; 32]) -> Fingerprint {
        Fingerprint(hash)
    }
}

impl Fingerprint {
    /// The 32 bytes of the fingerprint.
    pub fn to_bytes(&self) -> (bytes: [u8; 32])
        ensures
            bytes@ == self@,
    {
        self.0
    }
}

/// The fingerprint of `ciphertext`: its BLAKE3 digest.
pub fn fingerprint_of(ciphertext: &Vec<u8>) -> (fingerprint: Fingerprint)
    ensures
        fingerprint@ == blake3_digest(ciphertext@),
{
    let digest = blake3_of(ciphertext);
    Fingerprint::from(digest)
}

} // verus!
