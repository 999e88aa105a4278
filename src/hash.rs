use vstd::prelude::*;

verus! {

/// The SHA-256 digest of `data`.
pub uninterp spec fn sha256_of(data: Seq<u8>) -> Seq<u8>;

/// The Keccak-256 digest of `data`.
pub uninterp spec fn keccak256_of(data: Seq<u8>) -> Seq<u8>;

/// Relies on sha2's `Sha256::digest`: the digest depends on the bytes alone.
#[verifier::external_body]
fn sha256_digest(data: &[u8]) -> (r: [u8; 32])
    ensures
        r@ == sha256_of(data@),
{
    <sha2::Sha256 as sha2::Digest>::digest(data).into()
}

/// Relies on sha3's `Keccak256::digest`: the digest depends on the bytes alone.
#[verifier::external_body]
fn keccak256_digest(data: &[u8]) -> (r: [u8; 32])
    ensures
        r@ == keccak256_of(data@),
{
    <sha3::Keccak256 as sha3::Digest>::digest(data).into()
}

/// A hash function with a 32-byte digest, used to derive storage keys.
pub trait CryptoHasher {
    /// The digest of `data`.
    spec fn digest_of(data: Seq<u8>) -> Seq<u8>;

    fn hash(data: &[u8]) -> (r: [u8; 32])
        ensures
            r@ == Self::digest_of(data@),
    ;
}

/// SHA-256, the default hash function of a map.
pub struct Sha256;

/// Keccak-256.
pub struct Keccak256;

impl CryptoHasher for Sha256 {
    open spec fn digest_of(data: Seq<u8>) -> Seq<u8> {
        sha256_of(data)
    }

    fn hash(data: &[u8]) -> (r: [u8; 32]) {
        sha256_digest(data)
    }
}

impl CryptoHasher for Keccak256 {
    open spec fn digest_of(data: Seq<u8>) -> Seq<u8> {
        keccak256_of(data)
    }

    fn hash(data: &[u8]) -> (r: [u8; 32]) {
        keccak256_digest(data)
    }
}

} // verus!
