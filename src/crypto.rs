//! Hashing and signing, done by tmelcrypt.
use vstd::prelude::*;
use crate::types::HashVal;

verus! {

/// The blake3 digest of some bytes, split into two big-endian halves.
pub uninterp spec fn blake3_of(data: Seq<u8>) -> HashVal;

/// The ed25519 signature of a message under a 64-byte secret key.
pub uninterp spec fn ed25519_signature_of(sk: Seq<u8>, msg: Seq<u8>) -> Seq<u8>;

/// Relies on `tmelcrypt::hash_single`: the blake3 digest of the bytes, which
/// depends on the bytes alone.
#[verifier::external_body]
pub(crate) fn hash_single(data: &[u8]) -> (r: HashVal)
    ensures
        r == blake3_of(data@),
{
    let h = tmelcrypt::hash_single(data).0;
    let (hi, lo) = h.split_at(16);
    HashVal {
        hi: u128::from_be_bytes(hi.try_into().unwrap()),
        lo: u128::from_be_bytes(lo.try_into().unwrap()),
    }
}

/// Relies on `tmelcrypt::Ed25519SK::sign`: the deterministic ed25519
/// signature of the message under the key, 64 bytes long.
#[verifier::external_body]
pub(crate) fn ed25519_sign(sk: &[u8; 64], msg: &[u8]) -> (r: Vec<u8>)
    ensures
        r@ == ed25519_signature_of(sk@, msg@),
        r@.len() == 64,
{
    tmelcrypt::Ed25519SK(*sk).sign(msg)
}

} // verus!
