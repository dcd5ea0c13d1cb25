//! BLS signatures on the BLS12-381 curve in the minimal-signature-size
//! variant (signatures in G1, public keys in G2), as computed by `blst`.
//!
//! Keys and signatures are held as bytes: a secret key as its 32-byte
//! big-endian scalar, a public key as its 96-byte compressed point and a
//! signature as its 48-byte compressed point.

use vstd::prelude::*;

verus! {

/// Whether `blst` accepts these 32 bytes as a secret key.
pub uninterp spec fn bls_secret_key_valid(sk: Seq<u8>) -> bool;

/// The compressed public key of a secret key.
pub uninterp spec fn bls_public_key(sk: Seq<u8>) -> Seq<u8>;

/// The compressed signature of `msg` under `sk` with domain tag `dst`.
pub uninterp spec fn bls_signature(sk: Seq<u8>, msg: Seq<u8>, dst: Seq<u8>) -> Seq<u8>;

/// Whether `sig` is a valid signature of `msg` under `pk` with domain tag `dst`.
pub uninterp spec fn bls_verifies(pk: Seq<u8>, msg: Seq<u8>, dst: Seq<u8>, sig: Seq<u8>) -> bool;

/// Calls `blst::min_sig::SecretKey::from_bytes`; the contract claims only
/// that the answer depends on the bytes alone.
#[verifier::external_body]
pub(crate) fn secret_key_accepted(sk: &[u8; 32]) -> (ok: bool)
    ensures
        ok == bls_secret_key_valid(sk@),
{
    blst::min_sig::SecretKey::from_bytes(sk).is_ok()
}

/// Calls `blst::min_sig::SecretKey::sk_to_pk` and compresses the result with
/// `PublicKey::compress`; the contract claims that the 96 bytes depend on the
/// secret key alone.
#[verifier::external_body]
pub(crate) fn public_key_of(sk: &[u8; 32]) -> (pk: [u8; 96])
    requires
        bls_secret_key_valid(sk@),
    ensures
        pk@ == bls_public_key(sk@),
{
    blst::min_sig::SecretKey::from_bytes(sk).unwrap().sk_to_pk().compress()
}

/// Calls `blst::min_sig::SecretKey::sign` (no augmentation) and compresses the
/// result with `Signature::compress`. The contract claims that the signature
/// depends on its arguments alone, and that `Signature::verify` accepts it for
/// the signer's public key, the same message and the same tag, as the blst
/// README's sign-then-verify example shows.
#[verifier::external_body]
pub(crate) fn sign(sk: &[u8; 32], msg: &[u8], dst: &[u8]) -> (sig: [u8; 48])
    requires
        bls_secret_key_valid(sk@),
        dst@.len() <= 255,
    ensures
        sig@ == bls_signature(sk@, msg@, dst@),
        bls_verifies(bls_public_key(sk@), msg@, dst@, sig@),
{
    blst::min_sig::SecretKey::from_bytes(sk).unwrap().sign(msg, dst, &[]).compress()
}

/// Calls `blst::min_sig::Signature::verify` with group checks on both the
/// signature and the key, after decompressing both with `uncompress`; bytes
/// that do not decompress verify nothing. The contract claims that the answer
/// depends on the arguments alone.
#[verifier::external_body]
pub(crate) fn verify(pk: &[u8; 96], msg: &[u8], dst: &[u8], sig: &[u8; 48]) -> (ok: bool)
    ensures
        ok == bls_verifies(pk@, msg@, dst@, sig@),
{
    match (blst::min_sig::PublicKey::uncompress(pk), blst::min_sig::Signature::uncompress(sig)) {
        (Ok(pk), Ok(sig)) => sig.verify(true, msg, dst, &[], &pk, true) == blst::BLST_ERROR::BLST_SUCCESS,
        _ => false,
    }
}

} // verus!
