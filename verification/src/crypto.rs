//! Trusted boundary to the `bn254` crate.
//!
//! Keys and signatures cross this boundary as their compressed byte
//! encodings. Each elliptic-curve operation is deterministic in its byte
//! arguments — including whether it succeeds — so both its result and its
//! success condition are given names that contracts elsewhere can speak of.

use vstd::prelude::*;

verus! {

/// The compressed G2 public key derived from the private-key bytes.
pub uninterp spec fn pubkey_of(sk: Seq<u8>) -> Seq<u8>;

/// Whether the private-key bytes decode to a scalar whose public key
/// compresses; deterministic in the bytes.
pub uninterp spec fn pubkey_ok(sk: Seq<u8>) -> bool;

/// The compressed partial signature produced by the private key over a
/// message.
pub uninterp spec fn sig_of(sk: Seq<u8>, msg: Seq<u8>) -> Seq<u8>;

/// Whether signing succeeds: the private-key bytes decode, the message
/// hashes to the curve, and the signature compresses; deterministic in the
/// two byte arguments.
pub uninterp spec fn sign_ok(sk: Seq<u8>, msg: Seq<u8>) -> bool;

/// Whether a compressed signature verifies against a compressed public key
/// and a message.
pub uninterp spec fn verify_of(key: Seq<u8>, msg: Seq<u8>, sig: Seq<u8>) -> bool;

/// The compressed sum of two G1 signatures.
pub uninterp spec fn sig_sum_of(a: Seq<u8>, b: Seq<u8>) -> Seq<u8>;

/// Whether summing succeeds: both arguments decode as G1 points and the sum
/// compresses; deterministic in the two byte arguments.
pub uninterp spec fn sig_sum_ok(a: Seq<u8>, b: Seq<u8>) -> bool;

/// The compressed sum of two G2 public keys.
pub uninterp spec fn key_sum_of(a: Seq<u8>, b: Seq<u8>) -> Seq<u8>;

/// Whether summing succeeds: both arguments decode as G2 points and the sum
/// compresses; deterministic in the two byte arguments.
pub uninterp spec fn key_sum_ok(a: Seq<u8>, b: Seq<u8>) -> bool;

/// Relies on `bn254::PrivateKey::try_from`, `bn254::PublicKey::from_private_key`
/// and `bn254::PublicKey::to_compressed`: the compressed public key is a
/// function of the private-key bytes alone.
#[verifier::external_body]
pub(crate) fn bls_public_key(sk: &Vec<u8>) -> (r: Option<Vec<u8>>)
    ensures
        r is Some <==> pubkey_ok(sk@),
        r matches Some(k) ==> k@ == pubkey_of(sk@),
{
    let key = match bn254::PrivateKey::try_from(sk.as_slice()) {
        Ok(k) => k,
        Err(_) => return None,
    };
    let pk = bn254::PublicKey::from_private_key(&key);
    match pk.to_compressed() {
        Ok(v) => Some(v),
        Err(_) => None,
    }
}

/// Relies on `bn254::ECDSA::sign`: deterministic hash-to-curve of the message
/// followed by scalar multiplication with the private key, serialized with
/// `bn254::Signature::to_compressed`; a function of its two byte arguments
/// alone.
#[verifier::external_body]
pub(crate) fn bls_sign(sk: &Vec<u8>, msg: &Vec<u8>) -> (r: Option<Vec<u8>>)
    ensures
        r is Some <==> sign_ok(sk@, msg@),
        r matches Some(s) ==> s@ == sig_of(sk@, msg@),
{
    let key = match bn254::PrivateKey::try_from(sk.as_slice()) {
        Ok(k) => k,
        Err(_) => return None,
    };
    let sig = match bn254::ECDSA::sign(msg.as_slice(), &key) {
        Ok(s) => s,
        Err(_) => return None,
    };
    match sig.to_compressed() {
        Ok(v) => Some(v),
        Err(_) => None,
    }
}

/// Relies on `bn254::ECDSA::verify`: a deterministic pairing check of a
/// compressed G1 signature against a compressed G2 public key and a message;
/// bytes that are not a valid point never verify.
#[verifier::external_body]
pub(crate) fn bls_verify(key: &Vec<u8>, msg: &Vec<u8>, sig: &Vec<u8>) -> (r: bool)
    ensures
        r == verify_of(key@, msg@, sig@),
{
    let k = match bn254::PublicKey::from_compressed(key.as_slice()) {
        Ok(k) => k,
        Err(_) => return false,
    };
    let s = match bn254::Signature::from_compressed(sig.as_slice()) {
        Ok(s) => s,
        Err(_) => return false,
    };
    bn254::ECDSA::verify(msg.as_slice(), &s, &k).is_ok()
}

/// Relies on the group addition `impl Add for bn254::Signature` between the
/// compressed decodings of its arguments: a function of the two byte strings
/// alone.
#[verifier::external_body]
pub(crate) fn bls_sig_add(a: &Vec<u8>, b: &Vec<u8>) -> (r: Option<Vec<u8>>)
    ensures
        r is Some <==> sig_sum_ok(a@, b@),
        r matches Some(s) ==> s@ == sig_sum_of(a@, b@),
{
    let x = match bn254::Signature::from_compressed(a.as_slice()) {
        Ok(v) => v,
        Err(_) => return None,
    };
    let y = match bn254::Signature::from_compressed(b.as_slice()) {
        Ok(v) => v,
        Err(_) => return None,
    };
    match (x + y).to_compressed() {
        Ok(v) => Some(v),
        Err(_) => None,
    }
}

/// Relies on the group addition `impl Add for bn254::PublicKey` between the
/// compressed decodings of its arguments: a function of the two byte strings
/// alone.
#[verifier::external_body]
pub(crate) fn bls_key_add(a: &Vec<u8>, b: &Vec<u8>) -> (r: Option<Vec<u8>>)
    ensures
        r is Some <==> key_sum_ok(a@, b@),
        r matches Some(s) ==> s@ == key_sum_of(a@, b@),
{
    let x = match bn254::PublicKey::from_compressed(a.as_slice()) {
        Ok(v) => v,
        Err(_) => return None,
    };
    let y = match bn254::PublicKey::from_compressed(b.as_slice()) {
        Ok(v) => v,
        Err(_) => return None,
    };
    match (x + y).to_compressed() {
        Ok(v) => Some(v),
        Err(_) => None,
    }
}

} // verus!
