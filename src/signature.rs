use vstd::prelude::*;
use sodiumoxide::crypto::sign;

verus! {

/// Whether `sig` is a valid Ed25519 signature of `msg` under the public key
/// `pk`, each given as raw bytes. Byte strings of the wrong length for a
/// signature or a key never verify.
pub uninterp spec fn ed25519_accepts(sig: Seq<u8>, msg: Seq<u8>, pk: Seq<u8>) -> bool;

/// Relies on sodiumoxide's `sign::verify_detached`, after reading the
/// signature with `sign::Signature::from_bytes` and the key with
/// `sign::PublicKey::from_slice`; bytes that do not form a signature or a
/// key give `false`.
#[verifier::external_body]
pub(crate) fn verify_detached(sig: &Vec<u8>, msg: &Vec<u8>, pk: &Vec<u8>) -> (r: bool)
    ensures
        r == ed25519_accepts(sig@, msg@, pk@),
{
    match (sign::Signature::from_bytes(sig.as_slice()), sign::PublicKey::from_slice(pk.as_slice())) {
        (Ok(s), Some(k)) => sign::verify_detached(&s, msg.as_slice(), &k),
        _ => false,
    }
}

} // verus!
