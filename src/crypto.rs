//! The calls into the BLS and ed25519 libraries. Keys, signatures and key
//! sets travel through the library as their canonical byte encodings.

use ed25519_dalek::{Signer, Verifier};
use vstd::prelude::*;

verus! {

/// Bytes in an encoded BLS public key, and in each coefficient of an encoded
/// public key set; a key set needs at least one.
pub const PK_LEN: usize = 48;

/// Whether `sig` is a valid BLS signature of `msg` under the public key `pk`
/// (all three as their byte encodings).
pub uninterp spec fn bls_sig_valid(pk: Seq<u8>, msg: Seq<u8>, sig: Seq<u8>) -> bool;

/// Whether `share` is a valid signature share of `msg` by participant `index`
/// of the public key set encoded as `pk_set`.
pub uninterp spec fn bls_share_valid(pk_set: Seq<u8>, index: nat, msg: Seq<u8>, share: Seq<u8>) -> bool;

/// The main public key of the public key set encoded as `pk_set`.
pub uninterp spec fn bls_set_public_key(pk_set: Seq<u8>) -> Seq<u8>;

/// Whether `pk_set` decodes as a BLS public key set.
pub uninterp spec fn bls_set_decodes(pk_set: Seq<u8>) -> bool;

/// Whether `sk` decodes as a BLS secret key.
pub uninterp spec fn bls_secret_decodes(sk: Seq<u8>) -> bool;

/// Whether `keypair` decodes as an ed25519 key pair.
pub uninterp spec fn ed25519_keypair_decodes(keypair: Seq<u8>) -> bool;

/// The threshold of the public key set encoded as `pk_set`: its commitment
/// holds one coefficient per `PK_LEN` bytes, and the threshold is the
/// degree, one less than their number.
pub open spec fn bls_set_threshold(pk_set: Seq<u8>) -> nat {
    ((pk_set.len() / (PK_LEN as nat)) - 1) as nat
}

/// The XOR name (SHA3-256 digest) of `content`.
pub uninterp spec fn xor_name_of(content: Seq<u8>) -> Seq<u8>;

/// The signature that the shares `shares` with indices `indices` combine into
/// under the public key set encoded as `pk_set`.
pub uninterp spec fn bls_combined(pk_set: Seq<u8>, indices: Seq<usize>, shares: Seq<Seq<u8>>) -> Seq<u8>;

/// `t + 1` distinct indices, each with a share of `payload` that verifies
/// under the key set `pk_set`.
pub open spec fn quorum_of_shares(pk_set: Seq<u8>, payload: Seq<u8>, indices: Seq<usize>, shares: Seq<Seq<u8>>) -> bool {
    &&& indices.len() >= bls_set_threshold(pk_set) + 1
    &&& indices.len() == shares.len()
    &&& forall|i: int, j: int| 0 <= i < j < indices.len() ==> indices[i] != indices[j]
    &&& forall|i: int| 0 <= i < indices.len() ==> bls_share_valid(pk_set, #[trigger] indices[i] as nat, payload, shares[i])
}

/// The byte strings of `s`.
pub open spec fn byte_views(s: Seq<Vec<u8>>) -> Seq<Seq<u8>> {
    s.map_values(|v: Vec<u8>| v@)
}

/// The public key that belongs to the BLS secret key `sk`.
pub uninterp spec fn bls_public_of(sk: Seq<u8>) -> Seq<u8>;

/// The BLS signature of `msg` by the secret key `sk`.
pub uninterp spec fn bls_signature_of(sk: Seq<u8>, msg: Seq<u8>) -> Seq<u8>;

/// Whether `sig` is a valid ed25519 signature of `msg` under the public key `pk`.
pub uninterp spec fn ed25519_sig_valid(pk: Seq<u8>, msg: Seq<u8>, sig: Seq<u8>) -> bool;

/// The ed25519 signature of `msg` by the key pair encoded as `keypair`.
pub uninterp spec fn ed25519_signature_of(keypair: Seq<u8>, msg: Seq<u8>) -> Seq<u8>;

/// Relies on blsttc's `PublicKey::from_bytes`, `Signature::from_bytes` and
/// `PublicKey::verify`: a pure check of the three values; malformed encodings fail it.
#[verifier::external_body]
pub(crate) fn bls_verify(pk: &Vec<u8>, msg: &Vec<u8>, sig: &Vec<u8>) -> (r: bool)
    ensures
        r == bls_sig_valid(pk@, msg@, sig@),
{
    let pk: [u8; blsttc::PK_SIZE] = match pk.as_slice().try_into() {
        Ok(b) => b,
        Err(_) => return false,
    };
    let sig: [u8; blsttc::SIG_SIZE] = match sig.as_slice().try_into() {
        Ok(b) => b,
        Err(_) => return false,
    };
    match (blsttc::PublicKey::from_bytes(pk), blsttc::Signature::from_bytes(sig)) {
        (Ok(pk), Ok(sig)) => pk.verify(&sig, msg),
        _ => false,
    }
}

/// Relies on blsttc's `PublicKeySet::from_bytes`, `SignatureShare::from_bytes`,
/// `PublicKeySet::public_key_share` and `PublicKeyShare::verify`: a pure check
/// of the values; malformed encodings fail it.
#[verifier::external_body]
pub(crate) fn bls_verify_share(pk_set: &Vec<u8>, index: usize, msg: &Vec<u8>, share: &Vec<u8>) -> (r: bool)
    requires
        pk_set@.len() >= PK_LEN,
    ensures
        r == bls_share_valid(pk_set@, index as nat, msg@, share@),
{
    let share: [u8; blsttc::SIG_SIZE] = match share.as_slice().try_into() {
        Ok(b) => b,
        Err(_) => return false,
    };
    match (blsttc::PublicKeySet::from_bytes(pk_set.clone()), blsttc::SignatureShare::from_bytes(share)) {
        (Ok(set), Ok(share)) => set.public_key_share(index).verify(&share, msg),
        _ => false,
    }
}

/// Relies on blsttc's `PublicKeySet::from_bytes` and `PublicKeySet::public_key`:
/// `None` for a malformed encoding, else the set's main key. An encoding
/// shorter than one key decodes to an empty set, which these calls index out
/// of bounds; `requires` leaves it out.
#[verifier::external_body]
pub(crate) fn bls_set_key(pk_set: &Vec<u8>) -> (r: Option<Vec<u8>>)
    requires
        pk_set@.len() >= PK_LEN,
    ensures
        r is Some <==> bls_set_decodes(pk_set@),
        r matches Some(k) ==> k@ == bls_set_public_key(pk_set@),
{
    match blsttc::PublicKeySet::from_bytes(pk_set.clone()) {
        Ok(set) => Some(set.public_key().to_bytes().to_vec()),
        Err(_) => None,
    }
}

/// Relies on blsttc's `SecretKey::from_bytes` and `SecretKey::public_key`:
/// `None` for a malformed encoding, else the matching public key.
#[verifier::external_body]
pub(crate) fn bls_public_key(sk: &Vec<u8>) -> (r: Option<Vec<u8>>)
    ensures
        r is Some <==> bls_secret_decodes(sk@),
        r matches Some(k) ==> k@ == bls_public_of(sk@),
{
    let bytes: [u8; blsttc::SK_SIZE] = match sk.as_slice().try_into() {
        Ok(b) => b,
        Err(_) => return None,
    };
    match blsttc::SecretKey::from_bytes(bytes) {
        Ok(sk) => Some(sk.public_key().to_bytes().to_vec()),
        Err(_) => None,
    }
}

/// Relies on blsttc's `SecretKey::from_bytes` and `SecretKey::sign`:
/// `None` for a malformed key, else its deterministic signature of `msg`.
#[verifier::external_body]
pub(crate) fn bls_sign(sk: &Vec<u8>, msg: &Vec<u8>) -> (r: Option<Vec<u8>>)
    ensures
        r is Some <==> bls_secret_decodes(sk@),
        r matches Some(s) ==> s@ == bls_signature_of(sk@, msg@),
{
    let bytes: [u8; blsttc::SK_SIZE] = match sk.as_slice().try_into() {
        Ok(b) => b,
        Err(_) => return None,
    };
    match blsttc::SecretKey::from_bytes(bytes) {
        Ok(sk) => Some(sk.sign(msg).to_bytes().to_vec()),
        Err(_) => None,
    }
}

/// Relies on blsttc's `PublicKeySet::combine_signatures`, which interpolates
/// the first `threshold + 1` shares with the given indices (`interpolate`);
/// it fails only on too few shares or a duplicate index, besides malformed
/// encodings. So shares that verify (and therefore decode), with distinct
/// indices and more than the threshold of them, always combine.
#[verifier::external_body]
pub(crate) fn bls_combine(pk_set: &Vec<u8>, indices: &Vec<usize>, shares: &Vec<Vec<u8>>) -> (r: Option<Vec<u8>>)
    requires
        pk_set@.len() >= PK_LEN,
    ensures
        r matches Some(s) ==> s@ == bls_combined(pk_set@, indices@, byte_views(shares@)),
        forall|m: Seq<u8>|
            #[trigger] quorum_of_shares(pk_set@, m, indices@, byte_views(shares@)) && bls_set_decodes(pk_set@) ==> r is Some,
{
    let set = blsttc::PublicKeySet::from_bytes(pk_set.clone()).ok()?;
    let mut parsed = Vec::new();
    for (i, s) in indices.iter().zip(shares.iter()) {
        let bytes: [u8; blsttc::SIG_SIZE] = s.as_slice().try_into().ok()?;
        parsed.push((*i, blsttc::SignatureShare::from_bytes(bytes).ok()?));
    }
    set.combine_signatures(parsed).ok().map(|sig| sig.to_bytes().to_vec())
}

/// Relies on ed25519-dalek's `PublicKey::from_bytes`, `Signature::from_bytes`
/// and `Verifier::verify`: a pure check of the three values; malformed
/// encodings fail it.
#[verifier::external_body]
pub(crate) fn ed25519_verify(pk: &Vec<u8>, msg: &Vec<u8>, sig: &Vec<u8>) -> (r: bool)
    ensures
        r == ed25519_sig_valid(pk@, msg@, sig@),
{
    match (ed25519_dalek::PublicKey::from_bytes(pk), ed25519_dalek::Signature::from_bytes(sig)) {
        (Ok(pk), Ok(sig)) => pk.verify(msg, &sig).is_ok(),
        _ => false,
    }
}

/// Relies on ed25519-dalek's `Keypair::from_bytes` and `Signer::sign`:
/// `None` for a malformed key pair, else its deterministic signature of `msg`.
#[verifier::external_body]
pub(crate) fn ed25519_sign(keypair: &Vec<u8>, msg: &Vec<u8>) -> (r: Option<Vec<u8>>)
    ensures
        r is Some <==> ed25519_keypair_decodes(keypair@),
        r matches Some(s) ==> s@ == ed25519_signature_of(keypair@, msg@),
{
    match ed25519_dalek::Keypair::from_bytes(keypair) {
        Ok(kp) => Some(kp.sign(msg).to_bytes().to_vec()),
        Err(_) => None,
    }
}

/// Relies on blsttc's `PublicKeySet::from_bytes` (`Commitment::from_bytes`
/// reads one coefficient per 48 bytes) and `PublicKeySet::threshold` (the
/// commitment's degree, its coefficient count less one): `None` for a
/// malformed encoding, else that threshold.
#[verifier::external_body]
pub(crate) fn bls_threshold(pk_set: &Vec<u8>) -> (r: Option<usize>)
    requires
        pk_set@.len() >= PK_LEN,
    ensures
        r is Some <==> bls_set_decodes(pk_set@),
        r matches Some(t) ==> t == bls_set_threshold(pk_set@),
{
    match blsttc::PublicKeySet::from_bytes(pk_set.clone()) {
        Ok(set) => Some(set.threshold()),
        Err(_) => None,
    }
}

/// Relies on xor_name's `XorName::from_content`: the SHA3-256 digest of the bytes.
#[verifier::external_body]
pub(crate) fn content_name(content: &Vec<u8>) -> (r: Vec<u8>)
    ensures
        r@ == xor_name_of(content@),
        r@.len() == 32,
{
    xor_name::XorName::from_content(content).0.to_vec()
}

} // verus!
