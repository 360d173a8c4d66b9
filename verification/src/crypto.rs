//! Public keys, signatures and the signature check.
use vstd::prelude::*;

verus! {

/// The signature scheme that a key or a signature belongs to.
#[derive(Clone, Copy, Debug, PartialEq, Eq, Hash, Structural)]
pub enum KeyType {
    ED25519,
    SECP256K1,
}

/// A public key: its scheme and its raw bytes.
#[derive(Debug, PartialEq, Eq, Hash)]
pub struct PublicKey {
    pub key_type: KeyType,
    pub data: Vec<u8>,
}

/// A signature: its scheme and its raw bytes.
#[derive(Debug, PartialEq, Eq, Hash)]
pub struct Signature {
    pub key_type: KeyType,
    pub data: Vec<u8>,
}

/// What a [`PublicKey`] stands for in contracts.
pub struct PublicKeyView {
    pub key_type: KeyType,
    pub data: Seq<u8>,
}

/// What a [`Signature`] stands for in contracts.
pub struct SignatureView {
    pub key_type: KeyType,
    pub data: Seq<u8>,
}

impl View for PublicKey {
    type V = PublicKeyView;

    open spec fn view(&self) -> PublicKeyView {
        PublicKeyView { key_type: self.key_type, data: self.data@ }
    }
}

impl View for Signature {
    type V = SignatureView;

    open spec fn view(&self) -> SignatureView {
        SignatureView { key_type: self.key_type, data: self.data@ }
    }
}

impl Clone for PublicKey {
    fn clone(&self) -> (copy: Self)
        ensures
            copy@ == self@,
    {
        PublicKey { key_type: self.key_type, data: self.data.clone() }
    }
}

impl Clone for Signature {
    fn clone(&self) -> (copy: Self)
        ensures
            copy@ == self@,
    {
        Signature { key_type: self.key_type, data: self.data.clone() }
    }
}

/// Whether an ED25519 signature, given as raw bytes, is accepted for a message
/// under a public key given as raw bytes.
pub uninterp spec fn ed25519_accepts(public_key: Seq<u8>, message: Seq<u8>, signature: Seq<u8>) -> bool;

/// Checks an ED25519 signature with `near_crypto::Signature::verify`.
///
/// The bytes are first turned into `near_crypto` values with
/// `Signature::from_parts` and `ED25519PublicKey::try_from`; bytes that
/// either of them refuses are not accepted. The contract claims only that
/// the answer is a function of the three byte strings.
#[verifier::external_body]
fn ed25519_verify(public_key: &Vec<u8>, message: &Vec<u8>, signature: &Vec<u8>) -> (ok: bool)
    ensures
        ok == ed25519_accepts(public_key@, message@, signature@),
{
    let parsed = near_crypto::Signature::from_parts(near_crypto::KeyType::ED25519, signature);
    let key = near_crypto::ED25519PublicKey::try_from(public_key.as_slice());
    match (parsed, key) {
        (Ok(parsed), Ok(key)) => parsed.verify(message, &near_crypto::PublicKey::ED25519(key)),
        _ => false,
    }
}

/// Whether `signature` signs `message` under `public_key`.
///
/// Only ED25519 is checked. A key and a signature of different schemes never
/// match, and a SECP256K1 signature is not accepted: that scheme signs
/// 32-byte digests only, and its check is not defined on other messages.
pub open spec fn signature_valid(
    signature: SignatureView,
    message: Seq<u8>,
    public_key: PublicKeyView,
) -> bool {
    &&& signature.key_type == KeyType::ED25519
    &&& public_key.key_type == KeyType::ED25519
    &&& ed25519_accepts(public_key.data, message, signature.data)
}

impl Signature {
    /// Checks that this signature signs `message` under `public_key`.
    pub fn verify(&self, message: &Vec<u8>, public_key: &PublicKey) -> (ok: bool)
        ensures
            ok == signature_valid(self@, message@, public_key@),
    {
        if self.key_type == KeyType::ED25519 && public_key.key_type == KeyType::ED25519 {
            ed25519_verify(&public_key.data, message, &self.data)
        } else {
            false
        }
    }
}

} // verus!
