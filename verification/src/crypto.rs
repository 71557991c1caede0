//! ECDSA over secp256k1: keys, signatures and their checks.
//!
//! Keys and signatures are held as the bytes in which they are stored: a
//! public key as the DER form of its SubjectPublicKeyInfo, a signature as the
//! 64 bytes of `r` and `s`, a private key as its scalar.

use crate::bytes::copy_bytes;
use crate::cbor::{decode, encode, item_bytes, lemma_round_trip, parse, Item, ItemView};
use crate::sha256::hash_bytes;
use vstd::prelude::*;

verus! {

/// The DER form of the public key that belongs to the private scalar, or
/// `None` where the bytes are no private scalar of the curve.
pub uninterp spec fn public_key_der(scalar: Seq<u8>) -> Option<Seq<u8>>;

/// The signature that the private scalar gives to the message, or `None`
/// where there is none.
pub uninterp spec fn ecdsa_signature(scalar: Seq<u8>, message: Seq<u8>) -> Option<Seq<u8>>;

/// Whether the signature is one of the message under the public key.
pub uninterp spec fn ecdsa_accepts(
    public_key: Seq<u8>,
    message: Seq<u8>,
    signature: Seq<u8>,
) -> bool;

/// The DER form of the public key that a PEM text holds, or `None` where
/// the text holds none.
pub uninterp spec fn pem_public_key(text: Seq<char>) -> Option<Seq<u8>>;

/// The PEM text of a public key given in DER form, or `None` where the bytes
/// are no public key of the curve.
pub uninterp spec fn public_key_pem(der: Seq<u8>) -> Option<Seq<char>>;

/// Calls `ecdsa::SigningKey::random` with the operating system's generator
/// and gives the scalar's bytes, which `to_bytes` hands out as 32 bytes. The
/// scalar that is drawn is not zero and below the order of the curve, so it
/// is one that `SigningKey::from_slice` takes, and its public key has a DER
/// form.
#[verifier::external_body]
fn random_scalar() -> (r: Vec<u8>)
    ensures
        r@.len() == 32,
        public_key_der(r@) is Some,
{
    ecdsa::SigningKey::<k256::Secp256k1>::random(
        &mut ecdsa::signature::rand_core::OsRng,
    ).to_bytes().to_vec()
}

/// Calls `ecdsa::SigningKey::from_slice`, then `verifying_key` and
/// `spki::EncodePublicKey::to_public_key_der` on the result.
#[verifier::external_body]
fn derive_public_key(scalar: &[u8]) -> (r: Option<Vec<u8>>)
    ensures
        match r {
            Some(der) => public_key_der(scalar@) == Some(der@),
            None => public_key_der(scalar@) is None,
        },
{
    match ecdsa::SigningKey::<k256::Secp256k1>::from_slice(scalar) {
        Ok(key) => match spki::EncodePublicKey::to_public_key_der(key.verifying_key()) {
            Ok(document) => Some(document.into_vec()),
            Err(_) => None,
        },
        Err(_) => None,
    }
}

/// Calls `ecdsa::SigningKey::from_slice` and `signature::Signer::try_sign`,
/// which signs the SHA-256 digest of the message with a nonce that depends
/// on the key and the message alone.
#[verifier::external_body]
fn ecdsa_sign(scalar: &[u8], message: &[u8]) -> (r: Option<Vec<u8>>)
    ensures
        match r {
            Some(signature) => ecdsa_signature(scalar@, message@) == Some(signature@),
            None => ecdsa_signature(scalar@, message@) is None,
        },
{
    match ecdsa::SigningKey::<k256::Secp256k1>::from_slice(scalar) {
        Ok(key) => {
            let signed: Result<ecdsa::Signature<k256::Secp256k1>, _> =
                ecdsa::signature::Signer::try_sign(&key, message);
            match signed {
                Ok(signature) => Some(signature.to_bytes().to_vec()),
                Err(_) => None,
            }
        },
        Err(_) => None,
    }
}

/// Calls `spki::DecodePublicKey::from_public_key_der`,
/// `ecdsa::Signature::from_slice` and `signature::Verifier::verify`. Bytes
/// that are no key, or no signature, are not accepted.
#[verifier::external_body]
fn ecdsa_verify(public_key: &[u8], message: &[u8], signature: &[u8]) -> (r: bool)
    ensures
        r == ecdsa_accepts(public_key@, message@, signature@),
{
    let key: Result<ecdsa::VerifyingKey<k256::Secp256k1>, _> =
        spki::DecodePublicKey::from_public_key_der(public_key);
    match key {
        Ok(key) => match ecdsa::Signature::<k256::Secp256k1>::from_slice(signature) {
            Ok(signature) => ecdsa::signature::Verifier::verify(&key, message, &signature).is_ok(),
            Err(_) => false,
        },
        Err(_) => false,
    }
}

/// Calls `spki::DecodePublicKey::from_public_key_pem` and, on the key it
/// gives, `spki::EncodePublicKey::to_public_key_der`.
#[verifier::external_body]
fn pem_decode(text: &str) -> (r: Option<Vec<u8>>)
    ensures
        match r {
            Some(der) => pem_public_key(text@) == Some(der@),
            None => pem_public_key(text@) is None,
        },
{
    let key: Result<ecdsa::VerifyingKey<k256::Secp256k1>, _> =
        spki::DecodePublicKey::from_public_key_pem(text);
    match key {
        Ok(key) => match spki::EncodePublicKey::to_public_key_der(&key) {
            Ok(document) => Some(document.into_vec()),
            Err(_) => None,
        },
        Err(_) => None,
    }
}

/// Calls `spki::DecodePublicKey::from_public_key_der` and, on the key it
/// gives, `spki::EncodePublicKey::to_public_key_pem` with a line feed for
/// the line ending, so that the text is the same on every machine.
#[verifier::external_body]
fn pem_encode(der: &[u8]) -> (r: Option<String>)
    ensures
        match r {
            Some(text) => public_key_pem(der@) == Some(text@),
            None => public_key_pem(der@) is None,
        },
{
    let key: Result<ecdsa::VerifyingKey<k256::Secp256k1>, _> =
        spki::DecodePublicKey::from_public_key_der(der);
    match key {
        Ok(key) => spki::EncodePublicKey::to_public_key_pem(
            &key,
            spki::der::pem::LineEnding::LF,
        ).ok(),
        Err(_) => None,
    }
}

/// A public key, as the DER bytes of its SubjectPublicKeyInfo. Two keys are
/// the same where their bytes are.
#[derive(Debug, PartialEq, Eq)]
pub struct PublicKey(pub Vec<u8>);

impl View for PublicKey {
    type V = Seq<u8>;

    open spec fn view(&self) -> Seq<u8> {
        self.0@
    }
}

impl Clone for PublicKey {
    fn clone(&self) -> (r: Self)
        ensures
            r@ == self@,
    {
        PublicKey(copy_bytes(self.0.as_slice()))
    }
}

impl PublicKey {
    /// Reads a key from its PEM text.
    pub fn from_pem(text: &str) -> (r: Option<PublicKey>)
        ensures
            match r {
                Some(key) => pem_public_key(text@) == Some(key@),
                None => pem_public_key(text@) is None,
            },
    {
        match pem_decode(text) {
            Some(der) => Some(PublicKey(der)),
            None => None,
        }
    }

    /// The PEM text of the key, or `None` where the bytes are no key.
    pub fn to_pem(&self) -> (r: Option<String>)
        ensures
            match r {
                Some(text) => public_key_pem(self@) == Some(text@),
                None => public_key_pem(self@) is None,
            },
    {
        pem_encode(self.0.as_slice())
    }
}

/// A private key, as the bytes of its scalar. Every private key has a
/// public key.
#[derive(Debug)]
pub struct PrivateKey {
    scalar: Vec<u8>,
}

impl View for PrivateKey {
    type V = Seq<u8>;

    closed spec fn view(&self) -> Seq<u8> {
        self.scalar@
    }
}

impl Clone for PrivateKey {
    fn clone(&self) -> (r: Self)
        ensures
            r@ == self@,
    {
        proof {
            use_type_invariant(self);
        }
        PrivateKey { scalar: copy_bytes(self.scalar.as_slice()) }
    }
}

impl PrivateKey {
    /// What holds of every private key: its bytes are a private scalar of the
    /// curve.
    #[verifier::type_invariant]
    pub open spec fn wf(self) -> bool {
        public_key_der(self@) is Some
    }

    /// A fresh random key.
    pub fn new_key() -> (r: PrivateKey)
        ensures
            r@.len() == 32,
            public_key_der(r@) is Some,
    {
        PrivateKey { scalar: random_scalar() }
    }

    /// The key with the scalar `bytes`, where they are a private scalar of
    /// the curve.
    pub fn from_bytes(bytes: &[u8]) -> (r: Option<PrivateKey>)
        ensures
            match r {
                Some(key) => key@ == bytes@ && public_key_der(bytes@) is Some,
                None => public_key_der(bytes@) is None,
            },
    {
        match derive_public_key(bytes) {
            Some(_) => Some(PrivateKey { scalar: copy_bytes(bytes) }),
            None => None,
        }
    }

    /// The bytes of the scalar.
    pub fn to_bytes(&self) -> (r: Vec<u8>)
        ensures
            r@ == self@,
            public_key_der(r@) is Some,
    {
        proof {
            use_type_invariant(self);
        }
        copy_bytes(self.scalar.as_slice())
    }

    /// The public key that belongs to this key.
    pub fn public_key(&self) -> (r: PublicKey)
        ensures
            public_key_der(self@) == Some(r@),
    {
        proof {
            use_type_invariant(self);
        }
        match derive_public_key(self.scalar.as_slice()) {
            Some(der) => PublicKey(der),
            None => PublicKey(Vec::new()),
        }
    }
}

/// The bytes in which a private key is stored: its scalar as a byte string.
pub open spec fn private_key_encoding(scalar: Seq<u8>) -> Seq<u8> {
    item_bytes(ItemView::Bytes(scalar))
}

/// The scalar of the private key that bytes are the stored form of.
pub open spec fn private_key_decoding(bytes: Seq<u8>) -> Option<Seq<u8>> {
    match parse(bytes) {
        Some(ItemView::Bytes(scalar)) => if public_key_der(scalar) is Some {
            Some(scalar)
        } else {
            None
        },
        _ => None,
    }
}

/// Reading the stored form of a private key gives the key.
pub proof fn lemma_private_key_round_trip(scalar: Seq<u8>)
    requires
        scalar.len() <= u64::MAX,
        public_key_der(scalar) is Some,
    ensures
        private_key_decoding(private_key_encoding(scalar)) == Some(scalar),
{
    lemma_round_trip(ItemView::Bytes(scalar));
}

impl PrivateKey {
    /// The bytes in which the key is stored.
    pub fn encode(&self) -> (r: Vec<u8>)
        ensures
            r@ == private_key_encoding(self@),
            private_key_decoding(r@) == Some(self@),
    {
        proof {
            use_type_invariant(self);
            vstd::std_specs::vec::axiom_spec_len(&self.scalar);
            lemma_private_key_round_trip(self@);
        }
        encode(&Item::bytes(self.scalar.as_slice()))
    }

    /// The key that bytes are the stored form of.
    pub fn decode(bytes: &[u8]) -> (r: Option<PrivateKey>)
        ensures
            match r {
                Some(key) => private_key_decoding(bytes@) == Some(key@),
                None => private_key_decoding(bytes@) is None,
            },
    {
        match decode(bytes) {
            Some(Item::Bytes(scalar)) => Self::from_bytes(scalar.as_slice()),
            _ => None,
        }
    }
}

impl Default for PrivateKey {
    fn default() -> (r: Self)
        ensures
            r@.len() == 32,
            public_key_der(r@) is Some,
    {
        Self::new_key()
    }
}

/// A signature, as the 64 bytes of its two numbers.
#[derive(Debug)]
pub struct Signature(pub Vec<u8>);

impl View for Signature {
    type V = Seq<u8>;

    open spec fn view(&self) -> Seq<u8> {
        self.0@
    }
}

impl Clone for Signature {
    fn clone(&self) -> (r: Self)
        ensures
            r@ == self@,
    {
        Signature(copy_bytes(self.0.as_slice()))
    }
}

impl Signature {
    /// Signs the 32 bytes of `output_hash` with the key, where the curve
    /// gives a signature.
    pub fn sign_output(output_hash: &crate::sha256::Hash, private_key: &mut PrivateKey) -> (r: Option<Signature>)
        ensures
            final(private_key)@ == old(private_key)@,
            match r {
                Some(signature) => ecdsa_signature(
                    old(private_key)@,
                    hash_bytes(output_hash@),
                ) == Some(signature@),
                None => ecdsa_signature(old(private_key)@, hash_bytes(output_hash@)) is None,
            },
    {
        let message = output_hash.as_bytes();
        match ecdsa_sign(private_key.scalar.as_slice(), message.as_slice()) {
            Some(bytes) => Some(Signature(bytes)),
            None => None,
        }
    }

    /// Whether this is a signature of the 32 bytes of `output_hash` under
    /// `public_key`.
    pub fn verify(&self, output_hash: &crate::sha256::Hash, public_key: &PublicKey) -> (r: bool)
        ensures
            r == ecdsa_accepts(public_key@, hash_bytes(output_hash@), self@),
    {
        let message = output_hash.as_bytes();
        ecdsa_verify(public_key.0.as_slice(), message.as_slice(), self.0.as_slice())
    }
}

} // verus!
