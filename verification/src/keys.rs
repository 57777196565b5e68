//! The natively supported public-key and signature kinds.

use vstd::prelude::*;

verus! {

/// A secp256k1 public key, in compressed form.
#[derive(Debug, Clone, Copy, PartialEq, Eq, Structural, Hash)]
pub struct EcdsaPublicKey(pub u64);

/// A secp256k1 signature.
#[derive(Debug, Clone, Copy, PartialEq, Eq, Structural, Hash)]
pub struct EcdsaSignature(pub u64);

/// An ed25519 public key.
#[derive(Debug, Clone, Copy, PartialEq, Eq, Structural, Hash)]
pub struct Ed25519PublicKey(pub u64);

/// An ed25519 signature.
#[derive(Debug, Clone, Copy, PartialEq, Eq, Structural, Hash)]
pub struct Ed25519Signature(pub u64);

/// Any natively supported public key.
#[derive(Debug, Clone, Copy, PartialEq, Eq, Structural, Hash)]
pub enum PublicKey {
    Ecdsa(EcdsaPublicKey),
    Ed25519(Ed25519PublicKey),
}

/// Any natively supported signature.
#[derive(Debug, Clone, Copy, PartialEq, Eq, Structural, Hash)]
pub enum Signature {
    Ecdsa(EcdsaSignature),
    Ed25519(Ed25519Signature),
}

/// Any natively supported signature, together with the public key where
/// the scheme does not recover it from the signature itself.
#[derive(Debug, Clone, Copy, PartialEq, Eq, Structural, Hash)]
pub enum SignatureWithPublicKey {
    Ecdsa { signature: EcdsaSignature },
    Ed25519 { public_key: Ed25519PublicKey, signature: Ed25519Signature },
}

impl SignatureWithPublicKey {
    /// The bare signature.
    pub fn signature(&self) -> (r: Signature)
        ensures
            r == match *self {
                SignatureWithPublicKey::Ecdsa { signature } => Signature::Ecdsa(signature),
                SignatureWithPublicKey::Ed25519 { signature, .. } => Signature::Ed25519(signature),
            },
    {
        match self {
            SignatureWithPublicKey::Ecdsa { signature } => Signature::Ecdsa(*signature),
            SignatureWithPublicKey::Ed25519 { signature, .. } => Signature::Ed25519(*signature),
        }
    }
}

} // verus!
