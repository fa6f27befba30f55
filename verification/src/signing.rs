//! Server identity and signing: every server holds an ed25519 keypair,
//! publishes its public key, and signs every federated request with it.
//!
//! Keys and signatures are held as plain bytes; the ed25519 arithmetic is
//! done by `ed25519_dalek` behind the trusted functions at the end of this
//! file.

use vstd::prelude::*;
use crate::hexcode::{hex_encode, hex_of};
use ed25519_dalek::{Signer, Verifier};

verus! {

pub const SIGNATURE_LEN: usize = 64;
pub const PUBLIC_KEY_LEN: usize = 32;
pub const SECRET_KEY_LEN: usize = 32;

/// Why signing material was refused.
#[derive(Debug)]
pub enum SigningError {
    InvalidKey(String),
    BadSignature,
    BadSignatureEncoding,
}

/// The ed25519 public key (compressed point) derived from a secret key.
pub uninterp spec fn ed25519_public_of(secret: Seq<u8>) -> Seq<u8>;

/// The ed25519 signature of a message under a secret key (ed25519 signing
/// is deterministic).
pub uninterp spec fn ed25519_signature(secret: Seq<u8>, msg: Seq<u8>) -> Seq<u8>;

/// Whether ed25519 verification accepts `sig` on `msg` under `public`.
pub uninterp spec fn ed25519_accepts(public: Seq<u8>, msg: Seq<u8>, sig: Seq<u8>) -> bool;

/// Whether 32 bytes decompress to a curve point (are a usable public key).
pub uninterp spec fn ed25519_point_ok(public: Seq<u8>) -> bool;

/// A detached ed25519 signature over a byte payload.
#[derive(Debug, Clone, PartialEq, Eq)]
pub struct Signature(pub [u8; 64]);

impl Signature {
    /// Exactly 64 bytes, else `BadSignatureEncoding`.
    pub fn from_bytes(bytes: &[u8]) -> (r: Result<Self, SigningError>)
        ensures
            match r {
                Ok(s) => bytes@.len() == 64 && s.0@ == bytes@,
                Err(e) => bytes@.len() != 64 && e is BadSignatureEncoding,
            },
    {
        if bytes.len() != 64 {
            return Err(SigningError::BadSignatureEncoding);
        }
        let mut arr = [0u8; 64];
        let mut i: usize = 0;
        while i < 64
            invariant
                i <= 64,
                bytes@.len() == 64,
                arr@.len() == 64,
                forall|j: int| 0 <= j < i ==> arr@[j] == bytes@[j],
            decreases 64 - i,
        {
            arr.set(i, bytes[i]);
            i += 1;
        }
        assert(arr@ =~= bytes@);
        Ok(Signature(arr))
    }

    /// Lower-case hex of the 64 bytes.
    pub fn to_hex(&self) -> (s: String)
        ensures
            s@ == hex_of(self.0@),
    {
        hex_encode(&self.0)
    }
}

/// A server's public identity key: 32 bytes that are a valid curve point.
#[derive(Debug, Clone, PartialEq, Eq)]
pub struct ServerPublicKey {
    bytes: [u8; 32],
}

impl View for ServerPublicKey {
    type V = Seq<u8>;

    closed spec fn view(&self) -> Seq<u8> {
        self.bytes@
    }
}

impl ServerPublicKey {
    /// 32 bytes that decompress to a curve point.
    pub fn from_bytes(bytes: &[u8]) -> (r: Result<Self, SigningError>)
        ensures
            match r {
                Ok(k) => bytes@.len() == 32 && ed25519_point_ok(bytes@) && k@ == bytes@,
                Err(e) => e is InvalidKey && (bytes@.len() != 32 || !ed25519_point_ok(bytes@)),
            },
    {
        if bytes.len() != 32 {
            return Err(SigningError::InvalidKey("expected 32 bytes".to_owned()));
        }
        let arr = copy32(bytes);
        match ed25519_check_public(&arr) {
            Ok(()) => Ok(ServerPublicKey { bytes: arr }),
            Err(msg) => Err(SigningError::InvalidKey(msg)),
        }
    }

    pub fn to_bytes(&self) -> (b: [u8; 32])
        ensures
            b@ == self@,
    {
        self.bytes
    }

    pub fn to_hex(&self) -> (s: String)
        ensures
            s@ == hex_of(self@),
    {
        hex_encode(&self.bytes)
    }

    /// Ok exactly when ed25519 verification accepts the signature.
    pub fn verify(&self, message: &[u8], signature: &Signature) -> (r: Result<(), SigningError>)
        ensures
            match r {
                Ok(_) => ed25519_accepts(self@, message@, signature.0@),
                Err(e) => e is BadSignature && !ed25519_accepts(self@, message@, signature.0@),
            },
    {
        if ed25519_verify(&self.bytes, message, &signature.0) {
            Ok(())
        } else {
            Err(SigningError::BadSignature)
        }
    }
}

/// A server's signing keypair, held as its 32 secret bytes.
pub struct ServerKeypair {
    secret: [u8; 32],
}

impl View for ServerKeypair {
    type V = Seq<u8>;

    closed spec fn view(&self) -> Seq<u8> {
        self.secret@
    }
}

fn copy32(bytes: &[u8]) -> (arr: [u8; 32])
    requires
        bytes@.len() == 32,
    ensures
        arr@ == bytes@,
{
    let mut arr = [0u8; 32];
    let mut i: usize = 0;
    while i < 32
        invariant
            i <= 32,
            bytes@.len() == 32,
            arr@.len() == 32,
            forall|j: int| 0 <= j < i ==> arr@[j] == bytes@[j],
        decreases 32 - i,
    {
        arr.set(i, bytes[i]);
        i += 1;
    }
    assert(arr@ =~= bytes@);
    arr
}

impl ServerKeypair {
    /// A fresh keypair from the operating system's random source.
    pub fn generate() -> (kp: Self)
        ensures
            kp@.len() == 32,
    {
        ServerKeypair { secret: ed25519_generate_secret() }
    }

    /// Exactly 32 secret bytes, else `InvalidKey`.
    pub fn from_secret_bytes(bytes: &[u8]) -> (r: Result<Self, SigningError>)
        ensures
            match r {
                Ok(kp) => bytes@.len() == 32 && kp@ == bytes@,
                Err(e) => bytes@.len() != 32 && e is InvalidKey,
            },
    {
        if bytes.len() != 32 {
            return Err(SigningError::InvalidKey("expected 32 bytes".to_owned()));
        }
        Ok(ServerKeypair { secret: copy32(bytes) })
    }

    pub fn to_secret_bytes(&self) -> (b: [u8; 32])
        ensures
            b@ == self@,
    {
        self.secret
    }

    /// The public half of the keypair.
    pub fn public_key(&self) -> (k: ServerPublicKey)
        ensures
            k@ == ed25519_public_of(self@),
            ed25519_point_ok(k@),
    {
        ServerPublicKey { bytes: ed25519_public_from_secret(&self.secret) }
    }

    /// Signs `message`; the keypair's own public key accepts the result.
    pub fn sign(&self, message: &[u8]) -> (s: Signature)
        ensures
            s.0@ == ed25519_signature(self@, message@),
            ed25519_accepts(ed25519_public_of(self@), message@, s.0@),
    {
        Signature(ed25519_sign(&self.secret, message))
    }
}

// ---------------------------------------------------------------------------
// ed25519_dalek
// ---------------------------------------------------------------------------

/// `VerifyingKey::from_bytes`: Ok when the 32 bytes decompress to a curve
/// point; the error carries dalek's message.
#[verifier::external_body]
fn ed25519_check_public(bytes: &[u8; 32]) -> (r: Result<(), String>)
    ensures
        r is Ok <==> ed25519_point_ok(bytes@),
{
    ed25519_dalek::VerifyingKey::from_bytes(bytes).map(|_| ()).map_err(|e| e.to_string())
}

/// `VerifyingKey::verify` on a key given by its valid compressed bytes: true
/// exactly when verification accepts.
#[verifier::external_body]
fn ed25519_verify(public: &[u8; 32], msg: &[u8], sig: &[u8; 64]) -> (r: bool)
    ensures
        r == ed25519_accepts(public@, msg@, sig@),
{
    match ed25519_dalek::VerifyingKey::from_bytes(public) {
        Ok(key) => key.verify(msg, &ed25519_dalek::Signature::from_bytes(sig)).is_ok(),
        Err(_) => false,
    }
}

/// `SigningKey::verifying_key`, as compressed bytes; a derived key always
/// decompresses.
#[verifier::external_body]
fn ed25519_public_from_secret(secret: &[u8; 32]) -> (r: [u8; 32])
    ensures
        r@ == ed25519_public_of(secret@),
        ed25519_point_ok(r@),
{
    ed25519_dalek::SigningKey::from_bytes(secret).verifying_key().to_bytes()
}

/// `SigningKey::sign`: the deterministic ed25519 signature, which the
/// key's own verifying key accepts.
#[verifier::external_body]
fn ed25519_sign(secret: &[u8; 32], msg: &[u8]) -> (r: [u8; 64])
    ensures
        r@ == ed25519_signature(secret@, msg@),
        ed25519_accepts(ed25519_public_of(secret@), msg@, r@),
{
    ed25519_dalek::SigningKey::from_bytes(secret).sign(msg).to_bytes()
}

/// `SigningKey::generate` with the operating system's random source; the
/// secret's bytes are random, so nothing is said of them.
#[verifier::external_body]
fn ed25519_generate_secret() -> (r: [u8; 32])
    ensures
        r@.len() == 32,
{
    ed25519_dalek::SigningKey::generate(&mut rand::rngs::OsRng).to_bytes()
}

} // verus!
