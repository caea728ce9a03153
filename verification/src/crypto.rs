//! Keys and signatures of users: every signature is made twice, with dilithium and with
//! ed25519, and holds only when both hold. Encryption keys pair kyber with x25519.

use aes_gcm::aead::generic_array::GenericArray;
use aes_gcm::aead::OsRng;
use aes_gcm::{AeadCore, AeadInPlace, Aes256Gcm, KeyInit};
use ed25519_dalek::Signer;
use vstd::prelude::*;

verus! {

/// Bytes of a dilithium public key.
pub const DILI_PUBLIC_KEY_SIZE: usize = 1952;

/// Bytes of a dilithium signature.
pub const DILI_SIGNATURE_SIZE: usize = 3293;

/// Bytes of a kyber public key.
pub const KYBER_PUBLIC_KEY_SIZE: usize = 1184;

/// Bytes of a kyber secret key.
pub const KYBER_SECRET_KEY_SIZE: usize = 2400;

/// Bytes of a shared secret.
pub const SHARED_SECRET_SIZE: usize = 32;

#[verifier::external_type_specification]
#[verifier::external_body]
pub struct ExDiliKeypair(pqc_dilithium::Keypair);

#[verifier::external_type_specification]
#[verifier::external_body]
pub struct ExEdSignatureError(ed25519_dalek::SignatureError);

#[verifier::external_type_specification]
#[verifier::external_body]
pub struct ExKyberError(pqc_kyber::KyberError);

/// Whether ed25519 accepts, under its strict rules, signature `sig` of `msg` by the
/// public key `public`.
pub uninterp spec fn ed25519_accepts(public: Seq<u8>, msg: Seq<u8>, sig: Seq<u8>) -> bool;

/// The ed25519 public key of the secret key `secret`.
pub uninterp spec fn ed25519_public_of(secret: Seq<u8>) -> Seq<u8>;

/// The ed25519 signature of `msg` by the secret key `secret`.
pub uninterp spec fn ed25519_signature_of(secret: Seq<u8>, msg: Seq<u8>) -> Seq<u8>;

/// Whether dilithium accepts signature `sig` of `msg` by the public key `public`.
pub uninterp spec fn dilithium_accepts(sig: Seq<u8>, msg: Seq<u8>, public: Seq<u8>) -> bool;

/// `sig` is a dilithium signature of `msg`: some public key accepts it for `msg`.
pub open spec fn dilithium_signs(sig: Seq<u8>, msg: Seq<u8>) -> bool {
    exists|public: Seq<u8>| public.len() == DILI_PUBLIC_KEY_SIZE && #[trigger] dilithium_accepts(sig, msg, public)
}

/// The x25519 public key of the secret key `secret`.
pub uninterp spec fn x25519_public_of(secret: Seq<u8>) -> Seq<u8>;

/// `pqc_dilithium::Keypair::generate`: a fresh random key pair.
#[verifier::external_body]
fn dilithium_generate() -> pqc_dilithium::Keypair {
    pqc_dilithium::Keypair::generate()
}

/// The `public` field of a `pqc_dilithium::Keypair`: its public key.
#[verifier::external_body]
fn dilithium_public(k: &pqc_dilithium::Keypair) -> [u8; DILI_PUBLIC_KEY_SIZE] {
    k.public
}

/// `pqc_dilithium::Keypair::sign`: the signature of `msg` by the key pair. Dilithium
/// signing is correct: the signature verifies for `msg` under the pair's public key, so
/// some public key accepts it for `msg`; which key, the pair being opaque, is left unsaid.
#[verifier::external_body]
fn dilithium_sign(k: &pqc_dilithium::Keypair, msg: &[u8]) -> (r: [u8; DILI_SIGNATURE_SIZE])
    ensures
        dilithium_signs(r@, msg@),
{
    k.sign(msg)
}

/// `pqc_dilithium::verify`: accepts exactly when dilithium accepts the signature, and
/// refuses a signature of the wrong length as bad input.
#[verifier::external_body]
fn dilithium_verify(sig: &[u8], msg: &[u8], public: &[u8]) -> (r: Result<(), DiliSignError>)
    requires
        public@.len() == DILI_PUBLIC_KEY_SIZE,
    ensures
        r is Ok <==> dilithium_accepts(sig@, msg@, public@),
        sig@.len() != DILI_SIGNATURE_SIZE ==> (r matches Err(DiliSignError::Input)),
{
    pqc_dilithium::verify(sig, msg, public).map_err(|e| match e {
        pqc_dilithium::SignError::Input => DiliSignError::Input,
        pqc_dilithium::SignError::Verify => DiliSignError::Verify,
    })
}

/// `ed25519_dalek::SigningKey::generate` with the operating system's randomness: the
/// bytes of a fresh random secret key.
#[verifier::external_body]
fn ed25519_generate() -> [u8; 32] {
    ed25519_dalek::SigningKey::generate(&mut OsRng).to_bytes()
}

/// `ed25519_dalek::SigningKey::verifying_key`, of the key with secret `secret`: the bytes
/// of its public key.
#[verifier::external_body]
fn ed25519_public(secret: &[u8; 32]) -> (r: [u8; 32])
    ensures
        r@ == ed25519_public_of(secret@),
{
    ed25519_dalek::SigningKey::from_bytes(secret).verifying_key().to_bytes()
}

/// `ed25519_dalek::SigningKey::try_sign`, which always succeeds: the bytes of the
/// signature of `msg` by the key with secret `secret`.
#[verifier::external_body]
fn ed25519_sign(secret: &[u8; 32], msg: &[u8]) -> (r: [u8; 64])
    ensures
        r@ == ed25519_signature_of(secret@, msg@),
{
    ed25519_dalek::SigningKey::from_bytes(secret).try_sign(msg).expect("signing with a signing key does not fail").to_bytes()
}

/// `ed25519_dalek::VerifyingKey::verify_strict`, with the key read from `public` by
/// `VerifyingKey::from_bytes`: accepts exactly when ed25519 accepts the signature.
#[verifier::external_body]
fn ed25519_verify(public: &[u8; 32], msg: &[u8], sig: &[u8; 64]) -> (r: Result<(), ed25519_dalek::SignatureError>)
    ensures
        r is Ok <==> ed25519_accepts(public@, msg@, sig@),
{
    let sig = ed25519_dalek::Signature::from_bytes(sig);
    ed25519_dalek::VerifyingKey::from_bytes(public).and_then(|vk| vk.verify_strict(msg, &sig))
}

/// `pqc_kyber::Keypair::generate` with the operating system's randomness: the public and
/// the secret key, or why none came. The secret key holds a copy of the public key behind
/// its first 1152 bytes, as `crypto_kem_keypair` writes it.
#[verifier::external_body]
fn kyber_generate() -> (r: Result<([u8; KYBER_PUBLIC_KEY_SIZE], [u8; KYBER_SECRET_KEY_SIZE]), pqc_kyber::KyberError>)
    ensures
        r matches Ok((public, secret)) ==> secret@.subrange(1152, 2336) == public@,
{
    pqc_kyber::Keypair::generate(&mut OsRng).map(|k| (k.public, k.secret))
}

/// `x25519_dalek::StaticSecret::random_from_rng` with the operating system's randomness:
/// the bytes of a fresh secret.
#[verifier::external_body]
fn x25519_generate() -> [u8; 32] {
    x25519_dalek::StaticSecret::random_from_rng(OsRng).to_bytes()
}

/// `x25519_dalek::PublicKey::from` a secret made from `secret`: the bytes of its public key.
#[verifier::external_body]
pub(crate) fn x25519_public(secret: &[u8; 32]) -> (r: [u8; 32])
    ensures
        r@ == x25519_public_of(secret@),
{
    x25519_dalek::PublicKey::from(&x25519_dalek::StaticSecret::from(*secret)).to_bytes()
}

#[verifier::external_type_specification]
#[verifier::external_body]
pub struct ExAesError(aes_gcm::Error);

/// Bytes of an AES-GCM tag.
pub const TAG_SIZE: usize = 16;

/// Bytes of an AES-GCM nonce.
pub const NONCE_SIZE: usize = 12;

/// Most bytes AES-GCM encrypts at once, and most bytes of associated data it takes.
pub const P_MAX: u64 = 0x10_0000_0000;

/// The AES-256-GCM encryption of `plain` under `key` and `nonce`, with `aad` as
/// associated data: the ciphertext and the tag.
pub uninterp spec fn aes_gcm_seal(key: Seq<u8>, nonce: Seq<u8>, aad: Seq<u8>, plain: Seq<u8>) -> (Seq<u8>, Seq<u8>);

/// The AES-256-GCM decryption of `cipher` with `tag` under `key` and `nonce`, with `aad`
/// as associated data: the plain text when the tag holds.
pub uninterp spec fn aes_gcm_open(key: Seq<u8>, nonce: Seq<u8>, aad: Seq<u8>, cipher: Seq<u8>, tag: Seq<u8>) -> Option<Seq<u8>>;

/// The x25519 shared secret of the secret key `secret` with the public key `public`.
pub uninterp spec fn x25519_shared_of(secret: Seq<u8>, public: Seq<u8>) -> Seq<u8>;

/// `AeadCore::generate_nonce` of AES-256-GCM with the operating system's randomness.
#[verifier::external_body]
pub(crate) fn random_nonce() -> [u8; NONCE_SIZE] {
    Aes256Gcm::generate_nonce(&mut OsRng).into()
}

/// `AeadInPlace::encrypt_in_place_detached` of AES-256-GCM: encrypts `data` in place and
/// returns the tag; decrypting what it gives gives `data` back.
#[verifier::external_body]
pub(crate) fn aes_gcm_encrypt(key: &[u8; 32], nonce: &[u8; NONCE_SIZE], aad: &[u8], data: &mut [u8]) -> (tag: [u8; TAG_SIZE])
    requires
        old(data)@.len() <= P_MAX,
        aad@.len() <= P_MAX,
    ensures
        (final(data)@, tag@) == aes_gcm_seal(key@, nonce@, aad@, old(data)@),
        final(data)@.len() == old(data)@.len(),
        aes_gcm_open(key@, nonce@, aad@, final(data)@, tag@) == Some(old(data)@),
{
    Aes256Gcm::new(&GenericArray::from(*key))
        .encrypt_in_place_detached(GenericArray::from_slice(nonce), aad, data)
        .expect("within the bounds of AES-GCM")
        .into()
}

/// `AeadInPlace::decrypt_in_place_detached` of AES-256-GCM: decrypts `data` in place when
/// the tag holds, leaving it alone when it does not.
#[verifier::external_body]
pub(crate) fn aes_gcm_decrypt(
    key: &[u8; 32],
    nonce: &[u8; NONCE_SIZE],
    aad: &[u8],
    data: &mut [u8],
    tag: &[u8; TAG_SIZE],
) -> (r: Result<(), aes_gcm::Error>)
    ensures
        r is Ok <==> aes_gcm_open(key@, nonce@, aad@, old(data)@, tag@) is Some,
        r is Ok ==> aes_gcm_open(key@, nonce@, aad@, old(data)@, tag@) == Some(final(data)@),
        final(data)@.len() == old(data)@.len(),
        r is Err ==> final(data)@ == old(data)@,
{
    Aes256Gcm::new(&GenericArray::from(*key)).decrypt_in_place_detached(
        GenericArray::from_slice(nonce),
        aad,
        data,
        GenericArray::from_slice(tag),
    )
}

/// `x25519_dalek::StaticSecret::diffie_hellman`: the shared secret of `secret` and
/// `public`, which the holder of the other secret gets too.
#[verifier::external_body]
pub(crate) fn x25519_diffie_hellman(secret: &[u8; 32], public: &[u8; 32]) -> (r: [u8; 32])
    ensures
        r@ == x25519_shared_of(secret@, public@),
        forall|other: Seq<u8>|
            other.len() == 32 && public@ == x25519_public_of(other) ==> r@ == #[trigger] x25519_shared_of(
                other,
                x25519_public_of(secret@),
            ),
{
    x25519_dalek::StaticSecret::from(*secret).diffie_hellman(&x25519_dalek::PublicKey::from(*public)).to_bytes()
}

/// `rand_core::RngCore::fill_bytes` of the operating system's randomness: fresh random bytes.
#[verifier::external_body]
fn random_secret() -> [u8; SHARED_SECRET_SIZE] {
    let mut secret = [0u8; SHARED_SECRET_SIZE];
    aes_gcm::aead::rand_core::RngCore::fill_bytes(&mut OsRng, &mut secret);
    secret
}

/// A fresh random shared secret.
pub fn new_secret() -> [u8; SHARED_SECRET_SIZE] {
    random_secret()
}

/// Why a dilithium signature was refused.
#[derive(Clone, Copy, Debug, PartialEq, Eq, Structural)]
pub enum DiliSignError {
    /// The key or the signature is malformed.
    Input,
    /// The signature does not hold.
    Verify,
}

/// Why a signature was refused.
#[derive(Debug)]
pub enum VerifyError {
    Dili(DiliSignError),
    Ed(ed25519_dalek::SignatureError),
}

/// A signing key pair: a dilithium key pair with its public key read out once, and an
/// ed25519 secret key.
pub struct KeyPair {
    pub dili: pqc_dilithium::Keypair,
    pub dili_public: [u8; DILI_PUBLIC_KEY_SIZE],
    pub ed: [u8; 32],
}

/// A public signing key: the dilithium and the ed25519 public keys.
#[derive(Clone, Copy)]
pub struct PublicKey {
    pub dili: [u8; DILI_PUBLIC_KEY_SIZE],
    pub ed: [u8; 32],
}

/// A signature: the dilithium and the ed25519 signatures of the same bytes.
#[derive(Clone, Copy)]
pub struct Signature {
    pub dili: [u8; DILI_SIGNATURE_SIZE],
    pub ed: [u8; 64],
}

impl KeyPair {
    /// A fresh random key pair.
    pub fn new() -> KeyPair {
        let dili = dilithium_generate();
        let dili_public = dilithium_public(&dili);
        KeyPair { dili, dili_public, ed: ed25519_generate() }
    }

    /// The public key: dilithium's as the key pair holds it, ed25519's derived from the
    /// secret.
    pub fn public_key(&self) -> (r: PublicKey)
        ensures
            r.dili == self.dili_public,
            r.ed@ == ed25519_public_of(self.ed@),
    {
        PublicKey { dili: self.dili_public, ed: ed25519_public(&self.ed) }
    }

    /// Signs `data` with both keys.
    pub fn sign(&self, data: &[u8]) -> (r: Signature)
        ensures
            r.ed@ == ed25519_signature_of(self.ed@, data@),
            dilithium_signs(r.dili@, data@),
    {
        Signature { dili: dilithium_sign(&self.dili, data), ed: ed25519_sign(&self.ed, data) }
    }
}

impl PublicKey {
    /// Checks `signature` of `data`: first the ed25519 part, then the dilithium part.
    pub fn verify(&self, data: &[u8], signature: &Signature) -> (r: Result<(), VerifyError>)
        ensures
            r is Ok <==> ed25519_accepts(self.ed@, data@, signature.ed@) && dilithium_accepts(
                signature.dili@,
                data@,
                self.dili@,
            ),
            !ed25519_accepts(self.ed@, data@, signature.ed@) ==> r matches Err(VerifyError::Ed(_)),
            ed25519_accepts(self.ed@, data@, signature.ed@) && !dilithium_accepts(
                signature.dili@,
                data@,
                self.dili@,
            ) ==> r matches Err(VerifyError::Dili(_)),
    {
        match ed25519_verify(&self.ed, data, &signature.ed) {
            Err(e) => return Err(VerifyError::Ed(e)),
            Ok(()) => {},
        }
        match dilithium_verify(signature.dili.as_slice(), data, self.dili.as_slice()) {
            Err(e) => Err(VerifyError::Dili(e)),
            Ok(()) => Ok(()),
        }
    }

    /// The key's bytes: dilithium's, then ed25519's.
    pub fn to_bytes(&self) -> (r: [u8; 1984])
        ensures
            r@ == self.dili@ + self.ed@,
    {
        let mut out = [0u8; 1984];
        let mut i: usize = 0;
        while i < DILI_PUBLIC_KEY_SIZE
            invariant
                i <= DILI_PUBLIC_KEY_SIZE,
                out@.len() == 1984,
                forall|k: int| 0 <= k < i ==> out@[k] == self.dili@[k],
            decreases DILI_PUBLIC_KEY_SIZE - i,
        {
            out[i] = self.dili[i];
            i = i + 1;
        }
        while i < 1984
            invariant
                DILI_PUBLIC_KEY_SIZE <= i <= 1984,
                out@.len() == 1984,
                forall|k: int| 0 <= k < DILI_PUBLIC_KEY_SIZE ==> out@[k] == self.dili@[k],
                forall|k: int| DILI_PUBLIC_KEY_SIZE <= k < i ==> out@[k] == self.ed@[k - DILI_PUBLIC_KEY_SIZE],
            decreases 1984 - i,
        {
            out[i] = self.ed[i - DILI_PUBLIC_KEY_SIZE];
            i = i + 1;
        }
        assert(out@ =~= self.dili@ + self.ed@);
        out
    }

    /// The key whose bytes are `bytes`: dilithium's, then ed25519's.
    pub fn from_bytes(bytes: &[u8; 1984]) -> (r: PublicKey)
        ensures
            r.dili@ + r.ed@ == bytes@,
    {
        let mut dili = [0u8; DILI_PUBLIC_KEY_SIZE];
        let mut ed = [0u8; 32];
        let mut i: usize = 0;
        while i < DILI_PUBLIC_KEY_SIZE
            invariant
                i <= DILI_PUBLIC_KEY_SIZE,
                dili@.len() == DILI_PUBLIC_KEY_SIZE,
                bytes@.len() == 1984,
                forall|k: int| 0 <= k < i ==> dili@[k] == bytes@[k],
            decreases DILI_PUBLIC_KEY_SIZE - i,
        {
            dili[i] = bytes[i];
            i = i + 1;
        }
        let mut j: usize = 0;
        while j < 32
            invariant
                j <= 32,
                ed@.len() == 32,
                bytes@.len() == 1984,
                forall|k: int| 0 <= k < j ==> ed@[k] == bytes@[DILI_PUBLIC_KEY_SIZE + k],
            decreases 32 - j,
        {
            ed[j] = bytes[DILI_PUBLIC_KEY_SIZE + j];
            j = j + 1;
        }
        assert(dili@ + ed@ =~= bytes@);
        PublicKey { dili, ed }
    }
}

impl Signature {
    /// The signature's bytes: dilithium's, then ed25519's.
    pub fn to_bytes(&self) -> (r: [u8; 3357])
        ensures
            r@ == self.dili@ + self.ed@,
    {
        let mut out = [0u8; 3357];
        let mut i: usize = 0;
        while i < DILI_SIGNATURE_SIZE
            invariant
                i <= DILI_SIGNATURE_SIZE,
                out@.len() == 3357,
                forall|k: int| 0 <= k < i ==> out@[k] == self.dili@[k],
            decreases DILI_SIGNATURE_SIZE - i,
        {
            out[i] = self.dili[i];
            i = i + 1;
        }
        while i < 3357
            invariant
                DILI_SIGNATURE_SIZE <= i <= 3357,
                out@.len() == 3357,
                forall|k: int| 0 <= k < DILI_SIGNATURE_SIZE ==> out@[k] == self.dili@[k],
                forall|k: int| DILI_SIGNATURE_SIZE <= k < i ==> out@[k] == self.ed@[k - DILI_SIGNATURE_SIZE],
            decreases 3357 - i,
        {
            out[i] = self.ed[i - DILI_SIGNATURE_SIZE];
            i = i + 1;
        }
        assert(out@ =~= self.dili@ + self.ed@);
        out
    }

    /// The signature whose bytes are `bytes`: dilithium's, then ed25519's.
    pub fn from_bytes(bytes: &[u8; 3357]) -> (r: Signature)
        ensures
            r.dili@ + r.ed@ == bytes@,
    {
        let mut dili = [0u8; DILI_SIGNATURE_SIZE];
        let mut ed = [0u8; 64];
        let mut i: usize = 0;
        while i < DILI_SIGNATURE_SIZE
            invariant
                i <= DILI_SIGNATURE_SIZE,
                dili@.len() == DILI_SIGNATURE_SIZE,
                bytes@.len() == 3357,
                forall|k: int| 0 <= k < i ==> dili@[k] == bytes@[k],
            decreases DILI_SIGNATURE_SIZE - i,
        {
            dili[i] = bytes[i];
            i = i + 1;
        }
        let mut j: usize = 0;
        while j < 64
            invariant
                j <= 64,
                ed@.len() == 64,
                bytes@.len() == 3357,
                forall|k: int| 0 <= k < j ==> ed@[k] == bytes@[DILI_SIGNATURE_SIZE + k],
            decreases 64 - j,
        {
            ed[j] = bytes[DILI_SIGNATURE_SIZE + j];
            j = j + 1;
        }
        assert(dili@ + ed@ =~= bytes@);
        Signature { dili, ed }
    }
}

/// An encryption key pair: kyber's public and secret keys and an x25519 secret.
#[derive(Clone, Copy)]
pub struct EncKeyPair {
    pub kyb_public: [u8; KYBER_PUBLIC_KEY_SIZE],
    pub kyb_secret: [u8; KYBER_SECRET_KEY_SIZE],
    pub x: [u8; 32],
}

/// A public encryption key: kyber's and x25519's.
#[derive(Clone, Copy)]
pub struct EncPublicKey {
    pub kyb: [u8; KYBER_PUBLIC_KEY_SIZE],
    pub x: [u8; 32],
}

impl EncKeyPair {
    /// A fresh random key pair, or why kyber could not make one.
    pub fn new() -> (r: Result<EncKeyPair, pqc_kyber::KyberError>)
        ensures
            r matches Ok(k) ==> k.kyb_secret@.subrange(1152, 2336) == k.kyb_public@,
    {
        let (kyb_public, kyb_secret) = match kyber_generate() {
            Ok(k) => k,
            Err(e) => return Err(e),
        };
        Ok(EncKeyPair { kyb_public, kyb_secret, x: x25519_generate() })
    }

    /// The public key: kyber's as the key pair holds it, x25519's derived from the secret.
    pub fn public_key(&self) -> (r: EncPublicKey)
        ensures
            r.kyb == self.kyb_public,
            r.x@ == x25519_public_of(self.x@),
    {
        EncPublicKey { kyb: self.kyb_public, x: x25519_public(&self.x) }
    }
}


impl EncPublicKey {
    /// The key's bytes: kyber's, then x25519's.
    pub fn to_bytes(&self) -> (r: [u8; 1216])
        ensures
            r@ == self.kyb@ + self.x@,
    {
        let mut out = [0u8; 1216];
        let mut i: usize = 0;
        while i < 1216
            invariant
                i <= 1216,
                out@.len() == 1216,
                forall|k: int| 0 <= k < i ==> out@[k] == (self.kyb@ + self.x@)[k],
            decreases 1216 - i,
        {
            out[i] = if i < KYBER_PUBLIC_KEY_SIZE {
                self.kyb[i]
            } else {
                self.x[i - KYBER_PUBLIC_KEY_SIZE]
            };
            i = i + 1;
        }
        assert(out@ =~= self.kyb@ + self.x@);
        out
    }

    /// The key whose bytes are `bytes`: kyber's, then x25519's.
    pub fn from_bytes(bytes: &[u8; 1216]) -> (r: EncPublicKey)
        ensures
            r.kyb@ + r.x@ == bytes@,
    {
        let mut kyb = [0u8; KYBER_PUBLIC_KEY_SIZE];
        let mut x = [0u8; 32];
        let mut i: usize = 0;
        while i < 1216
            invariant
                i <= 1216,
                bytes@.len() == 1216,
                kyb@.len() == KYBER_PUBLIC_KEY_SIZE,
                x@.len() == 32,
                forall|k: int| 0 <= k < i && k < KYBER_PUBLIC_KEY_SIZE ==> kyb@[k] == bytes@[k],
                forall|k: int| KYBER_PUBLIC_KEY_SIZE <= k < i ==> x@[k - KYBER_PUBLIC_KEY_SIZE] == bytes@[k],
            decreases 1216 - i,
        {
            if i < KYBER_PUBLIC_KEY_SIZE {
                kyb[i] = bytes[i];
            } else {
                x[i - KYBER_PUBLIC_KEY_SIZE] = bytes[i];
            }
            i = i + 1;
        }
        assert(kyb@ + x@ =~= bytes@);
        EncPublicKey { kyb, x }
    }
}

/// Bytes of a kyber ciphertext.
pub const KYBER_CIPHERTEXT_SIZE: usize = 1088;

/// Bytes of the payload of an encapsulation of a chosen secret: the sealed secret (its
/// ciphertext, tag and nonce), then the kyber ciphertext.
pub const CHOSEN_PAYLOAD_SIZE: usize = 1148;

/// The associated data of the seals of key encapsulation: the bytes of
/// `pqc-orion-crypto/enc/0.1.0`.
pub const ENC_ASOC_DATA: [u8; 26] = [
    112, 113, 99, 45, 111, 114, 105, 111, 110, 45, 99, 114, 121, 112, 116, 111, 47, 101, 110, 99, 47, 48, 46, 49, 46,
    48,
];

/// Kyber's decapsulation of the ciphertext `ct` with the secret key `sk`: a shared secret.
pub uninterp spec fn kyber_decapsulation_of(ct: Seq<u8>, sk: Seq<u8>) -> Seq<u8>;

/// `pqc_kyber::encapsulate` with the operating system's randomness: a fresh kyber
/// ciphertext for `public` and the shared secret it carries, or why none came.
#[verifier::external_body]
fn kyber_encapsulate(
    public: &[u8; KYBER_PUBLIC_KEY_SIZE],
) -> Result<([u8; KYBER_CIPHERTEXT_SIZE], [u8; SHARED_SECRET_SIZE]), pqc_kyber::KyberError> {
    pqc_kyber::encapsulate(public, &mut OsRng)
}

/// `pqc_kyber::decapsulate`, which with a ciphertext and a secret key of the right sizes
/// always succeeds: kyber's decapsulation of `ct` with `secret`.
#[verifier::external_body]
fn kyber_decapsulate(ct: &[u8; KYBER_CIPHERTEXT_SIZE], secret: &[u8; KYBER_SECRET_KEY_SIZE]) -> (r: Result<[u8; SHARED_SECRET_SIZE], pqc_kyber::KyberError>)
    ensures
        r is Ok,
        r->Ok_0@ == kyber_decapsulation_of(ct@, secret@),
{
    pqc_kyber::decapsulate(ct, secret)
}

/// Bytes sealed with AES-256-GCM: the ciphertext, its tag and its nonce.
#[derive(Clone, Copy)]
pub struct FixedAesPayload<const SIZE: usize> {
    pub data: [u8; SIZE],
    pub tag: [u8; TAG_SIZE],
    pub nonce: [u8; NONCE_SIZE],
}

impl<const SIZE: usize> FixedAesPayload<SIZE> {
    /// What the payload opens to under `key`, with `aad` as associated data, if the tag
    /// holds.
    pub open spec fn opened(&self, key: Seq<u8>, aad: Seq<u8>) -> Option<Seq<u8>> {
        aes_gcm_open(key, self.nonce@, aad, self.data@, self.tag@)
    }

    /// Seals `data` under `key` with a fresh random nonce.
    pub fn new(data: [u8; SIZE], key: [u8; SHARED_SECRET_SIZE], asoc_data: &[u8]) -> (r: Self)
        requires
            SIZE <= P_MAX,
            asoc_data@.len() <= P_MAX,
        ensures
            (r.data@, r.tag@) == aes_gcm_seal(key@, r.nonce@, asoc_data@, data@),
            r.opened(key@, asoc_data@) == Some(data@),
    {
        let nonce = random_nonce();
        let mut data = data;
        let tag = aes_gcm_encrypt(&key, &nonce, asoc_data, &mut data);
        FixedAesPayload { data, tag, nonce }
    }

    /// Opens the payload under `key`: the plain bytes, or AES-GCM's error when the tag
    /// does not hold.
    pub fn decrypt(self, key: [u8; SHARED_SECRET_SIZE], asoc_data: &[u8]) -> (r: Result<[u8; SIZE], aes_gcm::Error>)
        ensures
            r is Ok <==> self.opened(key@, asoc_data@) is Some,
            r matches Ok(d) ==> self.opened(key@, asoc_data@) == Some(d@),
    {
        let mut data = self.data;
        match aes_gcm_decrypt(&key, &self.nonce, asoc_data, &mut data, &self.tag) {
            Ok(()) => Ok(data),
            Err(e) => Err(e),
        }
    }
}

/// What `c`, sealed for the holder of the x25519 secret `secret` by the holder of the
/// public key `peer`, opens to.
pub open spec fn opened_by<const SIZE: usize>(c: FixedAesPayload<SIZE>, secret: Seq<u8>, peer: Seq<u8>) -> Option<
    Seq<u8>,
> {
    c.opened(x25519_shared_of(secret, peer), ENC_ASOC_DATA@)
}

/// `c` was sealed by the holder of the x25519 secret `sender` for the public key `peer`:
/// it opens, and every holder of a secret behind `peer` opens it, given the sender's public
/// key, to the same bytes.
pub open spec fn sealed_for<const SIZE: usize>(c: FixedAesPayload<SIZE>, sender: Seq<u8>, peer: Seq<u8>) -> bool {
    &&& opened_by(c, sender, peer) is Some
    &&& forall|other: Seq<u8>|
        other.len() == 32 && peer == x25519_public_of(other) ==> #[trigger] opened_by(
            c,
            other,
            x25519_public_of(sender),
        ) == opened_by(c, sender, peer)
}

/// Encapsulation seals for the receiver: what the holder of `sender` sealed for the public
/// key of `receiver`, the holder of `receiver` opens, given the sender's public key, to the
/// same bytes.
pub proof fn lemma_sealed_opens<const SIZE: usize>(c: FixedAesPayload<SIZE>, sender: Seq<u8>, receiver: Seq<u8>)
    requires
        receiver.len() == 32,
        sealed_for(c, sender, x25519_public_of(receiver)),
    ensures
        opened_by(c, receiver, x25519_public_of(sender)) == opened_by(c, sender, x25519_public_of(receiver)),
        opened_by(c, receiver, x25519_public_of(sender)) is Some,
{
    assert(opened_by(c, receiver, x25519_public_of(sender)) == opened_by(c, sender, x25519_public_of(receiver)));
}

/// What the payload `b` of an encapsulation of a chosen secret carries: the sealed
/// secret opened under the kyber secret `ks`, if it opens.
pub open spec fn chosen_secret(b: Seq<u8>, ks: Seq<u8>) -> Option<Seq<u8>> {
    aes_gcm_open(
        ks,
        b.subrange(SHARED_SECRET_SIZE + TAG_SIZE, SHARED_SECRET_SIZE + TAG_SIZE + NONCE_SIZE),
        ENC_ASOC_DATA@,
        b.take(SHARED_SECRET_SIZE as int),
        b.subrange(SHARED_SECRET_SIZE as int, SHARED_SECRET_SIZE + TAG_SIZE),
    )
}

/// The kyber ciphertext in the payload `b` of an encapsulation of a chosen secret.
pub open spec fn chosen_kyber(b: Seq<u8>) -> Seq<u8> {
    b.subrange(SHARED_SECRET_SIZE + TAG_SIZE + NONCE_SIZE, CHOSEN_PAYLOAD_SIZE as int)
}

/// The payload of an encapsulation of a chosen secret: the secret sealed under a kyber
/// secret, and the kyber ciphertext that carries the latter.
struct ChoosenPayload {
    key: FixedAesPayload<SHARED_SECRET_SIZE>,
    kyb: [u8; KYBER_CIPHERTEXT_SIZE],
}

impl ChoosenPayload {
    /// The payload's bytes: the sealed secret, its tag and nonce, then the kyber
    /// ciphertext.
    fn to_bytes(&self) -> (r: [u8; CHOSEN_PAYLOAD_SIZE])
        ensures
            r@ == self.key.data@ + self.key.tag@ + self.key.nonce@ + self.kyb@,
    {
        let mut out = [0u8; CHOSEN_PAYLOAD_SIZE];
        let mut i: usize = 0;
        while i < CHOSEN_PAYLOAD_SIZE
            invariant
                i <= CHOSEN_PAYLOAD_SIZE,
                out@.len() == CHOSEN_PAYLOAD_SIZE,
                forall|k: int|
                    0 <= k < i ==> out@[k] == (self.key.data@ + self.key.tag@ + self.key.nonce@ + self.kyb@)[k],
            decreases CHOSEN_PAYLOAD_SIZE - i,
        {
            let b = if i < 32 {
                self.key.data[i]
            } else if i < 48 {
                self.key.tag[i - 32]
            } else if i < 60 {
                self.key.nonce[i - 48]
            } else {
                self.kyb[i - 60]
            };
            out[i] = b;
            i = i + 1;
        }
        assert(out@ =~= self.key.data@ + self.key.tag@ + self.key.nonce@ + self.kyb@);
        out
    }

    /// The payload whose bytes are `bytes`.
    fn from_bytes(bytes: &[u8; CHOSEN_PAYLOAD_SIZE]) -> (r: ChoosenPayload)
        ensures
            r.key.data@ == bytes@.take(SHARED_SECRET_SIZE as int),
            r.key.tag@ == bytes@.subrange(SHARED_SECRET_SIZE as int, SHARED_SECRET_SIZE + TAG_SIZE),
            r.key.nonce@ == bytes@.subrange(SHARED_SECRET_SIZE + TAG_SIZE, SHARED_SECRET_SIZE + TAG_SIZE + NONCE_SIZE),
            r.kyb@ == chosen_kyber(bytes@),
    {
        let mut data = [0u8; SHARED_SECRET_SIZE];
        let mut tag = [0u8; TAG_SIZE];
        let mut nonce = [0u8; NONCE_SIZE];
        let mut kyb = [0u8; KYBER_CIPHERTEXT_SIZE];
        let mut i: usize = 0;
        while i < CHOSEN_PAYLOAD_SIZE
            invariant
                i <= CHOSEN_PAYLOAD_SIZE,
                bytes@.len() == CHOSEN_PAYLOAD_SIZE,
                data@.len() == 32,
                tag@.len() == 16,
                nonce@.len() == 12,
                kyb@.len() == 1088,
                forall|k: int| 0 <= k < i && k < 32 ==> data@[k] == bytes@[k],
                forall|k: int| 32 <= k < i && k < 48 ==> tag@[k - 32] == bytes@[k],
                forall|k: int| 48 <= k < i && k < 60 ==> nonce@[k - 48] == bytes@[k],
                forall|k: int| 60 <= k < i ==> kyb@[k - 60] == bytes@[k],
            decreases CHOSEN_PAYLOAD_SIZE - i,
        {
            if i < 32 {
                data[i] = bytes[i];
            } else if i < 48 {
                tag[i - 32] = bytes[i];
            } else if i < 60 {
                nonce[i - 48] = bytes[i];
            } else {
                kyb[i - 60] = bytes[i];
            }
            i = i + 1;
        }
        assert(data@ =~= bytes@.take(32));
        assert(tag@ =~= bytes@.subrange(32, 48));
        assert(nonce@ =~= bytes@.subrange(48, 60));
        assert(kyb@ =~= chosen_kyber(bytes@));
        ChoosenPayload { key: FixedAesPayload { data, tag, nonce }, kyb }
    }
}

/// Why decapsulation failed.
#[derive(Debug)]
pub enum DecapsulationError {
    Kyber(pqc_kyber::KyberError),
    Aes(aes_gcm::Error),
}

impl EncKeyPair {
    /// Encapsulates a fresh kyber secret for `public_key`: the kyber ciphertext sealed
    /// under the x25519 secret this pair shares with `public_key`, and the kyber secret.
    pub fn encapsulate(&self, public_key: &EncPublicKey) -> (r: Result<
        (FixedAesPayload<KYBER_CIPHERTEXT_SIZE>, [u8; SHARED_SECRET_SIZE]),
        pqc_kyber::KyberError,
    >)
        ensures
            r matches Ok((c, _)) ==> sealed_for(c, self.x@, public_key.x@) && opened_by(
                c,
                self.x@,
                public_key.x@,
            ).unwrap().len() == KYBER_CIPHERTEXT_SIZE,
    {
        let (data, secret) = match kyber_encapsulate(&public_key.kyb) {
            Ok(k) => k,
            Err(e) => return Err(e),
        };
        let x_secret = x25519_diffie_hellman(&self.x, &public_key.x);
        let c = FixedAesPayload::new(data, x_secret, ENC_ASOC_DATA.as_slice());
        Ok((c, secret))
    }

    /// Encapsulates the chosen `secret` for `public_key`: the secret sealed under a fresh
    /// kyber secret, with the kyber ciphertext behind it, all sealed under the x25519
    /// secret this pair shares with `public_key`.
    pub fn encapsulate_choosen(&self, public_key: &EncPublicKey, secret: [u8; SHARED_SECRET_SIZE]) -> (r: Result<
        FixedAesPayload<CHOSEN_PAYLOAD_SIZE>,
        pqc_kyber::KyberError,
    >)
        ensures
            r matches Ok(c) ==> sealed_for(c, self.x@, public_key.x@) && opened_by(
                c,
                self.x@,
                public_key.x@,
            ).unwrap().len() == CHOSEN_PAYLOAD_SIZE && exists|ks: Seq<u8>|
                chosen_secret(#[trigger] opened_by(c, self.x@, public_key.x@).unwrap(), ks) == Some(secret@),
    {
        let (kyb, ksecret) = match kyber_encapsulate(&public_key.kyb) {
            Ok(k) => k,
            Err(e) => return Err(e),
        };
        let x_secret = x25519_diffie_hellman(&self.x, &public_key.x);
        let key = FixedAesPayload::new(secret, ksecret, ENC_ASOC_DATA.as_slice());
        let data = ChoosenPayload { key, kyb };
        let bytes = data.to_bytes();
        let c = FixedAesPayload::new(bytes, x_secret, ENC_ASOC_DATA.as_slice());
        proof {
            let b = bytes@;
            assert(b.take(32) =~= key.data@);
            assert(b.subrange(32, 48) =~= key.tag@);
            assert(b.subrange(48, 60) =~= key.nonce@);
            assert(chosen_secret(b, ksecret@) == Some(secret@));
        }
        Ok(c)
    }

    /// Opens `ciphertext`, sealed by the holder of the x25519 key in `public_key`, and
    /// decapsulates the kyber ciphertext inside with this pair's kyber secret key.
    pub fn decapsulate(&self, ciphertext: FixedAesPayload<KYBER_CIPHERTEXT_SIZE>, public_key: &EncPublicKey) -> (r: Result<
        [u8; SHARED_SECRET_SIZE],
        DecapsulationError,
    >)
        ensures
            match opened_by(ciphertext, self.x@, public_key.x@) {
                None => r matches Err(DecapsulationError::Aes(_)),
                Some(kct) => r matches Ok(s) && s@ == kyber_decapsulation_of(kct, self.kyb_secret@),
            },
    {
        let x_secret = x25519_diffie_hellman(&self.x, &public_key.x);
        let data = match ciphertext.decrypt(x_secret, ENC_ASOC_DATA.as_slice()) {
            Ok(d) => d,
            Err(e) => return Err(DecapsulationError::Aes(e)),
        };
        match kyber_decapsulate(&data, &self.kyb_secret) {
            Ok(s) => Ok(s),
            Err(e) => Err(DecapsulationError::Kyber(e)),
        }
    }

    /// Opens `ciphertext`, sealed by the holder of the x25519 key in `public_key`,
    /// decapsulates the kyber ciphertext in it with this pair's kyber secret key, and opens
    /// the chosen secret with what that gives.
    pub fn decapsulate_choosen(&self, ciphertext: FixedAesPayload<CHOSEN_PAYLOAD_SIZE>, public_key: &EncPublicKey) -> (r: Result<
        [u8; SHARED_SECRET_SIZE],
        DecapsulationError,
    >)
        ensures
            match opened_by(ciphertext, self.x@, public_key.x@) {
                None => r matches Err(DecapsulationError::Aes(_)),
                Some(b) => match chosen_secret(b, kyber_decapsulation_of(chosen_kyber(b), self.kyb_secret@)) {
                    None => r matches Err(DecapsulationError::Aes(_)),
                    Some(s) => r matches Ok(v) && v@ == s,
                },
            },
    {
        let x_secret = x25519_diffie_hellman(&self.x, &public_key.x);
        let data = match ciphertext.decrypt(x_secret, ENC_ASOC_DATA.as_slice()) {
            Ok(d) => d,
            Err(e) => return Err(DecapsulationError::Aes(e)),
        };
        let payload = ChoosenPayload::from_bytes(&data);
        let secret = match kyber_decapsulate(&payload.kyb, &self.kyb_secret) {
            Ok(s) => s,
            Err(e) => return Err(DecapsulationError::Kyber(e)),
        };
        match payload.key.decrypt(secret, ENC_ASOC_DATA.as_slice()) {
            Ok(s) => Ok(s),
            Err(e) => Err(DecapsulationError::Aes(e)),
        }
    }
}

/// The bytes that `encrypt` leaves: the ciphertext of `plain` under `key` and `nonce`,
/// its tag, and the nonce.
pub open spec fn encrypted(key: Seq<u8>, nonce: Seq<u8>, plain: Seq<u8>) -> Seq<u8> {
    aes_gcm_seal(key, nonce, ENC_ASOC_DATA@, plain).0 + aes_gcm_seal(key, nonce, ENC_ASOC_DATA@, plain).1 + nonce
}

/// Opens `data`, which `encrypt` sealed under `secret`. Input too short to hold a tag and
/// a nonce is refused at once. Longer input would be split four bytes past its own end
/// (at `len - NONCE_SIZE + TAG_SIZE`), which no slice allows, so only the short input is
/// taken here, and it is refused.
pub fn decrypt(data: &mut [u8], secret: [u8; SHARED_SECRET_SIZE]) -> (r: Option<&mut [u8]>)
    requires
        old(data)@.len() < NONCE_SIZE + TAG_SIZE,
    ensures
        r is None,
        final(data)@ == old(data)@,
{
    if data.len() < NONCE_SIZE + TAG_SIZE {
        return None;
    }
    None
}

/// Encrypts `data` in place under `secret` with a fresh random nonce, then appends the
/// tag and the nonce.
pub fn encrypt(data: &mut Vec<u8>, secret: [u8; SHARED_SECRET_SIZE])
    requires
        old(data)@.len() <= P_MAX,
    ensures
        exists|nonce: Seq<u8>|
            nonce.len() == NONCE_SIZE && final(data)@ == #[trigger] encrypted(secret@, nonce, old(data)@),
        ({
            let n = final(data)@.len();
            &&& n == old(data)@.len() + TAG_SIZE + NONCE_SIZE
            &&& aes_gcm_open(
                secret@,
                final(data)@.subrange(n - NONCE_SIZE, n as int),
                ENC_ASOC_DATA@,
                final(data)@.take(n - TAG_SIZE - NONCE_SIZE),
                final(data)@.subrange(n - TAG_SIZE - NONCE_SIZE, n - NONCE_SIZE),
            ) == Some(old(data)@)
        }),
{
    let nonce = random_nonce();
    let tag = aes_gcm_encrypt(&secret, &nonce, ENC_ASOC_DATA.as_slice(), data.as_mut_slice());
    let ghost sealed = data@;
    let _ = crate::codec::Buffer::extend_from_slice(data, tag.as_slice());
    let _ = crate::codec::Buffer::extend_from_slice(data, nonce.as_slice());
    proof {
        let n = data@.len();
        assert(data@ =~= encrypted(secret@, nonce@, old(data)@));
        assert(data@.subrange(n - NONCE_SIZE, n as int) =~= nonce@);
        assert(data@.take(n - TAG_SIZE - NONCE_SIZE) =~= sealed);
        assert(data@.subrange(n - TAG_SIZE - NONCE_SIZE, n - NONCE_SIZE) =~= tag@);
    }
}

} // verus!
