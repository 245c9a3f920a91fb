//! Hashes and signatures of the records. The digest, the hexadecimal text and the RSA
//! operations come from other crates: what is said of them here is taken on trust.

use vstd::prelude::*;
use data_encoding::HEXLOWER;
use ring::digest::{digest, SHA256};
use rsa::pkcs1v15::Signature;
use rsa::pkcs8::{DecodePrivateKey, DecodePublicKey, EncodePublicKey, LineEnding};
use rsa::sha2::Sha256;
use rsa::signature::{Keypair, SignatureEncoding, Signer, Verifier};
use crate::block::{
    block_view, CapsuleBlockView, DataCapsuleBlock, DataCapsuleFileSystemBlock, FileSystemBlockView, Id, IdView,
};
use crate::wire::{capsule_wire, fs_wire, id_wire};

verus! {

/// The SHA-256 digest of `data`.
pub uninterp spec fn sha256(data: Seq<u8>) -> Seq<u8>;

/// The RSASSA-PKCS1-v1_5 signature with SHA-256 that the private key in the PKCS#8 PEM
/// text `signing_key` gives to `message`; none where the text holds no such key or the
/// key cannot sign.
pub uninterp spec fn rsa_signature(signing_key: Seq<u8>, message: Seq<u8>) -> Option<Seq<u8>>;

/// Whether `signature` is a valid RSASSA-PKCS1-v1_5 signature with SHA-256 of `message`
/// under the public key in the SPKI PEM text `verifying_key`.
pub uninterp spec fn rsa_verifies(
    verifying_key: Seq<u8>,
    message: Seq<u8>,
    signature: Seq<u8>,
) -> bool;

/// The SPKI PEM text of the public half of the private key in the PKCS#8 PEM text
/// `signing_key`; none where the text holds no such key.
pub uninterp spec fn rsa_public_key(signing_key: Seq<u8>) -> Option<Seq<u8>>;

/// The number of bytes from which on the digest is not computed.
pub const DIGEST_LIMIT: u64 = 0x2000_0000_0000_0000;

/// The digits of lower-case hexadecimal text.
pub open spec fn hex_digit(d: int) -> char {
    seq!['0', '1', '2', '3', '4', '5', '6', '7', '8', '9', 'a', 'b', 'c', 'd', 'e', 'f'][d]
}

/// `bytes` as lower-case hexadecimal text: two digits for each byte, the high one first.
pub open spec fn hex_lower(bytes: Seq<u8>) -> Seq<char> {
    Seq::new(
        2 * bytes.len(),
        |i: int|
            if i % 2 == 0 {
                hex_digit(bytes[i / 2] as int / 16)
            } else {
                hex_digit(bytes[i / 2] as int % 16)
            },
    )
}

/// The address of a record with the canonical bytes `wire`.
pub open spec fn address(wire: Seq<u8>) -> Seq<char> {
    hex_lower(sha256(wire))
}

/// Calls `ring::digest::digest` with `SHA256`. Taken on trust: the result is the
/// SHA-256 digest of `data`, which is 32 bytes long. Longer input than the limit makes
/// the call panic, so it is left out.
#[verifier::external_body]
fn sha256_digest(data: &[u8]) -> (out: Vec<u8>)
    requires
        data@.len() < DIGEST_LIMIT,
    ensures
        out@ == sha256(data@),
        out@.len() == 32,
{
    digest(&SHA256, data).as_ref().to_vec()
}

/// Calls `data_encoding::HEXLOWER.encode`. Taken on trust: the result is the input in
/// lower-case hexadecimal digits, two for each byte. Input whose text would be longer
/// than a length can count is left out.
#[verifier::external_body]
fn hex_encode(bytes: &[u8]) -> (text: String)
    requires
        2 * bytes@.len() <= usize::MAX,
    ensures
        text@ == hex_lower(bytes@),
{
    HEXLOWER.encode(bytes)
}

/// Reads a private key with `rsa::pkcs1v15::SigningKey::<Sha256>::from_pkcs8_pem` and
/// signs with `Signer::try_sign`. Taken on trust: the result depends on the key text
/// and the message alone.
#[verifier::external_body]
fn rsa_sign(signing_key: &[u8], message: &[u8]) -> (signature: Option<Vec<u8>>)
    ensures
        block_view(signature) == rsa_signature(signing_key@, message@),
{
    let pem = core::str::from_utf8(signing_key).ok()?;
    let key = rsa::pkcs1v15::SigningKey::<Sha256>::from_pkcs8_pem(pem).ok()?;
    let signature = key.try_sign(message).ok()?;
    Some(signature.to_vec())
}

/// Reads a public key with `rsa::pkcs1v15::VerifyingKey::<Sha256>::from_public_key_pem`
/// and checks the signature with `Verifier::verify`. Taken on trust: the result
/// depends on the three byte strings alone.
#[verifier::external_body]
fn rsa_verify(verifying_key: &[u8], message: &[u8], signature: &[u8]) -> (valid: bool)
    ensures
        valid == rsa_verifies(verifying_key@, message@, signature@),
{
    let Ok(pem) = core::str::from_utf8(verifying_key) else {
        return false;
    };
    let Ok(key) = rsa::pkcs1v15::VerifyingKey::<Sha256>::from_public_key_pem(pem) else {
        return false;
    };
    let Ok(signature) = Signature::try_from(signature) else {
        return false;
    };
    key.verify(message, &signature).is_ok()
}

/// Reads a private key with `rsa::pkcs1v15::SigningKey::<Sha256>::from_pkcs8_pem` and
/// writes its public half with `Keypair::verifying_key` and
/// `EncodePublicKey::to_public_key_pem`. Taken on trust: the result depends on the
/// key text alone.
#[verifier::external_body]
fn rsa_public(signing_key: &[u8]) -> (verifying_key: Option<Vec<u8>>)
    ensures
        block_view(verifying_key) == rsa_public_key(signing_key@),
{
    let pem = core::str::from_utf8(signing_key).ok()?;
    let key = rsa::pkcs1v15::SigningKey::<Sha256>::from_pkcs8_pem(pem).ok()?;
    let public = key.verifying_key().to_public_key_pem(LineEnding::LF).ok()?;
    Some(public.into_bytes())
}

/// The signature that the private key in `signing_key` gives to `message`, where it
/// verifies under the public half of that key; none where the key cannot sign, has no
/// public half that can be written, or makes a signature that its public half does not
/// accept.
pub open spec fn checked_signature(signing_key: Seq<u8>, message: Seq<u8>) -> Option<Seq<u8>> {
    match rsa_signature(signing_key, message) {
        None => None,
        Some(signature) => match rsa_public_key(signing_key) {
            None => None,
            Some(public) => if rsa_verifies(public, message, signature) {
                Some(signature)
            } else {
                None
            },
        },
    }
}

/// A private RSA key, as PKCS#8 PEM text.
#[derive(Debug)]
pub struct SigningKey {
    pub pkcs8_pem: Vec<u8>,
}

/// A public RSA key, as SPKI PEM text.
#[derive(Debug)]
pub struct VerifyingKey {
    pub spki_pem: Vec<u8>,
}

impl View for SigningKey {
    type V = Seq<u8>;

    open spec fn view(&self) -> Seq<u8> {
        self.pkcs8_pem@
    }
}

impl View for VerifyingKey {
    type V = Seq<u8>;

    open spec fn view(&self) -> Seq<u8> {
        self.spki_pem@
    }
}

impl Clone for SigningKey {
    fn clone(&self) -> (copy: Self)
        ensures
            copy@ == self@,
    {
        SigningKey { pkcs8_pem: self.pkcs8_pem.clone() }
    }
}

impl Clone for VerifyingKey {
    fn clone(&self) -> (copy: Self)
        ensures
            copy@ == self@,
    {
        VerifyingKey { spki_pem: self.spki_pem.clone() }
    }
}

impl SigningKey {
    /// The public half of this key; none where the text holds no private key.
    pub fn verifying_key(&self) -> (key: Option<VerifyingKey>)
        ensures
            match key {
                Some(k) => rsa_public_key(self@) == Some(k@),
                None => rsa_public_key(self@) is None,
            },
    {
        match rsa_public(self.pkcs8_pem.as_slice()) {
            Some(pem) => Some(VerifyingKey { spki_pem: pem }),
            None => None,
        }
    }
}

/// Signs `message` with `key` and checks the signature under the public half of the
/// key: a signature is handed out only where it verifies.
pub fn sign_bytes(key: &SigningKey, message: &[u8]) -> (signature: Option<Vec<u8>>)
    ensures
        block_view(signature) == checked_signature(key@, message@),
{
    let signature = match rsa_sign(key.pkcs8_pem.as_slice(), message) {
        Some(signature) => signature,
        None => {
            return None;
        },
    };
    let public = match rsa_public(key.pkcs8_pem.as_slice()) {
        Some(public) => public,
        None => {
            return None;
        },
    };
    if rsa_verify(public.as_slice(), message, signature.as_slice()) {
        Some(signature)
    } else {
        None
    }
}

/// The address of a record from its canonical bytes: the lower-case hexadecimal text
/// of their SHA-256 digest. None where the bytes are too many for the digest.
pub fn address_of(wire: &Vec<u8>) -> (hash: Option<String>)
    ensures
        match hash {
            Some(h) => wire@.len() < DIGEST_LIMIT && h@ == address(wire@) && h@.len() == 64,
            None => wire@.len() >= DIGEST_LIMIT,
        },
{
    if wire.len() as u64 >= DIGEST_LIMIT {
        return None;
    }
    let out = sha256_digest(wire.as_slice());
    Some(hex_encode(out.as_slice()))
}

/// A record that carries a signature over its own canonical bytes.
pub trait SignableBlock: Sized {
    /// The canonical bytes of the record as it stands.
    spec fn wire(&self) -> Seq<u8>;

    /// The canonical bytes of the record with its signature left empty: what is signed.
    spec fn unsigned_wire(&self) -> Seq<u8>;

    /// The signature that the record carries.
    spec fn signature(&self) -> Seq<u8>;

    /// Whether the record's signature is valid under the public key `key`.
    open spec fn verifies(&self, key: Seq<u8>) -> bool {
        rsa_verifies(key, self.unsigned_wire(), self.signature())
    }

    /// Signs the record with `key`: the signature is taken over the record with an
    /// empty signature, checked under the public half of `key`, and replaces what the
    /// record carried. Where `key` cannot sign, or its signature does not verify under
    /// its public half, the record is left with an empty signature and the answer is
    /// `false`.
    fn sign(&mut self, key: &SigningKey) -> (signed: bool)
        ensures
            final(self).unsigned_wire() == old(self).unsigned_wire(),
            signed == checked_signature(key@, old(self).unsigned_wire()) is Some,
            signed ==> Some(final(self).signature()) == checked_signature(
                key@,
                old(self).unsigned_wire(),
            ),
            !signed ==> final(self).signature() == Seq::<u8>::empty(),
            signed ==> rsa_public_key(key@) is Some && final(self).verifies(
                rsa_public_key(key@)->Some_0,
            ),
    ;

    /// Whether the record's signature is valid under `key`.
    fn validate(&self, key: &VerifyingKey) -> (valid: bool)
        ensures
            valid == self.verifies(key@),
    ;

    /// The address of the record: the lower-case hexadecimal text of the SHA-256 digest
    /// of its canonical bytes, signature included. None where the bytes are too many
    /// for the digest.
    fn hash(&self) -> (hash: Option<String>)
        ensures
            match hash {
                Some(h) => self.wire().len() < DIGEST_LIMIT && h@ == address(self.wire()) && h@.len()
                    == 64,
                None => self.wire().len() >= DIGEST_LIMIT,
            },
    ;
}

impl SignableBlock for Id {
    open spec fn wire(&self) -> Seq<u8> {
        id_wire(self@)
    }

    open spec fn unsigned_wire(&self) -> Seq<u8> {
        id_wire(IdView { signature: Seq::empty(), ..self@ })
    }

    open spec fn signature(&self) -> Seq<u8> {
        self@.signature
    }

    fn sign(&mut self, key: &SigningKey) -> (signed: bool)
        ensures
            final(self)@ == (IdView { signature: final(self)@.signature, ..old(self)@ }),
    {
        self.signature = Vec::new();
        let message = self.encode();
        match sign_bytes(key, message.as_slice()) {
            Some(signature) => {
                self.signature = signature;
                true
            },
            None => false,
        }
    }

    fn validate(&self, key: &VerifyingKey) -> (valid: bool) {
        let mut bare = self.clone();
        bare.signature = Vec::new();
        let message = bare.encode();
        rsa_verify(key.spki_pem.as_slice(), message.as_slice(), self.signature.as_slice())
    }

    fn hash(&self) -> (hash: Option<String>) {
        let wire = self.encode();
        address_of(&wire)
    }
}

impl SignableBlock for DataCapsuleFileSystemBlock {
    open spec fn wire(&self) -> Seq<u8> {
        fs_wire(self@)
    }

    open spec fn unsigned_wire(&self) -> Seq<u8> {
        fs_wire(FileSystemBlockView { signature: Seq::empty(), ..self@ })
    }

    open spec fn signature(&self) -> Seq<u8> {
        self@.signature
    }

    fn sign(&mut self, key: &SigningKey) -> (signed: bool)
        ensures
            final(self)@ == (FileSystemBlockView {
                signature: final(self)@.signature,
                ..old(self)@
            }),
    {
        self.signature = Vec::new();
        let message = self.encode();
        match sign_bytes(key, message.as_slice()) {
            Some(signature) => {
                self.signature = signature;
                true
            },
            None => false,
        }
    }

    fn validate(&self, key: &VerifyingKey) -> (valid: bool) {
        let mut bare = self.clone();
        bare.signature = Vec::new();
        let message = bare.encode();
        rsa_verify(key.spki_pem.as_slice(), message.as_slice(), self.signature.as_slice())
    }

    fn hash(&self) -> (hash: Option<String>) {
        let wire = self.encode();
        address_of(&wire)
    }
}

impl SignableBlock for DataCapsuleBlock {
    open spec fn wire(&self) -> Seq<u8> {
        capsule_wire(self@)
    }

    open spec fn unsigned_wire(&self) -> Seq<u8> {
        capsule_wire(CapsuleBlockView { signature: Seq::empty(), ..self@ })
    }

    open spec fn signature(&self) -> Seq<u8> {
        self@.signature
    }

    fn sign(&mut self, key: &SigningKey) -> (signed: bool)
        ensures
            final(self)@ == (CapsuleBlockView { signature: final(self)@.signature, ..old(self)@ }),
    {
        self.signature = Vec::new();
        let message = self.encode();
        match sign_bytes(key, message.as_slice()) {
            Some(signature) => {
                self.signature = signature;
                true
            },
            None => false,
        }
    }

    fn validate(&self, key: &VerifyingKey) -> (valid: bool) {
        let mut bare = self.clone();
        bare.signature = Vec::new();
        let message = bare.encode();
        rsa_verify(key.spki_pem.as_slice(), message.as_slice(), self.signature.as_slice())
    }

    fn hash(&self) -> (hash: Option<String>) {
        let wire = self.encode();
        address_of(&wire)
    }
}

} // verus!
