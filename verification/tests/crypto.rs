use capsule_fs::block::{
    Block, DataBlock, DataCapsuleBlock, DataCapsuleFileSystemBlock, Id,
};
use capsule_fs::crypto::{address_of, sign_bytes, SignableBlock, SigningKey, VerifyingKey};
use rsa::pkcs8::{EncodePrivateKey, EncodePublicKey, LineEnding};
use rsa::signature::{SignatureEncoding, Signer};

fn private_key() -> rsa::RsaPrivateKey {
    rsa::RsaPrivateKey::new(&mut rand::thread_rng(), 512).unwrap()
}

fn signing_key(private: &rsa::RsaPrivateKey) -> SigningKey {
    let pem = private.to_pkcs8_pem(LineEnding::LF).unwrap();
    SigningKey { pkcs8_pem: pem.as_bytes().to_vec() }
}

fn fs_block() -> DataCapsuleFileSystemBlock {
    DataCapsuleFileSystemBlock {
        prev_hash: String::from("ab"),
        block: Block::Data(DataBlock { data: vec![1, 2, 3] }),
        updated_by: Id { pub_key: b"k".to_vec(), uid: 5, signature: Vec::new() },
        signature: Vec::new(),
    }
}

fn capsule_block() -> DataCapsuleBlock {
    DataCapsuleBlock {
        prev_hash: String::from("ab"),
        fs: fs_block(),
        timestamp: -1,
        signature: vec![9],
    }
}

#[test]
fn the_address_of_no_bytes_is_the_digest_of_the_empty_string() {
    let want = "e3b0c44298fc1c149afbf4c8996fb92427ae41e4649b934ca495991b7852b855";
    assert_eq!(address_of(&Vec::new()), Some(String::from(want)));
    let id = Id { pub_key: Vec::new(), uid: 0, signature: Vec::new() };
    assert_eq!(id.hash(), Some(String::from(want)));
}

#[test]
fn the_address_is_the_lower_case_hexadecimal_digest_of_the_bytes() {
    let id = Id { pub_key: Vec::new(), uid: 1, signature: Vec::new() };
    assert_eq!(id.encode(), vec![0x10u8, 0x01]);
    assert_eq!(
        id.hash(),
        Some(String::from("27c24fcb8474773e2af799d0848495ff053272d33c432dc26277993df45c9276"))
    );
    assert_eq!(
        capsule_block().hash(),
        Some(String::from("068a45838531c85a0f016c211ccaaf0764a6281381775ba0be23feef6256f9f3"))
    );
}

#[test]
fn the_address_covers_the_signature() {
    let mut block = capsule_block();
    let before = block.hash().unwrap();
    assert_eq!(before.len(), 64);
    block.signature = vec![10];
    assert_ne!(block.hash().unwrap(), before);
    block.signature = vec![9];
    assert_eq!(block.hash().unwrap(), before);
    assert_eq!(block.clone().hash().unwrap(), before);
}

#[test]
fn what_a_key_signed_verifies_under_its_public_half() {
    let key = signing_key(&private_key());
    let public = key.verifying_key().unwrap();
    let mut fs = fs_block();
    fs.signature = vec![1, 2, 3];
    assert!(fs.sign(&key));
    assert!(!fs.signature.is_empty());
    assert_eq!(fs.signature.len(), 64);
    assert!(fs.validate(&public));
    let mut id = Id { pub_key: public.spki_pem.clone(), uid: 1000, signature: Vec::new() };
    assert!(id.sign(&key));
    assert!(id.validate(&public));
    assert!(id.validate(&VerifyingKey { spki_pem: id.pub_key.clone() }));
    let mut block = capsule_block();
    assert!(block.sign(&key));
    assert!(block.validate(&public));
}

#[test]
fn signing_leaves_the_rest_of_the_record_alone() {
    let key = signing_key(&private_key());
    let mut fs = fs_block();
    assert!(fs.sign(&key));
    assert_eq!(fs.prev_hash, "ab");
    assert_eq!(fs.updated_by.uid, 5);
    let signature = fs.signature.clone();
    // The signature does not depend on the signature that was there.
    assert!(fs.sign(&key));
    assert_eq!(fs.signature, signature);
    fs.signature = Vec::new();
    assert_eq!(fs.encode(), fs_block().encode());
}

#[test]
fn a_changed_record_does_not_verify() {
    let key = signing_key(&private_key());
    let public = key.verifying_key().unwrap();
    let mut fs = fs_block();
    assert!(fs.sign(&key));
    let mut changed = fs.clone();
    changed.prev_hash = String::from("ac");
    assert!(!changed.validate(&public));
    let mut forged = fs.clone();
    forged.signature[0] ^= 1;
    assert!(!forged.validate(&public));
    let mut bare = fs.clone();
    bare.signature = Vec::new();
    assert!(!bare.validate(&public));
    // Checking a record does not change it.
    assert!(fs.validate(&public));
    assert!(fs.validate(&public));
}

#[test]
fn another_key_does_not_verify() {
    let key = signing_key(&private_key());
    let other = signing_key(&private_key()).verifying_key().unwrap();
    let mut fs = fs_block();
    assert!(fs.sign(&key));
    assert!(!fs.validate(&other));
    assert!(!fs.validate(&VerifyingKey { spki_pem: Vec::new() }));
    assert!(!fs.validate(&VerifyingKey { spki_pem: b"not a key".to_vec() }));
    assert!(!fs.validate(&VerifyingKey { spki_pem: vec![0xff, 0xfe] }));
}

#[test]
fn text_that_holds_no_key_cannot_sign() {
    let mut fs = fs_block();
    fs.signature = vec![1];
    assert!(!fs.sign(&SigningKey { pkcs8_pem: b"nothing".to_vec() }));
    assert!(fs.signature.is_empty());
    assert!(SigningKey { pkcs8_pem: Vec::new() }.verifying_key().is_none());
    assert!(SigningKey { pkcs8_pem: vec![0xff] }.verifying_key().is_none());
}

#[test]
fn the_public_half_is_the_one_that_the_key_library_writes() {
    let private = private_key();
    let key = signing_key(&private);
    let want = private.to_public_key().to_public_key_pem(LineEnding::LF).unwrap();
    assert_eq!(key.verifying_key().unwrap().spki_pem, want.into_bytes());
}

#[test]
fn a_signature_is_the_one_that_the_key_library_makes() {
    let private = private_key();
    let key = signing_key(&private);
    let mut fs = fs_block();
    assert!(fs.sign(&key));
    let direct = rsa::pkcs1v15::SigningKey::<rsa::sha2::Sha256>::new(private);
    assert_eq!(fs.signature, direct.sign(&fs_block().encode()).to_vec());
}

#[test]
fn a_signature_is_handed_out_only_after_it_was_checked() {
    let private = private_key();
    let key = signing_key(&private);
    let message = b"what is signed".to_vec();
    let signature = sign_bytes(&key, &message).unwrap();
    let direct = rsa::pkcs1v15::SigningKey::<rsa::sha2::Sha256>::new(private);
    assert_eq!(signature, direct.sign(&message).to_vec());
    assert_ne!(signature, message);
    assert!(sign_bytes(&SigningKey { pkcs8_pem: Vec::new() }, &message).is_none());
    assert!(sign_bytes(&SigningKey { pkcs8_pem: b"no key".to_vec() }, &message).is_none());
    // A public key is no private key.
    let public = key.verifying_key().unwrap();
    assert!(sign_bytes(&SigningKey { pkcs8_pem: public.spki_pem }, &message).is_none());
}
