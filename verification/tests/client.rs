use capsule_fs::block::{Block, DataBlock, DataCapsuleBlock, DataCapsuleFileSystemBlock, Id};
use capsule_fs::client::{BlockClient, ClientError, FSMiddlewareClient};
use capsule_fs::crypto::{SignableBlock, SigningKey, VerifyingKey};
use capsule_fs::genesis::new_root_directory;
use rsa::pkcs8::{EncodePrivateKey, LineEnding};

fn keypair() -> (SigningKey, VerifyingKey) {
    let private = rsa::RsaPrivateKey::new(&mut rand::thread_rng(), 512).unwrap();
    let pem = private.to_pkcs8_pem(LineEnding::LF).unwrap();
    let signing = SigningKey { pkcs8_pem: pem.as_bytes().to_vec() };
    let verifying = signing.verifying_key().unwrap();
    (signing, verifying)
}

fn block(byte: u8) -> DataCapsuleBlock {
    DataCapsuleBlock {
        prev_hash: String::new(),
        fs: DataCapsuleFileSystemBlock {
            prev_hash: String::new(),
            block: Block::Data(DataBlock { data: vec![byte] }),
            updated_by: Id { pub_key: Vec::new(), uid: 1, signature: Vec::new() },
            signature: Vec::new(),
        },
        timestamp: 0,
        signature: Vec::new(),
    }
}

fn open_client(size: usize) -> BlockClient {
    BlockClient::new(size, VerifyingKey { spki_pem: Vec::new() }, false).unwrap()
}

fn held(client: &mut BlockClient, hash: &str) -> Option<Vec<u8>> {
    client.get(&String::from(hash)).map(|block| BlockClient::get_block(block).unwrap())
}

#[test]
fn there_is_no_client_without_room() {
    assert!(BlockClient::new(0, VerifyingKey { spki_pem: Vec::new() }, false).is_none());
    let mut wide = BlockClient::new(usize::MAX, VerifyingKey { spki_pem: Vec::new() }, false)
        .unwrap();
    wide.accept(String::from("a"), block(1)).unwrap();
    assert_eq!(held(&mut wide, "a"), Some(vec![1]));
    assert!(BlockClient::new(1, VerifyingKey { spki_pem: Vec::new() }, false).is_some());
}

#[test]
fn a_new_client_holds_nothing() {
    let mut client = open_client(4);
    assert!(client.get(&String::from("a")).is_none());
}

#[test]
fn an_accepted_block_is_handed_back_and_kept() {
    let mut client = open_client(4);
    let back = client.accept(String::from("a"), block(1)).unwrap();
    assert_eq!(back.encode(), block(1).encode());
    assert_eq!(held(&mut client, "a"), Some(vec![1]));
    assert_eq!(held(&mut client, "b"), None);
}

#[test]
fn the_block_used_least_recently_makes_room() {
    let mut client = open_client(2);
    client.accept(String::from("a"), block(1)).unwrap();
    client.accept(String::from("b"), block(2)).unwrap();
    // Using a makes b the one that was used least recently.
    assert_eq!(held(&mut client, "a"), Some(vec![1]));
    client.accept(String::from("c"), block(3)).unwrap();
    assert_eq!(held(&mut client, "b"), None);
    assert_eq!(held(&mut client, "a"), Some(vec![1]));
    assert_eq!(held(&mut client, "c"), Some(vec![3]));
    client.accept(String::from("d"), block(4)).unwrap();
    assert_eq!(held(&mut client, "a"), None);
    assert_eq!(held(&mut client, "c"), Some(vec![3]));
    assert_eq!(held(&mut client, "d"), Some(vec![4]));
}

#[test]
fn a_block_under_a_known_address_takes_the_place_of_the_old_one() {
    let mut client = open_client(2);
    client.accept(String::from("a"), block(1)).unwrap();
    client.accept(String::from("b"), block(2)).unwrap();
    client.accept(String::from("a"), block(9)).unwrap();
    assert_eq!(held(&mut client, "b"), Some(vec![2]));
    assert_eq!(held(&mut client, "a"), Some(vec![9]));
    client.accept(String::from("c"), block(3)).unwrap();
    assert_eq!(held(&mut client, "b"), None);
    assert_eq!(held(&mut client, "a"), Some(vec![9]));
}

#[test]
fn a_cache_for_one_block_keeps_the_last() {
    let mut client = open_client(1);
    client.accept(String::from("a"), block(1)).unwrap();
    client.accept(String::from("b"), block(2)).unwrap();
    assert_eq!(held(&mut client, "a"), None);
    assert_eq!(held(&mut client, "b"), Some(vec![2]));
}

#[test]
fn a_block_that_the_server_did_not_sign_is_not_cached() {
    let (server_key, server_public) = keypair();
    let mut client = BlockClient::new(4, server_public, true).unwrap();
    assert_eq!(
        client.accept(String::from("a"), block(1)).err(),
        Some(ClientError::Unauthenticated)
    );
    assert!(client.get(&String::from("a")).is_none());
    let mut signed = block(1);
    assert!(signed.sign(&server_key));
    assert!(client.accept(String::from("a"), signed.clone()).is_ok());
    assert!(client.get(&String::from("a")).is_some());
    let mut changed = signed;
    changed.timestamp = 1;
    assert_eq!(
        client.accept(String::from("b"), changed).err(),
        Some(ClientError::Unauthenticated)
    );
    assert!(client.get(&String::from("b")).is_none());
    assert!(client.get(&String::from("a")).is_some());
}

#[test]
fn only_a_data_block_has_bytes() {
    assert_eq!(BlockClient::get_block(block(7)), Ok(vec![7]));
    let mut entry = block(7);
    entry.fs = new_root_directory(&entry.fs.updated_by);
    assert_eq!(BlockClient::get_block(entry), Err(ClientError::NotData));
}

#[test]
fn the_signer_makes_the_identity_of_a_user() {
    let (key, public) = keypair();
    let text = String::from_utf8(public.spki_pem.clone()).unwrap();
    let plain = FSMiddlewareClient::new(text.clone(), key.clone(), false);
    let id = plain.get_id(42).unwrap();
    assert_eq!(id.pub_key, public.spki_pem);
    assert_eq!(id.uid, 42);
    assert!(id.signature.is_empty());
    let signer = FSMiddlewareClient::new(text.clone(), key, true);
    let id = signer.get_id(42).unwrap();
    assert_eq!(id.pub_key, public.spki_pem);
    assert!(id.validate(&public));
    let broken = FSMiddlewareClient::new(text, SigningKey { pkcs8_pem: Vec::new() }, true);
    assert!(broken.get_id(42).is_none());
}

#[test]
fn the_signer_signs_what_it_sends() {
    let (key, public) = keypair();
    let text = String::from_utf8(public.spki_pem.clone()).unwrap();
    let signer = FSMiddlewareClient::new(text.clone(), key.clone(), true);
    let id = signer.get_id(1).unwrap();
    let request = signer.put_inode(new_root_directory(&id)).unwrap();
    assert!(request.block.validate(&public));
    let request = signer.put_data(block(1).fs, String::from("entry")).unwrap();
    assert!(request.block.validate(&public));
    assert_eq!(request.inode_hash, "entry");
    assert_eq!(signer.put_inode(block(1).fs).err(), Some(ClientError::NotAnInode));
    assert_eq!(
        signer.put_data(new_root_directory(&id), String::new()).err(),
        Some(ClientError::NotData)
    );
    let plain = FSMiddlewareClient::new(text.clone(), key, false);
    assert!(plain.put_data(block(1).fs, String::new()).unwrap().block.signature.is_empty());
    let broken = FSMiddlewareClient::new(text, SigningKey { pkcs8_pem: Vec::new() }, true);
    assert_eq!(broken.put_data(block(1).fs, String::new()).err(), Some(ClientError::Unsigned));
}
