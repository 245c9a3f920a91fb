use capsule_fs::block::{Block, DataBlock, DataCapsuleFileSystemBlock, INodeBlock, Id, Kind};
use capsule_fs::crypto::{SignableBlock, SigningKey, VerifyingKey};
use capsule_fs::genesis::{new_first_data, new_id, new_root_directory, seed};
use capsule_fs::middleware::MyMiddleware;
use capsule_fs::client::{PutDataRequest, PutINodeRequest};
use capsule_fs::server::{
    next_timestamp, CapsuleError, DataCapsuleServerData, GetRequest, MyDataCapsule, PutRequest,
};
use rsa::pkcs8::{EncodePrivateKey, LineEnding};

fn keypair() -> (SigningKey, VerifyingKey) {
    let private = rsa::RsaPrivateKey::new(&mut rand::thread_rng(), 512).unwrap();
    let pem = private.to_pkcs8_pem(LineEnding::LF).unwrap();
    let signing = SigningKey { pkcs8_pem: pem.as_bytes().to_vec() };
    let verifying = signing.verifying_key().unwrap();
    (signing, verifying)
}

fn open_capsule() -> MyDataCapsule {
    MyDataCapsule::new(
        VerifyingKey { spki_pem: Vec::new() },
        SigningKey { pkcs8_pem: Vec::new() },
        false,
    )
}

fn writer() -> Id {
    Id { pub_key: b"w".to_vec(), uid: 1, signature: Vec::new() }
}

fn entry(prev: &str, name: &[u8], writer: &Id, allowed: Vec<Id>) -> DataCapsuleFileSystemBlock {
    DataCapsuleFileSystemBlock {
        prev_hash: String::from(prev),
        block: Block::Inode(INodeBlock {
            filename: name.to_vec(),
            size: 0,
            kind: Kind::RegularFile,
            hashes: Vec::new(),
            write_allow_list: allowed,
        }),
        updated_by: writer.clone(),
        signature: Vec::new(),
    }
}

fn put(capsule: &mut MyDataCapsule, block: DataCapsuleFileSystemBlock, at: i64) -> (bool, String) {
    let response = capsule.put(PutRequest { block }, at).unwrap();
    (response.success, response.hash)
}

/// Whether the leaves are the stored blocks that no stored block follows.
fn leaves_are_closed(capsule: &MyDataCapsule, stored: &[String]) -> bool {
    let leafs = capsule.leafs().leaf_ids;
    stored.iter().all(|hash| {
        let followed = stored.iter().any(|other| {
            capsule.get(&GetRequest { block_hash: other.clone() }).block.unwrap().prev_hash == *hash
        });
        leafs.contains(hash) != followed
    }) && leafs.iter().all(|leaf| stored.contains(leaf))
}

#[test]
fn an_empty_capsule_holds_nothing() {
    let capsule = open_capsule();
    assert!(capsule.leafs().leaf_ids.is_empty());
    assert!(capsule.get(&GetRequest { block_hash: String::from("x") }).block.is_none());
    assert_eq!(capsule.data.content.len(), 0);
}

#[test]
fn a_put_stores_the_block_under_its_address_and_makes_it_a_leaf() {
    let mut capsule = open_capsule();
    let block = new_root_directory(&writer());
    let response = capsule.put(PutRequest { block: block.clone() }, 17).unwrap();
    assert!(response.success);
    assert_eq!(response.hash.len(), 64);
    assert_eq!(response.block.timestamp, 17);
    assert_eq!(response.block.prev_hash, "");
    assert!(response.block.signature.is_empty());
    assert_eq!(response.block.fs.encode(), block.encode());
    assert_eq!(response.block.hash(), Some(response.hash.clone()));
    assert_eq!(capsule.leafs().leaf_ids, vec![response.hash.clone()]);
    let got = capsule.get(&GetRequest { block_hash: response.hash.clone() }).block.unwrap();
    assert_eq!(got.encode(), response.block.encode());
}

#[test]
fn the_block_that_was_followed_is_a_leaf_no_longer() {
    let mut capsule = open_capsule();
    let (_, root) = put(&mut capsule, new_root_directory(&writer()), 0);
    let (stored, a) = put(&mut capsule, entry(&root, b"a", &writer(), Vec::new()), 1);
    assert!(stored);
    assert_eq!(capsule.leafs().leaf_ids, vec![a.clone()]);
    let (_, b) = put(&mut capsule, entry(&root, b"b", &writer(), Vec::new()), 2);
    assert_eq!(capsule.leafs().leaf_ids, vec![a.clone(), b.clone()]);
    let (_, c) = put(&mut capsule, entry(&a, b"c", &writer(), Vec::new()), 3);
    assert_eq!(capsule.leafs().leaf_ids, vec![b.clone(), c.clone()]);
    assert!(leaves_are_closed(&capsule, &[root, a, b, c]));
    assert_eq!(capsule.data.content.len(), 4);
}

#[test]
fn the_same_put_twice_changes_nothing_the_second_time() {
    let mut capsule = open_capsule();
    let (_, root) = put(&mut capsule, new_root_directory(&writer()), 0);
    let block = entry(&root, b"a", &writer(), Vec::new());
    let first = capsule.put(PutRequest { block: block.clone() }, 5).unwrap();
    let leafs = capsule.leafs().leaf_ids;
    let count = capsule.data.content.len();
    let second = capsule.put(PutRequest { block: block.clone() }, 5).unwrap();
    assert!(first.success);
    assert!(!second.success);
    assert_eq!(first.hash, second.hash);
    assert_eq!(first.block.encode(), second.block.encode());
    assert_eq!(capsule.leafs().leaf_ids, leafs);
    assert_eq!(capsule.data.content.len(), count);
    // At another time the same record is another block.
    let third = capsule.put(PutRequest { block }, 6).unwrap();
    assert!(third.success);
    assert_ne!(third.hash, first.hash);
    assert_eq!(capsule.data.content.len(), count + 1);
}

#[test]
fn a_block_that_follows_an_unknown_block_is_stored_all_the_same() {
    let mut capsule = open_capsule();
    let (stored, hash) = put(&mut capsule, entry("nowhere", b"a", &writer(), Vec::new()), 1);
    assert!(stored);
    assert_eq!(capsule.leafs().leaf_ids, vec![hash]);
}

#[test]
fn with_signatures_a_put_is_signed_by_the_server() {
    let (client_key, client_public) = keypair();
    let (server_key, server_public) = keypair();
    let id = new_id(client_public.spki_pem.clone(), 1000, &client_key).unwrap();
    let (data, root) = seed(new_root_directory(&id), &client_key, &server_key).unwrap();
    assert_eq!(data.leafs, vec![root.clone()]);
    let mut capsule = MyDataCapsule {
        data,
        verifying_key: client_public.clone(),
        signing_key: server_key,
        enable_crypto: true,
    };
    let seeded = capsule.get(&GetRequest { block_hash: root.clone() }).block.unwrap();
    assert_eq!(seeded.timestamp, 0);
    assert!(seeded.validate(&server_public));
    assert!(seeded.fs.validate(&client_public));
    assert!(seeded.fs.updated_by.validate(&client_public));
    assert_eq!(seeded.hash(), Some(root.clone()));
    let mut block = entry(&root, b"a", &id, vec![id.clone()]);
    assert!(block.sign(&client_key));
    let response = capsule.put(PutRequest { block }, 9).unwrap();
    assert!(response.success);
    assert!(response.block.validate(&server_public));
    assert_eq!(response.block.hash(), Some(response.hash.clone()));
    assert_eq!(capsule.leafs().leaf_ids, vec![response.hash]);
}

#[test]
fn a_put_without_a_valid_signature_is_denied() {
    let (client_key, client_public) = keypair();
    let (server_key, _) = keypair();
    let id = new_id(client_public.spki_pem.clone(), 1000, &client_key).unwrap();
    let (data, root) = seed(new_root_directory(&id), &client_key, &server_key).unwrap();
    let mut capsule =
        MyDataCapsule { data, verifying_key: client_public, signing_key: server_key, enable_crypto: true };
    let unsigned = entry(&root, b"a", &id, Vec::new());
    assert_eq!(
        capsule.put(PutRequest { block: unsigned.clone() }, 1).err(),
        Some(CapsuleError::PermissionDenied)
    );
    let (stranger_key, _) = keypair();
    let mut foreign = unsigned.clone();
    assert!(foreign.sign(&stranger_key));
    assert_eq!(
        capsule.put(PutRequest { block: foreign }, 1).err(),
        Some(CapsuleError::PermissionDenied)
    );
    // A writer whose identity is not signed by its own key is turned down too.
    let mut forged = unsigned;
    forged.updated_by.signature = Vec::new();
    assert!(forged.sign(&client_key));
    assert_eq!(
        capsule.put(PutRequest { block: forged }, 1).err(),
        Some(CapsuleError::PermissionDenied)
    );
    assert_eq!(capsule.leafs().leaf_ids, vec![root]);
    assert_eq!(capsule.data.content.len(), 1);
}

#[test]
fn a_writer_that_the_directory_does_not_allow_is_denied() {
    let (owner_key, owner_public) = keypair();
    let (server_key, _) = keypair();
    let owner = new_id(owner_public.spki_pem.clone(), 1000, &owner_key).unwrap();
    let (data, root) = seed(new_root_directory(&owner), &owner_key, &server_key).unwrap();
    let mut capsule = MyDataCapsule {
        data,
        verifying_key: owner_public.clone(),
        signing_key: server_key,
        enable_crypto: true,
    };
    // The same key under another user number is another identity.
    let guest = new_id(owner_public.spki_pem.clone(), 1001, &owner_key).unwrap();
    let mut block = entry(&root, b"a", &guest, vec![guest.clone()]);
    assert!(block.sign(&owner_key));
    assert_eq!(
        capsule.put(PutRequest { block }, 1).err(),
        Some(CapsuleError::PermissionDenied)
    );
    assert_eq!(capsule.leafs().leaf_ids, vec![root.clone()]);
    let mut allowed = entry(&root, b"a", &owner, vec![owner.clone()]);
    assert!(allowed.sign(&owner_key));
    assert!(capsule.put(PutRequest { block: allowed }, 2).unwrap().success);
}

#[test]
fn a_server_that_cannot_sign_answers_with_an_internal_error() {
    let (client_key, client_public) = keypair();
    let id = new_id(client_public.spki_pem.clone(), 1000, &client_key).unwrap();
    let mut capsule = MyDataCapsule::new(
        client_public,
        SigningKey { pkcs8_pem: b"no key".to_vec() },
        true,
    );
    let mut block = new_root_directory(&id);
    assert!(block.sign(&client_key));
    assert_eq!(capsule.put(PutRequest { block }, 1).err(), Some(CapsuleError::Internal));
    assert!(capsule.leafs().leaf_ids.is_empty());
}

#[test]
fn seeding_needs_keys_that_sign() {
    let (key, _) = keypair();
    let bad = SigningKey { pkcs8_pem: Vec::new() };
    assert!(seed(new_first_data(&writer()), &bad, &key).is_none());
    assert!(seed(new_first_data(&writer()), &key, &bad).is_none());
    assert!(new_id(Vec::new(), 1, &bad).is_none());
    let (data, hash) = seed(new_first_data(&writer()), &key, &key).unwrap();
    assert_eq!(data.leafs, vec![hash.clone()]);
    assert_eq!(data.content.len(), 1);
    let block = data.content.get(&hash).unwrap();
    match &block.fs.block {
        Block::Data(DataBlock { data }) => assert!(data.is_empty()),
        Block::Inode(_) => panic!("file data was expected"),
    }
}

#[test]
fn the_root_directory_allows_its_writer() {
    let root = new_root_directory(&writer());
    assert_eq!(root.prev_hash, "");
    assert!(root.signature.is_empty());
    match &root.block {
        Block::Inode(block) => {
            assert_eq!(block.kind, Kind::Directory);
            assert!(block.filename.is_empty());
            assert_eq!(block.size, 0);
            assert!(block.hashes.is_empty());
            assert_eq!(block.write_allow_list.len(), 1);
            assert!(block.write_allow_list[0].same(&writer()));
        }
        Block::Data(_) => panic!("a directory was expected"),
    }
}

#[test]
fn the_middleware_answers_with_the_address_also_for_a_block_that_was_there() {
    let mut capsule = open_capsule();
    let middleware = MyMiddleware::default();
    let block = new_root_directory(&writer());
    let first = middleware
        .put_inode(&mut capsule, PutINodeRequest { block: block.clone() }, 3)
        .unwrap();
    let second = middleware.put_inode(&mut capsule, PutINodeRequest { block }, 3).unwrap();
    assert_eq!(first.hash, second.hash);
    assert_eq!(capsule.leafs().leaf_ids, vec![first.hash.clone()]);
    let data = middleware
        .put_data(
            &mut capsule,
            PutDataRequest { block: new_first_data(&writer()), inode_hash: first.hash.clone() },
            4,
        )
        .unwrap();
    assert_eq!(data.block.timestamp, 4);
    assert_eq!(capsule.leafs().leaf_ids, vec![first.hash, data.hash]);
}

#[test]
fn a_restored_capsule_holds_the_blocks_of_the_snapshot() {
    let mut capsule = open_capsule();
    let (_, root) = put(&mut capsule, new_root_directory(&writer()), 0);
    let (_, a) = put(&mut capsule, entry(&root, b"a", &writer(), Vec::new()), 1);
    let blocks: Vec<_> = [&root, &a]
        .iter()
        .map(|hash| {
            let block = capsule.get(&GetRequest { block_hash: (*hash).clone() }).block.unwrap();
            ((*hash).clone(), block)
        })
        .collect();
    let data = DataCapsuleServerData::restore(blocks, capsule.leafs().leaf_ids);
    let mut again = MyDataCapsule {
        data,
        verifying_key: VerifyingKey { spki_pem: Vec::new() },
        signing_key: SigningKey { pkcs8_pem: Vec::new() },
        enable_crypto: false,
    };
    assert_eq!(again.leafs().leaf_ids, vec![a.clone()]);
    assert_eq!(again.data.content.len(), 2);
    assert!(again.get(&GetRequest { block_hash: root.clone() }).block.is_some());
    let (stored, _) = put(&mut again, entry(&root, b"a", &writer(), Vec::new()), 1);
    assert!(!stored);
    let (stored, b) = put(&mut again, entry(&a, b"b", &writer(), Vec::new()), 2);
    assert!(stored);
    assert_eq!(again.leafs().leaf_ids, vec![b]);
    let empty = DataCapsuleServerData::restore(Vec::new(), Vec::new());
    assert_eq!(empty.content.len(), 0);
    assert!(empty.leafs.is_empty());
}

#[test]
fn a_snapshot_holds_every_stored_block_once_in_the_order_of_storing() {
    let mut capsule = open_capsule();
    assert!(capsule.data.snapshot().is_empty());
    let (_, root) = put(&mut capsule, new_root_directory(&writer()), 0);
    let (_, a) = put(&mut capsule, entry(&root, b"a", &writer(), Vec::new()), 1);
    put(&mut capsule, entry(&root, b"a", &writer(), Vec::new()), 1);
    let (_, b) = put(&mut capsule, entry(&a, b"b", &writer(), Vec::new()), 2);
    assert_eq!(capsule.data.addresses, vec![root.clone(), a.clone(), b.clone()]);
    let snapshot = capsule.data.snapshot();
    let listed: Vec<String> = snapshot.iter().map(|(hash, _)| hash.clone()).collect();
    assert_eq!(listed, vec![root.clone(), a.clone(), b.clone()]);
    for (hash, block) in &snapshot {
        assert_eq!(block.hash().as_ref(), Some(hash));
    }
    let again = DataCapsuleServerData::restore(snapshot, capsule.leafs().leaf_ids);
    assert_eq!(again.addresses, capsule.data.addresses);
    assert_eq!(again.leafs, capsule.data.leafs);
    assert_eq!(again.content.len(), 3);
    for hash in [&root, &a, &b] {
        assert_eq!(
            again.content.get(hash).unwrap().encode(),
            capsule.data.content.get(hash).unwrap().encode()
        );
    }
    // Of two blocks under one address a snapshot keeps the later and lists it once.
    let block = capsule.get(&GetRequest { block_hash: root.clone() }).block.unwrap();
    let other = capsule.get(&GetRequest { block_hash: a.clone() }).block.unwrap();
    let twice = DataCapsuleServerData::restore(
        vec![(String::from("x"), block), (String::from("x"), other.clone())],
        Vec::new(),
    );
    assert_eq!(twice.addresses, vec![String::from("x")]);
    assert_eq!(twice.content.get("x").unwrap().encode(), other.encode());
    assert_eq!(twice.snapshot().len(), 1);
}

#[test]
fn the_time_of_the_server_never_goes_back() {
    assert_eq!(next_timestamp(5, 9), 9);
    assert_eq!(next_timestamp(5, 5), 6);
    assert_eq!(next_timestamp(5, 3), 6);
    assert_eq!(next_timestamp(-7, -9), -6);
    assert_eq!(next_timestamp(i64::MAX, 3), i64::MAX);
    assert_eq!(next_timestamp(i64::MAX - 1, 3), i64::MAX);
    assert_eq!(next_timestamp(i64::MIN, i64::MIN), i64::MIN + 1);
    assert_eq!(next_timestamp(0, i64::MAX), i64::MAX);
}

#[test]
fn a_block_that_is_held_is_answered_before_the_allow_list_is_asked() {
    let (owner_key, owner_public) = keypair();
    let (server_key, _) = keypair();
    let owner = new_id(owner_public.spki_pem.clone(), 1000, &owner_key).unwrap();
    let (data, root) = seed(new_root_directory(&owner), &owner_key, &server_key).unwrap();
    let mut capsule = MyDataCapsule {
        data,
        verifying_key: owner_public,
        signing_key: server_key,
        enable_crypto: true,
    };
    let mut block = entry(&root, b"a", &owner, vec![owner.clone()]);
    assert!(block.sign(&owner_key));
    let first = capsule.put(PutRequest { block: block.clone() }, 4).unwrap();
    let second = capsule.put(PutRequest { block }, 4).unwrap();
    assert!(first.success);
    assert!(!second.success);
    assert_eq!(first.hash, second.hash);
    assert_eq!(capsule.data.addresses, vec![root, first.hash]);
}
