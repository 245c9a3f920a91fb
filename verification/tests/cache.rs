use capsule_fs::block::{
    Block, DataBlock, DataCapsuleBlock, DataCapsuleFileSystemBlock, INodeBlock, Id, Kind,
};
use capsule_fs::cache::{Cache, CacheError};
use capsule_fs::client::FSMiddlewareClient;
use capsule_fs::crypto::SigningKey;

fn writer() -> Id {
    Id { pub_key: b"w".to_vec(), uid: 1, signature: Vec::new() }
}

fn entry(prev: &str, name: &[u8], kind: Kind, timestamp: i64) -> DataCapsuleBlock {
    DataCapsuleBlock {
        prev_hash: String::from(prev),
        fs: DataCapsuleFileSystemBlock {
            prev_hash: String::from(prev),
            block: Block::Inode(INodeBlock {
                filename: name.to_vec(),
                size: timestamp as u64,
                kind,
                hashes: Vec::new(),
                write_allow_list: vec![writer()],
            }),
            updated_by: writer(),
            signature: Vec::new(),
        },
        timestamp,
        signature: Vec::new(),
    }
}

fn data(prev: &str) -> DataCapsuleBlock {
    let mut block = entry(prev, b"", Kind::RegularFile, 0);
    block.fs.block = Block::Data(DataBlock { data: vec![1] });
    block
}

fn rooted() -> Cache {
    Cache::new(None, String::from("root"), entry("", b"", Kind::Directory, 0), String::from("data"), 512)
        .unwrap()
}

fn bring(cache: &mut Cache, hash: &str, block: DataCapsuleBlock) -> Result<Option<String>, CacheError> {
    let mut pending = Vec::new();
    let next = cache.resolve_block(&mut pending, String::from(hash), block);
    assert!(pending.is_empty() || next.as_ref().map(|n| n.is_some()).unwrap_or(false));
    next
}

fn names(cache: &Cache, ino: u64) -> Vec<Vec<u8>> {
    cache.get_inode(ino).unwrap().1.into_iter().map(|child| child.block.filename).collect()
}

#[test]
fn the_root_is_entry_one() {
    let cache = rooted();
    assert_eq!(cache.num_inodes(), 2);
    assert_eq!(cache.block_size(), 512);
    assert_eq!(cache.get_ino(&String::from("root")), Some(1));
    assert_eq!(cache.get_ino(&String::from("other")), None);
    let (root, children) = cache.get_inode(1).unwrap();
    assert_eq!(root.ino, 1);
    assert_eq!(root.hash, "root");
    assert_eq!(root.parent_hash, "root");
    assert_eq!(root.prev_data_hash, "data");
    assert_eq!(root.block.kind, Kind::Directory);
    assert!(children.is_empty());
    assert_eq!(cache.get_inode(0).unwrap().0.ino, 1);
    assert!(cache.get_inode(2).is_none());
    assert!(cache.middleware().is_none());
}

#[test]
fn the_root_has_to_be_a_directory() {
    let file = entry("", b"", Kind::RegularFile, 0);
    assert_eq!(
        Cache::new(None, String::from("r"), file, String::new(), 512).err(),
        Some(CacheError::NotADirectory)
    );
    let gone = entry("", b"", Kind::DeletedFolder, 0);
    assert_eq!(
        Cache::new(None, String::from("r"), gone, String::new(), 512).err(),
        Some(CacheError::NotADirectory)
    );
    assert_eq!(
        Cache::new(None, String::from("r"), data(""), String::new(), 512).err(),
        Some(CacheError::NotAnInode)
    );
}

#[test]
fn only_unknown_blocks_are_fetched() {
    let cache = rooted();
    assert_eq!(cache.resolve(&String::from("root")), None);
    assert_eq!(cache.resolve(&String::from("h1")), Some(String::from("h1")));
}

#[test]
fn a_new_entry_gets_the_next_number() {
    let mut cache = rooted();
    assert_eq!(bring(&mut cache, "h1", entry("root", b"a", Kind::RegularFile, 5)), Ok(None));
    assert_eq!(bring(&mut cache, "h2", entry("root", b"b", Kind::Directory, 6)), Ok(None));
    assert_eq!(cache.num_inodes(), 4);
    assert_eq!(cache.get_ino(&String::from("h1")), Some(2));
    assert_eq!(cache.get_ino(&String::from("h2")), Some(3));
    let a = cache.get_inode(2).unwrap().0;
    assert_eq!(a.ino, 2);
    assert_eq!(a.hash, "h1");
    assert_eq!(a.parent_hash, "root");
    assert_eq!(a.timestamp, 5);
    assert_eq!(a.prev_data_hash, "data");
    assert_eq!(names(&cache, 1), vec![b"a".to_vec(), b"b".to_vec()]);
    assert_eq!(cache.find_child_node(1, b"a").unwrap().ino, 2);
    assert_eq!(cache.find_child_node(1, b"b").unwrap().ino, 3);
    assert!(cache.find_child_node(1, b"c").is_none());
    assert!(cache.find_child_node(2, b"a").is_none());
    assert!(cache.find_child_node(4, b"a").is_none());
    assert!(cache.find_child_node(99, b"a").is_none());
    assert_eq!(cache.resolve(&String::from("h1")), None);
}

#[test]
fn a_later_revision_takes_the_place_and_the_number_of_the_entry() {
    let mut cache = rooted();
    bring(&mut cache, "h1", entry("root", b"a", Kind::RegularFile, 5)).unwrap();
    bring(&mut cache, "h2", entry("root", b"b", Kind::RegularFile, 6)).unwrap();
    bring(&mut cache, "h3", entry("root", b"a", Kind::RegularFile, 7)).unwrap();
    assert_eq!(cache.num_inodes(), 4);
    assert_eq!(cache.get_ino(&String::from("h3")), Some(2));
    assert_eq!(cache.get_ino(&String::from("h1")), Some(2));
    let a = cache.get_inode(2).unwrap().0;
    assert_eq!(a.hash, "h3");
    assert_eq!(a.timestamp, 7);
    assert_eq!(names(&cache, 1), vec![b"b".to_vec(), b"a".to_vec()]);
    let found = cache.find_child_node(1, b"a").unwrap();
    assert_eq!(found.hash, "h3");
    assert_eq!(found.ino, 2);
}

#[test]
fn an_earlier_revision_is_dropped() {
    let mut cache = rooted();
    bring(&mut cache, "h1", entry("root", b"a", Kind::RegularFile, 5)).unwrap();
    assert_eq!(bring(&mut cache, "h0", entry("root", b"a", Kind::RegularFile, 4)), Ok(None));
    assert_eq!(cache.num_inodes(), 3);
    assert_eq!(cache.get_ino(&String::from("h0")), None);
    assert_eq!(cache.find_child_node(1, b"a").unwrap().hash, "h1");
    assert_eq!(cache.get_inode(2).unwrap().0.timestamp, 5);
}

#[test]
fn of_two_revisions_of_the_same_time_the_one_that_comes_later_stays() {
    let mut cache = rooted();
    bring(&mut cache, "h1", entry("root", b"a", Kind::RegularFile, 5)).unwrap();
    bring(&mut cache, "h2", entry("root", b"a", Kind::RegularFile, 5)).unwrap();
    assert_eq!(cache.find_child_node(1, b"a").unwrap().hash, "h2");
    assert_eq!(cache.num_inodes(), 3);
}

#[test]
fn a_removal_is_a_revision_of_the_entry() {
    let mut cache = rooted();
    bring(&mut cache, "h1", entry("root", b"a", Kind::RegularFile, 5)).unwrap();
    bring(&mut cache, "h2", entry("root", b"a", Kind::DeletedRegularFile, 6)).unwrap();
    assert_eq!(cache.num_inodes(), 3);
    assert!(cache.find_child_node(1, b"a").is_none());
    let gone = cache.get_inode(2).unwrap().0;
    assert!(gone.is_deleted());
    assert_eq!(gone.hash, "h2");
    assert_eq!(names(&cache, 1), vec![b"a".to_vec()]);
    // The name can come back with a later revision.
    bring(&mut cache, "h3", entry("root", b"a", Kind::RegularFile, 7)).unwrap();
    assert_eq!(cache.find_child_node(1, b"a").unwrap().ino, 2);
}

#[test]
fn a_block_waits_for_the_blocks_that_it_follows() {
    let mut cache = rooted();
    let mut pending = Vec::new();
    let next = cache.resolve_block(
        &mut pending,
        String::from("h3"),
        entry("h2", b"c", Kind::RegularFile, 3),
    );
    assert_eq!(next, Ok(Some(String::from("h2"))));
    assert_eq!(pending.len(), 1);
    assert_eq!(cache.num_inodes(), 2);
    let next = cache.resolve_block(
        &mut pending,
        String::from("h2"),
        entry("h1", b"b", Kind::Directory, 2),
    );
    assert_eq!(next, Ok(Some(String::from("h1"))));
    assert_eq!(pending.len(), 2);
    let next = cache.resolve_block(
        &mut pending,
        String::from("h1"),
        entry("root", b"a", Kind::Directory, 1),
    );
    assert_eq!(next, Ok(None));
    assert!(pending.is_empty());
    assert_eq!(cache.num_inodes(), 5);
    assert_eq!(cache.get_ino(&String::from("h1")), Some(2));
    assert_eq!(cache.get_ino(&String::from("h2")), Some(3));
    assert_eq!(cache.get_ino(&String::from("h3")), Some(4));
    assert_eq!(names(&cache, 1), vec![b"a".to_vec()]);
    assert_eq!(names(&cache, 2), vec![b"b".to_vec()]);
    assert_eq!(names(&cache, 3), vec![b"c".to_vec()]);
}

#[test]
fn a_block_whose_directory_was_dropped_has_no_place() {
    let mut cache = rooted();
    bring(&mut cache, "new", entry("root", b"d", Kind::Directory, 9)).unwrap();
    let mut pending = Vec::new();
    let next = cache.resolve_block(
        &mut pending,
        String::from("child"),
        entry("old", b"x", Kind::RegularFile, 3),
    );
    assert_eq!(next, Ok(Some(String::from("old"))));
    let next = cache.resolve_block(
        &mut pending,
        String::from("old"),
        entry("root", b"d", Kind::Directory, 2),
    );
    assert_eq!(next, Err(CacheError::UnknownParent));
    assert!(pending.is_empty());
    assert_eq!(cache.num_inodes(), 3);
    assert_eq!(cache.get_ino(&String::from("old")), None);
    assert_eq!(cache.get_ino(&String::from("child")), None);
}

#[test]
fn file_data_has_no_place_in_the_cache() {
    let mut cache = rooted();
    assert_eq!(bring(&mut cache, "d", data("root")), Err(CacheError::NotAnInode));
    assert_eq!(cache.num_inodes(), 2);
    assert_eq!(cache.get_ino(&String::from("d")), None);
    let mut pending = Vec::new();
    assert_eq!(
        cache.resolve_block(&mut pending, String::from("d"), data("far")),
        Ok(Some(String::from("far")))
    );
    assert_eq!(
        cache.resolve_block(&mut pending, String::from("far"), entry("root", b"a", Kind::Directory, 1)),
        Err(CacheError::NotAnInode)
    );
    // The block before the failure stays.
    assert_eq!(cache.get_ino(&String::from("far")), Some(2));
    assert!(pending.is_empty());
}

#[test]
fn a_revision_of_a_directory_starts_with_an_empty_list() {
    let mut cache = rooted();
    bring(&mut cache, "d1", entry("root", b"d", Kind::Directory, 1)).unwrap();
    bring(&mut cache, "f1", entry("d1", b"f", Kind::RegularFile, 2)).unwrap();
    assert_eq!(names(&cache, 2), vec![b"f".to_vec()]);
    bring(&mut cache, "d2", entry("root", b"d", Kind::Directory, 3)).unwrap();
    assert!(names(&cache, 2).is_empty());
    assert_eq!(cache.get_ino(&String::from("d2")), Some(2));
    // Entries that follow either revision are listed under the directory's number.
    bring(&mut cache, "g1", entry("d1", b"g", Kind::RegularFile, 4)).unwrap();
    bring(&mut cache, "h1", entry("d2", b"h", Kind::RegularFile, 5)).unwrap();
    assert_eq!(names(&cache, 2), vec![b"g".to_vec(), b"h".to_vec()]);
}

#[test]
fn entries_of_the_same_name_in_two_directories_are_two_entries() {
    let mut cache = rooted();
    bring(&mut cache, "d1", entry("root", b"d", Kind::Directory, 1)).unwrap();
    bring(&mut cache, "a1", entry("root", b"a", Kind::RegularFile, 2)).unwrap();
    bring(&mut cache, "a2", entry("d1", b"a", Kind::RegularFile, 1)).unwrap();
    assert_eq!(cache.find_child_node(1, b"a").unwrap().ino, 3);
    assert_eq!(cache.find_child_node(2, b"a").unwrap().ino, 4);
    assert_eq!(cache.num_inodes(), 5);
}

#[test]
fn every_directory_lists_a_name_once_and_keeps_the_latest_revision() {
    let mut cache = rooted();
    let times = [5i64, 3, 9, 9, 1, 12, 7, 12, 0, 11];
    let mut latest = [i64::MIN; 3];
    for (round, time) in times.iter().enumerate() {
        let slot = round % 3;
        let name = [b'a' + slot as u8];
        let kind = if round % 4 == 3 { Kind::DeletedRegularFile } else { Kind::RegularFile };
        let hash = format!("h{}", round);
        bring(&mut cache, &hash, entry("root", &name, kind, *time)).unwrap();
        if *time >= latest[slot] {
            latest[slot] = *time;
        }
        let children = cache.get_inode(1).unwrap().1;
        for slot in 0..3usize {
            let name = [b'a' + slot as u8];
            let listed: Vec<_> =
                children.iter().filter(|child| child.block.filename == name).collect();
            assert!(listed.len() <= 1);
            if latest[slot] != i64::MIN {
                assert_eq!(listed.len(), 1);
                assert_eq!(listed[0].timestamp, latest[slot]);
                let live: Vec<_> = listed.iter().filter(|child| !child.is_deleted()).collect();
                assert!(live.len() <= 1);
            }
        }
    }
    assert_eq!(cache.num_inodes(), 5);
}

#[test]
fn a_mount_without_a_signer_cannot_write() {
    let cache = rooted();
    assert_eq!(cache.create(1, 1, b"a", Kind::RegularFile).err(), Some(CacheError::ReadOnly));
    assert_eq!(cache.delete(1, 1).err(), Some(CacheError::ReadOnly));
    assert_eq!(cache.create(1, 2, b"a", Kind::RegularFile).err(), Some(CacheError::NoSuchInode));
    assert_eq!(cache.delete(1, 7).err(), Some(CacheError::NoSuchInode));
    let block = cache.get_inode(1).unwrap().0.block;
    assert_eq!(cache.update(1, 7, block.clone()).err(), Some(CacheError::NoSuchInode));
    assert_eq!(cache.update(1, 1, block).err(), Some(CacheError::ReadOnly));
}

#[test]
fn requests_follow_the_right_block_and_carry_the_writer() {
    let signer =
        FSMiddlewareClient::new(String::from("pub"), SigningKey { pkcs8_pem: Vec::new() }, false);
    let mut cache = Cache::new(
        Some(signer),
        String::from("root"),
        entry("", b"", Kind::Directory, 0),
        String::from("data"),
        512,
    )
    .unwrap();
    let request = cache.create(77, 1, b"a", Kind::RegularFile).unwrap();
    assert_eq!(request.block.prev_hash, "root");
    assert_eq!(request.block.updated_by.uid, 77);
    assert_eq!(request.block.updated_by.pub_key, b"pub".to_vec());
    assert!(request.block.signature.is_empty());
    match &request.block.block {
        Block::Inode(block) => {
            assert_eq!(block.filename, b"a".to_vec());
            assert_eq!(block.size, 0);
            assert_eq!(block.kind, Kind::RegularFile);
            assert!(block.hashes.is_empty());
            assert_eq!(block.write_allow_list.len(), 1);
            assert!(block.write_allow_list[0].same(&writer()));
        }
        Block::Data(_) => panic!("a directory entry was expected"),
    }
    bring(&mut cache, "d1", entry("root", b"d", Kind::Directory, 1)).unwrap();
    let mut file = entry("d1", b"f", Kind::RegularFile, 9);
    if let Block::Inode(block) = &mut file.fs.block {
        block.hashes = vec![String::from("x")];
    }
    bring(&mut cache, "f1", file).unwrap();
    let inner = cache.create(1, 2, b"g", Kind::Directory).unwrap();
    assert_eq!(inner.block.prev_hash, "d1");
    // A revision of an entry follows the block of its directory.
    let removal = cache.delete(1, 3).unwrap();
    assert_eq!(removal.block.prev_hash, "d1");
    match &removal.block.block {
        Block::Inode(block) => {
            assert_eq!(block.kind, Kind::DeletedRegularFile);
            assert_eq!(block.filename, b"f".to_vec());
            assert_eq!(block.size, 0);
            assert!(block.hashes.is_empty());
        }
        Block::Data(_) => panic!("a directory entry was expected"),
    }
    let removal = cache.delete(1, 2).unwrap();
    assert_eq!(removal.block.prev_hash, "root");
    match &removal.block.block {
        Block::Inode(block) => assert_eq!(block.kind, Kind::DeletedFolder),
        Block::Data(_) => panic!("a directory entry was expected"),
    }
    let mut block = cache.get_inode(3).unwrap().0.block;
    block.size = 123;
    let update = cache.update(5, 3, block).unwrap();
    assert_eq!(update.block.prev_hash, "d1");
    assert_eq!(update.block.updated_by.uid, 5);
    match &update.block.block {
        Block::Inode(block) => {
            assert_eq!(block.size, 123);
            assert_eq!(block.hashes, vec![String::from("x")]);
        }
        Block::Data(_) => panic!("a directory entry was expected"),
    }
}

#[test]
fn a_signer_that_cannot_sign_leaves_the_request_unsigned() {
    let signer =
        FSMiddlewareClient::new(String::from("pub"), SigningKey { pkcs8_pem: Vec::new() }, true);
    let cache = Cache::new(
        Some(signer),
        String::from("root"),
        entry("", b"", Kind::Directory, 0),
        String::from("data"),
        512,
    )
    .unwrap();
    assert_eq!(cache.create(1, 1, b"a", Kind::RegularFile).err(), Some(CacheError::Unsigned));
    assert_eq!(cache.delete(1, 1).err(), Some(CacheError::Unsigned));
    assert_eq!(cache.create(1, 5, b"a", Kind::RegularFile).err(), Some(CacheError::NoSuchInode));
    assert!(cache.middleware().is_some());
}

#[test]
fn a_block_under_an_address_that_the_cache_holds_changes_nothing() {
    let mut cache = rooted();
    bring(&mut cache, "h1", entry("root", b"a", Kind::RegularFile, 5)).unwrap();
    assert_eq!(bring(&mut cache, "h1", entry("root", b"b", Kind::RegularFile, 9)), Ok(None));
    assert_eq!(bring(&mut cache, "h1", entry("nowhere", b"b", Kind::RegularFile, 9)), Ok(None));
    assert_eq!(bring(&mut cache, "h1", data("root")), Ok(None));
    assert_eq!(bring(&mut cache, "root", entry("root", b"c", Kind::RegularFile, 9)), Ok(None));
    assert_eq!(cache.num_inodes(), 3);
    assert_eq!(names(&cache, 1), vec![b"a".to_vec()]);
    assert_eq!(cache.get_inode(2).unwrap().0.timestamp, 5);
    // Blocks that wait for it are brought in all the same.
    let mut pending = Vec::new();
    assert_eq!(
        cache.resolve_block(&mut pending, String::from("h3"), entry("h2", b"x", Kind::RegularFile, 1)),
        Ok(Some(String::from("h2")))
    );
    bring(&mut cache, "h2", entry("root", b"d", Kind::Directory, 1)).unwrap();
    assert_eq!(
        cache.resolve_block(&mut pending, String::from("h2"), entry("root", b"d", Kind::Directory, 1)),
        Ok(None)
    );
    assert!(pending.is_empty());
    assert_eq!(cache.get_ino(&String::from("h3")), Some(4));
    assert_eq!(names(&cache, 3), vec![b"x".to_vec()]);
}

#[test]
fn every_listed_entry_is_the_record_in_its_slot() {
    let mut cache = rooted();
    let blocks = [
        ("d1", "root", &b"d"[..], Kind::Directory, 1i64),
        ("f1", "d1", b"f", Kind::RegularFile, 2),
        ("d2", "root", b"d", Kind::Directory, 3),
        ("g1", "d2", b"g", Kind::RegularFile, 4),
        ("f2", "d1", b"f", Kind::DeletedRegularFile, 5),
        ("a1", "root", b"a", Kind::RegularFile, 6),
        ("a2", "root", b"a", Kind::RegularFile, 7),
    ];
    for (hash, prev, name, kind, time) in blocks {
        bring(&mut cache, hash, entry(prev, name, kind, time)).unwrap();
        for ino in 1..cache.num_inodes() {
            let (record, children) = cache.get_inode(ino).unwrap();
            assert_eq!(cache.get_ino(&record.hash), Some(ino));
            for child in children {
                let (slot, _) = cache.get_inode(child.ino).unwrap();
                assert_eq!(slot.hash, child.hash);
                assert_eq!(slot.timestamp, child.timestamp);
                assert_eq!(cache.get_ino(&child.parent_hash), Some(ino));
            }
        }
    }
}
