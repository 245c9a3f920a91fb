use capsule_fs::block::{
    Block, DataBlock, DataCapsuleBlock, DataCapsuleFileSystemBlock, INodeBlock, Id, Kind,
};
use capsule_fs::crypto::SignableBlock;

fn sample_id() -> Id {
    Id { pub_key: b"key text".to_vec(), uid: 1000, signature: vec![1, 2, 3, 4] }
}

fn sample_inode() -> INodeBlock {
    INodeBlock {
        filename: b"a.txt".to_vec(),
        size: 70000,
        kind: Kind::DeletedRegularFile,
        hashes: vec![String::from("abc"), String::new(), String::from("h\u{e9}\u{20ac}")],
        write_allow_list: vec![
            sample_id(),
            Id { pub_key: Vec::new(), uid: 0, signature: Vec::new() },
        ],
    }
}

fn sample_fs(block: Block) -> DataCapsuleFileSystemBlock {
    DataCapsuleFileSystemBlock {
        prev_hash: String::from("0123abcd"),
        block,
        updated_by: sample_id(),
        signature: vec![7; 64],
    }
}

fn sample_capsule(block: Block, timestamp: i64) -> DataCapsuleBlock {
    DataCapsuleBlock {
        prev_hash: String::from("0123abcd"),
        fs: sample_fs(block),
        timestamp,
        signature: vec![9; 300],
    }
}

fn same_inode(a: &INodeBlock, b: &INodeBlock) -> bool {
    a.filename == b.filename
        && a.size == b.size
        && a.kind == b.kind
        && a.hashes == b.hashes
        && a.write_allow_list.len() == b.write_allow_list.len()
        && a.write_allow_list.iter().zip(&b.write_allow_list).all(|(x, y)| x.same(y))
}

fn same_fs(a: &DataCapsuleFileSystemBlock, b: &DataCapsuleFileSystemBlock) -> bool {
    let payload = match (&a.block, &b.block) {
        (Block::Inode(x), Block::Inode(y)) => same_inode(x, y),
        (Block::Data(x), Block::Data(y)) => x.data == y.data,
        _ => false,
    };
    payload
        && a.prev_hash == b.prev_hash
        && a.updated_by.same(&b.updated_by)
        && a.signature == b.signature
}

#[test]
fn an_identity_is_read_back_as_it_was_written() {
    for id in [
        sample_id(),
        Id { pub_key: Vec::new(), uid: 0, signature: Vec::new() },
        Id { pub_key: vec![0; 200], uid: u64::MAX, signature: Vec::new() },
        Id { pub_key: Vec::new(), uid: 0, signature: vec![1] },
    ] {
        let back = Id::decode(&id.encode()).unwrap();
        assert!(back.same(&id));
        assert_eq!(back.hash(), id.hash());
    }
}

#[test]
fn an_inode_block_is_read_back_as_it_was_written() {
    let block = sample_inode();
    let back = INodeBlock::decode(&block.encode()).unwrap();
    assert!(same_inode(&back, &block));
    let plain = INodeBlock {
        filename: Vec::new(),
        size: 0,
        kind: Kind::Directory,
        hashes: Vec::new(),
        write_allow_list: Vec::new(),
    };
    assert!(plain.encode().is_empty());
    assert!(same_inode(&INodeBlock::decode(&[]).unwrap(), &plain));
    for kind in [Kind::Directory, Kind::RegularFile, Kind::DeletedFolder, Kind::DeletedRegularFile] {
        let block = INodeBlock { kind, ..sample_inode() };
        assert_eq!(INodeBlock::decode(&block.encode()).unwrap().kind, kind);
    }
}

#[test]
fn blocks_are_read_back_as_they_were_written_and_keep_their_address() {
    let payloads = vec![
        Block::Inode(sample_inode()),
        Block::Data(DataBlock { data: vec![5; 512] }),
        Block::Data(DataBlock { data: Vec::new() }),
    ];
    for payload in payloads {
        for timestamp in [0i64, 1, -1, i64::MAX, i64::MIN, 1_700_000_000_000_000_000] {
            let block = sample_capsule(payload.clone(), timestamp);
            let bytes = block.encode();
            let back = DataCapsuleBlock::decode(&bytes).unwrap();
            assert_eq!(back.timestamp, timestamp);
            assert_eq!(back.prev_hash, block.prev_hash);
            assert_eq!(back.signature, block.signature);
            assert!(same_fs(&back.fs, &block.fs));
            assert_eq!(back.encode(), bytes);
            assert_eq!(back.hash(), block.hash());
            let inner = DataCapsuleFileSystemBlock::decode(&block.fs.encode()).unwrap();
            assert!(same_fs(&inner, &block.fs));
            assert_eq!(inner.hash(), block.fs.hash());
        }
    }
}

#[test]
fn an_unsigned_block_without_a_predecessor_is_read_back() {
    let block = DataCapsuleBlock {
        prev_hash: String::new(),
        fs: DataCapsuleFileSystemBlock {
            prev_hash: String::new(),
            block: Block::Data(DataBlock { data: Vec::new() }),
            updated_by: Id { pub_key: Vec::new(), uid: 0, signature: Vec::new() },
            signature: Vec::new(),
        },
        timestamp: 0,
        signature: Vec::new(),
    };
    let bytes = block.encode();
    assert_eq!(bytes, vec![0x12u8, 4, 0x1a, 0, 0x22, 0]);
    let back = DataCapsuleBlock::decode(&bytes).unwrap();
    assert!(same_fs(&back.fs, &block.fs));
    assert_eq!(back.hash(), block.hash());
}

#[test]
fn bytes_that_no_writer_produces_are_not_read() {
    // A number with a digit too many.
    assert!(Id::decode(&[0x10, 0x80, 0x00]).is_none());
    assert!(Id::decode(&[0x10, 0x81, 0x00]).is_none());
    // A number of more than 64 bits.
    assert!(Id::decode(&[0x10, 0xff, 0xff, 0xff, 0xff, 0xff, 0xff, 0xff, 0xff, 0xff, 0x02])
        .is_none());
    assert!(Id::decode(&[0x10, 0xff, 0xff, 0xff, 0xff, 0xff, 0xff, 0xff, 0xff, 0xff, 0x01])
        .is_some());
    // Fields that hold nothing are left out by the writers.
    assert!(Id::decode(&[0x10, 0x00]).is_none());
    assert!(Id::decode(&[0x0a, 0x00]).is_none());
    assert!(Id::decode(&[0x1a, 0x00]).is_none());
    // Fields out of order, twice, unknown or cut short.
    assert!(Id::decode(&[0x10, 0x05, 0x0a, 0x01, b'k']).is_none());
    assert!(Id::decode(&[0x10, 0x05, 0x10, 0x05]).is_none());
    assert!(Id::decode(&[0x20, 0x05]).is_none());
    assert!(Id::decode(&[0x0a, 0x02, b'k']).is_none());
    assert!(Id::decode(&[0x0a]).is_none());
    assert!(Id::decode(&[0x10]).is_none());
    assert!(Id::decode(&[0x10, 0x80]).is_none());
    assert!(Id::decode(&[0x0a, 0x01, b'k', 0x00]).is_none());
    assert!(Id::decode(&[0x0a, 0x01, b'k']).is_some());
}

#[test]
fn an_inode_block_with_an_unknown_kind_or_bad_text_is_not_read() {
    assert!(INodeBlock::decode(&[0x18, 0x03]).is_some());
    assert!(INodeBlock::decode(&[0x18, 0x04]).is_none());
    assert!(INodeBlock::decode(&[0x22, 0x01, b'a']).is_some());
    assert!(INodeBlock::decode(&[0x22, 0x00]).is_some());
    assert!(INodeBlock::decode(&[0x22, 0x01, 0xff]).is_none());
    assert!(INodeBlock::decode(&[0x22, 0x02, 0xc3]).is_none());
    assert!(INodeBlock::decode(&[0x2a, 0x00]).is_some());
    assert!(INodeBlock::decode(&[0x2a, 0x02, 0x10, 0x00]).is_none());
    assert!(INodeBlock::decode(&[0x2a, 0x00, 0x22, 0x00]).is_none());
}

#[test]
fn a_block_without_payload_or_writer_is_not_read() {
    assert!(DataCapsuleFileSystemBlock::decode(&[]).is_none());
    assert!(DataCapsuleFileSystemBlock::decode(&[0x1a, 0x00]).is_none());
    assert!(DataCapsuleFileSystemBlock::decode(&[0x22, 0x00]).is_none());
    assert!(DataCapsuleFileSystemBlock::decode(&[0x1a, 0x00, 0x22, 0x00]).is_some());
    assert!(DataCapsuleFileSystemBlock::decode(&[0x12, 0x00, 0x22, 0x00]).is_some());
    assert!(DataCapsuleFileSystemBlock::decode(&[0x12, 0x00, 0x1a, 0x00, 0x22, 0x00]).is_none());
    assert!(DataCapsuleFileSystemBlock::decode(&[0x0a, 0x01, 0xff, 0x1a, 0x00, 0x22, 0x00])
        .is_none());
    assert!(DataCapsuleBlock::decode(&[]).is_none());
    assert!(DataCapsuleBlock::decode(&[0x12, 0x04, 0x1a, 0x00, 0x22, 0x00]).is_some());
    assert!(DataCapsuleBlock::decode(&[0x12, 0x04, 0x1a, 0x00, 0x22, 0x00, 0x18, 0x00]).is_none());
    assert!(DataCapsuleBlock::decode(&[0x12, 0x03, 0x1a, 0x00, 0x22, 0x00]).is_none());
}

#[test]
fn what_the_protocol_buffers_library_writes_is_read() {
    let id = sample_id();
    let mut bytes = Vec::new();
    prost::encoding::bytes::encode(1, &id.pub_key, &mut bytes);
    prost::encoding::uint64::encode(2, &id.uid, &mut bytes);
    prost::encoding::bytes::encode(3, &id.signature, &mut bytes);
    assert!(Id::decode(&bytes).unwrap().same(&id));
    let mut stamped = Vec::new();
    prost::encoding::int64::encode(3, &-5i64, &mut stamped);
    let mut block = Vec::new();
    block.extend_from_slice(&[0x12, 0x04, 0x1a, 0x00, 0x22, 0x00]);
    block.extend_from_slice(&stamped);
    assert_eq!(DataCapsuleBlock::decode(&block).unwrap().timestamp, -5);
}
