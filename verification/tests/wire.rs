use capsule_fs::block::{
    Block, DataBlock, DataCapsuleBlock, DataCapsuleFileSystemBlock, INodeBlock, Id, Kind,
};
use capsule_fs::wire::{put_bytes, put_delimited, put_string, put_uint, put_varint};
use prost::encoding::WireType;

fn varint_of(v: u64) -> Vec<u8> {
    let mut buf = Vec::new();
    put_varint(&mut buf, v);
    buf
}

fn sample_id() -> Id {
    Id { pub_key: b"key text".to_vec(), uid: 1000, signature: vec![1, 2, 3, 4] }
}

fn sample_inode() -> INodeBlock {
    INodeBlock {
        filename: b"a.txt".to_vec(),
        size: 70000,
        kind: Kind::DeletedRegularFile,
        hashes: vec![String::from("abc"), String::new(), String::from("h\u{e9}")],
        write_allow_list: vec![
            sample_id(),
            Id { pub_key: Vec::new(), uid: 0, signature: Vec::new() },
        ],
    }
}

/// The bytes of an identity as the protocol-buffers library writes its fields.
fn id_by_prost(id: &Id) -> Vec<u8> {
    let mut buf = Vec::new();
    if !id.pub_key.is_empty() {
        prost::encoding::bytes::encode(1, &id.pub_key, &mut buf);
    }
    if id.uid != 0 {
        prost::encoding::uint64::encode(2, &id.uid, &mut buf);
    }
    if !id.signature.is_empty() {
        prost::encoding::bytes::encode(3, &id.signature, &mut buf);
    }
    buf
}

fn message_by_prost(tag: u32, body: &[u8], buf: &mut Vec<u8>) {
    prost::encoding::encode_key(tag, WireType::LengthDelimited, buf);
    prost::encoding::encode_varint(body.len() as u64, buf);
    buf.extend_from_slice(body);
}

fn inode_by_prost(block: &INodeBlock, kind: i32) -> Vec<u8> {
    let mut buf = Vec::new();
    if !block.filename.is_empty() {
        prost::encoding::bytes::encode(1, &block.filename, &mut buf);
    }
    if block.size != 0 {
        prost::encoding::uint64::encode(2, &block.size, &mut buf);
    }
    if kind != 0 {
        prost::encoding::int32::encode(3, &kind, &mut buf);
    }
    prost::encoding::string::encode_repeated(4, &block.hashes, &mut buf);
    for id in &block.write_allow_list {
        message_by_prost(5, &id_by_prost(id), &mut buf);
    }
    buf
}

#[test]
fn varint_of_small_numbers_is_one_byte() {
    assert_eq!(varint_of(0), vec![0u8]);
    assert_eq!(varint_of(1), vec![1u8]);
    assert_eq!(varint_of(127), vec![127u8]);
}

#[test]
fn varint_of_larger_numbers_marks_all_but_the_last_byte() {
    assert_eq!(varint_of(128), vec![0x80u8, 0x01]);
    assert_eq!(varint_of(300), vec![0xacu8, 0x02]);
    assert_eq!(
        varint_of(u64::MAX),
        vec![0xffu8, 0xff, 0xff, 0xff, 0xff, 0xff, 0xff, 0xff, 0xff, 0x01]
    );
}

#[test]
fn varint_agrees_with_the_protocol_buffers_library() {
    for v in [0u64, 1, 127, 128, 255, 256, 16383, 16384, 1 << 32, u64::MAX - 1, u64::MAX] {
        let mut want = Vec::new();
        prost::encoding::encode_varint(v, &mut want);
        assert_eq!(varint_of(v), want);
    }
}

#[test]
fn varint_is_appended_to_what_the_buffer_holds() {
    let mut buf = vec![9u8, 9];
    put_varint(&mut buf, 300);
    assert_eq!(buf, vec![9u8, 9, 0xac, 0x02]);
}

#[test]
fn empty_fields_are_left_out() {
    let mut buf = Vec::new();
    put_bytes(&mut buf, 1, &[]);
    put_uint(&mut buf, 2, 0);
    put_string(&mut buf, 3, &String::new());
    assert!(buf.is_empty());
    put_delimited(&mut buf, 4, &[]);
    assert_eq!(buf, vec![0x22u8, 0x00]);
}

#[test]
fn fields_carry_their_key_and_length() {
    let mut buf = Vec::new();
    put_bytes(&mut buf, 1, &[7, 8]);
    put_uint(&mut buf, 2, 300);
    put_string(&mut buf, 3, &String::from("h\u{e9}"));
    assert_eq!(buf, vec![0x0au8, 2, 7, 8, 0x10, 0xac, 0x02, 0x1a, 3, b'h', 0xc3, 0xa9]);
}

#[test]
fn an_identity_without_content_has_no_bytes() {
    let id = Id { pub_key: Vec::new(), uid: 0, signature: Vec::new() };
    assert!(id.encode().is_empty());
}

#[test]
fn an_identity_is_encoded_field_by_field() {
    let id = Id { pub_key: b"k".to_vec(), uid: 5, signature: vec![9] };
    assert_eq!(id.encode(), vec![0x0au8, 1, b'k', 0x10, 5, 0x1a, 1, 9]);
    assert_eq!(sample_id().encode(), id_by_prost(&sample_id()));
}

#[test]
fn kinds_have_their_numbers() {
    assert_eq!(Kind::Directory.code(), 0);
    assert_eq!(Kind::RegularFile.code(), 1);
    assert_eq!(Kind::DeletedFolder.code(), 2);
    assert_eq!(Kind::DeletedRegularFile.code(), 3);
}

#[test]
fn an_inode_block_agrees_with_the_protocol_buffers_library() {
    let block = sample_inode();
    assert_eq!(block.encode(), inode_by_prost(&block, 3));
    let plain = INodeBlock {
        filename: Vec::new(),
        size: 0,
        kind: Kind::Directory,
        hashes: Vec::new(),
        write_allow_list: Vec::new(),
    };
    assert!(plain.encode().is_empty());
}

#[test]
fn the_payload_has_one_field_number_for_each_kind() {
    let inode = Block::Inode(sample_inode());
    let mut want = Vec::new();
    message_by_prost(2, &inode_by_prost(&sample_inode(), 3), &mut want);
    assert_eq!(inode.encode(), want);
    let data = Block::Data(DataBlock { data: vec![1, 2, 3] });
    assert_eq!(data.encode(), vec![0x1au8, 5, 0x0a, 3, 1, 2, 3]);
    let empty = Block::Data(DataBlock { data: Vec::new() });
    assert_eq!(empty.encode(), vec![0x1au8, 0]);
}

#[test]
fn a_capsule_block_is_encoded_as_its_test_vector() {
    let block = DataCapsuleBlock {
        prev_hash: String::from("ab"),
        fs: DataCapsuleFileSystemBlock {
            prev_hash: String::from("ab"),
            block: Block::Data(DataBlock { data: vec![1, 2, 3] }),
            updated_by: Id { pub_key: b"k".to_vec(), uid: 5, signature: Vec::new() },
            signature: Vec::new(),
        },
        timestamp: -1,
        signature: vec![9],
    };
    let want: Vec<u8> = vec![
        0x0a, 0x02, 0x61, 0x62, 0x12, 0x12, 0x0a, 0x02, 0x61, 0x62, 0x1a, 0x05, 0x0a, 0x03, 0x01,
        0x02, 0x03, 0x22, 0x05, 0x0a, 0x01, 0x6b, 0x10, 0x05, 0x18, 0xff, 0xff, 0xff, 0xff, 0xff,
        0xff, 0xff, 0xff, 0xff, 0x01, 0x22, 0x01, 0x09,
    ];
    assert_eq!(block.encode(), want);
    // The same bytes, put together by the protocol-buffers library.
    let mut fs = Vec::new();
    prost::encoding::string::encode(1, &block.fs.prev_hash, &mut fs);
    let mut data = Vec::new();
    prost::encoding::bytes::encode(1, &vec![1u8, 2, 3], &mut data);
    message_by_prost(3, &data, &mut fs);
    message_by_prost(4, &id_by_prost(&block.fs.updated_by), &mut fs);
    assert_eq!(block.fs.encode(), fs);
    let mut outer = Vec::new();
    prost::encoding::string::encode(1, &block.prev_hash, &mut outer);
    message_by_prost(2, &fs, &mut outer);
    prost::encoding::int64::encode(3, &block.timestamp, &mut outer);
    prost::encoding::bytes::encode(4, &block.signature, &mut outer);
    assert_eq!(block.encode(), outer);
}

#[test]
fn encoding_twice_gives_the_same_bytes() {
    let block = sample_inode();
    assert_eq!(block.encode(), block.clone().encode());
    let id = sample_id();
    assert_eq!(id.encode(), id.clone().encode());
}
