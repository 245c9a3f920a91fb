use capsule_fs::block::{Block, INodeBlock, Kind};
use capsule_fs::client::{ClientError, FSMiddlewareClient};
use capsule_fs::crypto::SigningKey;
use capsule_fs::inode::{FileError, FileType, INode, BLOCK_SIZE};

fn file(hashes: &[&str], size: u64) -> INode {
    INode {
        hash: String::from("own"),
        ino: 7,
        parent_hash: String::from("dir"),
        block: INodeBlock {
            filename: b"f".to_vec(),
            size,
            kind: Kind::RegularFile,
            hashes: hashes.iter().map(|h| String::from(*h)).collect(),
            write_allow_list: Vec::new(),
        },
        timestamp: 3,
        prev_data_hash: String::from("data"),
    }
}

fn of_kind(kind: Kind) -> INode {
    let mut inode = file(&[], 0);
    inode.block.kind = kind;
    inode
}

fn texts(list: &[&str]) -> Vec<String> {
    list.iter().map(|h| String::from(*h)).collect()
}

/// A file kept in memory, block by block, written and read through the file view.
struct Plain {
    blocks: Vec<Vec<u8>>,
    b: u32,
}

impl Plain {
    fn write(&mut self, offset: i64, data: &[u8]) {
        let n = self.blocks.len();
        let names: Vec<String> = (0..n).map(|i| format!("{}", i)).collect();
        let view = INode {
            block: INodeBlock { hashes: names, ..file(&[], 0).block },
            ..file(&[], 0)
        };
        let (head, tail) = view.write_hashes(offset, data.len(), self.b);
        let head = head.map(|h| self.blocks[h.parse::<usize>().unwrap()].clone());
        let tail = tail.map(|h| self.blocks[h.parse::<usize>().unwrap()].clone());
        let stored = INode::write_blocks(n, self.b, offset, data, &head, &tail).unwrap();
        let first = (offset as usize / self.b as usize).min(n);
        for (i, block) in stored.into_iter().enumerate() {
            assert_eq!(block.len(), self.b as usize);
            if first + i < self.blocks.len() {
                self.blocks[first + i] = block;
            } else {
                self.blocks.push(block);
            }
        }
    }

    fn read(&self, offset: i64, size: u32) -> Vec<u8> {
        let n = self.blocks.len();
        let names: Vec<String> = (0..n).map(|i| format!("{}", i)).collect();
        let view = INode {
            block: INodeBlock { hashes: names, ..file(&[], 0).block },
            ..file(&[], 0)
        };
        let wanted = view.read_hashes(offset, size, self.b);
        let fetched: Vec<Vec<u8>> =
            wanted.iter().map(|h| self.blocks[h.parse::<usize>().unwrap()].clone()).collect();
        INode::read(offset, size, self.b, &fetched)
    }

    fn bytes(&self) -> Vec<u8> {
        self.blocks.concat()
    }
}

#[test]
fn the_block_size_of_the_reference_configuration() {
    assert_eq!(BLOCK_SIZE, 512);
}

#[test]
fn attributes_are_fixed_but_for_number_size_and_kind() {
    let attr = file(&[], 5).to_file_attr(512);
    assert_eq!(attr.ino, 7);
    assert_eq!(attr.size, 5);
    assert_eq!(attr.blocks, 1);
    assert_eq!(attr.kind, FileType::RegularFile);
    assert_eq!(attr.perm, 0o700);
    assert_eq!(attr.nlink, 2);
    assert_eq!(attr.uid, 1000);
    assert_eq!(attr.gid, 1000);
    assert_eq!(attr.rdev, 0);
    assert_eq!(attr.flags, 0);
    assert_eq!(attr.blksize, 512);
    assert_eq!((attr.atime, attr.mtime, attr.ctime, attr.crtime), (0, 0, 0, 0));
    assert_eq!(of_kind(Kind::Directory).to_file_attr(4096).kind, FileType::Directory);
    assert_eq!(of_kind(Kind::Directory).to_file_attr(4096).blksize, 4096);
}

#[test]
fn the_number_of_blocks_is_rounded_up() {
    assert_eq!(file(&[], 0).to_file_attr(512).blocks, 0);
    assert_eq!(file(&[], 1).to_file_attr(512).blocks, 1);
    assert_eq!(file(&[], 512).to_file_attr(512).blocks, 1);
    assert_eq!(file(&[], 513).to_file_attr(512).blocks, 2);
    assert_eq!(file(&[], 1024).to_file_attr(512).blocks, 2);
    assert_eq!(file(&[], u64::MAX).to_file_attr(512).blocks, 1 << 55);
    assert_eq!(file(&[], u64::MAX).to_file_attr(1).blocks, u64::MAX);
    assert_eq!(file(&[], u64::MAX).to_file_attr(2).blocks, 1 << 63);
}

#[test]
fn removed_entries_count_as_files() {
    assert_eq!(of_kind(Kind::Directory).get_file_type(), FileType::Directory);
    assert_eq!(of_kind(Kind::RegularFile).get_file_type(), FileType::RegularFile);
    assert_eq!(of_kind(Kind::DeletedFolder).get_file_type(), FileType::RegularFile);
    assert_eq!(of_kind(Kind::DeletedRegularFile).get_file_type(), FileType::RegularFile);
    assert!(!of_kind(Kind::Directory).is_deleted());
    assert!(!of_kind(Kind::RegularFile).is_deleted());
    assert!(of_kind(Kind::DeletedFolder).is_deleted());
    assert!(of_kind(Kind::DeletedRegularFile).is_deleted());
    assert_eq!(of_kind(Kind::Directory).get_perm(), 0o700);
    assert_eq!(of_kind(Kind::RegularFile).get_perm(), 0o700);
}

#[test]
fn a_read_asks_for_the_blocks_that_hold_the_range() {
    let inode = file(&["a", "b", "c", "d"], 2048);
    assert_eq!(inode.read_hashes(0, 1, 512), texts(&["a"]));
    assert_eq!(inode.read_hashes(0, 512, 512), texts(&["a"]));
    assert_eq!(inode.read_hashes(0, 513, 512), texts(&["a", "b"]));
    assert_eq!(inode.read_hashes(511, 1, 512), texts(&["a"]));
    assert_eq!(inode.read_hashes(511, 2, 512), texts(&["a", "b"]));
    assert_eq!(inode.read_hashes(512, 1024, 512), texts(&["b", "c"]));
    assert_eq!(inode.read_hashes(600, 1024, 512), texts(&["b", "c", "d"]));
    assert_eq!(inode.read_hashes(1536, 4096, 512), texts(&["d"]));
    assert_eq!(inode.read_hashes(0, u32::MAX, 512), texts(&["a", "b", "c", "d"]));
    // The block that holds the offset is asked for even where nothing is read.
    assert_eq!(inode.read_hashes(700, 0, 512), texts(&["b"]));
    assert!(inode.read_hashes(2048, 10, 512).is_empty());
    assert!(inode.read_hashes(i64::MAX, 10, 512).is_empty());
    assert!(inode.read_hashes(-1, 10, 512).is_empty());
    assert_eq!(inode.read_hashes(5, 3, 2), texts(&["c", "d"]));
    assert!(file(&[], 0).read_hashes(0, 10, 512).is_empty());
}

#[test]
fn a_read_joins_the_blocks_skips_to_the_offset_and_stops_at_the_size() {
    let blocks = vec![vec![1u8, 2, 3, 4], vec![5, 6, 7, 8], vec![9, 10, 11, 12]];
    assert_eq!(INode::read(0, 12, 4, &blocks), vec![1, 2, 3, 4, 5, 6, 7, 8, 9, 10, 11, 12]);
    assert_eq!(INode::read(0, 100, 4, &blocks), vec![1, 2, 3, 4, 5, 6, 7, 8, 9, 10, 11, 12]);
    assert_eq!(INode::read(0, 5, 4, &blocks), vec![1, 2, 3, 4, 5]);
    assert_eq!(INode::read(2, 5, 4, &blocks), vec![3, 4, 5, 6, 7]);
    // The offset counts within the first block that was fetched.
    assert_eq!(INode::read(6, 3, 4, &blocks), vec![3, 4, 5]);
    assert_eq!(INode::read(3, 0, 4, &blocks), Vec::<u8>::new());
    assert_eq!(INode::read(0, 4, 4, &Vec::new()), Vec::<u8>::new());
    assert_eq!(INode::read(-1, 4, 4, &blocks), Vec::<u8>::new());
    // A first block that ends before the offset gives nothing of its own.
    let short = vec![vec![1u8], vec![5, 6, 7, 8]];
    assert_eq!(INode::read(3, 10, 4, &short), vec![5, 6, 7, 8]);
}

#[test]
fn a_write_needs_the_two_blocks_that_it_covers_in_part() {
    let inode = file(&["a", "b", "c"], 1536);
    assert_eq!(inode.write_hashes(0, 5, 512), (Some(String::from("a")), Some(String::from("a"))));
    assert_eq!(
        inode.write_hashes(500, 100, 512),
        (Some(String::from("a")), Some(String::from("b")))
    );
    assert_eq!(
        inode.write_hashes(512, 1024, 512),
        (Some(String::from("b")), Some(String::from("c")))
    );
    assert_eq!(inode.write_hashes(1024, 1024, 512), (Some(String::from("c")), None));
    assert_eq!(inode.write_hashes(1536, 1, 512), (None, None));
    assert_eq!(inode.write_hashes(5000, 1, 512), (None, None));
    assert_eq!(inode.write_hashes(0, 0, 512), (None, None));
    assert_eq!(inode.write_hashes(-1, 5, 512), (None, None));
    assert_eq!(inode.write_hashes(i64::MAX, usize::MAX, 512), (None, None));
}

#[test]
fn a_write_within_a_block_keeps_the_bytes_around_it() {
    let old = vec![1u8, 2, 3, 4, 5, 6, 7, 8];
    let blocks =
        INode::write_blocks(1, 8, 2, &[9, 9, 9], &Some(old.clone()), &Some(old.clone())).unwrap();
    assert_eq!(blocks, vec![vec![1u8, 2, 9, 9, 9, 6, 7, 8]]);
    // Without the old block the bytes around the write are zero.
    let blocks = INode::write_blocks(0, 8, 2, &[9, 9, 9], &None, &None).unwrap();
    assert_eq!(blocks, vec![vec![0u8, 0, 9, 9, 9, 0, 0, 0]]);
    // A short old block is filled up with zeros.
    let blocks =
        INode::write_blocks(1, 8, 5, &[9], &Some(vec![1, 2]), &Some(vec![1, 2])).unwrap();
    assert_eq!(blocks, vec![vec![1u8, 2, 0, 0, 0, 9, 0, 0]]);
    // Of a long old block only one block's worth is kept.
    let long = vec![7u8; 20];
    let blocks = INode::write_blocks(1, 4, 1, &[9], &Some(long.clone()), &Some(long)).unwrap();
    assert_eq!(blocks, vec![vec![7u8, 9, 7, 7]]);
}

#[test]
fn a_write_over_several_blocks_takes_the_head_and_the_tail_from_the_old_blocks() {
    let head = vec![1u8, 1, 1, 1];
    let tail = vec![3u8, 3, 3, 3];
    let data = [9u8, 9, 9, 9, 9, 9, 9];
    let blocks = INode::write_blocks(3, 4, 2, &data, &Some(head), &Some(tail)).unwrap();
    assert_eq!(blocks, vec![vec![1u8, 1, 9, 9], vec![9, 9, 9, 9], vec![9, 3, 3, 3]]);
    // Whole blocks need nothing of what was there.
    let blocks = INode::write_blocks(3, 4, 4, &[5, 6, 7, 8], &Some(vec![1; 4]), &Some(vec![1; 4]))
        .unwrap();
    assert_eq!(blocks, vec![vec![5u8, 6, 7, 8]]);
}

#[test]
fn a_write_beyond_the_end_stores_zero_blocks_first() {
    let blocks = INode::write_blocks(1, 4, 13, &[9, 9], &None, &None).unwrap();
    assert_eq!(blocks, vec![vec![0u8; 4], vec![0; 4], vec![0, 9, 9, 0]]);
    let blocks = INode::write_blocks(0, 4, 8, &[], &None, &None).unwrap();
    assert_eq!(blocks, vec![vec![0u8; 4], vec![0; 4]]);
    let blocks = INode::write_blocks(2, 4, 8, &[], &None, &None).unwrap();
    assert!(blocks.is_empty());
    let blocks = INode::write_blocks(5, 4, 8, &[], &None, &None).unwrap();
    assert!(blocks.is_empty());
}

#[test]
fn a_write_that_cannot_be_counted_is_turned_down() {
    assert_eq!(INode::write_blocks(0, 4, -1, &[1], &None, &None), Err(FileError::NegativeOffset));
    assert_eq!(
        INode::write_blocks(0, 4, i64::MIN, &[], &None, &None),
        Err(FileError::NegativeOffset)
    );
    let mut inode = file(&["a"], 4);
    assert_eq!(inode.write(-1, 1, 4, &Vec::new()), Err(FileError::NegativeOffset));
    assert_eq!(inode.write(i64::MAX, usize::MAX, 4, &Vec::new()), Err(FileError::TooLarge));
    assert_eq!(inode.write(0, 5, 4, &texts(&["x"])), Err(FileError::HashCount));
    assert_eq!(inode.write(0, 5, 4, &texts(&["x", "y", "z"])), Err(FileError::HashCount));
    assert_eq!(inode.write(0, 0, 4, &texts(&["x"])), Err(FileError::HashCount));
    assert_eq!(inode.block.hashes, texts(&["a"]));
    assert_eq!(inode.block.size, 4);
}

#[test]
fn the_new_hashes_replace_and_lengthen_the_list() {
    let mut inode = file(&["a", "b", "c"], 10);
    assert_eq!(inode.write(5, 2, 4, &texts(&["x"])), Ok(()));
    assert_eq!(inode.block.hashes, texts(&["a", "x", "c"]));
    assert_eq!(inode.block.size, 10);
    assert_eq!(inode.write(6, 8, 4, &texts(&["p", "q", "r"])), Ok(()));
    assert_eq!(inode.block.hashes, texts(&["a", "p", "q", "r"]));
    assert_eq!(inode.block.size, 14);
    assert_eq!(inode.write(24, 1, 4, &texts(&["z1", "z2", "w"])), Ok(()));
    assert_eq!(inode.block.hashes, texts(&["a", "p", "q", "r", "z1", "z2", "w"]));
    assert_eq!(inode.block.size, 25);
    assert_eq!(inode.write(2, 0, 4, &Vec::new()), Ok(()));
    assert_eq!(inode.block.size, 25);
    let mut empty = file(&[], 0);
    assert_eq!(empty.write(8, 0, 4, &texts(&["z1", "z2"])), Ok(()));
    assert_eq!(empty.block.hashes, texts(&["z1", "z2"]));
    assert_eq!(empty.block.size, 8);
    assert_eq!(inode.ino, 7);
    assert_eq!(inode.hash, "own");
}

#[test]
fn what_is_written_is_read_back_whatever_was_there() {
    for b in [1u32, 3, 4, 16] {
        for start in 0..3usize {
            for offset in 0..(3 * b as i64 + 2) {
                for len in 0..(2 * b as usize + 2) {
                    let mut plain = Plain {
                        blocks: (0..start).map(|i| vec![100 + i as u8; b as usize]).collect(),
                        b,
                    };
                    let before = plain.bytes();
                    let data: Vec<u8> = (0..len).map(|i| 1 + (i % 90) as u8).collect();
                    plain.write(offset, &data);
                    assert_eq!(plain.read(offset, len as u32), data);
                    // Everything else is what it was, or zero where there was nothing.
                    let after = plain.bytes();
                    for (at, byte) in after.iter().enumerate() {
                        let written = at >= offset as usize && at < offset as usize + len;
                        if !written {
                            let was = before.get(at).copied().unwrap_or(0);
                            assert_eq!(*byte, was);
                        }
                    }
                    let blocks = (offset as usize + len).div_ceil(b as usize);
                    let reached = if len == 0 { offset as usize / b as usize } else { blocks };
                    assert_eq!(plain.blocks.len(), start.max(reached));
                }
            }
        }
    }
}

#[test]
fn a_write_at_three_blocks_into_an_empty_file_is_preceded_by_three_zero_blocks() {
    let mut plain = Plain { blocks: Vec::new(), b: 512 };
    plain.write(3 * 512, b"payload");
    assert_eq!(plain.blocks.len(), 4);
    assert_eq!(plain.blocks[0], vec![0u8; 512]);
    assert_eq!(plain.blocks[1], vec![0u8; 512]);
    assert_eq!(plain.blocks[2], vec![0u8; 512]);
    let mut last = b"payload".to_vec();
    last.resize(512, 0);
    assert_eq!(plain.blocks[3], last);
    let mut want = vec![0u8; 3 * 512];
    want.extend_from_slice(&last);
    assert_eq!(plain.read(0, 4 * 512), want);
    assert_eq!(plain.read(0, 3 * 512 + 7), want[..3 * 512 + 7].to_vec());
    let mut empty = Plain { blocks: Vec::new(), b: 512 };
    empty.write(3 * 512, b"");
    assert_eq!(empty.blocks, vec![vec![0u8; 512]; 3]);
    assert_eq!(empty.read(0, 4 * 512), vec![0u8; 3 * 512]);
}

#[test]
fn a_data_block_follows_the_data_chain_and_names_the_directory() {
    let signer =
        FSMiddlewareClient::new(String::from("pub"), SigningKey { pkcs8_pem: Vec::new() }, false);
    let request = file(&[], 0).write_block(&signer, 9, vec![1, 2, 3]).unwrap();
    assert_eq!(request.inode_hash, "dir");
    assert_eq!(request.block.prev_hash, "data");
    assert_eq!(request.block.updated_by.uid, 9);
    assert_eq!(request.block.updated_by.pub_key, b"pub".to_vec());
    match &request.block.block {
        Block::Data(block) => assert_eq!(block.data, vec![1, 2, 3]),
        Block::Inode(_) => panic!("file data was expected"),
    }
    let broken =
        FSMiddlewareClient::new(String::from("pub"), SigningKey { pkcs8_pem: Vec::new() }, true);
    assert_eq!(
        file(&[], 0).write_block(&broken, 9, vec![1]).err(),
        Some(ClientError::Unsigned)
    );
}
