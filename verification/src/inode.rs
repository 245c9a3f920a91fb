//! The client-side inode record and the file view that maps byte offsets onto
//! fixed-size content-addressed blocks.

use vstd::prelude::*;
use vstd::arithmetic::div_mod::{lemma_div_is_ordered, lemma_fundamental_div_mod, lemma_mod_bound};
use vstd::arithmetic::mul::{lemma_mul_inequality, lemma_mul_is_commutative};
use crate::block::{
    block_view, blocks_view, strings_view, Block, BlockView, DataBlock, DataCapsuleFileSystemBlock,
    FileSystemBlockView, INodeBlock, INodeBlockView, Kind,
};
use crate::client::{ClientError, FSMiddlewareClient, MiddlewareClientView, PutDataRequest};

verus! {

/// The size in bytes of one data block in the reference configuration.
pub const BLOCK_SIZE: u32 = 512;

/// One revision of a directory entry as the mount sees it.
#[derive(Debug)]
pub struct INode {
    /// Address of the capsule block that holds this revision.
    pub hash: String,
    /// The inode number that the mount gave to this entry.
    pub ino: u64,
    /// Address of the block of the directory that holds this entry.
    pub parent_hash: String,
    pub block: INodeBlock,
    /// When the capsule stored this revision.
    pub timestamp: i64,
    /// The block that new data blocks of this file follow.
    pub prev_data_hash: String,
}

pub struct INodeView {
    pub hash: Seq<char>,
    pub ino: u64,
    pub parent_hash: Seq<char>,
    pub block: INodeBlockView,
    pub timestamp: i64,
    pub prev_data_hash: Seq<char>,
}

impl View for INode {
    type V = INodeView;

    open spec fn view(&self) -> INodeView {
        INodeView {
            hash: self.hash@,
            ino: self.ino,
            parent_hash: self.parent_hash@,
            block: self.block@,
            timestamp: self.timestamp,
            prev_data_hash: self.prev_data_hash@,
        }
    }
}

impl INodeView {
    /// The file-system block that carries one block of this file's data, written by the
    /// user `uid`, before it is signed.
    pub open spec fn data_block(self, middleware: MiddlewareClientView, uid: u32, data: Seq<u8>) -> FileSystemBlockView {
        FileSystemBlockView {
            prev_hash: self.prev_data_hash,
            block: BlockView::Data(data),
            updated_by: middleware.id(uid as u64)->Some_0,
            signature: Seq::empty(),
        }
    }
}

impl Clone for INode {
    fn clone(&self) -> (copy: Self)
        ensures
            copy@ == self@,
    {
        INode {
            hash: self.hash.clone(),
            ino: self.ino,
            parent_hash: self.parent_hash.clone(),
            block: self.block.clone(),
            timestamp: self.timestamp,
            prev_data_hash: self.prev_data_hash.clone(),
        }
    }
}

/// What the kernel is told an entry is. A removed entry counts as a regular file.
#[derive(Debug, Clone, Copy, PartialEq, Eq, Structural)]
pub enum FileType {
    Directory,
    RegularFile,
}

/// The attributes of an entry. All times are the start of the Unix epoch.
#[derive(Debug, Clone, Copy, PartialEq, Eq, Structural)]
pub struct FileAttr {
    pub ino: u64,
    /// Size in bytes.
    pub size: u64,
    /// Size in blocks, the last one counted in full.
    pub blocks: u64,
    /// Time of last access, in seconds since the epoch.
    pub atime: u64,
    /// Time of last modification, in seconds since the epoch.
    pub mtime: u64,
    /// Time of last change, in seconds since the epoch.
    pub ctime: u64,
    /// Time of creation, in seconds since the epoch.
    pub crtime: u64,
    pub kind: FileType,
    pub perm: u16,
    pub nlink: u32,
    pub uid: u32,
    pub gid: u32,
    pub rdev: u32,
    pub flags: u32,
    pub blksize: u32,
}

/// The number of blocks of `b` bytes that hold `size` bytes.
pub open spec fn blocks_for(size: int, b: int) -> int {
    if size % b == 0 {
        size / b
    } else {
        size / b + 1
    }
}

/// What the kernel is told an entry of this kind is.
pub open spec fn file_type_of(kind: Kind) -> FileType {
    if kind == Kind::Directory {
        FileType::Directory
    } else {
        FileType::RegularFile
    }
}

/// The attributes of a record on a mount with blocks of `b` bytes.
pub open spec fn file_attr_of(node: INodeView, b: u32) -> FileAttr {
    FileAttr {
        ino: node.ino,
        size: node.block.size,
        blocks: blocks_for(node.block.size as int, b as int) as u64,
        atime: 0,
        mtime: 0,
        ctime: 0,
        crtime: 0,
        kind: file_type_of(node.block.kind),
        perm: 0o700,
        nlink: 2,
        uid: 1000,
        gid: 1000,
        rdev: 0,
        flags: 0,
        blksize: b,
    }
}

/// Why a file view turned a request down.
#[derive(Debug, Clone, Copy, PartialEq, Eq, Structural)]
pub enum FileError {
    /// The offset lies before the start of the file.
    NegativeOffset,
    /// The end of the written range cannot be counted in 64 bits.
    TooLarge,
    /// The number of hashes handed back differs from the number of blocks stored.
    HashCount,
}

/// A block of `b` zero bytes.
pub open spec fn zero_block(b: int) -> Seq<u8> {
    Seq::new(b as nat, |k: int| 0u8)
}

/// The bytes of the blocks, one block after the other.
pub open spec fn concat(blocks: Seq<Seq<u8>>) -> Seq<u8>
    decreases blocks.len(),
{
    if blocks.len() == 0 {
        Seq::empty()
    } else {
        concat(blocks.drop_last()) + blocks.last()
    }
}

/// At most the first `size` bytes of `s`.
pub open spec fn clip(s: Seq<u8>, size: int) -> Seq<u8> {
    if s.len() > size {
        s.take(size)
    } else {
        s
    }
}

/// Number of blocks that a read of `size` bytes at `offset` asks for: the block that
/// holds `offset`, and as many more as it takes to cover `size` bytes.
pub open spec fn read_count(b: int, offset: int, size: int) -> int {
    let need = offset % b + size;
    if need <= b {
        1
    } else {
        (need + b - 1) / b
    }
}

/// Index of the first block that a read touches in a file of `n` blocks.
pub open spec fn read_first(n: int, b: int, offset: int) -> int {
    if offset / b < n {
        offset / b
    } else {
        n
    }
}

/// One past the index of the last block that a read touches in a file of `n` blocks.
pub open spec fn read_end(n: int, b: int, offset: int, size: int) -> int {
    let e = offset / b + read_count(b, offset, size);
    if e < n {
        e
    } else {
        n
    }
}

/// The answer to a read from the blocks it fetched: their bytes in order, without the
/// first `skip` bytes of the first block, cut to `size` bytes.
pub open spec fn assemble(blocks: Seq<Seq<u8>>, skip: int, size: int) -> Seq<u8> {
    if blocks.len() == 0 {
        Seq::empty()
    } else {
        let from = if skip <= blocks[0].len() {
            skip
        } else {
            blocks[0].len() as int
        };
        clip(concat(blocks).skip(from), size)
    }
}

/// What a read of `size` bytes at `offset` returns from a file whose blocks are `file`.
pub open spec fn file_read(file: Seq<Seq<u8>>, b: int, offset: int, size: int) -> Seq<u8> {
    if offset < 0 {
        Seq::empty()
    } else {
        assemble(
            file.subrange(
                read_first(file.len() as int, b, offset),
                read_end(file.len() as int, b, offset, size),
            ),
            offset % b,
            size,
        )
    }
}

/// Index of the first block that a write stores: the block that holds `offset`, or the
/// first block past the end of the file when the write starts beyond it.
pub open spec fn write_start(n: int, b: int, offset: int) -> int {
    if offset / b < n {
        offset / b
    } else {
        n
    }
}

/// One past the index of the last block that a write of `len` bytes at `offset` stores.
pub open spec fn write_end(b: int, offset: int, len: int) -> int {
    if len == 0 {
        offset / b
    } else {
        (offset + len - 1) / b + 1
    }
}

/// Block `j` of a file, if it has one.
pub open spec fn block_at(file: Seq<Seq<u8>>, j: int) -> Option<Seq<u8>> {
    if 0 <= j < file.len() {
        Some(file[j])
    } else {
        None
    }
}

/// Byte `k` of a block that was there before a write; zero where there was none.
pub open spec fn kept_byte(block: Option<Seq<u8>>, k: int) -> u8 {
    match block {
        Some(s) => if 0 <= k < s.len() {
            s[k]
        } else {
            0
        },
        None => 0,
    }
}

/// Byte `k` of block `j` after writing `data` at `offset`: the written byte inside the
/// written range, the byte that was there in the two blocks that the range may cover
/// in part (`head` holds the offset, `tail` the end), and zero elsewhere.
pub open spec fn written_byte(
    b: int,
    offset: int,
    data: Seq<u8>,
    head: Option<Seq<u8>>,
    tail: Option<Seq<u8>>,
    j: int,
    k: int,
) -> u8 {
    let pos = j * b + k;
    if offset <= pos < offset + data.len() {
        data[pos - offset]
    } else if j == offset / b {
        kept_byte(head, k)
    } else if j == write_end(b, offset, data.len() as int) - 1 {
        kept_byte(tail, k)
    } else {
        0
    }
}

/// Block `j` after a write: always `b` bytes long.
pub open spec fn written_block(
    b: int,
    offset: int,
    data: Seq<u8>,
    head: Option<Seq<u8>>,
    tail: Option<Seq<u8>>,
    j: int,
) -> Seq<u8> {
    Seq::new(b as nat, |k: int| written_byte(b, offset, data, head, tail, j, k))
}

/// The blocks that a write stores, for the indices from `write_start` up to `write_end`.
pub open spec fn write_blocks(
    n: int,
    b: int,
    offset: int,
    data: Seq<u8>,
    head: Option<Seq<u8>>,
    tail: Option<Seq<u8>>,
) -> Seq<Seq<u8>> {
    let s = write_start(n, b, offset);
    Seq::new(
        (write_end(b, offset, data.len() as int) - s) as nat,
        |i: int| written_block(b, offset, data, head, tail, s + i),
    )
}

/// `old` with the items from index `start` on replaced by `new`, item for item, and
/// grown where `new` reaches past its end.
pub open spec fn splice<T>(old: Seq<T>, start: int, new: Seq<T>) -> Seq<T> {
    if start + new.len() < old.len() {
        old.take(start) + new + old.skip(start + new.len())
    } else {
        old.take(start) + new
    }
}

/// The blocks of a file after writing `data` at `offset`.
pub open spec fn file_write(file: Seq<Seq<u8>>, b: int, offset: int, data: Seq<u8>) -> Seq<
    Seq<u8>,
> {
    let n = file.len() as int;
    if data.len() == 0 {
        splice(file, write_start(n, b, offset), write_blocks(n, b, offset, data, None, None))
    } else {
        splice(
            file,
            write_start(n, b, offset),
            write_blocks(
                n,
                b,
                offset,
                data,
                block_at(file, offset / b),
                block_at(file, write_end(b, offset, data.len() as int) - 1),
            ),
        )
    }
}

/// The view of a hash that may be missing.
pub open spec fn hash_view(hash: Option<String>) -> Option<Seq<char>> {
    match hash {
        Some(h) => Some(h@),
        None => None,
    }
}

/// Item `j` of a list of hashes, if it has one.
pub open spec fn hash_at(hashes: Seq<Seq<char>>, j: int) -> Option<Seq<char>> {
    if 0 <= j < hashes.len() {
        Some(hashes[j])
    } else {
        None
    }
}

/// The error that a write of `len` bytes at `offset` meets, if any.
pub open spec fn write_error(b: int, offset: int, len: int) -> Option<FileError> {
    if offset < 0 {
        Some(FileError::NegativeOffset)
    } else if offset + len + b > u64::MAX {
        Some(FileError::TooLarge)
    } else {
        None
    }
}

/// `(x / b) * b` and the remainder make up `x`, and the end of block `x / b` lies
/// less than `b` past `x`.
proof fn lemma_block_bounds(x: int, b: int)
    requires
        x >= 0,
        b > 0,
    ensures
        0 <= x / b,
        (x / b) * b <= x,
        x < (x / b) * b + b,
        x == (x / b) * b + x % b,
        0 <= x % b < b,
{
    lemma_fundamental_div_mod(x, b);
    lemma_mod_bound(x, b);
    lemma_mul_is_commutative(b, x / b);
    if x / b < 0 {
        assert((x / b) * b <= -1 * b) by (nonlinear_arith)
            requires
                x / b <= -1,
                b > 0,
        ;
    }
}

/// Block indices count up with the positions they hold.
proof fn lemma_block_index(j: int, k: int, b: int)
    requires
        b > 0,
        0 <= k < b,
        j >= 0,
    ensures
        (j * b + k) / b == j,
        (j * b + k) % b == k,
{
    let x = j * b + k;
    assert(x >= 0) by (nonlinear_arith)
        requires
            x == j * b + k,
            j >= 0,
            b > 0,
            k >= 0,
    ;
    lemma_block_bounds(x, b);
    let q = x / b;
    assert(q == j) by (nonlinear_arith)
        requires
            q * b <= j * b + k,
            j * b + k < q * b + b,
            0 <= k < b,
            b > 0,
    ;
}

/// The three block indices of a write: the block that holds the offset, the first
/// block stored and one past the last block stored.
fn write_span(n: usize, block_size: u32, offset: i64, len: usize) -> (r: Result<
    (u64, u64, u64),
    FileError,
>)
    requires
        block_size > 0,
    ensures
        match r {
            Ok((first, start, end)) => {
                &&& write_error(block_size as int, offset as int, len as int) is None
                &&& first == offset as int / block_size as int
                &&& start == write_start(n as int, block_size as int, offset as int)
                &&& end == write_end(block_size as int, offset as int, len as int)
                &&& start <= first <= end
                &&& start <= n
                &&& end * block_size <= offset + len + block_size
            },
            Err(e) => write_error(block_size as int, offset as int, len as int) == Some(e),
        },
{
    if offset < 0 {
        return Err(FileError::NegativeOffset);
    }
    let off: u64 = offset as u64;
    let b: u64 = block_size as u64;
    let total: u64 = match off.checked_add(len as u64) {
        Some(t) => t,
        None => {
            return Err(FileError::TooLarge);
        },
    };
    if total > u64::MAX - b {
        return Err(FileError::TooLarge);
    }
    let first: u64 = off / b;
    let start: u64 = if first < n as u64 {
        first
    } else {
        n as u64
    };
    let end: u64 = if len == 0 {
        first
    } else {
        (total - 1) / b + 1
    };
    proof {
        lemma_block_bounds(off as int, b as int);
        if len > 0 {
            lemma_block_bounds(total - 1, b as int);
            lemma_div_is_ordered(off as int, total - 1, b as int);
            assert(end * b == ((total - 1) / b as int) * b + b) by (nonlinear_arith)
                requires
                    end == (total - 1) / b as int + 1,
            ;
        }
    }
    Ok((first, start, end))
}

/// Byte `k` of a block that may be missing; zero where there is none.
fn kept(block: &Option<Vec<u8>>, k: u64) -> (byte: u8)
    ensures
        byte == kept_byte(block_view(*block), k as int),
{
    match block {
        Some(v) => {
            if k < v.len() as u64 {
                v[k as usize]
            } else {
                0
            }
        },
        None => 0,
    }
}

impl INode {
    /// The attributes of this entry on a mount with blocks of `block_size` bytes.
    pub fn to_file_attr(&self, block_size: u32) -> (attr: FileAttr)
        requires
            block_size > 0,
        ensures
            attr == file_attr_of(self@, block_size),
    {
        let b: u64 = block_size as u64;
        let whole: u64 = self.block.size / b;
        let blocks: u64 = if self.block.size % b == 0 {
            whole
        } else {
            proof {
                lemma_block_bounds(self.block.size as int, b as int);
                assert(whole < u64::MAX) by (nonlinear_arith)
                    requires
                        whole * b <= u64::MAX,
                        b >= 2,
                        whole >= 0,
                ;
            }
            whole + 1
        };
        FileAttr {
            ino: self.ino,
            size: self.block.size,
            blocks,
            atime: 0,
            mtime: 0,
            ctime: 0,
            crtime: 0,
            kind: self.get_file_type(),
            perm: self.get_perm(),
            nlink: 2,
            uid: 1000,
            gid: 1000,
            rdev: 0,
            flags: 0,
            blksize: block_size,
        }
    }

    /// What the kernel is told this entry is.
    pub fn get_file_type(&self) -> (kind: FileType)
        ensures
            kind == file_type_of(self@.block.kind),
    {
        match self.block.kind {
            Kind::Directory => FileType::Directory,
            _ => FileType::RegularFile,
        }
    }

    /// The permission bits of this entry: the owner may do everything, others nothing.
    pub fn get_perm(&self) -> (perm: u16)
        ensures
            perm == 0o700,
    {
        0o700
    }

    /// The request that stores one block of this file's data: a file-system block that
    /// follows the file's data chain, written by the user `uid` and signed by
    /// `middleware`, for the directory that lists this file.
    pub fn write_block(&self, middleware: &FSMiddlewareClient, uid: u32, data: Vec<u8>) -> (r:
        Result<PutDataRequest, ClientError>)
        ensures
            match r {
                Ok(request) => {
                    &&& middleware@.id(uid as u64) is Some
                    &&& middleware@.signed(self@.data_block(middleware@, uid, data@)) == Some(
                        request.block@,
                    )
                    &&& request.inode_hash@ == self@.parent_hash
                },
                Err(e) => e == ClientError::Unsigned && (middleware@.id(uid as u64) is None
                    || middleware@.signed(self@.data_block(middleware@, uid, data@)) is None),
            },
    {
        let id = match middleware.get_id(uid as u64) {
            Some(id) => id,
            None => {
                return Err(ClientError::Unsigned);
            },
        };
        let block = DataCapsuleFileSystemBlock {
            prev_hash: self.prev_data_hash.clone(),
            block: Block::Data(DataBlock { data }),
            updated_by: id,
            signature: Vec::new(),
        };
        middleware.put_data(block, self.parent_hash.clone())
    }

    /// Whether this revision marks the entry as removed.
    pub fn is_deleted(&self) -> (deleted: bool)
        ensures
            deleted == self@.block.kind.spec_is_deleted(),
    {
        match self.block.kind {
            Kind::DeletedFolder => true,
            Kind::DeletedRegularFile => true,
            _ => false,
        }
    }

    /// The hashes of the blocks that a read of `size` bytes at `offset` needs, in the
    /// order of their indices. Nothing lies before the start of a file.
    pub fn read_hashes(&self, offset: i64, size: u32, block_size: u32) -> (hashes: Vec<String>)
        requires
            block_size > 0,
        ensures
            offset < 0 ==> hashes@.len() == 0,
            offset >= 0 ==> strings_view(hashes@) == self@.block.hashes.subrange(
                read_first(self@.block.hashes.len() as int, block_size as int, offset as int),
                read_end(
                    self@.block.hashes.len() as int,
                    block_size as int,
                    offset as int,
                    size as int,
                ),
            ),
    {
        let mut hashes: Vec<String> = Vec::new();
        if offset < 0 {
            return hashes;
        }
        let b: u64 = block_size as u64;
        let n: u64 = self.block.hashes.len() as u64;
        let first: u64 = offset as u64 / b;
        if first >= n {
            assert(strings_view(hashes@) =~= self@.block.hashes.subrange(n as int, n as int));
            return hashes;
        }
        let need: u64 = offset as u64 % b + size as u64;
        let count: u64 = if need <= b {
            1
        } else {
            (need + b - 1) / b
        };
        let room: u64 = n - first;
        let end: u64 = if count < room {
            first + count
        } else {
            n
        };
        let mut i: u64 = first;
        while i < end
            invariant
                first <= i <= end <= n,
                n == self.block.hashes.len(),
                hashes.len() == i - first,
                forall|j: int| 0 <= j < i - first ==> hashes@[j]@ == self.block.hashes@[first + j]@,
            decreases end - i,
        {
            hashes.push(self.block.hashes[i as usize].clone());
            i += 1;
        }
        assert(strings_view(hashes@) =~= self@.block.hashes.subrange(first as int, end as int));
        hashes
    }

    /// The bytes that a read of `size` bytes at `offset` returns, from the blocks that
    /// were fetched for the hashes of `read_hashes`, in the same order.
    pub fn read(offset: i64, size: u32, block_size: u32, blocks: &Vec<Vec<u8>>) -> (bytes: Vec<u8>)
        requires
            block_size > 0,
        ensures
            offset < 0 ==> bytes@.len() == 0,
            offset >= 0 ==> bytes@ == assemble(
                blocks_view(blocks@),
                offset as int % block_size as int,
                size as int,
            ),
    {
        let mut bytes: Vec<u8> = Vec::new();
        if offset < 0 || blocks.len() == 0 {
            return bytes;
        }
        let skip: u64 = offset as u64 % block_size as u64;
        let from: usize = if skip <= blocks[0].len() as u64 {
            skip as usize
        } else {
            blocks[0].len()
        };
        let ghost view = blocks_view(blocks@);
        let mut i: usize = 0;
        let mut k: usize = from;
        while i < blocks.len() && bytes.len() < size as usize
            invariant
                view == blocks_view(blocks@),
                0 <= i <= blocks.len(),
                from <= blocks@[0].len(),
                i < blocks.len() ==> k <= blocks@[i as int].len(),
                i == 0 ==> from <= k,
                bytes.len() <= size,
                i < blocks.len() ==> bytes@ == (concat(view.take(i as int)) + view[i as int].take(
                    k as int,
                )).skip(from as int),
                i == blocks.len() ==> bytes@ == concat(view).skip(from as int),
            decreases blocks.len() - i, (if i < blocks.len() { blocks@[i as int].len() - k } else { 0 }),
        {
            if k < blocks[i].len() {
                let ghost before = bytes@;
                bytes.push(blocks[i][k]);
                k += 1;
                assert(bytes@ =~= (concat(view.take(i as int)) + view[i as int].take(k as int)).skip(
                    from as int,
                )) by {
                    lemma_concat_len_first(view.take(i as int));
                    assert(view.take(i as int).len() > 0 ==> view.take(i as int)[0] == view[0]);
                }
            } else {
                proof {
                    assert(view[i as int].take(k as int) =~= view[i as int]);
                    assert(view.take(i as int + 1).drop_last() =~= view.take(i as int));
                    assert(concat(view.take(i as int + 1)) == concat(view.take(i as int))
                        + view[i as int]);
                    if i + 1 < blocks.len() {
                        assert(view[i as int + 1].take(0) =~= Seq::<u8>::empty());
                        assert(concat(view.take(i as int + 1)) + view[i as int + 1].take(0)
                            =~= concat(view.take(i as int + 1)));
                    } else {
                        assert(view.take(i as int + 1) =~= view);
                    }
                }
                i += 1;
                k = 0;
            }
        }
        proof {
            let all = concat(view).skip(from as int);
            if i < blocks.len() {
                // The answer is full: what was gathered is a prefix of all the bytes.
                let gathered = concat(view.take(i as int)) + view[i as int].take(k as int);
                lemma_concat_prefix(view, i as int, k as int);
                lemma_concat_len_first(view.take(i as int));
                assert(i > 0 ==> view.take(i as int)[0] == view[0]);
                assert(from <= gathered.len());
                assert(bytes@.len() == size);
                assert(bytes@ =~= all.take(size as int));
                assert(all.len() == size ==> all.take(size as int) =~= all);
            } else {
                assert(bytes@ == all);
            }
        }
        bytes
    }
}

impl INode {
    /// The hashes of the two blocks that a write of `len` bytes at `offset` may cover
    /// only in part, and whose bytes it therefore needs: the block that holds the
    /// offset and the block that holds the end of the range. A write of nothing, or one
    /// that is turned down, needs none.
    pub fn write_hashes(&self, offset: i64, len: usize, block_size: u32) -> (r: (
        Option<String>,
        Option<String>,
    ))
        requires
            block_size > 0,
        ensures
            (len == 0 || write_error(block_size as int, offset as int, len as int) is Some) ==> r.0
                is None && r.1 is None,
            (len > 0 && write_error(block_size as int, offset as int, len as int) is None) ==> {
                &&& hash_view(r.0) == hash_at(
                    self@.block.hashes,
                    offset as int / block_size as int,
                )
                &&& hash_view(r.1) == hash_at(
                    self@.block.hashes,
                    write_end(block_size as int, offset as int, len as int) - 1,
                )
            },
    {
        let n = self.block.hashes.len();
        let span = write_span(n, block_size, offset, len);
        match span {
            Ok((first, _start, end)) => {
                if len == 0 {
                    return (None, None);
                }
                let head = if first < n as u64 {
                    Some(self.block.hashes[first as usize].clone())
                } else {
                    None
                };
                let tail = if end - 1 < n as u64 {
                    Some(self.block.hashes[(end - 1) as usize].clone())
                } else {
                    None
                };
                (head, tail)
            },
            Err(_) => (None, None),
        }
    }

    /// The blocks that a write of `data` at `offset` stores in a file of `n` blocks, in
    /// the order of their indices, each `block_size` bytes long: zero blocks up to the
    /// block that holds the offset where the file ends before it, then the blocks that
    /// hold the written range. `head` and `tail` are the blocks fetched for the hashes of
    /// `write_hashes`.
    pub fn write_blocks(
        n: usize,
        block_size: u32,
        offset: i64,
        data: &[u8],
        head: &Option<Vec<u8>>,
        tail: &Option<Vec<u8>>,
    ) -> (r: Result<Vec<Vec<u8>>, FileError>)
        requires
            block_size > 0,
        ensures
            match r {
                Ok(blocks) => {
                    &&& write_error(block_size as int, offset as int, data@.len() as int) is None
                    &&& blocks_view(blocks@) == write_blocks(
                        n as int,
                        block_size as int,
                        offset as int,
                        data@,
                        block_view(*head),
                        block_view(*tail),
                    )
                },
                Err(e) => write_error(block_size as int, offset as int, data@.len() as int)
                    == Some(e),
            },
    {
        let (first, start, end) = match write_span(n, block_size, offset, data.len()) {
            Ok(span) => span,
            Err(e) => {
                return Err(e);
            },
        };
        let b: u64 = block_size as u64;
        let off: u64 = offset as u64;
        let len: u64 = data.len() as u64;
        let ghost hv = block_view(*head);
        let ghost tv = block_view(*tail);
        proof {
            lemma_mul_inequality(start as int, end as int, b as int);
        }
        let mut blocks: Vec<Vec<u8>> = Vec::new();
        let mut j: u64 = start;
        let mut base: u64 = start * b;
        while j < end
            invariant
                b == block_size,
                b > 0,
                off == offset,
                len == data@.len(),
                hv == block_view(*head),
                tv == block_view(*tail),
                first == offset as int / b as int,
                end == write_end(b as int, offset as int, len as int),
                start <= j <= end,
                base == j * b,
                end * b <= u64::MAX,
                blocks.len() == j - start,
                forall|i: int|
                    0 <= i < j - start ==> (#[trigger] blocks@[i])@ == written_block(
                        b as int,
                        offset as int,
                        data@,
                        hv,
                        tv,
                        start + i,
                    ),
            decreases end - j,
        {
            assert(base + b <= end * b) by (nonlinear_arith)
                requires
                    base == j * b,
                    j < end,
                    b > 0,
            ;
            let mut block: Vec<u8> = Vec::new();
            let mut k: u64 = 0;
            while k < b
                invariant
                    k <= b,
                    b > 0,
                    off == offset,
                    len == data@.len(),
                    hv == block_view(*head),
                    tv == block_view(*tail),
                    first == offset as int / b as int,
                    end == write_end(b as int, offset as int, len as int),
                    j < end,
                    base == j * b,
                    base + b <= u64::MAX,
                    block.len() == k,
                    forall|kk: int|
                        0 <= kk < k ==> #[trigger] block@[kk] == written_byte(
                            b as int,
                            offset as int,
                            data@,
                            hv,
                            tv,
                            j as int,
                            kk,
                        ),
                decreases b - k,
            {
                let pos: u64 = base + k;
                let byte: u8 = if pos >= off && pos - off < len {
                    data[(pos - off) as usize]
                } else if j == first {
                    kept(head, k)
                } else if j + 1 == end {
                    kept(tail, k)
                } else {
                    0
                };
                block.push(byte);
                k += 1;
            }
            assert(block@ =~= written_block(b as int, offset as int, data@, hv, tv, j as int));
            blocks.push(block);
            assert(base + b == (j + 1) * b) by (nonlinear_arith)
                requires
                    base == j * b,
            ;
            j += 1;
            base += b;
        }
        assert(blocks_view(blocks@) =~= write_blocks(
            n as int,
            b as int,
            offset as int,
            data@,
            hv,
            tv,
        ));
        Ok(blocks)
    }

    /// Records a write of `len` bytes at `offset` in this file view: `hashes` are the
    /// addresses under which the blocks of `write_blocks` were stored, in the same order.
    /// They replace the hashes from the first stored block on and lengthen the list where
    /// they reach past its end; the size grows to the end of the written range where
    /// that lies beyond it.
    pub fn write(&mut self, offset: i64, len: usize, block_size: u32, hashes: &Vec<String>) -> (r:
        Result<(), FileError>)
        requires
            block_size > 0,
        ensures
            match r {
                Ok(()) => {
                    &&& write_error(block_size as int, offset as int, len as int) is None
                    &&& hashes@.len() == write_end(block_size as int, offset as int, len as int)
                        - write_start(
                        old(self)@.block.hashes.len() as int,
                        block_size as int,
                        offset as int,
                    )
                    &&& final(self)@ == (INodeView {
                        block: INodeBlockView {
                            hashes: splice(
                                old(self)@.block.hashes,
                                write_start(
                                    old(self)@.block.hashes.len() as int,
                                    block_size as int,
                                    offset as int,
                                ),
                                strings_view(hashes@),
                            ),
                            size: if offset + len > old(self)@.block.size {
                                (offset + len) as u64
                            } else {
                                old(self)@.block.size
                            },
                            ..old(self)@.block
                        },
                        ..old(self)@
                    })
                },
                Err(e) => {
                    &&& final(self)@ == old(self)@
                    &&& match write_error(block_size as int, offset as int, len as int) {
                        Some(w) => e == w,
                        None => e == FileError::HashCount && hashes@.len() != write_end(
                            block_size as int,
                            offset as int,
                            len as int,
                        ) - write_start(
                            old(self)@.block.hashes.len() as int,
                            block_size as int,
                            offset as int,
                        ),
                    }
                },
            },
    {
        let n = self.block.hashes.len();
        let (_first, start, end) = match write_span(n, block_size, offset, len) {
            Ok(span) => span,
            Err(e) => {
                return Err(e);
            },
        };
        if hashes.len() as u64 != end - start {
            return Err(FileError::HashCount);
        }
        let ghost before = strings_view(self.block.hashes@);
        let mut list: Vec<String> = Vec::new();
        let mut i: usize = 0;
        while i < start as usize
            invariant
                start <= n,
                n == self.block.hashes.len(),
                i <= start,
                list.len() == i,
                forall|j: int| 0 <= j < i ==> list@[j]@ == self.block.hashes@[j]@,
            decreases start - i,
        {
            list.push(self.block.hashes[i].clone());
            i += 1;
        }
        let mut i: usize = 0;
        while i < hashes.len()
            invariant
                start <= n,
                n == self.block.hashes.len(),
                i <= hashes.len(),
                list.len() == start + i,
                forall|j: int| 0 <= j < start ==> list@[j]@ == self.block.hashes@[j]@,
                forall|j: int| 0 <= j < i ==> list@[start + j]@ == hashes@[j]@,
            decreases hashes.len() - i,
        {
            list.push(hashes[i].clone());
            i += 1;
        }
        let mut i: usize = list.len();
        while i < n
            invariant
                start <= n,
                n == self.block.hashes.len(),
                list.len() == i,
                start + hashes.len() <= i,
                i <= n || i == start + hashes.len(),
                forall|j: int| 0 <= j < start ==> list@[j]@ == self.block.hashes@[j]@,
                forall|j: int| 0 <= j < hashes.len() ==> list@[start + j]@ == hashes@[j]@,
                forall|j: int|
                    start + hashes.len() <= j < list.len() ==> list@[j]@ == self.block.hashes@[j]@,
            decreases n - i,
        {
            list.push(self.block.hashes[i].clone());
            i += 1;
        }
        proof {
            let fresh = strings_view(hashes@);
            let after = splice(before, start as int, fresh);
            assert(strings_view(list@).len() == after.len());
            assert forall|j: int| 0 <= j < list.len() implies strings_view(list@)[j] == after[j] by {
                if j < start {
                    assert(after[j] == before[j]);
                } else if j < start + hashes.len() {
                    assert(list@[start + (j - start)]@ == hashes@[j - start]@);
                    assert(after[j] == fresh[j - start]);
                } else {
                    assert(after[j] == before[j]);
                }
            }
            assert(strings_view(list@) =~= after);
        }
        self.block.hashes = list;
        let reach: u64 = offset as u64 + len as u64;
        if reach > self.block.size {
            self.block.size = reach;
        }
        Ok(())
    }
}

/// The bytes of a list of blocks are at least as many as those of its first block.
proof fn lemma_concat_len_first(blocks: Seq<Seq<u8>>)
    ensures
        blocks.len() > 0 ==> concat(blocks).len() >= blocks[0].len(),
    decreases blocks.len(),
{
    if blocks.len() > 1 {
        lemma_concat_len_first(blocks.drop_last());
    } else if blocks.len() == 1 {
        assert(concat(blocks.drop_last()).len() == 0);
    }
}

/// The bytes of the first `i` blocks followed by the first `k` bytes of block `i` are a
/// prefix of the bytes of all blocks.
proof fn lemma_concat_prefix(blocks: Seq<Seq<u8>>, i: int, k: int)
    requires
        0 <= i < blocks.len(),
        0 <= k <= blocks[i].len(),
    ensures
        (concat(blocks.take(i)) + blocks[i].take(k)).len() <= concat(blocks).len(),
        concat(blocks.take(i)) + blocks[i].take(k) == concat(blocks).take(
            (concat(blocks.take(i)) + blocks[i].take(k)).len() as int,
        ),
    decreases blocks.len(),
{
    let prefix = concat(blocks.take(i)) + blocks[i].take(k);
    if i == blocks.len() - 1 {
        assert(blocks.take(i) =~= blocks.drop_last());
        assert(prefix =~= concat(blocks).take(prefix.len() as int));
    } else {
        let shorter = blocks.drop_last();
        lemma_concat_prefix(shorter, i, k);
        assert(shorter.take(i) =~= blocks.take(i));
        assert(prefix =~= concat(blocks).take(prefix.len() as int));
    }
}


/// A position within the first `n` blocks lies in one of them.
proof fn lemma_index_in_range(i: int, n: int, b: int)
    requires
        b > 0,
        0 <= i < n * b,
    ensures
        0 <= i / b < n,
        0 <= i % b < b,
{
    lemma_block_bounds(i, b);
    let q = i / b;
    assert(q < n) by (nonlinear_arith)
        requires
            q * b <= i,
            i < n * b,
            b > 0,
    ;
}

/// Where every block holds `b` bytes, byte `i` of the file is byte `i % b` of block `i / b`.
proof fn lemma_uniform_concat(blocks: Seq<Seq<u8>>, b: int)
    requires
        b > 0,
        forall|j: int| 0 <= j < blocks.len() ==> (#[trigger] blocks[j]).len() == b,
    ensures
        concat(blocks).len() == blocks.len() * b,
        forall|i: int|
            0 <= i < blocks.len() * b ==> #[trigger] concat(blocks)[i] == blocks[i / b][i % b],
    decreases blocks.len(),
{
    if blocks.len() == 0 {
        assert(blocks.len() * b == 0) by (nonlinear_arith)
            requires
                blocks.len() == 0,
        ;
    } else {
        let shorter = blocks.drop_last();
        let m = shorter.len() as int;
        lemma_uniform_concat(shorter, b);
        assert(blocks.len() * b == m * b + b) by (nonlinear_arith)
            requires
                blocks.len() == m + 1,
        ;
        assert forall|i: int| 0 <= i < blocks.len() * b implies #[trigger] concat(blocks)[i]
            == blocks[i / b][i % b] by {
            if i < m * b {
                lemma_index_in_range(i, m, b);
                assert(concat(shorter)[i] == shorter[i / b][i % b]);
                assert(shorter[i / b] == blocks[i / b]);
            } else {
                lemma_block_index(m, i - m * b, b);
                assert(blocks.last() == blocks[m]);
            }
        }
    }
}

/// A read of the range that was written asks for blocks up to the last block stored.
proof fn lemma_read_covers_write(b: int, offset: int, len: int)
    requires
        b > 0,
        offset >= 0,
        len > 0,
    ensures
        offset / b + read_count(b, offset, len) == write_end(b, offset, len),
        write_end(b, offset, len) > offset / b,
        (write_end(b, offset, len) - offset / b) * b >= offset % b + len,
{
    let first = offset / b;
    let skip = offset % b;
    let need = skip + len;
    lemma_block_bounds(offset, b);
    lemma_block_bounds(need - 1, b);
    let q = (need - 1) / b;
    let r = (need - 1) % b;
    assert((first + q) * b + r == offset + len - 1) by (nonlinear_arith)
        requires
            offset == first * b + skip,
            need - 1 == q * b + r,
            need == skip + len,
    ;
    assert(first + q >= 0);
    lemma_block_index(first + q, r, b);
    assert((offset + len - 1) / b == first + q);
    if need <= b {
        assert(q == 0) by (nonlinear_arith)
            requires
                q * b <= need - 1,
                need - 1 < b,
                q >= 0,
                b > 0,
        ;
    } else {
        assert((q + 1) * b + r == need + b - 1) by (nonlinear_arith)
            requires
                need - 1 == q * b + r,
        ;
        lemma_block_index(q + 1, r, b);
    }
    assert((q + 1) * b >= need) by (nonlinear_arith)
        requires
            need - 1 < q * b + b,
    ;
}

/// What is written can be read back: after a write of `data` at `offset`, a read of
/// as many bytes at the same offset returns `data`, whatever the file held before.
pub proof fn lemma_write_then_read(file: Seq<Seq<u8>>, b: int, offset: int, data: Seq<u8>)
    requires
        b > 0,
        offset >= 0,
    ensures
        file_read(file_write(file, b, offset, data), b, offset, data.len() as int) == data,
{
    let len = data.len() as int;
    let after = file_write(file, b, offset, data);
    let got = file_read(after, b, offset, len);
    if len == 0 {
        assert(got.len() == 0);
        assert(got =~= data);
    } else {
        let n = file.len() as int;
        let first = offset / b;
        let skip = offset % b;
        let s = write_start(n, b, offset);
        let e = write_end(b, offset, len);
        let head = block_at(file, first);
        let tail = block_at(file, e - 1);
        let stored = write_blocks(n, b, offset, data, head, tail);
        lemma_block_bounds(offset, b);
        lemma_read_covers_write(b, offset, len);
        assert(after.len() >= e);
        assert(read_first(after.len() as int, b, offset) == first);
        assert(read_end(after.len() as int, b, offset, len) == e);
        let sub = after.subrange(first, e);
        assert forall|j: int| 0 <= j < sub.len() implies #[trigger] sub[j] == written_block(
            b,
            offset,
            data,
            head,
            tail,
            first + j,
        ) by {
            assert(sub[j] == after[first + j]);
            assert(after[first + j] == stored[first + j - s]);
        }
        lemma_uniform_concat(sub, b);
        let all = concat(sub).skip(skip);
        assert(sub.len() * b == (e - first) * b);
        assert(got == clip(all, len));
        assert(got.len() == len);
        assert forall|i: int| 0 <= i < len implies got[i] == data[i] by {
            let x = skip + i;
            assert(x < sub.len() * b);
            lemma_index_in_range(x, sub.len() as int, b);
            assert(got[i] == concat(sub)[x]);
            assert(concat(sub)[x] == sub[x / b][x % b]);
            lemma_block_bounds(x, b);
            assert((first + x / b) * b + x % b == offset + i) by (nonlinear_arith)
                requires
                    offset == first * b + skip,
                    x == (x / b) * b + x % b,
                    x == skip + i,
            ;
        }
        assert(got =~= data);
    }
}

/// Three blocks of zero bytes, one after the other.
pub open spec fn three_zero_blocks(b: int) -> Seq<u8> {
    zero_block(b) + zero_block(b) + zero_block(b)
}

/// The first block's worth of `payload`, filled up with zero bytes.
pub open spec fn padded(payload: Seq<u8>, b: int) -> Seq<u8> {
    Seq::new(b as nat, |k: int| if k < payload.len() { payload[k] } else { 0u8 })
}

/// A write beyond the end fills the gap with zeros: writing `payload` at offset `3 * b`
/// into an empty file stores three zero blocks before the blocks of the payload, and a
/// read of `4 * b` bytes from the start returns `3 * b` zero bytes followed by the
/// payload's first block.
pub proof fn lemma_write_past_end_zero_fills(b: int, payload: Seq<u8>)
    requires
        b > 0,
    ensures
        ({
            let after = file_write(Seq::empty(), b, 3 * b, payload);
            &&& after.len() >= 3
            &&& after[0] == zero_block(b)
            &&& after[1] == zero_block(b)
            &&& after[2] == zero_block(b)
            &&& payload.len() > 0 ==> after.len() >= 4 && after[3] == padded(payload, b)
            &&& payload.len() == 0 ==> file_read(after, b, 0, 4 * b) == three_zero_blocks(b)
            &&& payload.len() > 0 ==> file_read(after, b, 0, 4 * b) == three_zero_blocks(b)
                + padded(payload, b)
        }),
{
    let file = Seq::<Seq<u8>>::empty();
    let offset = 3 * b;
    let len = payload.len() as int;
    let after = file_write(file, b, offset, payload);
    let e = write_end(b, offset, len);
    lemma_block_index(3, 0, b);
    assert(offset / b == 3 && offset % b == 0);
    if len > 0 {
        lemma_read_covers_write(b, offset, len);
    }
    let head = if len == 0 { None } else { block_at(file, 3) };
    let tail = if len == 0 { None } else { block_at(file, e - 1) };
    assert(after =~= write_blocks(0, b, offset, payload, head, tail));
    assert forall|j: int| 0 <= j < 3 implies #[trigger] after[j] == zero_block(b) by {
        assert forall|k: int| 0 <= k < b implies written_byte(b, offset, payload, head, tail, j, k)
            == 0u8 by {
            assert(j * b + k < 3 * b) by (nonlinear_arith)
                requires
                    j <= 2,
                    0 <= k < b,
            ;
        }
        assert(after[j] =~= zero_block(b));
    }
    if len > 0 {
        assert forall|k: int| 0 <= k < b implies written_byte(b, offset, payload, head, tail, 3, k)
            == padded(payload, b)[k] by {}
        assert(after[3] =~= padded(payload, b));
    }
    // The read asks for four blocks from the start and gets as many as there are.
    lemma_block_index(0, 0, b);
    lemma_block_index(4, b - 1, b);
    assert(read_count(b, 0, 4 * b) == 4) by {
        assert(4 * b + b - 1 == 4 * b + (b - 1));
        if b == 1 {
            lemma_block_index(4, 0, 1);
        }
    }
    let hi = read_end(after.len() as int, b, 0, 4 * b);
    let sub = after.subrange(0, hi);
    assert(forall|j: int| 0 <= j < sub.len() ==> (#[trigger] sub[j]).len() == b);
    lemma_uniform_concat(sub, b);
    let got = file_read(after, b, 0, 4 * b);
    assert(sub.len() * b <= 4 * b) by (nonlinear_arith)
        requires
            sub.len() <= 4,
            b > 0,
    ;
    assert(got =~= concat(sub));
    let want = if len == 0 {
        three_zero_blocks(b)
    } else {
        three_zero_blocks(b) + padded(payload, b)
    };
    assert(sub.len() == if len == 0 { 3int } else { 4 });
    assert(sub.len() * b == if len == 0 { 3 * b } else { 4 * b }) by (nonlinear_arith)
        requires
            sub.len() == if len == 0 { 3int } else { 4 },
    ;
    assert(want.len() == got.len());
    assert forall|i: int| 0 <= i < got.len() implies got[i] == want[i] by {
        lemma_block_bounds(i, b);
        lemma_index_in_range(i, sub.len() as int, b);
        let j = i / b;
        let k = i % b;
        assert(got[i] == concat(sub)[i]);
        assert(got[i] == sub[j][k]);
        assert(sub[j] == after[j]);
        if i < b {
            lemma_block_index(0, i, b);
        } else if i < 2 * b {
            lemma_block_index(1, i - b, b);
        } else if i < 3 * b {
            lemma_block_index(2, i - 2 * b, b);
        } else {
            lemma_block_index(3, i - 3 * b, b);
        }
    }
    assert(got =~= want);
}

} // verus!
