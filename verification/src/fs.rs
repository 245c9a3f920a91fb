//! The file system as the kernel sees it: what each operation answers from the cache,
//! and what it asks the middleware to store.

use vstd::prelude::*;
use crate::block::{strings_view, BlockView, INodeBlockView, Kind};
use crate::cache::{
    is_live_named, is_named, lemma_created_is_found, lemma_removed_is_gone, Cache, CacheError,
    CacheView,
};
use crate::client::PutINodeRequest;
use crate::server::MyDataCapsuleView;
use crate::inode::{
    file_attr_of, file_type_of, hash_at, hash_view, read_end, read_first, splice, write_end,
    write_error, write_start, FileAttr, FileType, INodeView,
};
use crate::search::{first_index, lemma_first_index};

verus! {

/// How long the kernel may keep an answer, in seconds.
pub const TTL: u64 = 1;

/// The file handle that every created file gets.
pub const FILE_HANDLE: u64 = 100;

/// The errors that the kernel is told.
#[derive(Debug, Clone, Copy, PartialEq, Eq, Structural)]
pub enum FsError {
    /// No such entry.
    NotFound,
    /// The mount or the writer may not write.
    PermissionDenied,
    /// The request could not be carried out.
    Io,
}

/// The error that the kernel is told for an error of the cache.
pub open spec fn fs_error_of(e: CacheError) -> FsError {
    match e {
        CacheError::NoSuchInode => FsError::NotFound,
        CacheError::ReadOnly => FsError::PermissionDenied,
        _ => FsError::Io,
    }
}

/// One line of a directory listing.
#[derive(Debug)]
pub struct DirEntry {
    pub ino: u64,
    /// The position from which the listing goes on after this line.
    pub offset: u64,
    pub kind: FileType,
    pub name: Vec<u8>,
}

pub struct DirEntryView {
    pub ino: u64,
    pub offset: u64,
    pub kind: FileType,
    pub name: Seq<u8>,
}

impl View for DirEntry {
    type V = DirEntryView;

    open spec fn view(&self) -> DirEntryView {
        DirEntryView { ino: self.ino, offset: self.offset, kind: self.kind, name: self.name@ }
    }
}

/// The views of the lines of a listing.
pub open spec fn entries_view(s: Seq<DirEntry>) -> Seq<DirEntryView> {
    s.map_values(|e: DirEntry| e@)
}

/// A record under another name.
pub open spec fn renamed(node: INodeView, name: Seq<u8>) -> INodeView {
    INodeView { block: INodeBlockView { filename: name, ..node.block }, ..node }
}

/// What a directory lists: itself as `.`, the directory that lists it as `..`, and its entries.
pub open spec fn dir_list(c: CacheView, ino: int) -> Seq<INodeView> {
    let node = c.inodes[ino].0;
    let parent = c.inodes[c.hash_to_ino[node.parent_hash] as int].0;
    seq![renamed(node, seq![46u8]), renamed(parent, seq![46u8, 46u8])] + c.children(ino)
}

/// The line of a listing for the record at position `index`.
pub open spec fn entry_of(node: INodeView, index: int) -> DirEntryView {
    DirEntryView {
        ino: node.ino,
        offset: (index + 1) as u64,
        kind: file_type_of(node.block.kind),
        name: node.block.filename,
    }
}

/// The lines for the records at the positions from `from` up to `upto`, without those
/// that are marked as removed.
pub open spec fn listing(list: Seq<INodeView>, from: int, upto: int) -> Seq<DirEntryView>
    decreases upto,
{
    if upto <= from || upto <= 0 {
        Seq::empty()
    } else {
        let rest = listing(list, from, upto - 1);
        if list[upto - 1].block.kind.spec_is_deleted() {
            rest
        } else {
            rest.push(entry_of(list[upto - 1], upto - 1))
        }
    }
}

/// The revision of a file after a write of `len` bytes at `offset` whose blocks were
/// stored under `hashes`.
pub open spec fn rewritten(
    block: INodeBlockView,
    b: int,
    offset: int,
    len: int,
    hashes: Seq<Seq<char>>,
) -> INodeBlockView {
    INodeBlockView {
        hashes: splice(block.hashes, write_start(block.hashes.len() as int, b, offset), hashes),
        size: if offset + len > block.size {
            (offset + len) as u64
        } else {
            block.size
        },
        ..block
    }
}

/// Whether `r` is what the file system answers where the cache is asked to write
/// entry `ino` with the revision `block` that follows `prev_hash`: the request that the
/// cache makes, or the error that the kernel is told for the error of the cache.
pub open spec fn relays(
    c: CacheView,
    uid: u32,
    ino: u64,
    prev_hash: Seq<char>,
    block: INodeBlockView,
    r: Result<PutINodeRequest, FsError>,
) -> bool {
    match r {
        Ok(request) => c.answers(uid, ino, prev_hash, block, Ok(request)),
        Err(e) => exists|cause: CacheError|
            c.answers(uid, ino, prev_hash, block, Err(cause)) && e == fs_error_of(cause),
    }
}

/// The file system of one mount.
pub struct DCFS2 {
    pub cache: Cache,
}

/// The error that the kernel is told for an error of the cache.
fn fs_error(e: CacheError) -> (r: FsError)
    ensures
        r == fs_error_of(e),
{
    match e {
        CacheError::NoSuchInode => FsError::NotFound,
        CacheError::ReadOnly => FsError::PermissionDenied,
        _ => FsError::Io,
    }
}

impl DCFS2 {
    /// Removes the entry named `name` under `parent` if it is what `file_type` says:
    /// the request that stores the removal, or `NotFound` where there is no such entry.
    fn _delete(&self, uid: u32, parent: u64, name: &[u8], file_type: FileType) -> (r: Result<
        PutINodeRequest,
        FsError,
    >)
        requires
            self.cache@.wf(),
        ensures
            parent >= self.cache@.inodes.len() ==> r == Err::<PutINodeRequest, FsError>(
                FsError::NotFound,
            ),
            parent < self.cache@.inodes.len() ==> match first_index(
                self.cache@.children(parent as int),
                is_live_named(name@),
            ) {
                None => r == Err::<PutINodeRequest, FsError>(FsError::NotFound),
                Some(i) => {
                    let child = self.cache@.children(parent as int)[i];
                    if file_type_of(child.block.kind) != file_type {
                        r == Err::<PutINodeRequest, FsError>(FsError::NotFound)
                    } else {
                        relays(
                            self.cache@,
                            uid,
                            child.ino,
                            self.cache@.inodes[child.ino as int].0.parent_hash,
                            self.cache@.removed(child.ino),
                            r,
                        )
                    }
                },
            },
    {
        proof {
            if parent < self.cache@.inodes.len() {
                lemma_first_index(self.cache@.children(parent as int), is_live_named(name@));
            }
        }
        let node = match self.cache.find_child_node(parent, name) {
            Some(node) => node,
            None => {
                return Err(FsError::NotFound);
            },
        };
        if node.get_file_type() != file_type {
            return Err(FsError::NotFound);
        }
        match self.cache.delete(uid, node.ino) {
            Ok(request) => Ok(request),
            Err(e) => Err(fs_error(e)),
        }
    }

    /// The attributes of the entry named `name` under `parent` that is not removed.
    pub fn lookup(&self, parent: u64, name: &[u8]) -> (r: Result<FileAttr, FsError>)
        requires
            self.cache@.wf(),
        ensures
            parent >= self.cache@.inodes.len() ==> r == Err::<FileAttr, FsError>(FsError::NotFound),
            parent < self.cache@.inodes.len() ==> match first_index(
                self.cache@.children(parent as int),
                is_live_named(name@),
            ) {
                Some(i) => r == Ok::<FileAttr, FsError>(
                    file_attr_of(self.cache@.children(parent as int)[i], self.cache@.block_size),
                ),
                None => r == Err::<FileAttr, FsError>(FsError::NotFound),
            },
    {
        match self.cache.find_child_node(parent, name) {
            Some(inode) => Ok(inode.to_file_attr(self.cache.block_size())),
            None => Err(FsError::NotFound),
        }
    }

    /// The attributes of entry `ino`.
    pub fn getattr(&self, ino: u64) -> (r: Result<FileAttr, FsError>)
        requires
            self.cache@.wf(),
        ensures
            ino < self.cache@.inodes.len() ==> r == Ok::<FileAttr, FsError>(
                file_attr_of(self.cache@.inodes[ino as int].0, self.cache@.block_size),
            ),
            ino >= self.cache@.inodes.len() ==> r == Err::<FileAttr, FsError>(FsError::NotFound),
    {
        match self.cache.get_inode(ino) {
            Some(entry) => Ok(entry.0.to_file_attr(self.cache.block_size())),
            None => Err(FsError::NotFound),
        }
    }

    /// Sets the size of entry `ino` where one is given: the request that stores the
    /// revision with the new size. Without a size nothing is to be stored.
    pub fn setattr(&self, uid: u32, ino: u64, size: Option<u64>) -> (r: Result<
        Option<PutINodeRequest>,
        FsError,
    >)
        requires
            self.cache@.wf(),
        ensures
            ino >= self.cache@.inodes.len() ==> r == Err::<Option<PutINodeRequest>, FsError>(
                FsError::NotFound,
            ),
            ino < self.cache@.inodes.len() ==> match size {
                None => r == Ok::<Option<PutINodeRequest>, FsError>(None),
                Some(size) => match r {
                    Ok(request) => request is Some && relays(
                        self.cache@,
                        uid,
                        ino,
                        self.cache@.inodes[ino as int].0.parent_hash,
                        INodeBlockView { size, ..self.cache@.inodes[ino as int].0.block },
                        Ok(request->Some_0),
                    ),
                    Err(e) => relays(
                        self.cache@,
                        uid,
                        ino,
                        self.cache@.inodes[ino as int].0.parent_hash,
                        INodeBlockView { size, ..self.cache@.inodes[ino as int].0.block },
                        Err(e),
                    ),
                },
            },
    {
        let entry = match self.cache.get_inode(ino) {
            Some(entry) => entry,
            None => {
                return Err(FsError::NotFound);
            },
        };
        match size {
            None => Ok(None),
            Some(size) => {
                let mut block = entry.0.block;
                block.size = size;
                match self.cache.update(uid, ino, block) {
                    Ok(request) => Ok(Some(request)),
                    Err(e) => Err(fs_error(e)),
                }
            },
        }
    }

    /// The request that creates the directory `name` under `parent`.
    pub fn mkdir(&self, uid: u32, parent: u64, name: &[u8]) -> (r: Result<PutINodeRequest, FsError>)
        requires
            self.cache@.wf(),
        ensures
            parent >= self.cache@.inodes.len() ==> r == Err::<PutINodeRequest, FsError>(
                FsError::NotFound,
            ),
            parent < self.cache@.inodes.len() ==> relays(
                self.cache@,
                uid,
                parent,
                self.cache@.inodes[parent as int].0.hash,
                self.cache@.fresh(parent, name@, Kind::Directory),
                r,
            ),
    {
        match self.cache.create(uid, parent, name, Kind::Directory) {
            Ok(request) => Ok(request),
            Err(e) => Err(fs_error(e)),
        }
    }

    /// The request that creates the empty file `name` under `parent`.
    pub fn create(&self, uid: u32, parent: u64, name: &[u8]) -> (r: Result<PutINodeRequest, FsError>)
        requires
            self.cache@.wf(),
        ensures
            parent >= self.cache@.inodes.len() ==> r == Err::<PutINodeRequest, FsError>(
                FsError::NotFound,
            ),
            parent < self.cache@.inodes.len() ==> relays(
                self.cache@,
                uid,
                parent,
                self.cache@.inodes[parent as int].0.hash,
                self.cache@.fresh(parent, name@, Kind::RegularFile),
                r,
            ),
    {
        match self.cache.create(uid, parent, name, Kind::RegularFile) {
            Ok(request) => Ok(request),
            Err(e) => Err(fs_error(e)),
        }
    }

    /// The request that removes the file `name` under `parent`; `NotFound` where
    /// `parent` lists no such file.
    pub fn unlink(&self, uid: u32, parent: u64, name: &[u8]) -> (r: Result<PutINodeRequest, FsError>)
        requires
            self.cache@.wf(),
        ensures
            parent >= self.cache@.inodes.len() ==> r == Err::<PutINodeRequest, FsError>(
                FsError::NotFound,
            ),
            parent < self.cache@.inodes.len() ==> match first_index(
                self.cache@.children(parent as int),
                is_live_named(name@),
            ) {
                None => r == Err::<PutINodeRequest, FsError>(FsError::NotFound),
                Some(i) => {
                    let child = self.cache@.children(parent as int)[i];
                    if child.block.kind == Kind::Directory {
                        r == Err::<PutINodeRequest, FsError>(FsError::NotFound)
                    } else {
                        relays(
                            self.cache@,
                            uid,
                            child.ino,
                            self.cache@.inodes[child.ino as int].0.parent_hash,
                            self.cache@.removed(child.ino),
                            r,
                        )
                    }
                },
            },
    {
        self._delete(uid, parent, name, FileType::RegularFile)
    }

    /// The request that removes the directory `name` under `parent`; `NotFound` where
    /// `parent` lists no such directory.
    pub fn rmdir(&self, uid: u32, parent: u64, name: &[u8]) -> (r: Result<PutINodeRequest, FsError>)
        requires
            self.cache@.wf(),
        ensures
            parent >= self.cache@.inodes.len() ==> r == Err::<PutINodeRequest, FsError>(
                FsError::NotFound,
            ),
            parent < self.cache@.inodes.len() ==> match first_index(
                self.cache@.children(parent as int),
                is_live_named(name@),
            ) {
                None => r == Err::<PutINodeRequest, FsError>(FsError::NotFound),
                Some(i) => {
                    let child = self.cache@.children(parent as int)[i];
                    if child.block.kind != Kind::Directory {
                        r == Err::<PutINodeRequest, FsError>(FsError::NotFound)
                    } else {
                        relays(
                            self.cache@,
                            uid,
                            child.ino,
                            self.cache@.inodes[child.ino as int].0.parent_hash,
                            self.cache@.removed(child.ino),
                            r,
                        )
                    }
                },
            },
    {
        self._delete(uid, parent, name, FileType::Directory)
    }

    /// The hashes of the blocks that a read of `size` bytes at `offset` from entry `ino`
    /// needs, in the order of their indices. `INode::read` makes the answer of their
    /// bytes.
    pub fn read(&self, ino: u64, offset: i64, size: u32) -> (r: Result<Vec<String>, FsError>)
        requires
            self.cache@.wf(),
        ensures
            match r {
                Ok(hashes) => {
                    let all = self.cache@.inodes[ino as int].0.block.hashes;
                    let b = self.cache@.block_size as int;
                    &&& ino < self.cache@.inodes.len()
                    &&& offset < 0 ==> hashes@.len() == 0
                    &&& offset >= 0 ==> strings_view(hashes@) == all.subrange(
                        read_first(all.len() as int, b, offset as int),
                        read_end(all.len() as int, b, offset as int, size as int),
                    )
                },
                Err(e) => ino >= self.cache@.inodes.len() && e == FsError::NotFound,
            },
    {
        match self.cache.get_inode(ino) {
            Some(entry) => Ok(entry.0.read_hashes(offset, size, self.cache.block_size())),
            None => Err(FsError::NotFound),
        }
    }

    /// The hashes of the two blocks that a write of `len` bytes at `offset` to the file
    /// `ino` needs the bytes of: the block that holds the offset and the block that
    /// holds the end of the range, where the file has them. Only a regular file is
    /// written.
    pub fn write(&self, ino: u64, offset: i64, len: usize) -> (r: Result<
        (Option<String>, Option<String>),
        FsError,
    >)
        requires
            self.cache@.wf(),
        ensures
            match r {
                Ok(plan) => {
                    let block = self.cache@.inodes[ino as int].0.block;
                    let b = self.cache@.block_size as int;
                    &&& ino < self.cache@.inodes.len()
                    &&& block.kind == Kind::RegularFile
                    &&& (len == 0 || write_error(b, offset as int, len as int) is Some) ==> plan.0
                        is None && plan.1 is None
                    &&& (len > 0 && write_error(b, offset as int, len as int) is None) ==> {
                        &&& hash_view(plan.0) == hash_at(block.hashes, offset as int / b)
                        &&& hash_view(plan.1) == hash_at(
                            block.hashes,
                            write_end(b, offset as int, len as int) - 1,
                        )
                    }
                },
                Err(e) => e == FsError::NotFound && (ino >= self.cache@.inodes.len()
                    || self.cache@.inodes[ino as int].0.block.kind != Kind::RegularFile),
            },
    {
        let entry = match self.cache.get_inode(ino) {
            Some(entry) => entry,
            None => {
                return Err(FsError::NotFound);
            },
        };
        match entry.0.block.kind {
            Kind::RegularFile => {},
            _ => {
                return Err(FsError::NotFound);
            },
        }
        Ok(entry.0.write_hashes(offset, len, self.cache.block_size()))
    }

    /// The request that records a write of `len` bytes at `offset` to the file `ino`
    /// whose blocks were stored under `hashes`: the file's revision with the new list
    /// of hashes and, where the write reaches beyond it, the new size. A write that the
    /// file view turns down is answered with `Io`.
    pub fn written(&self, uid: u32, ino: u64, offset: i64, len: usize, hashes: &Vec<String>) -> (r:
        Result<PutINodeRequest, FsError>)
        requires
            self.cache@.wf(),
        ensures
            ino >= self.cache@.inodes.len() ==> r == Err::<PutINodeRequest, FsError>(
                FsError::NotFound,
            ),
            ino < self.cache@.inodes.len() ==> {
                let node = self.cache@.inodes[ino as int].0;
                let b = self.cache@.block_size as int;
                if node.block.kind != Kind::RegularFile {
                    r == Err::<PutINodeRequest, FsError>(FsError::NotFound)
                } else if write_error(b, offset as int, len as int) is Some || hashes@.len()
                    != write_end(b, offset as int, len as int) - write_start(
                    node.block.hashes.len() as int,
                    b,
                    offset as int,
                ) {
                    r == Err::<PutINodeRequest, FsError>(FsError::Io)
                } else {
                    relays(
                        self.cache@,
                        uid,
                        ino,
                        node.parent_hash,
                        rewritten(
                            node.block,
                            b,
                            offset as int,
                            len as int,
                            strings_view(hashes@),
                        ),
                        r,
                    )
                }
            },
    {
        let entry = match self.cache.get_inode(ino) {
            Some(entry) => entry,
            None => {
                return Err(FsError::NotFound);
            },
        };
        let mut view = entry.0;
        match view.block.kind {
            Kind::RegularFile => {},
            _ => {
                return Err(FsError::NotFound);
            },
        }
        match view.write(offset, len, self.cache.block_size(), hashes) {
            Ok(()) => {},
            Err(_) => {
                return Err(FsError::Io);
            },
        }
        match self.cache.update(uid, ino, view.block) {
            Ok(request) => Ok(request),
            Err(e) => Err(fs_error(e)),
        }
    }

    /// The lines of the directory `ino` from position `offset` on: the directory itself
    /// as `.`, the directory that lists it as `..`, then its entries, without those that
    /// are marked as removed. There is nothing before position 0.
    pub fn readdir(&self, ino: u64, offset: i64) -> (r: Result<Vec<DirEntry>, FsError>)
        requires
            self.cache@.wf(),
        ensures
            match r {
                Ok(lines) => {
                    let list = dir_list(self.cache@, ino as int);
                    &&& ino < self.cache@.inodes.len()
                    &&& self.cache@.inodes[ino as int].0.block.kind == Kind::Directory
                    &&& offset < 0 ==> lines@.len() == 0
                    &&& offset >= 0 ==> entries_view(lines@) == listing(
                        list,
                        offset as int,
                        list.len() as int,
                    )
                },
                Err(e) => e == FsError::NotFound && (ino >= self.cache@.inodes.len()
                    || self.cache@.inodes[ino as int].0.block.kind != Kind::Directory),
            },
    {
        let (mut inode, mut children) = match self.cache.get_inode(ino) {
            Some(entry) => entry,
            None => {
                return Err(FsError::NotFound);
            },
        };
        match inode.block.kind {
            Kind::Directory => {},
            _ => {
                return Err(FsError::NotFound);
            },
        }
        let mut lines: Vec<DirEntry> = Vec::new();
        if offset < 0 {
            return Ok(lines);
        }
        let ghost want = dir_list(self.cache@, ino as int);
        let parent_ino = match self.cache.get_ino(&inode.parent_hash) {
            Some(p) => p,
            None => {
                // The cache holds the block of the directory that lists an entry.
                assert(false);
                return Err(FsError::NotFound);
            },
        };
        let mut parent = match self.cache.get_inode(parent_ino) {
            Some(entry) => entry.0,
            None => {
                assert(false);
                return Err(FsError::NotFound);
            },
        };
        parent.block.filename = vec![46u8, 46u8];
        inode.block.filename = vec![46u8];
        assert(parent.block.filename@ =~= seq![46u8, 46u8]);
        assert(inode.block.filename@ =~= seq![46u8]);
        let ghost listed = crate::cache::inodes_view(children@);
        children.insert(0, parent);
        children.insert(0, inode);
        let ghost list = crate::cache::inodes_view(children@);
        assert(list =~= want);
        let n: usize = children.len();
        let from: usize = if (offset as u64) < n as u64 {
            offset as usize
        } else {
            n
        };
        let mut i: usize = from;
        while i < n
            invariant
                from <= i <= n,
                n == children.len(),
                list == crate::cache::inodes_view(children@),
                from == offset || (from == n && offset >= n),
                entries_view(lines@) == listing(list, offset as int, i as int),
            decreases n - i,
        {
            let entry = &children[i];
            assert(list[i as int] == entry@);
            if !entry.is_deleted() {
                let ghost before = entries_view(lines@);
                lines.push(
                    DirEntry {
                        ino: entry.ino,
                        offset: i as u64 + 1,
                        kind: entry.get_file_type(),
                        name: entry.block.filename.clone(),
                    },
                );
                assert(entries_view(lines@) =~= before.push(entry_of(list[i as int], i as int)));
            }
            i += 1;
        }
        Ok(lines)
    }
}

/// A listing holds one line for every record from `from` up to `upto` that is not
/// marked as removed, and nothing else: every line is the line of such a record at its
/// position, every such record has its line, and the lines come in the order of the
/// positions, so that none comes twice.
pub proof fn lemma_listing(list: Seq<INodeView>, from: int, upto: int)
    requires
        0 <= from,
        upto <= list.len(),
        upto < u64::MAX,
    ensures
        forall|a: int|
            0 <= a < listing(list, from, upto).len() ==> exists|k: int|
                from <= k < upto && !list[k].block.kind.spec_is_deleted() && #[trigger] listing(
                    list,
                    from,
                    upto,
                )[a] == entry_of(list[k], k),
        forall|k: int|
            from <= k < upto && !(#[trigger] list[k]).block.kind.spec_is_deleted() ==> listing(
                list,
                from,
                upto,
            ).contains(entry_of(list[k], k)),
        forall|a: int, b: int|
            0 <= a < b < listing(list, from, upto).len() ==> (#[trigger] listing(
                list,
                from,
                upto,
            )[a]).offset < (#[trigger] listing(list, from, upto)[b]).offset,
        forall|a: int|
            0 <= a < listing(list, from, upto).len() ==> (#[trigger] listing(
                list,
                from,
                upto,
            )[a]).offset <= upto,
    decreases upto,
{
    let lines = listing(list, from, upto);
    if upto > from && upto > 0 {
        let rest = listing(list, from, upto - 1);
        lemma_listing(list, from, upto - 1);
        let last = list[upto - 1];
        if last.block.kind.spec_is_deleted() {
            assert(lines == rest);
            assert forall|a: int| 0 <= a < lines.len() implies exists|k: int|
                from <= k < upto && !list[k].block.kind.spec_is_deleted() && #[trigger] lines[a]
                    == entry_of(list[k], k) by {
                let k = choose|k: int|
                    from <= k < upto - 1 && !list[k].block.kind.spec_is_deleted() && rest[a]
                        == entry_of(list[k], k);
                assert(from <= k < upto && lines[a] == entry_of(list[k], k));
            }
            assert forall|k: int|
                from <= k < upto && !(#[trigger] list[k]).block.kind.spec_is_deleted() implies lines.contains(
                entry_of(list[k], k),
            ) by {
                assert(k < upto - 1);
            }
        } else {
            let line = entry_of(last, upto - 1);
            assert(lines == rest.push(line));
            assert(line.offset == upto);
            assert forall|a: int| 0 <= a < lines.len() implies exists|k: int|
                from <= k < upto && !list[k].block.kind.spec_is_deleted() && #[trigger] lines[a]
                    == entry_of(list[k], k) by {
                if a < rest.len() {
                    let k = choose|k: int|
                        from <= k < upto - 1 && !list[k].block.kind.spec_is_deleted() && rest[a]
                            == entry_of(list[k], k);
                    assert(from <= k < upto && lines[a] == entry_of(list[k], k));
                } else {
                    assert(lines[a] == entry_of(list[upto - 1], upto - 1));
                }
            }
            assert forall|k: int|
                from <= k < upto && !(#[trigger] list[k]).block.kind.spec_is_deleted() implies lines.contains(
                entry_of(list[k], k),
            ) by {
                if k < upto - 1 {
                    assert(rest.contains(entry_of(list[k], k)));
                    let a = choose|a: int| 0 <= a < rest.len() && rest[a] == entry_of(list[k], k);
                    assert(lines[a] == entry_of(list[k], k));
                } else {
                    assert(lines[lines.len() - 1] == line);
                }
            }
            assert forall|a: int, b: int| 0 <= a < b < lines.len() implies (#[trigger] lines[a]).offset
                < (#[trigger] lines[b]).offset by {
                if b < rest.len() {
                    assert(rest[a].offset < rest[b].offset);
                } else {
                    assert(rest[a].offset <= upto - 1);
                }
            }
        }
    }
}

/// The lines of the records before position `m` open the listing where none of these
/// records is marked as removed: line `k` is the line of record `k`.
pub proof fn lemma_listing_opens(list: Seq<INodeView>, m: int, upto: int)
    requires
        0 <= m <= upto <= list.len(),
        forall|k: int| 0 <= k < m ==> !(#[trigger] list[k]).block.kind.spec_is_deleted(),
    ensures
        listing(list, 0, upto).len() >= m,
        upto == m ==> listing(list, 0, upto).len() == m,
        forall|k: int| 0 <= k < m ==> #[trigger] listing(list, 0, upto)[k] == entry_of(list[k], k),
    decreases upto,
{
    let lines = listing(list, 0, upto);
    if upto > 0 {
        let rest = listing(list, 0, upto - 1);
        if upto > m {
            lemma_listing_opens(list, m, upto - 1);
            assert forall|k: int| 0 <= k < m implies #[trigger] lines[k] == entry_of(list[k], k) by {
                assert(rest[k] == entry_of(list[k], k));
            }
        } else {
            lemma_listing_opens(list, m - 1, upto - 1);
            assert(!list[m - 1].block.kind.spec_is_deleted());
            assert(lines == rest.push(entry_of(list[m - 1], m - 1)));
            assert forall|k: int| 0 <= k < m implies #[trigger] lines[k] == entry_of(list[k], k) by {
                if k < m - 1 {
                    assert(rest[k] == entry_of(list[k], k));
                }
            }
        }
    }
}

/// The block that a capsule stores of a request that the cache made: it carries the
/// revision and the predecessor that the request was made for, and the time of the put;
/// and the capsule holds every block that it held, unchanged.
proof fn lemma_request_is_stored(
    c: CacheView,
    capsule: MyDataCapsuleView,
    uid: u32,
    ino: u64,
    prev_hash: Seq<char>,
    revision: INodeBlockView,
    request: PutINodeRequest,
    timestamp: i64,
)
    requires
        relays(c, uid, ino, prev_hash, revision, Ok(request)),
        capsule.put_error(request.block@, timestamp) is None,
    ensures
        capsule.put_block(request.block@, timestamp).fs.block == BlockView::Inode(revision),
        capsule.put_block(request.block@, timestamp).prev_hash == prev_hash,
        capsule.put_block(request.block@, timestamp).timestamp == timestamp,
        capsule.put(request.block@, timestamp).data.content.contains_key(
            capsule.put_hash(request.block@, timestamp),
        ),
        forall|h: Seq<char>|
            #[trigger] capsule.data.content.contains_key(h) ==> capsule.put(
                request.block@,
                timestamp,
            ).data.content.contains_key(h) && capsule.put(
                request.block@,
                timestamp,
            ).data.content[h] == capsule.data.content[h],
{
    let fs = request.block@;
    let sent = c.outgoing(uid, prev_hash, revision);
    assert(c.middleware->Some_0.signed(sent) == Some(fs));
    assert(fs.block == sent.block && fs.prev_hash == sent.prev_hash);
    let block = capsule.put_block(fs, timestamp);
    assert(block.fs == fs);
}

/// The listing of a directory after one of its files was removed: it opens with the
/// directory itself, names no entry under the name of the file, names every other
/// entry that the directory listed as live, and names none twice.
proof fn lemma_listing_after_removal(
    before: CacheView,
    after: CacheView,
    parent: int,
    name: Seq<u8>,
    i: int,
    node: INodeView,
)
    requires
        before.wf(),
        0 <= parent < before.inodes.len(),
        before.inodes.len() == after.inodes.len(),
        before.children(parent).len() + 2 < u64::MAX,
        0 <= i < before.children(parent).len(),
        before.children(parent)[i].block.filename == name,
        before.inodes[parent].0.block.kind == Kind::Directory,
        after.inodes[parent].0 == before.inodes[parent].0,
        after.children(parent) == before.children(parent).remove(i).push(node),
        node.block.kind.spec_is_deleted(),
    ensures
        ({
            let lines = listing(
                dir_list(after, parent),
                0,
                dir_list(after, parent).len() as int,
            );
            &&& lines.len() >= 1
            &&& lines[0] == entry_of(renamed(before.inodes[parent].0, seq![46u8]), 0)
            &&& forall|a: int|
                0 <= a < lines.len() && (#[trigger] lines[a]).offset > 2 ==> lines[a].name != name
            &&& forall|k: int|
                0 <= k < before.children(parent).len() && k != i && !(#[trigger] before.children(
                    parent,
                )[k]).block.kind.spec_is_deleted() ==> exists|a: int|
                    0 <= a < lines.len() && (#[trigger] lines[a]).offset > 2 && lines[a].ino
                        == before.children(parent)[k].ino && lines[a].name == before.children(
                        parent,
                    )[k].block.filename
            &&& forall|a: int, b: int|
                0 <= a < b < lines.len() ==> (#[trigger] lines[a]).offset < (
                #[trigger] lines[b]).offset
        }),
{
    let list = before.children(parent);
    let now = after.children(parent);
    let full = dir_list(after, parent);
    assert(full.len() == now.len() + 2);
    assert(full[0] == renamed(before.inodes[parent].0, seq![46u8]));
    assert forall|k: int| 2 <= k < full.len() implies #[trigger] full[k] == now[k - 2] by {}
    lemma_listing(full, 0, full.len() as int);
    lemma_listing_opens(full, 1, full.len() as int);
    let lines = listing(full, 0, full.len() as int);
    assert forall|a: int| 0 <= a < lines.len() && (#[trigger] lines[a]).offset > 2 implies lines[a].name
        != name by {
        let k = choose|k: int|
            0 <= k < full.len() && !full[k].block.kind.spec_is_deleted() && lines[a] == entry_of(
                full[k],
                k,
            );
        assert(k >= 2);
        assert(full[k] == now[k - 2]);
        if k - 2 < now.len() - 1 {
            let src = if k - 2 < i { k - 2 } else { k - 1 };
            assert(now[k - 2] == list[src]);
            assert(list[src].block.filename != list[i].block.filename);
        } else {
            assert(now[k - 2] == node);
        }
    }
    assert forall|k: int|
        0 <= k < list.len() && k != i && !(#[trigger] list[k]).block.kind.spec_is_deleted() implies exists|
        a: int,
    |
        0 <= a < lines.len() && (#[trigger] lines[a]).offset > 2 && lines[a].ino == list[k].ino
            && lines[a].name == list[k].block.filename by {
        let dst = if k < i { k } else { k - 1 };
        assert(now[dst] == list[k]);
        assert(full[dst + 2] == now[dst]);
        assert(lines.contains(entry_of(full[dst + 2], dst + 2)));
        let a = choose|a: int| 0 <= a < lines.len() && lines[a] == entry_of(full[dst + 2], dst + 2);
        assert(lines[a].offset > 2);
    }
}

/// An unlinked file is gone and its revisions stay. Take a file that a directory lists
/// under `name`, the request that `unlink` makes for it, a capsule that stores the
/// request's block at a time no earlier than the file's revision, and a cache that
/// brings the stored block in. Then the capsule holds every block that it held, unchanged;
/// a lookup of the name finds nothing; the slot of the file still holds the file, marked
/// as removed; and the listing of the directory names no entry `name`, names all the
/// other entries that it named, each once, and opens with the directory itself.
pub proof fn lemma_unlink_then_gone(
    c: CacheView,
    capsule: MyDataCapsuleView,
    uid: u32,
    parent: int,
    name: Seq<u8>,
    i: int,
    request: PutINodeRequest,
    timestamp: i64,
)
    requires
        c.wf(),
        c.inodes.len() + 2 < u64::MAX,
        0 <= parent < c.inodes.len(),
        c.inodes[parent].0.block.kind == Kind::Directory,
        c.children(parent).len() + 2 < u64::MAX,
        first_index(c.children(parent), is_live_named(name)) == Some(i),
        0 <= i < c.children(parent).len(),
        relays(
            c,
            uid,
            c.children(parent)[i].ino,
            c.inodes[c.children(parent)[i].ino as int].0.parent_hash,
            c.removed(c.children(parent)[i].ino),
            Ok(request),
        ),
        capsule.put_error(request.block@, timestamp) is None,
        !c.knows(capsule.put_hash(request.block@, timestamp)),
        timestamp >= c.children(parent)[i].timestamp,
    ensures
        ({
            let hash = capsule.put_hash(request.block@, timestamp);
            let block = capsule.put_block(request.block@, timestamp);
            let held = capsule.put(request.block@, timestamp);
            let after = c.offer(hash, block);
            let child = c.children(parent)[i];
            let lines = listing(
                dir_list(after, parent),
                0,
                dir_list(after, parent).len() as int,
            );
            &&& forall|h: Seq<char>|
                #[trigger] capsule.data.content.contains_key(h) ==> held.data.content.contains_key(h)
                    && held.data.content[h] == capsule.data.content[h]
            &&& held.data.content.contains_key(hash)
            &&& block.fs.block == BlockView::Inode(c.removed(child.ino))
            &&& after.wf()
            &&& after.inodes.len() == c.inodes.len()
            &&& first_index(after.children(parent), is_live_named(name)) is None
            &&& after.inodes[child.ino as int].0.ino == child.ino
            &&& after.inodes[child.ino as int].0.block.kind.spec_is_deleted()
            &&& after.inodes[child.ino as int].0.block.size == 0
            &&& after.inodes[child.ino as int].0.block.hashes.len() == 0
            &&& lines.len() >= 1
            &&& lines[0] == entry_of(renamed(c.inodes[parent].0, seq![46u8]), 0)
            &&& forall|a: int|
                0 <= a < lines.len() && (#[trigger] lines[a]).offset > 2 ==> lines[a].name != name
            &&& forall|k: int|
                0 <= k < c.children(parent).len() && k != i && !(#[trigger] c.children(
                    parent,
                )[k]).block.kind.spec_is_deleted() ==> exists|a: int|
                    0 <= a < lines.len() && (#[trigger] lines[a]).offset > 2 && lines[a].ino
                        == c.children(parent)[k].ino && lines[a].name == c.children(
                        parent,
                    )[k].block.filename
            &&& forall|a: int, b: int|
                0 <= a < b < lines.len() ==> (#[trigger] lines[a]).offset < (
                #[trigger] lines[b]).offset
        }),
{
    let hash = capsule.put_hash(request.block@, timestamp);
    let block = capsule.put_block(request.block@, timestamp);
    let list = c.children(parent);
    let child = list[i];
    crate::search::lemma_first_index(list, is_live_named(name));
    assert(child == c.inodes[child.ino as int].0);
    lemma_request_is_stored(
        c,
        capsule,
        uid,
        child.ino,
        c.inodes[child.ino as int].0.parent_hash,
        c.removed(child.ino),
        request,
        timestamp,
    );
    lemma_removed_is_gone(c, parent, name, i, hash, block);
    let after = c.offer(hash, block);
    lemma_listing_after_removal(c, after, parent, name, i, after.inodes[child.ino as int].0);
}

/// A created entry is found and listed. Take the request that `create` or `mkdir`
/// makes for the name `name` under a directory, a capsule that stores the request's
/// block at a time no earlier than any revision that the directory lists under the
/// name, and a cache that brings the stored block in. Then a lookup of the name finds
/// the new entry, which is empty and of the kind asked for, the slot of the entry holds
/// it, and the listing of the directory has a line for it.
pub proof fn lemma_create_then_found(
    c: CacheView,
    capsule: MyDataCapsuleView,
    uid: u32,
    parent: u64,
    name: Seq<u8>,
    kind: Kind,
    request: PutINodeRequest,
    timestamp: i64,
)
    requires
        c.wf(),
        c.inodes.len() + 3 < u64::MAX,
        c.children(parent as int).len() + 3 < u64::MAX,
        1 <= parent < c.inodes.len(),
        !kind.spec_is_deleted(),
        relays(
            c,
            uid,
            parent,
            c.inodes[parent as int].0.hash,
            c.fresh(parent, name, kind),
            Ok(request),
        ),
        capsule.put_error(request.block@, timestamp) is None,
        !c.knows(capsule.put_hash(request.block@, timestamp)),
        c.entry_time(parent as int, name) is Some ==> c.entry_time(parent as int, name)->Some_0
            <= timestamp,
    ensures
        ({
            let hash = capsule.put_hash(request.block@, timestamp);
            let block = capsule.put_block(request.block@, timestamp);
            let after = c.offer(hash, block);
            let found = first_index(after.children(parent as int), is_live_named(name));
            let lines = listing(
                dir_list(after, parent as int),
                0,
                dir_list(after, parent as int).len() as int,
            );
            &&& after.wf()
            &&& found is Some
            &&& 0 <= found->Some_0 < after.children(parent as int).len()
            &&& after.children(parent as int)[found->Some_0].block == c.fresh(parent, name, kind)
            &&& after.children(parent as int)[found->Some_0].block.size == 0
            &&& after.children(parent as int)[found->Some_0].hash == hash
            &&& after.inodes[after.hash_to_ino[hash] as int].0 == after.children(
                parent as int,
            )[found->Some_0]
            &&& lines.contains(
                entry_of(after.children(parent as int)[found->Some_0], found->Some_0 + 2),
            )
        }),
{
    let hash = capsule.put_hash(request.block@, timestamp);
    let block = capsule.put_block(request.block@, timestamp);
    lemma_request_is_stored(
        c,
        capsule,
        uid,
        parent,
        c.inodes[parent as int].0.hash,
        c.fresh(parent, name, kind),
        request,
        timestamp,
    );
    assert(c.knows(c.inodes[parent as int].0.hash));
    assert(c.parent_of(block) == parent);
    assert(c.takes(hash, block));
    let p = parent as int;
    let grown = c.ingest(hash, block);
    assert(grown.inodes.len() <= c.inodes.len() + 1 && grown.children(p).len() <= c.children(
        p,
    ).len() + 1) by {
        crate::search::lemma_first_index(c.children(p), is_named(name));
        match first_index(c.children(p), is_named(name)) {
            Some(k) => {
                let seen = c.children(p)[k];
                assert(2 <= seen.ino < c.inodes.len() && seen.ino != p);
            },
            None => {},
        }
    }
    lemma_created_is_found(c, hash, block);
    let after = c.offer(hash, block);
    let at = first_index(after.children(p), is_live_named(name))->Some_0;
    let full = dir_list(after, p);
    assert(full.len() == after.children(p).len() + 2);
    assert(full[at + 2] == after.children(p)[at]);
    lemma_listing(full, 0, full.len() as int);
}

} // verus!
