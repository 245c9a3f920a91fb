//! The inode cache: the directory tree of a mount, rebuilt from the blocks of the inode
//! capsule and kept up to date as new revisions come in.

use vstd::prelude::*;
use vstd::hash_map::StringHashMap;
use crate::block::{
    bytes_eq, clone_ids, Block, BlockView, CapsuleBlockView, DataCapsuleBlock,
    DataCapsuleFileSystemBlock, FileSystemBlockView, INodeBlock, INodeBlockView, Kind,
};
use crate::client::{FSMiddlewareClient, MiddlewareClientView, PutINodeRequest};
use crate::inode::{INode, INodeView};
use crate::search::{first_index, lemma_first_index, lemma_first_index_is};

verus! {

/// Why the cache turned a block or a request down.
#[derive(Debug, Clone, Copy, PartialEq, Eq, Structural)]
pub enum CacheError {
    /// The block follows a block that the cache does not hold.
    UnknownParent,
    /// The block holds file data where a directory entry was expected.
    NotAnInode,
    /// The root block does not describe a directory.
    NotADirectory,
    /// No entry has this inode number.
    NoSuchInode,
    /// The mount has no signing middleware, so it cannot write.
    ReadOnly,
    /// The middleware could not sign the record.
    Unsigned,
}

/// The views of a list of inode records.
pub open spec fn inodes_view(s: Seq<INode>) -> Seq<INodeView> {
    s.map_values(|n: INode| n@)
}

/// The view of one slot of the cache: a record and the entries listed under it.
pub open spec fn entry_view(e: (INode, Vec<INode>)) -> (INodeView, Seq<INodeView>) {
    (e.0@, inodes_view(e.1@))
}

/// Whether a record carries the file name `name`.
pub open spec fn is_named(name: Seq<u8>) -> spec_fn(INodeView) -> bool {
    |c: INodeView| c.block.filename == name
}

/// Whether a record carries the file name `name` and is not marked as removed.
pub open spec fn is_live_named(name: Seq<u8>) -> spec_fn(INodeView) -> bool {
    |c: INodeView| c.block.filename == name && !c.block.kind.spec_is_deleted()
}

/// The mathematical state of the cache.
pub struct CacheView {
    /// Slot `ino` holds the current revision of entry `ino` and the entries listed
    /// under it. Slot 0 is unused, slot 1 is the root directory.
    pub inodes: Seq<(INodeView, Seq<INodeView>)>,
    /// The inode number of every block that was brought in.
    pub hash_to_ino: Map<Seq<char>, u64>,
    /// The block that new data blocks follow.
    pub data_root: Seq<char>,
    /// The number of bytes in one data block.
    pub block_size: u32,
    /// The signer of the mount; a mount without one cannot write.
    pub middleware: Option<MiddlewareClientView>,
}

impl CacheView {
    /// The entries listed under slot `p`.
    pub open spec fn children(self, p: int) -> Seq<INodeView> {
        self.inodes[p].1
    }

    /// Whether the cache holds the block with this address.
    pub open spec fn knows(self, hash: Seq<char>) -> bool {
        self.hash_to_ino.contains_key(hash)
    }

    /// What every state of the cache satisfies.
    pub open spec fn wf(self) -> bool {
        &&& self.block_size > 0
        &&& self.inodes.len() >= 2
        &&& self.inodes[0].0.ino == 1
        &&& forall|k: int| 1 <= k < self.inodes.len() ==> (#[trigger] self.inodes[k]).0.ino == k
        &&& forall|k: int|
            0 <= k < self.inodes.len() ==> self.knows((#[trigger] self.inodes[k]).0.parent_hash)
        &&& forall|h: Seq<char>|
            self.knows(h) ==> 1 <= #[trigger] self.hash_to_ino[h] < self.inodes.len()
        &&& forall|p: int, i: int|
            0 <= p < self.inodes.len() && 0 <= i < self.children(p).len() ==> {
                let c = #[trigger] self.children(p)[i];
                2 <= c.ino < self.inodes.len() && c.ino != p
            }
        &&& forall|p: int, i: int, j: int|
            0 <= p < self.inodes.len() && 0 <= i < self.children(p).len() && 0 <= j
                < self.children(p).len() && (#[trigger] self.children(p)[i]).block.filename == (
            #[trigger] self.children(p)[j]).block.filename ==> i == j
        &&& forall|k: int|
            1 <= k < self.inodes.len() ==> self.knows((#[trigger] self.inodes[k]).0.hash)
                && self.hash_to_ino[self.inodes[k].0.hash] == k
        &&& forall|p: int, i: int|
            0 <= p < self.inodes.len() && 0 <= i < self.children(p).len() ==> {
                let c = #[trigger] self.children(p)[i];
                &&& c == self.inodes[c.ino as int].0
                &&& self.knows(c.parent_hash)
                &&& self.hash_to_ino[c.parent_hash] == p
            }
    }

    /// Whether a block that is handed in under the address `hash` is brought in: the
    /// cache does not hold the address yet, and the block meets no error.
    pub open spec fn takes(self, hash: Seq<char>, block: CapsuleBlockView) -> bool {
        !self.knows(hash) && self.ingest_error(block) is None
    }

    /// The error that a block handed in under the address `hash` meets, if any: none
    /// where the cache holds the address already.
    pub open spec fn offer_error(self, hash: Seq<char>, block: CapsuleBlockView) -> Option<
        CacheError,
    > {
        if self.knows(hash) {
            None
        } else {
            self.ingest_error(block)
        }
    }

    /// The error that bringing in a block meets, if any.
    pub open spec fn ingest_error(self, block: CapsuleBlockView) -> Option<CacheError> {
        if !self.knows(block.prev_hash) {
            Some(CacheError::UnknownParent)
        } else if block.fs.block is Data {
            Some(CacheError::NotAnInode)
        } else {
            None
        }
    }

    /// The slot of the directory that a block belongs to.
    pub open spec fn parent_of(self, block: CapsuleBlockView) -> int {
        self.hash_to_ino[block.prev_hash] as int
    }

    /// The record that the cache makes of a block under inode number `ino`.
    pub open spec fn record(self, hash: Seq<char>, block: CapsuleBlockView, ino: u64) -> INodeView {
        INodeView {
            hash,
            ino,
            parent_hash: block.prev_hash,
            block: block.fs.block->Inode_0,
            timestamp: block.timestamp,
            prev_data_hash: self.data_root,
        }
    }

    /// The state after a block that meets no error was brought in. A revision of an
    /// entry that its directory already lists under the same name takes that entry's
    /// place and inode number, unless the listed revision is later: then nothing
    /// changes. Any other block becomes a new entry with the next free inode number.
    pub open spec fn ingest(self, hash: Seq<char>, block: CapsuleBlockView) -> CacheView {
        let p = self.parent_of(block);
        let name = block.fs.block->Inode_0.filename;
        match first_index(self.children(p), is_named(name)) {
            Some(i) => {
                let seen = self.children(p)[i];
                if seen.timestamp > block.timestamp {
                    self
                } else {
                    let node = self.record(hash, block, seen.ino);
                    let replaced = self.inodes.update(seen.ino as int, (node, Seq::empty()));
                    CacheView {
                        inodes: replaced.update(
                            p,
                            (replaced[p].0, replaced[p].1.remove(i).push(node)),
                        ),
                        hash_to_ino: self.hash_to_ino.insert(hash, seen.ino),
                        ..self
                    }
                }
            },
            None => {
                let node = self.record(hash, block, self.inodes.len() as u64);
                let grown = self.inodes.push((node, Seq::empty()));
                CacheView {
                    inodes: grown.update(p, (grown[p].0, grown[p].1.push(node))),
                    hash_to_ino: self.hash_to_ino.insert(hash, self.inodes.len() as u64),
                    ..self
                }
            },
        }
    }

    /// The error that a request of the user `uid` to write entry `ino` meets before
    /// anything is signed, if any.
    pub open spec fn write_error(self, uid: u32, ino: u64) -> Option<CacheError> {
        if ino >= self.inodes.len() {
            Some(CacheError::NoSuchInode)
        } else {
            match self.middleware {
                None => Some(CacheError::ReadOnly),
                Some(m) => if m.id(uid as u64) is None {
                    Some(CacheError::Unsigned)
                } else {
                    None
                },
            }
        }
    }

    /// The file-system block that carries the revision `block` of a directory entry,
    /// written by the user `uid`, before it is signed.
    pub open spec fn outgoing(self, uid: u32, prev_hash: Seq<char>, block: INodeBlockView) -> FileSystemBlockView {
        FileSystemBlockView {
            prev_hash,
            block: BlockView::Inode(block),
            updated_by: self.middleware->Some_0.id(uid as u64)->Some_0,
            signature: Seq::empty(),
        }
    }

    /// Whether `r` is the answer to a request of the user `uid` to write entry `ino`
    /// with the revision `block` that follows `prev_hash`: the signed file-system block,
    /// or the error that the request meets.
    pub open spec fn answers(
        self,
        uid: u32,
        ino: u64,
        prev_hash: Seq<char>,
        block: INodeBlockView,
        r: Result<PutINodeRequest, CacheError>,
    ) -> bool {
        match r {
            Ok(request) => self.write_error(uid, ino) is None && self.middleware->Some_0.signed(
                self.outgoing(uid, prev_hash, block),
            ) == Some(request.block@),
            Err(e) => match self.write_error(uid, ino) {
                Some(w) => e == w,
                None => e == CacheError::Unsigned && self.middleware->Some_0.signed(
                    self.outgoing(uid, prev_hash, block),
                ) is None,
            },
        }
    }

    /// The first revision of an entry named `name` of the kind `kind` under the directory
    /// in slot `parent`: empty, with the directory's allow list.
    pub open spec fn fresh(self, parent: u64, name: Seq<u8>, kind: Kind) -> INodeBlockView {
        INodeBlockView {
            filename: name,
            size: 0,
            kind,
            hashes: Seq::empty(),
            write_allow_list: self.inodes[parent as int].0.block.write_allow_list,
        }
    }

    /// The revision that marks the entry in slot `ino` as removed: its kind turned into
    /// the removed kind, without size and without data.
    pub open spec fn removed(self, ino: u64) -> INodeBlockView {
        INodeBlockView {
            size: 0,
            kind: self.inodes[ino as int].0.block.kind.spec_deleted(),
            hashes: Seq::empty(),
            ..self.inodes[ino as int].0.block
        }
    }

    /// The state after a block was handed in under the address `hash`: unchanged where
    /// the cache holds the address already or the block meets an error.
    pub open spec fn offer(self, hash: Seq<char>, block: CapsuleBlockView) -> CacheView {
        if self.takes(hash, block) {
            self.ingest(hash, block)
        } else {
            self
        }
    }
}

/// Bringing in a block keeps every record under the address that maps to its slot, and
/// every listed entry equal to the record in its slot and listed under the directory that
/// its parent address maps to.
proof fn lemma_ingest_links(c: CacheView, hash: Seq<char>, block: CapsuleBlockView)
    requires
        c.wf(),
        c.ingest(hash, block).inodes.len() <= u64::MAX,
        c.takes(hash, block),
    ensures
        forall|k: int|
            1 <= k < c.ingest(hash, block).inodes.len() ==> c.ingest(hash, block).knows(
                (#[trigger] c.ingest(hash, block).inodes[k]).0.hash,
            ) && c.ingest(hash, block).hash_to_ino[c.ingest(hash, block).inodes[k].0.hash] == k,
        forall|q: int, a: int|
            0 <= q < c.ingest(hash, block).inodes.len() && 0 <= a < c.ingest(
                hash,
                block,
            ).children(q).len() ==> {
                let ch = #[trigger] c.ingest(hash, block).children(q)[a];
                &&& ch == c.ingest(hash, block).inodes[ch.ino as int].0
                &&& c.ingest(hash, block).knows(ch.parent_hash)
                &&& c.ingest(hash, block).hash_to_ino[ch.parent_hash] == q
            },
{
    let after = c.ingest(hash, block);
    let p = c.parent_of(block);
    let name = block.fs.block->Inode_0.filename;
    lemma_first_index(c.children(p), is_named(name));
    assert(1 <= c.hash_to_ino[block.prev_hash] < c.inodes.len());
    assert(block.prev_hash != hash);
    match first_index(c.children(p), is_named(name)) {
        Some(i) => {
            let seen = c.children(p)[i];
            if seen.timestamp <= block.timestamp {
                let ino = seen.ino as int;
                let node = c.record(hash, block, seen.ino);
                assert(2 <= ino < c.inodes.len() && ino != p);
                assert(seen == c.inodes[ino].0);
                assert(after.inodes.len() == c.inodes.len());
                assert(after.inodes[ino].0 == node);
                assert(after.children(p) == c.children(p).remove(i).push(node));
                assert(after.children(ino) == Seq::<INodeView>::empty());
                assert forall|k: int| 1 <= k < after.inodes.len() implies after.knows(
                    (#[trigger] after.inodes[k]).0.hash,
                ) && after.hash_to_ino[after.inodes[k].0.hash] == k by {
                    if k != ino {
                        assert(after.inodes[k].0 == c.inodes[k].0);
                        assert(c.knows(c.inodes[k].0.hash));
                    }
                }
                assert forall|q: int, a: int|
                    0 <= q < after.inodes.len() && 0 <= a < after.children(q).len() implies {
                    let ch = #[trigger] after.children(q)[a];
                    &&& ch == after.inodes[ch.ino as int].0
                    &&& after.knows(ch.parent_hash)
                    &&& after.hash_to_ino[ch.parent_hash] == q
                } by {
                    let ch = after.children(q)[a];
                    if q == p {
                        if a < c.children(p).len() - 1 {
                            let src = if a < i { a } else { a + 1 };
                            assert(ch == c.children(p)[src]);
                            assert(ch == c.inodes[ch.ino as int].0);
                            if ch.ino == seen.ino {
                                assert(c.children(p)[src].block.filename == c.children(
                                    p,
                                )[i].block.filename);
                            }
                            assert(after.inodes[ch.ino as int].0 == c.inodes[ch.ino as int].0);
                            assert(c.knows(ch.parent_hash));
                        } else {
                            assert(ch == node);
                        }
                    } else if q != ino {
                        assert(ch == c.children(q)[a]);
                        assert(ch == c.inodes[ch.ino as int].0);
                        assert(c.hash_to_ino[ch.parent_hash] == q);
                        if ch.ino == seen.ino {
                            assert(c.hash_to_ino[seen.parent_hash] == p);
                        }
                        assert(after.inodes[ch.ino as int].0 == c.inodes[ch.ino as int].0);
                        assert(c.knows(ch.parent_hash));
                    }
                }
            }
        },
        None => {
            let ino = c.inodes.len() as int;
            let node = c.record(hash, block, ino as u64);
            assert(after.inodes.len() == ino + 1);
            assert(after.children(p) == c.children(p).push(node));
            assert(after.children(ino) == Seq::<INodeView>::empty());
            assert(after.inodes[ino].0 == node);
            assert forall|k: int| 1 <= k < after.inodes.len() implies after.knows(
                (#[trigger] after.inodes[k]).0.hash,
            ) && after.hash_to_ino[after.inodes[k].0.hash] == k by {
                if k != ino {
                    assert(after.inodes[k].0 == c.inodes[k].0);
                    assert(c.knows(c.inodes[k].0.hash));
                }
            }
            assert forall|q: int, a: int|
                0 <= q < after.inodes.len() && 0 <= a < after.children(q).len() implies {
                let ch = #[trigger] after.children(q)[a];
                &&& ch == after.inodes[ch.ino as int].0
                &&& after.knows(ch.parent_hash)
                &&& after.hash_to_ino[ch.parent_hash] == q
            } by {
                let ch = after.children(q)[a];
                if q == p {
                    if a < c.children(p).len() {
                        assert(ch == c.children(p)[a]);
                        assert(ch == c.inodes[ch.ino as int].0);
                        assert(after.inodes[ch.ino as int].0 == c.inodes[ch.ino as int].0);
                        assert(c.knows(ch.parent_hash));
                    } else {
                        assert(ch == node);
                    }
                } else if q != ino {
                    assert(ch == c.children(q)[a]);
                    assert(ch == c.inodes[ch.ino as int].0);
                    assert(after.inodes[ch.ino as int].0 == c.inodes[ch.ino as int].0);
                    assert(c.knows(ch.parent_hash));
                }
            }
        },
    }
}

/// Bringing in a block under an address that the cache does not hold yet keeps the
/// cache well formed.
pub proof fn lemma_ingest_wf(c: CacheView, hash: Seq<char>, block: CapsuleBlockView)
    requires
        c.wf(),
        c.ingest(hash, block).inodes.len() <= u64::MAX,
        c.takes(hash, block),
    ensures
        c.ingest(hash, block).wf(),
{
    let after = c.ingest(hash, block);
    let p = c.parent_of(block);
    let name = block.fs.block->Inode_0.filename;
    lemma_first_index(c.children(p), is_named(name));
    lemma_ingest_links(c, hash, block);
    assert(1 <= c.hash_to_ino[block.prev_hash] < c.inodes.len());
    match first_index(c.children(p), is_named(name)) {
        Some(i) => {
            let seen = c.children(p)[i];
            if seen.timestamp <= block.timestamp {
                let node = c.record(hash, block, seen.ino);
                let ino = seen.ino as int;
                assert(2 <= ino < c.inodes.len() && ino != p);
                assert(after.inodes.len() == c.inodes.len());
                assert(after.children(p) == c.children(p).remove(i).push(node));
                assert(after.children(ino) == Seq::<INodeView>::empty());
                assert forall|q: int, a: int|
                    0 <= q < after.inodes.len() && 0 <= a < after.children(q).len() implies {
                    let ch = #[trigger] after.children(q)[a];
                    2 <= ch.ino < after.inodes.len() && ch.ino != q
                } by {
                    if q == p {
                        if a < c.children(p).len() - 1 {
                            let src = if a < i { a } else { a + 1 };
                            assert(after.children(p)[a] == c.children(p)[src]);
                        }
                    } else if q != ino {
                        assert(after.children(q)[a] == c.children(q)[a]);
                    }
                }
                assert forall|q: int, a: int, b: int|
                    0 <= q < after.inodes.len() && 0 <= a < after.children(q).len() && 0 <= b
                        < after.children(q).len() && (#[trigger] after.children(
                        q,
                    )[a]).block.filename == (#[trigger] after.children(q)[b]).block.filename implies a
                    == b by {
                    if q == p {
                        let m = c.children(p).len() - 1;
                        let sa = if a < i { a } else { a + 1 };
                        let sb = if b < i { b } else { b + 1 };
                        if a < m {
                            assert(after.children(p)[a] == c.children(p)[sa]);
                        }
                        if b < m {
                            assert(after.children(p)[b] == c.children(p)[sb]);
                        }
                        if a < m && b < m {
                            assert(sa == sb);
                        } else if a < m {
                            assert(c.children(p)[sa].block.filename == c.children(
                                p,
                            )[i].block.filename);
                        } else if b < m {
                            assert(c.children(p)[sb].block.filename == c.children(
                                p,
                            )[i].block.filename);
                        }
                    } else if q != ino {
                        assert(after.children(q)[a] == c.children(q)[a]);
                        assert(after.children(q)[b] == c.children(q)[b]);
                    }
                }
                assert forall|k: int| 0 <= k < after.inodes.len() implies after.knows(
                    (#[trigger] after.inodes[k]).0.parent_hash,
                ) by {
                    if k != ino {
                        assert(after.inodes[k].0 == c.inodes[k].0);
                    }
                }
                assert forall|k: int| 1 <= k < after.inodes.len() implies (
                #[trigger] after.inodes[k]).0.ino == k by {
                    if k != ino {
                        assert(after.inodes[k].0 == c.inodes[k].0);
                    }
                }
                assert(after.inodes[0].0 == c.inodes[0].0);
            }
        },
        None => {
            let ino = c.inodes.len() as int;
            let node = c.record(hash, block, ino as u64);
            assert(after.inodes.len() == ino + 1);
            assert(after.children(p) == c.children(p).push(node));
            assert(after.children(ino) == Seq::<INodeView>::empty());
            assert forall|q: int, a: int|
                0 <= q < after.inodes.len() && 0 <= a < after.children(q).len() implies {
                let ch = #[trigger] after.children(q)[a];
                2 <= ch.ino < after.inodes.len() && ch.ino != q
            } by {
                if q == p {
                    if a < c.children(p).len() {
                        assert(after.children(p)[a] == c.children(p)[a]);
                    }
                } else if q != ino {
                    assert(after.children(q)[a] == c.children(q)[a]);
                }
            }
            assert forall|q: int, a: int, b: int|
                0 <= q < after.inodes.len() && 0 <= a < after.children(q).len() && 0 <= b
                    < after.children(q).len() && (#[trigger] after.children(q)[a]).block.filename
                    == (#[trigger] after.children(q)[b]).block.filename implies a == b by {
                if q == p {
                    let m = c.children(p).len();
                    if a < m {
                        assert(after.children(p)[a] == c.children(p)[a]);
                        assert(!is_named(name)(c.children(p)[a]));
                    }
                    if b < m {
                        assert(after.children(p)[b] == c.children(p)[b]);
                        assert(!is_named(name)(c.children(p)[b]));
                    }
                } else if q != ino {
                    assert(after.children(q)[a] == c.children(q)[a]);
                    assert(after.children(q)[b] == c.children(q)[b]);
                }
            }
            assert forall|k: int| 0 <= k < after.inodes.len() implies after.knows(
                (#[trigger] after.inodes[k]).0.parent_hash,
            ) by {
                if k != ino {
                    assert(after.inodes[k].0 == c.inodes[k].0);
                }
            }
            assert forall|k: int| 1 <= k < after.inodes.len() implies (
            #[trigger] after.inodes[k]).0.ino == k by {
                if k != ino {
                    assert(after.inodes[k].0 == c.inodes[k].0);
                }
            }
            assert(after.inodes[0].0 == c.inodes[0].0);
        },
    }
}

/// Where `pred` holds of no record, the filter keeps none.
proof fn lemma_filter_none(s: Seq<INodeView>, pred: spec_fn(INodeView) -> bool)
    requires
        forall|i: int| 0 <= i < s.len() ==> !pred(#[trigger] s[i]),
    ensures
        s.filter(pred).len() == 0,
    decreases s.len(),
{
    reveal(Seq::filter);
    if s.len() > 0 {
        let shorter = s.drop_last();
        assert forall|i: int| 0 <= i < shorter.len() implies !pred(#[trigger] shorter[i]) by {
            assert(shorter[i] == s[i]);
        }
        lemma_filter_none(shorter, pred);
    }
}

/// Where `pred` holds of one record at most, the filter keeps one at most.
proof fn lemma_filter_at_most_one(s: Seq<INodeView>, pred: spec_fn(INodeView) -> bool)
    requires
        forall|i: int, j: int|
            0 <= i < s.len() && 0 <= j < s.len() && pred(#[trigger] s[i]) && pred(#[trigger] s[j])
                ==> i == j,
    ensures
        s.filter(pred).len() <= 1,
    decreases s.len(),
{
    reveal(Seq::filter);
    if s.len() > 0 {
        let shorter = s.drop_last();
        assert forall|i: int| 0 <= i < shorter.len() implies shorter[i] == s[i] by {}
        if pred(s.last()) {
            assert forall|i: int| 0 <= i < shorter.len() implies !pred(#[trigger] shorter[i]) by {
                assert(shorter[i] == s[i]);
                assert(s.last() == s[s.len() - 1]);
            }
            lemma_filter_none(shorter, pred);
        } else {
            assert forall|i: int, j: int|
                0 <= i < shorter.len() && 0 <= j < shorter.len() && pred(#[trigger] shorter[i])
                    && pred(#[trigger] shorter[j]) implies i == j by {
                assert(shorter[i] == s[i]);
                assert(shorter[j] == s[j]);
            }
            lemma_filter_at_most_one(shorter, pred);
        }
    }
}

/// A directory lists each name once: among the entries under any slot, at most one
/// carries a given name without being marked as removed.
pub proof fn lemma_one_live_child_per_name(c: CacheView, p: int, name: Seq<u8>)
    requires
        c.wf(),
        0 <= p < c.inodes.len(),
    ensures
        c.children(p).filter(is_live_named(name)).len() <= 1,
{
    let s = c.children(p);
    let pred = is_live_named(name);
    assert forall|i: int, j: int|
        0 <= i < s.len() && 0 <= j < s.len() && pred(#[trigger] s[i]) && pred(
            #[trigger] s[j],
        ) implies i == j by {
        assert(c.children(p)[i].block.filename == c.children(p)[j].block.filename);
    }
    lemma_filter_at_most_one(s, pred);
}

/// The last writer wins: once a revision was brought in, its directory lists an entry
/// under its name, and that entry is the later of the revision and the entry that was
/// listed before, the revision where both carry the same timestamp. An earlier revision
/// never takes the place of a later one.
pub proof fn lemma_latest_revision_kept(c: CacheView, hash: Seq<char>, block: CapsuleBlockView)
    requires
        c.wf(),
        c.ingest_error(block) is None,
    ensures
        ({
            let after = c.ingest(hash, block);
            let p = c.parent_of(block);
            let name = block.fs.block->Inode_0.filename;
            let was = first_index(c.children(p), is_named(name));
            let now = first_index(after.children(p), is_named(name));
            &&& now is Some
            &&& 0 <= now->Some_0 < after.children(p).len()
            &&& after.children(p)[now->Some_0].timestamp >= block.timestamp
            &&& was is None ==> after.children(p)[now->Some_0] == c.record(
                hash,
                block,
                c.inodes.len() as u64,
            )
            &&& was is Some ==> {
                let seen = c.children(p)[was->Some_0];
                let kept = after.children(p)[now->Some_0];
                &&& kept.timestamp >= seen.timestamp
                &&& kept.ino == seen.ino
                &&& seen.timestamp > block.timestamp ==> kept == seen
                &&& seen.timestamp <= block.timestamp ==> kept == c.record(hash, block, seen.ino)
            }
        }),
{
    let after = c.ingest(hash, block);
    let p = c.parent_of(block);
    let name = block.fs.block->Inode_0.filename;
    let pred = is_named(name);
    lemma_first_index(c.children(p), pred);
    assert(1 <= c.hash_to_ino[block.prev_hash] < c.inodes.len());
    match first_index(c.children(p), pred) {
        Some(i) => {
            let seen = c.children(p)[i];
            if seen.timestamp <= block.timestamp {
                let node = c.record(hash, block, seen.ino);
                assert(2 <= seen.ino < c.inodes.len() && seen.ino != p);
                let list = c.children(p).remove(i).push(node);
                assert(after.children(p) == list);
                let last = list.len() - 1;
                assert forall|j: int| 0 <= j < last implies !pred(#[trigger] list[j]) by {
                    let src = if j < i { j } else { j + 1 };
                    assert(list[j] == c.children(p)[src]);
                    assert(c.children(p)[src].block.filename != c.children(p)[i].block.filename);
                }
                assert(list[last] == node);
                lemma_first_index_is(list, pred, last);
            }
        },
        None => {
            let node = c.record(hash, block, c.inodes.len() as u64);
            let list = c.children(p).push(node);
            assert(after.children(p) == list);
            let last = list.len() - 1;
            assert forall|j: int| 0 <= j < last implies !pred(#[trigger] list[j]) by {
                assert(list[j] == c.children(p)[j]);
            }
            assert(list[last] == node);
            lemma_first_index_is(list, pred, last);
        },
    }
}

/// Bringing in a revision leaves every other entry as it was: the lists under all
/// slots but the revision's directory and the revision's own slot stay the same, and
/// in its directory every entry under another name stays listed.
pub proof fn lemma_other_entries_kept(c: CacheView, hash: Seq<char>, block: CapsuleBlockView)
    requires
        c.wf(),
        c.ingest_error(block) is None,
    ensures
        ({
            let after = c.ingest(hash, block);
            let p = c.parent_of(block);
            let name = block.fs.block->Inode_0.filename;
            let slot = after.hash_to_ino[hash] as int;
            &&& after.knows(hash) || after == c
            &&& forall|q: int|
                0 <= q < c.inodes.len() && q != p && q != slot ==> #[trigger] after.children(q)
                    == c.children(q)
            &&& forall|k: int|
                0 <= k < c.children(p).len() && (#[trigger] c.children(p)[k]).block.filename
                    != name ==> after.children(p).contains(c.children(p)[k])
        }),
{
    let after = c.ingest(hash, block);
    let p = c.parent_of(block);
    let name = block.fs.block->Inode_0.filename;
    let pred = is_named(name);
    lemma_first_index(c.children(p), pred);
    assert(1 <= c.hash_to_ino[block.prev_hash] < c.inodes.len());
    match first_index(c.children(p), pred) {
        Some(i) => {
            let seen = c.children(p)[i];
            if seen.timestamp <= block.timestamp {
                let node = c.record(hash, block, seen.ino);
                assert(2 <= seen.ino < c.inodes.len() && seen.ino != p);
                let list = c.children(p).remove(i).push(node);
                assert(after.children(p) == list);
                assert forall|k: int|
                    0 <= k < c.children(p).len() && (#[trigger] c.children(p)[k]).block.filename
                        != name implies after.children(p).contains(c.children(p)[k]) by {
                    let dst = if k < i { k } else { k - 1 };
                    assert(list[dst] == c.children(p)[k]);
                }
            } else {
                assert forall|k: int|
                    0 <= k < c.children(p).len() && (#[trigger] c.children(p)[k]).block.filename
                        != name implies after.children(p).contains(c.children(p)[k]) by {
                    assert(after.children(p)[k] == c.children(p)[k]);
                }
            }
        },
        None => {
            let node = c.record(hash, block, c.inodes.len() as u64);
            let list = c.children(p).push(node);
            assert(after.children(p) == list);
            assert forall|k: int|
                0 <= k < c.children(p).len() && (#[trigger] c.children(p)[k]).block.filename
                    != name implies after.children(p).contains(c.children(p)[k]) by {
                assert(list[k] == c.children(p)[k]);
            }
        },
    }
}

impl CacheView {
    /// The timestamp of the entry that slot `p` lists under the name `name`.
    pub open spec fn entry_time(self, p: int, name: Seq<u8>) -> Option<i64> {
        match first_index(self.children(p), is_named(name)) {
            Some(i) => Some(self.children(p)[i].timestamp),
            None => None,
        }
    }

    /// Whether handing in `block` under the address `hash` puts a revision into slot
    /// `p`, which empties the list under that slot.
    pub open spec fn revises(self, hash: Seq<char>, block: CapsuleBlockView, p: int) -> bool {
        let q = self.parent_of(block);
        self.takes(hash, block) && match first_index(
            self.children(q),
            is_named(block.fs.block->Inode_0.filename),
        ) {
            Some(i) => self.children(q)[i].timestamp <= block.timestamp && self.children(q)[i].ino
                == p,
            None => false,
        }
    }
}

/// The state after the blocks of `blocks` were handed in, one after the other.
pub open spec fn offered(c: CacheView, blocks: Seq<(Seq<char>, CapsuleBlockView)>) -> CacheView
    decreases blocks.len(),
{
    if blocks.len() == 0 {
        c
    } else {
        offered(c, blocks.drop_last()).offer(blocks.last().0, blocks.last().1)
    }
}

/// Whether none of the blocks of `blocks`, handed in one after the other, puts a
/// revision into slot `p`.
pub open spec fn undisturbed(c: CacheView, blocks: Seq<(Seq<char>, CapsuleBlockView)>, p: int) -> bool
    decreases blocks.len(),
{
    blocks.len() == 0 || (undisturbed(c, blocks.drop_last(), p) && !offered(
        c,
        blocks.drop_last(),
    ).revises(blocks.last().0, blocks.last().1, p))
}

/// Whether the cache can count its slots in 64 bits all the while the blocks of
/// `blocks` are handed in, one after the other.
pub open spec fn countable(c: CacheView, blocks: Seq<(Seq<char>, CapsuleBlockView)>) -> bool
    decreases blocks.len(),
{
    offered(c, blocks).inodes.len() <= u64::MAX && (blocks.len() == 0 || countable(
        c,
        blocks.drop_last(),
    ))
}

/// Handing in blocks keeps the cache well formed.
pub proof fn lemma_offered_wf(c: CacheView, blocks: Seq<(Seq<char>, CapsuleBlockView)>)
    requires
        c.wf(),
        countable(c, blocks),
    ensures
        offered(c, blocks).wf(),
        c.inodes.len() <= offered(c, blocks).inodes.len(),
    decreases blocks.len(),
{
    if blocks.len() > 0 {
        let before = offered(c, blocks.drop_last());
        let last = blocks.last();
        lemma_offered_wf(c, blocks.drop_last());
        if before.takes(last.0, last.1) {
            lemma_ingest_wf(before, last.0, last.1);
            assert(1 <= before.hash_to_ino[last.1.prev_hash] < before.inodes.len());
            let q = before.parent_of(last.1);
            lemma_first_index(before.children(q), is_named(last.1.fs.block->Inode_0.filename));
            match first_index(before.children(q), is_named(last.1.fs.block->Inode_0.filename)) {
                Some(i) => {
                    let seen = before.children(q)[i];
                    assert(2 <= seen.ino < before.inodes.len() && seen.ino != q);
                },
                None => {},
            }
        }
    }
}

/// One block cannot take an entry back in time: where a block is handed in that puts
/// no revision into slot `p`, an entry that slot `p` lists keeps its timestamp or gets
/// a later one, and where the block is a revision of the entry under `name` in slot `p`
/// and meets no error, the entry is no earlier than the block.
pub proof fn lemma_entry_time_step(
    c: CacheView,
    hash: Seq<char>,
    block: CapsuleBlockView,
    p: int,
    name: Seq<u8>,
)
    requires
        c.wf(),
        0 <= p < c.inodes.len(),
        !c.revises(hash, block, p),
    ensures
        c.entry_time(p, name) is Some ==> c.offer(hash, block).entry_time(p, name) is Some
            && c.offer(hash, block).entry_time(p, name)->Some_0 >= c.entry_time(p, name)->Some_0,
        (c.takes(hash, block) && c.parent_of(block) == p
            && block.fs.block->Inode_0.filename == name) ==> c.offer(hash, block).entry_time(
            p,
            name,
        ) is Some && c.offer(hash, block).entry_time(p, name)->Some_0 >= block.timestamp,
{
    if c.takes(hash, block) {
        let after = c.ingest(hash, block);
        let q = c.parent_of(block);
        let n = block.fs.block->Inode_0.filename;
        assert(1 <= c.hash_to_ino[block.prev_hash] < c.inodes.len());
        lemma_first_index(c.children(q), is_named(n));
        lemma_first_index(c.children(p), is_named(name));
        if q == p && n == name {
            lemma_latest_revision_kept(c, hash, block);
        } else if q == p {
            // Another entry of the same directory: the entry under `name` stays listed.
            lemma_other_entries_kept(c, hash, block);
            lemma_first_index(after.children(p), is_named(name));
            if c.entry_time(p, name) is Some {
                let i = first_index(c.children(p), is_named(name))->Some_0;
                let kept = c.children(p)[i];
                assert(after.children(p).contains(kept));
                let at = choose|at: int|
                    0 <= at < after.children(p).len() && after.children(p)[at] == kept;
                assert(is_named(name)(after.children(p)[at]));
                let j = first_index(after.children(p), is_named(name))->Some_0;
                let found = after.children(p)[j];
                // What is listed under `name` afterwards was listed under it before.
                match first_index(c.children(q), is_named(n)) {
                    Some(k) => {
                        let seen = c.children(q)[k];
                        if seen.timestamp <= block.timestamp {
                            assert(2 <= seen.ino < c.inodes.len() && seen.ino != q);
                            let list = c.children(p).remove(k).push(
                                c.record(hash, block, seen.ino),
                            );
                            assert(after.children(p) == list);
                            if j < list.len() - 1 {
                                let src = if j < k { j } else { j + 1 };
                                assert(list[j] == c.children(p)[src]);
                                assert(c.children(p)[src].block.filename == c.children(
                                    p,
                                )[i].block.filename);
                            }
                        }
                    },
                    None => {
                        let list = c.children(p).push(
                            c.record(hash, block, c.inodes.len() as u64),
                        );
                        assert(after.children(p) == list);
                        if j < list.len() - 1 {
                            assert(list[j] == c.children(p)[j]);
                            assert(c.children(p)[j].block.filename == c.children(
                                p,
                            )[i].block.filename);
                        }
                    },
                }
            }
        } else {
            // Another directory: the list under slot `p` is as it was.
            match first_index(c.children(q), is_named(n)) {
                Some(k) => {
                    let seen = c.children(q)[k];
                    if seen.timestamp <= block.timestamp {
                        assert(2 <= seen.ino < c.inodes.len() && seen.ino != q);
                        assert(seen.ino != p);
                        assert(after.children(p) == c.children(p));
                    }
                },
                None => {
                    assert(after.children(p) == c.children(p));
                },
            }
        }
    }
}

/// The last writer wins over any number of blocks: hand in blocks one after the other,
/// none of which puts a revision into slot `p`. Then the entry that slot `p` lists
/// under `name` in the end is no earlier than the entry that it listed at the start,
/// and no earlier than any of the blocks that came in as a revision of that entry.
pub proof fn lemma_latest_of_all(
    c: CacheView,
    blocks: Seq<(Seq<char>, CapsuleBlockView)>,
    p: int,
    name: Seq<u8>,
)
    requires
        c.wf(),
        0 <= p < c.inodes.len(),
        undisturbed(c, blocks, p),
        countable(c, blocks),
    ensures
        c.entry_time(p, name) is Some ==> offered(c, blocks).entry_time(p, name) is Some
            && offered(c, blocks).entry_time(p, name)->Some_0 >= c.entry_time(p, name)->Some_0,
        forall|k: int|
            0 <= k < blocks.len() && (#[trigger] offered(c, blocks.take(k))).takes(
                blocks[k].0,
                blocks[k].1,
            ) && offered(c, blocks.take(k)).parent_of(blocks[k].1) == p
                && blocks[k].1.fs.block->Inode_0.filename == name ==> offered(
                c,
                blocks,
            ).entry_time(p, name) is Some && offered(c, blocks).entry_time(p, name)->Some_0
                >= blocks[k].1.timestamp,
    decreases blocks.len(),
{
    if blocks.len() > 0 {
        let shorter = blocks.drop_last();
        let before = offered(c, shorter);
        let last = blocks.last();
        let end = offered(c, blocks);
        lemma_offered_wf(c, shorter);
        lemma_latest_of_all(c, shorter, p, name);
        lemma_entry_time_step(before, last.0, last.1, p, name);
        assert forall|k: int|
            0 <= k < blocks.len() && (#[trigger] offered(c, blocks.take(k))).takes(
                blocks[k].0,
                blocks[k].1,
            ) && offered(c, blocks.take(k)).parent_of(blocks[k].1) == p
                && blocks[k].1.fs.block->Inode_0.filename == name implies end.entry_time(p, name)
            is Some && end.entry_time(p, name)->Some_0 >= blocks[k].1.timestamp by {
            if k == blocks.len() - 1 {
                assert(blocks.take(k) =~= shorter);
            } else {
                assert(blocks.take(k) =~= shorter.take(k));
                assert(blocks[k] == shorter[k]);
                assert(offered(c, shorter.take(k)).takes(shorter[k].0, shorter[k].1));
            }
        }
    }
}

/// The state that one fetched block after the other is handed to: the blocks of
/// `stack` are handed in from the last to the first, up to the first that meets an error.
pub open spec fn unwind(c: CacheView, stack: Seq<(Seq<char>, CapsuleBlockView)>) -> CacheView
    decreases stack.len(),
{
    if stack.len() == 0 {
        c
    } else if c.offer_error(stack.last().0, stack.last().1) is Some {
        c
    } else {
        unwind(c.offer(stack.last().0, stack.last().1), stack.drop_last())
    }
}

/// The first error that bringing in the blocks of `stack`, from the last to the first, meets.
pub open spec fn unwind_error(c: CacheView, stack: Seq<(Seq<char>, CapsuleBlockView)>) -> Option<
    CacheError,
>
    decreases stack.len(),
{
    if stack.len() == 0 {
        None
    } else if c.offer_error(stack.last().0, stack.last().1) is Some {
        c.offer_error(stack.last().0, stack.last().1)
    } else {
        unwind_error(c.offer(stack.last().0, stack.last().1), stack.drop_last())
    }
}

/// Among records of different names, the first record that is named and live is the
/// record under that name, where that one is live, and there is none where it is not.
proof fn lemma_live_is_named(list: Seq<INodeView>, name: Seq<u8>, at: int)
    requires
        0 <= at < list.len(),
        list[at].block.filename == name,
        forall|i: int, j: int|
            0 <= i < list.len() && 0 <= j < list.len() && (#[trigger] list[i]).block.filename == (
            #[trigger] list[j]).block.filename ==> i == j,
    ensures
        first_index(list, is_named(name)) == Some(at),
        !list[at].block.kind.spec_is_deleted() ==> first_index(list, is_live_named(name)) == Some(
            at,
        ),
        list[at].block.kind.spec_is_deleted() ==> first_index(list, is_live_named(name)) is None,
{
    lemma_first_index(list, is_named(name));
    lemma_first_index(list, is_live_named(name));
    assert(is_named(name)(list[at]));
    match first_index(list, is_named(name)) {
        Some(i) => {
            assert(list[i].block.filename == list[at].block.filename);
        },
        None => {},
    }
    match first_index(list, is_live_named(name)) {
        Some(j) => {
            assert(list[j].block.filename == list[at].block.filename);
        },
        None => {
            assert(!is_live_named(name)(list[at]));
        },
    }
}

/// What was created is found: once the first revision of an entry, or a revision that
/// is no earlier than the one that its directory lists, was brought in under an address
/// that the cache did not hold, the directory lists that revision under its name, the
/// slot of the entry holds it, and a lookup of the name finds it where it is not a
/// removal.
pub proof fn lemma_created_is_found(c: CacheView, hash: Seq<char>, block: CapsuleBlockView)
    requires
        c.wf(),
        c.takes(hash, block),
        c.ingest(hash, block).inodes.len() <= u64::MAX,
        c.entry_time(c.parent_of(block), block.fs.block->Inode_0.filename) is Some
            ==> c.entry_time(c.parent_of(block), block.fs.block->Inode_0.filename)->Some_0
            <= block.timestamp,
    ensures
        ({
            let after = c.offer(hash, block);
            let p = c.parent_of(block);
            let name = block.fs.block->Inode_0.filename;
            let at = first_index(after.children(p), is_named(name));
            &&& after.wf()
            &&& at is Some
            &&& 0 <= at->Some_0 < after.children(p).len()
            &&& after.children(p)[at->Some_0].hash == hash
            &&& after.children(p)[at->Some_0].block == block.fs.block->Inode_0
            &&& after.children(p)[at->Some_0].timestamp == block.timestamp
            &&& after.hash_to_ino[hash] == after.children(p)[at->Some_0].ino
            &&& after.inodes[after.hash_to_ino[hash] as int].0 == after.children(p)[at->Some_0]
            &&& !block.fs.block->Inode_0.kind.spec_is_deleted() ==> first_index(
                after.children(p),
                is_live_named(name),
            ) == at
            &&& block.fs.block->Inode_0.kind.spec_is_deleted() ==> first_index(
                after.children(p),
                is_live_named(name),
            ) is None
        }),
{
    let after = c.ingest(hash, block);
    let p = c.parent_of(block);
    let name = block.fs.block->Inode_0.filename;
    lemma_ingest_wf(c, hash, block);
    lemma_latest_revision_kept(c, hash, block);
    lemma_first_index(after.children(p), is_named(name));
    lemma_first_index(c.children(p), is_named(name));
    assert(1 <= c.hash_to_ino[block.prev_hash] < c.inodes.len());
    let at = first_index(after.children(p), is_named(name))->Some_0;
    lemma_live_is_named(after.children(p), name, at);
    match first_index(c.children(p), is_named(name)) {
        Some(i) => {
            let seen = c.children(p)[i];
            assert(2 <= seen.ino < c.inodes.len() && seen.ino != p);
        },
        None => {},
    }
}

/// What was removed is gone from its directory and stays in its slot: take an entry
/// that a directory lists under `name` as live, and bring in, under an address that the
/// cache did not hold, the revision that `delete` makes of it, no earlier than the entry.
/// Then a lookup of the name finds nothing, the slot of the entry still holds the entry,
/// now marked as removed and without size or data, no slot is added, and the directory
/// lists every entry under another name as it did.
pub proof fn lemma_removed_is_gone(
    c: CacheView,
    parent: int,
    name: Seq<u8>,
    i: int,
    hash: Seq<char>,
    block: CapsuleBlockView,
)
    requires
        c.wf(),
        c.inodes.len() <= u64::MAX,
        0 <= parent < c.inodes.len(),
        first_index(c.children(parent), is_live_named(name)) == Some(i),
        0 <= i < c.children(parent).len(),
        !c.knows(hash),
        block.fs.block == BlockView::Inode(c.removed(c.children(parent)[i].ino)),
        block.prev_hash == c.children(parent)[i].parent_hash,
        block.timestamp >= c.children(parent)[i].timestamp,
    ensures
        ({
            let after = c.offer(hash, block);
            let child = c.children(parent)[i];
            &&& after.wf()
            &&& after.inodes.len() == c.inodes.len()
            &&& first_index(after.children(parent), is_live_named(name)) is None
            &&& after.inodes[child.ino as int].0.ino == child.ino
            &&& after.inodes[child.ino as int].0.hash == hash
            &&& after.inodes[child.ino as int].0.block == c.removed(child.ino)
            &&& after.inodes[child.ino as int].0.block.kind.spec_is_deleted()
            &&& after.inodes[parent].0 == c.inodes[parent].0
            &&& after.children(parent) == c.children(parent).remove(i).push(
                after.inodes[child.ino as int].0,
            )
            &&& forall|other: Seq<u8>|
                other != name ==> match (
                    #[trigger] first_index(c.children(parent), is_live_named(other)),
                    first_index(after.children(parent), is_live_named(other)),
                ) {
                    (Some(k), Some(j)) => 0 <= k < c.children(parent).len() && 0 <= j
                        < after.children(parent).len() && after.children(parent)[j]
                        == c.children(parent)[k],
                    (None, None) => true,
                    _ => false,
                }
        }),
{
    let list = c.children(parent);
    lemma_first_index(list, is_live_named(name));
    let child = list[i];
    assert(child == c.inodes[child.ino as int].0);
    assert(c.knows(child.parent_hash) && c.hash_to_ino[child.parent_hash] == parent);
    assert(c.parent_of(block) == parent);
    assert(c.removed(child.ino).filename == name);
    assert(c.takes(hash, block));
    lemma_live_is_named(list, name, i);
    assert(2 <= child.ino < c.inodes.len() && child.ino != parent);
    let after = c.ingest(hash, block);
    let node = c.record(hash, block, child.ino);
    assert(after.inodes.len() == c.inodes.len());
    lemma_ingest_wf(c, hash, block);
    let now = list.remove(i).push(node);
    assert(after.children(parent) == now);
    assert(after.inodes[child.ino as int].0 == node);
    assert(child.block.kind == Kind::Directory || child.block.kind == Kind::RegularFile);
    assert(now[now.len() - 1] == node);
    lemma_live_is_named(now, name, now.len() - 1);
    assert forall|other: Seq<u8>| other != name implies match (
        #[trigger] first_index(list, is_live_named(other)),
        first_index(now, is_live_named(other)),
    ) {
        (Some(k), Some(j)) => 0 <= k < list.len() && 0 <= j < now.len() && now[j] == list[k],
        (None, None) => true,
        _ => false,
    } by {
        lemma_first_index(list, is_live_named(other));
        lemma_first_index(now, is_live_named(other));
        match first_index(list, is_live_named(other)) {
            Some(k) => {
                let dst = if k < i { k } else { k - 1 };
                assert(now[dst] == list[k]);
                lemma_live_is_named(now, other, dst);
            },
            None => {
                match first_index(now, is_live_named(other)) {
                    Some(j) => {
                        let src = if j < i { j } else { j + 1 };
                        assert(now[j] == list[src]);
                        assert(is_live_named(other)(list[src]));
                    },
                    None => {},
                }
            },
        }
    }
}

/// Handing in a list of blocks is handing in the first and then the others.
proof fn lemma_offered_front(
    c: CacheView,
    first: (Seq<char>, CapsuleBlockView),
    rest: Seq<(Seq<char>, CapsuleBlockView)>,
)
    ensures
        offered(c, seq![first] + rest) == offered(c.offer(first.0, first.1), rest),
    decreases rest.len(),
{
    let all = seq![first] + rest;
    if rest.len() == 0 {
        assert(all.drop_last() =~= Seq::<(Seq<char>, CapsuleBlockView)>::empty());
        assert(all.last() == first);
        assert(offered(c, all.drop_last()) == c);
    } else {
        assert(all.drop_last() =~= seq![first] + rest.drop_last());
        assert(all.last() == rest.last());
        lemma_offered_front(c, first, rest.drop_last());
    }
}

/// What `resolve_block` does with the blocks that wait is handing them in one after the
/// other, the last that came first: where none of them meets an error, the state after
/// the stack was unwound is the state after its blocks were offered in reverse order.
pub proof fn lemma_unwind_is_offered(c: CacheView, stack: Seq<(Seq<char>, CapsuleBlockView)>)
    requires
        unwind_error(c, stack) is None,
    ensures
        unwind(c, stack) == offered(c, stack.reverse()),
    decreases stack.len(),
{
    if stack.len() == 0 {
        assert(stack.reverse() =~= Seq::<(Seq<char>, CapsuleBlockView)>::empty());
    } else {
        let last = stack.last();
        let next = c.offer(last.0, last.1);
        lemma_unwind_is_offered(next, stack.drop_last());
        assert(stack.reverse() =~= seq![last] + stack.drop_last().reverse());
        lemma_offered_front(c, last, stack.drop_last().reverse());
    }
}

/// The views of a stack of fetched blocks.
pub open spec fn stack_view(s: Seq<(String, DataCapsuleBlock)>) -> Seq<(Seq<char>, CapsuleBlockView)> {
    s.map_values(|e: (String, DataCapsuleBlock)| (e.0@, e.1@))
}

/// The cache of one mount: every entry that was brought in, under its inode number.
pub struct Cache {
    inodes: Vec<(INode, Vec<INode>)>,
    hash_to_ino: StringHashMap<u64>,
    data_root: String,
    block_size: u32,
    middleware_client: Option<FSMiddlewareClient>,
}

/// The view of a signer that may be missing.
pub open spec fn middleware_view(m: Option<FSMiddlewareClient>) -> Option<MiddlewareClientView> {
    match m {
        Some(m) => Some(m@),
        None => None,
    }
}

impl View for Cache {
    type V = CacheView;

    closed spec fn view(&self) -> CacheView {
        CacheView {
            inodes: self.inodes@.map_values(|e: (INode, Vec<INode>)| entry_view(e)),
            hash_to_ino: self.hash_to_ino@,
            data_root: self.data_root@,
            block_size: self.block_size,
            middleware: middleware_view(self.middleware_client),
        }
    }
}

/// A copy of a list of inode records.
pub fn clone_inodes(v: &Vec<INode>) -> (copy: Vec<INode>)
    ensures
        inodes_view(copy@) == inodes_view(v@),
{
    let mut copy: Vec<INode> = Vec::new();
    let mut i: usize = 0;
    while i < v.len()
        invariant
            i <= v.len(),
            copy.len() == i,
            forall|j: int| 0 <= j < i ==> copy@[j]@ == v@[j]@,
        decreases v.len() - i,
    {
        copy.push(v[i].clone());
        i += 1;
    }
    assert(inodes_view(copy@) =~= inodes_view(v@));
    copy
}

/// Index of the first record in `children` that carries the name `name`; with `live`,
/// records that are marked as removed are passed over.
fn find_named(children: &Vec<INode>, name: &[u8], live: bool) -> (found: Option<usize>)
    ensures
        match first_index(
            inodes_view(children@),
            if live {
                is_live_named(name@)
            } else {
                is_named(name@)
            },
        ) {
            Some(i) => found == Some(i as usize) && 0 <= i < children.len(),
            None => found is None,
        },
{
    let ghost view = inodes_view(children@);
    let ghost pred = if live {
        is_live_named(name@)
    } else {
        is_named(name@)
    };
    let mut i: usize = 0;
    while i < children.len()
        invariant
            i <= children.len(),
            view == inodes_view(children@),
            pred == (if live {
                is_live_named(name@)
            } else {
                is_named(name@)
            }),
            forall|j: int| 0 <= j < i ==> !pred(#[trigger] view[j]),
        decreases children.len() - i,
    {
        let hit = bytes_eq(children[i].block.filename.as_slice(), name) && !(live
            && children[i].is_deleted());
        if hit {
            proof {
                assert(view[i as int] == children@[i as int]@);
                lemma_first_index_is(view, pred, i as int);
            }
            return Some(i);
        }
        assert(view[i as int] == children@[i as int]@);
        i += 1;
    }
    proof {
        lemma_first_index(view, pred);
    }
    None
}

impl CacheView {
    /// The state of a cache that holds the root directory alone.
    pub open spec fn rooted(
        root: Seq<char>,
        block: CapsuleBlockView,
        data_root: Seq<char>,
        block_size: u32,
        middleware: Option<MiddlewareClientView>,
    ) -> CacheView {
        let node = INodeView {
            hash: root,
            ino: 1,
            parent_hash: root,
            block: block.fs.block->Inode_0,
            timestamp: block.timestamp,
            prev_data_hash: data_root,
        };
        CacheView {
            inodes: seq![(node, Seq::empty()), (node, Seq::empty())],
            hash_to_ino: Map::empty().insert(root, 1u64),
            data_root,
            block_size,
            middleware,
        }
    }

    /// The error that a block meets as the root of a mount, if any.
    pub open spec fn root_error(block: CapsuleBlockView) -> Option<CacheError> {
        match block.fs.block {
            BlockView::Data(_) => Some(CacheError::NotAnInode),
            BlockView::Inode(b) => if b.kind == Kind::Directory {
                None
            } else {
                Some(CacheError::NotADirectory)
            },
        }
    }
}

impl Cache {
    /// A cache that holds the root directory of the mount, under inode number 1:
    /// `block` is the capsule block stored under the address `root`, and it has to
    /// describe a directory. The blocks of the capsule's leaves are brought in with
    /// `resolve` and `resolve_block`.
    pub fn new(
        middleware: Option<FSMiddlewareClient>,
        root: String,
        block: DataCapsuleBlock,
        data_root: String,
        block_size: u32,
    ) -> (r: Result<Cache, CacheError>)
        requires
            block_size > 0,
        ensures
            match r {
                Ok(cache) => CacheView::root_error(block@) is None && cache@ == CacheView::rooted(
                    root@,
                    block@,
                    data_root@,
                    block_size,
                    middleware_view(middleware),
                ) && cache@.wf(),
                Err(e) => CacheView::root_error(block@) == Some(e),
            },
    {
        let mut cache = Cache {
            inodes: Vec::new(),
            hash_to_ino: StringHashMap::new(),
            data_root,
            block_size,
            middleware_client: middleware,
        };
        match cache.build(root, block) {
            Ok(()) => Ok(cache),
            Err(e) => Err(e),
        }
    }

    /// Installs the root directory in a cache that holds nothing yet.
    fn build(&mut self, root: String, block: DataCapsuleBlock) -> (r: Result<(), CacheError>)
        requires
            old(self).inodes@.len() == 0,
            old(self).hash_to_ino@ == Map::<Seq<char>, u64>::empty(),
            old(self).block_size > 0,
        ensures
            match r {
                Ok(()) => CacheView::root_error(block@) is None && final(self)@
                    == CacheView::rooted(
                    root@,
                    block@,
                    old(self).data_root@,
                    old(self).block_size,
                    middleware_view(old(self).middleware_client),
                ) && final(self)@.wf(),
                Err(e) => CacheView::root_error(block@) == Some(e),
            },
    {
        let ghost view = block@;
        let DataCapsuleBlock { prev_hash: _, fs, timestamp, signature: _ } = block;
        let data = match fs.block {
            Block::Inode(data) => data,
            Block::Data(_) => {
                return Err(CacheError::NotAnInode);
            },
        };
        match data.kind {
            Kind::Directory => {},
            _ => {
                return Err(CacheError::NotADirectory);
            },
        }
        let inode = INode {
            hash: root.clone(),
            ino: 1,
            parent_hash: root.clone(),
            block: data,
            timestamp,
            prev_data_hash: self.data_root.clone(),
        };
        self.inodes.push((inode.clone(), Vec::new()));
        self.inodes.push((inode, Vec::new()));
        self.hash_to_ino.insert(root, 1);
        proof {
            let want = CacheView::rooted(
                root@,
                view,
                self.data_root@,
                self.block_size,
                middleware_view(self.middleware_client),
            );
            assert(self@.inodes =~~= want.inodes);
            assert(self@.hash_to_ino =~= want.hash_to_ino);
            assert(want.wf()) by {
                assert(want.children(0) =~= Seq::<INodeView>::empty());
                assert(want.children(1) =~= Seq::<INodeView>::empty());
            }
        }
        Ok(())
    }

    /// The number of slots: one more than the highest inode number in use.
    pub fn num_inodes(&self) -> (n: u64)
        ensures
            n == self@.inodes.len(),
    {
        self.inodes.len() as u64
    }

    /// The number of bytes in one data block of this mount.
    pub fn block_size(&self) -> (b: u32)
        ensures
            b == self@.block_size,
    {
        self.block_size
    }

    /// The record of entry `ino` and the entries listed under it, if there is such an entry.
    pub fn get_inode(&self, ino: u64) -> (r: Option<(INode, Vec<INode>)>)
        ensures
            match r {
                Some(e) => ino < self@.inodes.len() && entry_view(e) == self@.inodes[ino as int],
                None => ino >= self@.inodes.len(),
            },
    {
        if ino >= self.inodes.len() as u64 {
            return None;
        }
        let entry = &self.inodes[ino as usize];
        Some((entry.0.clone(), clone_inodes(&entry.1)))
    }

    /// The inode number under which the block with address `hash` was brought in.
    pub fn get_ino(&self, hash: &String) -> (r: Option<u64>)
        ensures
            r == (if self@.knows(hash@) {
                Some(self@.hash_to_ino[hash@])
            } else {
                None
            }),
    {
        match self.hash_to_ino.get(hash.as_str()) {
            Some(ino) => Some(*ino),
            None => None,
        }
    }

    /// The first entry listed under `ino` that carries the name `name` and is not
    /// marked as removed.
    pub fn find_child_node(&self, ino: u64, name: &[u8]) -> (r: Option<INode>)
        ensures
            ino >= self@.inodes.len() ==> r is None,
            ino < self@.inodes.len() ==> match first_index(
                self@.children(ino as int),
                is_live_named(name@),
            ) {
                Some(i) => r is Some && r->Some_0@ == self@.children(ino as int)[i],
                None => r is None,
            },
    {
        if ino >= self.inodes.len() as u64 {
            return None;
        }
        let children = &self.inodes[ino as usize].1;
        assert(self@.inodes[ino as int] == entry_view(self.inodes@[ino as int]));
        match find_named(children, name, true) {
            Some(i) => Some(children[i].clone()),
            None => None,
        }
    }

    /// Signs and wraps the revision `block` of entry `ino` for the middleware.
    fn request(&self, uid: u32, ino: u64, prev_hash: String, block: INodeBlock) -> (r: Result<
        PutINodeRequest,
        CacheError,
    >)
        ensures
            self@.answers(uid, ino, prev_hash@, block@, r),
    {
        if ino >= self.inodes.len() as u64 {
            return Err(CacheError::NoSuchInode);
        }
        let middleware = match &self.middleware_client {
            Some(m) => m,
            None => {
                return Err(CacheError::ReadOnly);
            },
        };
        let id = match middleware.get_id(uid as u64) {
            Some(id) => id,
            None => {
                return Err(CacheError::Unsigned);
            },
        };
        let fs = DataCapsuleFileSystemBlock {
            prev_hash,
            block: Block::Inode(block),
            updated_by: id,
            signature: Vec::new(),
        };
        match middleware.put_inode(fs) {
            Ok(request) => Ok(request),
            Err(_) => Err(CacheError::Unsigned),
        }
    }

    /// The request that removes entry `ino` in the name of the user `uid`: a revision
    /// with the removed kind, no size and no data. The entry is removed once the answer
    /// of the middleware was handed to `resolve_block`.
    pub fn delete(&self, uid: u32, ino: u64) -> (r: Result<PutINodeRequest, CacheError>)
        ensures
            ino < self@.inodes.len() ==> self@.answers(
                uid,
                ino,
                self@.inodes[ino as int].0.parent_hash,
                self@.removed(ino),
                r,
            ),
            ino >= self@.inodes.len() ==> r == Err::<PutINodeRequest, CacheError>(
                CacheError::NoSuchInode,
            ),
    {
        if ino >= self.inodes.len() as u64 {
            return Err(CacheError::NoSuchInode);
        }
        assert(self@.inodes[ino as int] == entry_view(self.inodes@[ino as int]));
        let mut block = self.inodes[ino as usize].0.block.clone();
        block.kind = match block.kind {
            Kind::Directory => Kind::DeletedFolder,
            Kind::RegularFile => Kind::DeletedRegularFile,
            kind => kind,
        };
        block.size = 0;
        block.hashes = Vec::new();
        assert(block@.hashes =~= Seq::<Seq<char>>::empty());
        assert(block@ == self@.removed(ino));
        self.update(uid, ino, block)
    }

    /// The request that stores the revision `block` of entry `ino` in the name of the
    /// user `uid`: it follows the block of the directory that lists the entry. The
    /// revision is in the cache once the answer of the middleware was handed to
    /// `resolve_block`.
    pub fn update(&self, uid: u32, ino: u64, block: INodeBlock) -> (r: Result<
        PutINodeRequest,
        CacheError,
    >)
        ensures
            ino < self@.inodes.len() ==> self@.answers(
                uid,
                ino,
                self@.inodes[ino as int].0.parent_hash,
                block@,
                r,
            ),
            ino >= self@.inodes.len() ==> r == Err::<PutINodeRequest, CacheError>(
                CacheError::NoSuchInode,
            ),
    {
        if ino >= self.inodes.len() as u64 {
            return Err(CacheError::NoSuchInode);
        }
        assert(self@.inodes[ino as int] == entry_view(self.inodes@[ino as int]));
        let prev_hash = self.inodes[ino as usize].0.parent_hash.clone();
        self.request(uid, ino, prev_hash, block)
    }

    /// The request that creates an entry named `name` of the kind `kind` under the
    /// directory `parent_ino` in the name of the user `uid`: an empty first revision
    /// with the directory's allow list, which follows the directory's block. The entry
    /// is in the cache once the answer of the middleware was handed to `resolve_block`.
    pub fn create(&self, uid: u32, parent_ino: u64, name: &[u8], kind: Kind) -> (r: Result<
        PutINodeRequest,
        CacheError,
    >)
        ensures
            parent_ino < self@.inodes.len() ==> self@.answers(
                uid,
                parent_ino,
                self@.inodes[parent_ino as int].0.hash,
                self@.fresh(parent_ino, name@, kind),
                r,
            ),
            parent_ino >= self@.inodes.len() ==> r == Err::<PutINodeRequest, CacheError>(
                CacheError::NoSuchInode,
            ),
    {
        if parent_ino >= self.inodes.len() as u64 {
            return Err(CacheError::NoSuchInode);
        }
        assert(self@.inodes[parent_ino as int] == entry_view(self.inodes@[parent_ino as int]));
        let parent = &self.inodes[parent_ino as usize].0;
        let block = INodeBlock {
            filename: vstd::slice::slice_to_vec(name),
            size: 0,
            kind,
            hashes: Vec::new(),
            write_allow_list: clone_ids(&parent.block.write_allow_list),
        };
        assert(block@.hashes =~= Seq::<Seq<char>>::empty());
        assert(block@ == self@.fresh(parent_ino, name@, kind));
        self.request(uid, parent_ino, parent.hash.clone(), block)
    }

    /// The signer of the mount, if it has one.
    pub fn middleware(&self) -> (m: Option<&FSMiddlewareClient>)
        ensures
            match m {
                Some(m) => self@.middleware == Some(m@),
                None => self@.middleware is None,
            },
    {
        self.middleware_client.as_ref()
    }

    /// What has to be fetched before the block with address `hash` is in the cache:
    /// the block itself, unless the cache holds it.
    pub fn resolve(&self, hash: &String) -> (fetch: Option<String>)
        ensures
            self@.knows(hash@) ==> fetch is None,
            !self@.knows(hash@) ==> fetch is Some && fetch->Some_0@ == hash@,
    {
        if self.hash_to_ino.contains_key(hash.as_str()) {
            None
        } else {
            Some(hash.clone())
        }
    }

    /// Brings in one block whose directory the cache holds.
    fn ingest(&mut self, hash: String, block: DataCapsuleBlock) -> (r: Result<(), CacheError>)
        requires
            old(self)@.wf(),
        ensures
            final(self)@.wf(),
            final(self)@ == old(self)@.offer(hash@, block@),
            match r {
                Ok(()) => old(self)@.offer_error(hash@, block@) is None,
                Err(e) => old(self)@.offer_error(hash@, block@) == Some(e),
            },
    {
        let ghost before = self@;
        let ghost view = block@;
        if self.hash_to_ino.contains_key(hash.as_str()) {
            return Ok(());
        }
        let slot: u64 = match self.hash_to_ino.get(block.prev_hash.as_str()) {
            Some(ino) => *ino,
            None => {
                return Err(CacheError::UnknownParent);
            },
        };
        assert(1 <= before.hash_to_ino[view.prev_hash] < before.inodes.len());
        let slots: usize = self.inodes.len();
        assert(before.inodes.len() == slots);
        let parent: usize = slot as usize;
        let DataCapsuleBlock { prev_hash, fs, timestamp, signature: _ } = block;
        let data = match fs.block {
            Block::Inode(data) => data,
            Block::Data(_) => {
                return Err(CacheError::NotAnInode);
            },
        };
        assert(before.inodes[parent as int] == entry_view(self.inodes@[parent as int]));
        let found = find_named(&self.inodes[parent].1, data.filename.as_slice(), false);
        let ghost name = view.fs.block->Inode_0.filename;
        assert(data.filename@ == name);
        assert(inodes_view(self.inodes@[parent as int].1@) == before.children(parent as int));
        assert(before.parent_of(view) == parent);
        let ino: u64;
        match found {
            Some(i) => {
                let seen = &self.inodes[parent].1[i];
                assert(seen@ == before.children(parent as int)[i as int]);
                if seen.timestamp > timestamp {
                    return Ok(());
                }
                ino = seen.ino;
                assert(2 <= ino < before.inodes.len() && ino != parent);
                let node = INode {
                    hash: hash.clone(),
                    ino,
                    parent_hash: prev_hash,
                    block: data,
                    timestamp,
                    prev_data_hash: self.data_root.clone(),
                };
                assert(node@ == before.record(hash@, view, ino));
                self.inodes[ino as usize] = (node.clone(), Vec::new());
                self.inodes[parent].1.remove(i);
                self.inodes[parent].1.push(node);
            },
            None => {
                ino = self.inodes.len() as u64;
                let node = INode {
                    hash: hash.clone(),
                    ino,
                    parent_hash: prev_hash,
                    block: data,
                    timestamp,
                    prev_data_hash: self.data_root.clone(),
                };
                assert(node@ == before.record(hash@, view, ino));
                self.inodes.push((node.clone(), Vec::new()));
                self.inodes[parent].1.push(node);
            },
        }
        self.hash_to_ino.insert(hash, ino);
        proof {
            let want = before.ingest(hash@, view);
            assert(self@.inodes.len() == want.inodes.len());
            assert forall|k: int| 0 <= k < want.inodes.len() implies self@.inodes[k]
                =~~= want.inodes[k] by {
                assert(self@.inodes[k] == entry_view(self.inodes@[k]));
                if k < before.inodes.len() && k != parent && k != ino {
                    assert(before.inodes[k] == entry_view(old(self).inodes@[k]));
                }
            }
            assert(self@.inodes =~= want.inodes);
            assert(self@ == want);
            assert(want.inodes.len() == self.inodes.len());
            lemma_ingest_wf(before, hash@, view);
        }
        Ok(())
    }

    /// Takes the block that was fetched for the address `hash`. Where the cache holds
    /// neither this address nor the block that the block follows, the block waits on
    /// `pending` and the address of that earlier block is returned: it is the next to
    /// fetch. Otherwise the block and all that wait are handed in, the last that came
    /// first, and nothing is left to fetch; a block under an address that the cache holds
    /// already changes nothing. The first block that meets an error ends this: the blocks
    /// before it stay in the cache, and none waits any longer.
    pub fn resolve_block(
        &mut self,
        pending: &mut Vec<(String, DataCapsuleBlock)>,
        hash: String,
        block: DataCapsuleBlock,
    ) -> (r: Result<Option<String>, CacheError>)
        requires
            old(self)@.wf(),
        ensures
            final(self)@.wf(),
            (!old(self)@.knows(hash@) && !old(self)@.knows(block@.prev_hash)) ==> {
                &&& final(self)@ == old(self)@
                &&& stack_view(final(pending)@) == stack_view(old(pending)@).push((hash@, block@))
                &&& r is Ok && r->Ok_0 is Some && r->Ok_0->Some_0@ == block@.prev_hash
            },
            (old(self)@.knows(hash@) || old(self)@.knows(block@.prev_hash)) ==> {
                let stack = stack_view(old(pending)@).push((hash@, block@));
                &&& final(pending)@.len() == 0
                &&& final(self)@ == unwind(old(self)@, stack)
                &&& match r {
                    Ok(next) => next is None && unwind_error(old(self)@, stack) is None,
                    Err(e) => unwind_error(old(self)@, stack) == Some(e),
                }
            },
    {
        if !self.hash_to_ino.contains_key(hash.as_str()) && !self.hash_to_ino.contains_key(
            block.prev_hash.as_str(),
        ) {
            let next = block.prev_hash.clone();
            let ghost stack = stack_view(pending@);
            pending.push((hash, block));
            assert(stack_view(pending@) =~= stack.push((hash@, block@)));
            return Ok(Some(next));
        }
        let ghost start = self@;
        let ghost stack = stack_view(pending@).push((hash@, block@));
        pending.push((hash, block));
        assert(stack_view(pending@) =~= stack);
        let mut failure: Option<CacheError> = None;
        while pending.len() > 0 && failure.is_none()
            invariant
                self@.wf(),
                failure is None ==> unwind(start, stack) == unwind(self@, stack_view(pending@)),
                failure is None ==> unwind_error(start, stack) == unwind_error(
                    self@,
                    stack_view(pending@),
                ),
                failure is Some ==> unwind(start, stack) == self@ && unwind_error(start, stack)
                    == failure,
            decreases pending.len() + (if failure is None { 1nat } else { 0nat }),
        {
            let ghost rest = stack_view(pending@);
            let (h, b) = pending.pop().unwrap();
            assert(rest.last() == (h@, b@));
            assert(stack_view(pending@) =~= rest.drop_last());
            match self.ingest(h, b) {
                Ok(()) => {},
                Err(e) => {
                    failure = Some(e);
                },
            }
        }
        pending.clear();
        match failure {
            Some(e) => Err(e),
            None => Ok(None),
        }
    }
}

} // verus!
