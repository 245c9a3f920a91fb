//! The first state of a capsule: one signed block that nothing precedes.

use vstd::prelude::*;
use vstd::hash_map::StringHashMap;
use crate::block::{
    Block, BlockView, CapsuleBlockView, DataBlock, DataCapsuleBlock, DataCapsuleFileSystemBlock,
    FileSystemBlockView, INodeBlock, INodeBlockView, Id, IdView, Kind,
};
use crate::crypto::{address, checked_signature, SignableBlock, SigningKey, DIGEST_LIMIT};
use crate::server::{wrapped, DataCapsuleServerData};
use crate::wire::{capsule_wire, fs_wire, id_wire};

verus! {

/// The identity that binds `pub_key` to the user `uid`, signed with `key`.
pub open spec fn signed_id(pub_key: Seq<u8>, uid: u64, key: Seq<u8>) -> Option<IdView> {
    let bare = IdView { pub_key, uid, signature: Seq::empty() };
    match checked_signature(key, id_wire(bare)) {
        Some(signature) => Some(IdView { signature, ..bare }),
        None => None,
    }
}

/// The root directory of an empty file system, which `id` may write to.
pub open spec fn root_directory(id: IdView) -> FileSystemBlockView {
    FileSystemBlockView {
        prev_hash: Seq::empty(),
        block: BlockView::Inode(
            INodeBlockView {
                filename: Seq::empty(),
                size: 0,
                kind: Kind::Directory,
                hashes: Seq::empty(),
                write_allow_list: seq![id],
            },
        ),
        updated_by: id,
        signature: Seq::empty(),
    }
}

/// The empty block of data that the data of all files follows.
pub open spec fn first_data(id: IdView) -> FileSystemBlockView {
    FileSystemBlockView {
        prev_hash: Seq::empty(),
        block: BlockView::Data(Seq::empty()),
        updated_by: id,
        signature: Seq::empty(),
    }
}

/// The capsule block that a seeded capsule holds: `fs` signed with the key of its
/// writer, stamped with the time 0 and signed with the key of the server.
pub open spec fn seed_block(fs: FileSystemBlockView, client_key: Seq<u8>, server_key: Seq<u8>) -> Option<
    CapsuleBlockView,
> {
    match checked_signature(client_key, fs_wire(FileSystemBlockView { signature: Seq::empty(), ..fs })) {
        None => None,
        Some(inner) => {
            let bare = wrapped(FileSystemBlockView { signature: inner, ..fs }, 0);
            match checked_signature(server_key, capsule_wire(bare)) {
                None => None,
                Some(outer) => Some(CapsuleBlockView { signature: outer, ..bare }),
            }
        },
    }
}

/// The identity that binds the public key `pub_key` to the user `uid`, signed with
/// `key`. None where the key cannot sign.
pub fn new_id(pub_key: Vec<u8>, uid: u64, key: &SigningKey) -> (id: Option<Id>)
    ensures
        match id {
            Some(i) => signed_id(pub_key@, uid, key@) == Some(i@),
            None => signed_id(pub_key@, uid, key@) is None,
        },
{
    let mut id = Id { pub_key, uid, signature: Vec::new() };
    if id.sign(key) {
        Some(id)
    } else {
        None
    }
}

/// The root directory of an empty file system, not yet signed: a directory without a
/// name that `id` wrote and may write to.
pub fn new_root_directory(id: &Id) -> (fs: DataCapsuleFileSystemBlock)
    ensures
        fs@ == root_directory(id@),
{
    let mut list: Vec<Id> = Vec::new();
    list.push(id.clone());
    let fs = DataCapsuleFileSystemBlock {
        prev_hash: String::new(),
        block: Block::Inode(
            INodeBlock {
                filename: Vec::new(),
                size: 0,
                kind: Kind::Directory,
                hashes: Vec::new(),
                write_allow_list: list,
            },
        ),
        updated_by: id.clone(),
        signature: Vec::new(),
    };
    assert(fs@.block->Inode_0.hashes =~= Seq::<Seq<char>>::empty());
    assert(fs@.block->Inode_0.write_allow_list =~= seq![id@]);
    fs
}

/// The empty block of data that the data of all files follows, not yet signed.
pub fn new_first_data(id: &Id) -> (fs: DataCapsuleFileSystemBlock)
    ensures
        fs@ == first_data(id@),
{
    DataCapsuleFileSystemBlock {
        prev_hash: String::new(),
        block: Block::Data(DataBlock { data: Vec::new() }),
        updated_by: id.clone(),
        signature: Vec::new(),
    }
}

/// A capsule that holds the one block `fs`, signed by its writer and by the server,
/// and the address of that block. None where a key cannot sign or the block is too
/// long for an address.
pub fn seed(fs: DataCapsuleFileSystemBlock, client_key: &SigningKey, server_key: &SigningKey) -> (r:
    Option<(DataCapsuleServerData, String)>)
    ensures
        match r {
            Some((data, hash)) => {
                let block = seed_block(fs@, client_key@, server_key@);
                &&& block is Some
                &&& capsule_wire(block->Some_0).len() < DIGEST_LIMIT
                &&& hash@ == address(capsule_wire(block->Some_0))
                &&& data@.content == Map::<Seq<char>, CapsuleBlockView>::empty().insert(
                    hash@,
                    block->Some_0,
                )
                &&& data@.leafs == seq![hash@]
                &&& data@.addresses == seq![hash@]
                &&& data@.wf()
                &&& data@.indexed()
                &&& fs@.prev_hash.len() == 0 ==> data@.chained() && data@.leaf_closed()
            },
            None => match seed_block(fs@, client_key@, server_key@) {
                Some(block) => capsule_wire(block).len() >= DIGEST_LIMIT,
                None => true,
            },
        },
{
    let mut fs = fs;
    if !fs.sign(client_key) {
        return None;
    }
    let mut block = DataCapsuleBlock {
        prev_hash: fs.prev_hash.clone(),
        fs,
        timestamp: 0,
        signature: Vec::new(),
    };
    if !block.sign(server_key) {
        return None;
    }
    let hash = match block.hash() {
        Some(hash) => hash,
        None => {
            return None;
        },
    };
    let ghost view = block@;
    let mut data = DataCapsuleServerData {
        content: StringHashMap::new(),
        leafs: Vec::new(),
        addresses: Vec::new(),
    };
    data.content.insert(hash.clone(), block);
    data.leafs.push(hash.clone());
    data.addresses.push(hash.clone());
    proof {
        assert(data@.content =~= Map::<Seq<char>, CapsuleBlockView>::empty().insert(hash@, view));
        assert(data@.leafs =~= seq![hash@]);
        assert(data@.addresses =~= seq![hash@]);
        assert(data@.addresses[0] == hash@);
        if view.prev_hash.len() == 0 {
            assert(data@.leafs[0] == hash@);
            assert(!data@.followed(hash@));
        }
    }
    Some((data, hash))
}

} // verus!
