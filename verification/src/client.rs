//! The client side of the capsules and of the signing middleware: a cache of fetched
//! blocks that keeps the most recently used, and the signer that prepares what a
//! mount writes.

use vstd::prelude::*;
use vstd::slice::slice_to_vec;
use vstd::utf8::encode_utf8;
use lru::LruCache;
use std::num::NonZeroUsize;
use crate::block::{
    Block, CapsuleBlockView, DataCapsuleBlock, DataCapsuleFileSystemBlock, FileSystemBlockView, Id,
    IdView,
};
use crate::crypto::{checked_signature, SignableBlock, SigningKey, VerifyingKey};
use crate::search::{first_index, lemma_first_index};
use crate::wire::{fs_wire, id_wire};

verus! {

/// `lru::LruCache`, a bounded map that forgets what was used least recently. Nothing is
/// known of a value of it but what the functions below say.
#[verifier::external_type_specification]
#[verifier::external_body]
#[verifier::reject_recursive_types(K)]
#[verifier::reject_recursive_types(V)]
#[verifier::reject_recursive_types(S)]
pub struct ExLruCache<K, V, S>(LruCache<K, V, S>);

/// `lru::DefaultHasher`, the hasher of a cache that was made without one of its own.
#[verifier::external_type_specification]
#[verifier::external_body]
pub struct ExDefaultHasher(lru::DefaultHasher);

/// What a cache of blocks holds: addresses with their blocks, the most recently used first.
pub uninterp spec fn lru_entries(cache: LruCache<String, DataCapsuleBlock>) -> Seq<
    (Seq<char>, CapsuleBlockView),
>;

/// The number of blocks that a cache was made to hold.
pub uninterp spec fn lru_capacity(cache: LruCache<String, DataCapsuleBlock>) -> nat;

/// Whether an entry of a cache stands under the address `key`.
pub open spec fn has_key(key: Seq<char>) -> spec_fn((Seq<char>, CapsuleBlockView)) -> bool {
    |e: (Seq<char>, CapsuleBlockView)| e.0 == key
}

/// Whether no two entries stand under the same address, and the entries are no more
/// than `capacity`.
pub open spec fn lru_wf(entries: Seq<(Seq<char>, CapsuleBlockView)>, capacity: nat) -> bool {
    &&& entries.len() <= capacity
    &&& forall|i: int, j: int|
        0 <= i < entries.len() && 0 <= j < entries.len() && (#[trigger] entries[i]).0 == (
        #[trigger] entries[j]).0 ==> i == j
}

/// The entries after the entry at index `i` was used: it has moved to the front.
pub open spec fn lru_touched(entries: Seq<(Seq<char>, CapsuleBlockView)>, i: int) -> Seq<
    (Seq<char>, CapsuleBlockView),
> {
    seq![entries[i]] + entries.remove(i)
}

/// The entries after `value` was put under `key`: the new entry stands at the front, in
/// place of the entry that stood under `key`; where there was none and the cache is
/// full, the entry that was used least recently has made room.
pub open spec fn lru_after_put(
    entries: Seq<(Seq<char>, CapsuleBlockView)>,
    capacity: nat,
    key: Seq<char>,
    value: CapsuleBlockView,
) -> Seq<(Seq<char>, CapsuleBlockView)> {
    match first_index(entries, has_key(key)) {
        Some(i) => seq![(key, value)] + entries.remove(i),
        None => if entries.len() >= capacity {
            seq![(key, value)] + entries.drop_last()
        } else {
            seq![(key, value)] + entries
        },
    }
}

/// Calls `lru::LruCache::sparse`, which sets no room aside before blocks come. Taken
/// on trust: the new cache holds nothing and keeps the capacity it was given.
#[verifier::external_body]
fn lru_new(capacity: usize) -> (cache: LruCache<String, DataCapsuleBlock>)
    requires
        0 < capacity,
    ensures
        lru_entries(cache) == Seq::<(Seq<char>, CapsuleBlockView)>::empty(),
        lru_capacity(cache) == capacity,
{
    LruCache::sparse(NonZeroUsize::new(capacity).unwrap())
}

/// Calls `lru::LruCache::get` and copies the block it finds. Taken on trust: the block
/// under the key is returned and its entry moves to the front; where there is none,
/// nothing changes.
#[verifier::external_body]
fn lru_get(cache: &mut LruCache<String, DataCapsuleBlock>, key: &String) -> (block: Option<
    DataCapsuleBlock,
>)
    ensures
        lru_capacity(*final(cache)) == lru_capacity(*old(cache)),
        match first_index(lru_entries(*old(cache)), has_key(key@)) {
            Some(i) => block is Some && block->Some_0@ == lru_entries(*old(cache))[i].1
                && lru_entries(*final(cache)) == lru_touched(lru_entries(*old(cache)), i),
            None => block is None && lru_entries(*final(cache)) == lru_entries(*old(cache)),
        },
{
    cache.get(key).cloned()
}

/// Calls `lru::LruCache::put`. Taken on trust: the block stands under the key at the
/// front; it has replaced the entry under the same key, or, in a full cache, the entry
/// that was used least recently.
#[verifier::external_body]
fn lru_put(cache: &mut LruCache<String, DataCapsuleBlock>, key: String, block: DataCapsuleBlock)
    ensures
        lru_capacity(*final(cache)) == lru_capacity(*old(cache)),
        lru_entries(*final(cache)) == lru_after_put(
            lru_entries(*old(cache)),
            lru_capacity(*old(cache)),
            key@,
            block@,
        ),
{
    cache.put(key, block);
}

/// Using an entry keeps the cache in order.
pub proof fn lemma_touched_wf(entries: Seq<(Seq<char>, CapsuleBlockView)>, capacity: nat, i: int)
    requires
        lru_wf(entries, capacity),
        0 <= i < entries.len(),
    ensures
        lru_wf(lru_touched(entries, i), capacity),
        forall|key: Seq<char>|
            (first_index(lru_touched(entries, i), has_key(key)) is Some) == (first_index(
                entries,
                has_key(key),
            ) is Some),
{
    let after = lru_touched(entries, i);
    assert forall|a: int| 0 <= a < after.len() implies #[trigger] after[a] == entries[if a == 0 {
        i
    } else if a <= i {
        a - 1
    } else {
        a
    }] by {}
    assert forall|a: int, b: int|
        0 <= a < after.len() && 0 <= b < after.len() && (#[trigger] after[a]).0 == (
        #[trigger] after[b]).0 implies a == b by {
        let sa = if a == 0 { i } else if a <= i { a - 1 } else { a };
        let sb = if b == 0 { i } else if b <= i { b - 1 } else { b };
        assert(after[a] == entries[sa]);
        assert(after[b] == entries[sb]);
        assert(entries[sa].0 == entries[sb].0);
    }
    assert forall|key: Seq<char>|
        (first_index(after, has_key(key)) is Some) == (first_index(entries, has_key(key))
            is Some) by {
        lemma_first_index(after, has_key(key));
        lemma_first_index(entries, has_key(key));
        match first_index(entries, has_key(key)) {
            Some(k) => {
                let d = if k == i { 0 } else if k < i { k + 1 } else { k };
                assert(after[d] == entries[k]);
            },
            None => {
                match first_index(after, has_key(key)) {
                    Some(a) => {
                        let sa = if a == 0 { i } else if a <= i { a - 1 } else { a };
                        assert(after[a] == entries[sa]);
                    },
                    None => {},
                }
            },
        }
    }
}

/// Putting a block keeps the cache in order, and the block is found under its address.
pub proof fn lemma_put_wf(
    entries: Seq<(Seq<char>, CapsuleBlockView)>,
    capacity: nat,
    key: Seq<char>,
    value: CapsuleBlockView,
)
    requires
        lru_wf(entries, capacity),
        capacity > 0,
    ensures
        lru_wf(lru_after_put(entries, capacity, key, value), capacity),
        first_index(lru_after_put(entries, capacity, key, value), has_key(key)) == Some(0int),
        lru_after_put(entries, capacity, key, value)[0] == (key, value),
{
    let after = lru_after_put(entries, capacity, key, value);
    lemma_first_index(entries, has_key(key));
    match first_index(entries, has_key(key)) {
        Some(i) => {
            assert forall|a: int, b: int|
                0 <= a < after.len() && 0 <= b < after.len() && (#[trigger] after[a]).0 == (
                #[trigger] after[b]).0 implies a == b by {
                let sa = if a <= i { a - 1 } else { a };
                let sb = if b <= i { b - 1 } else { b };
                if a > 0 {
                    assert(after[a] == entries[sa]);
                    assert(entries[sa].0 == entries[i].0 ==> sa == i);
                }
                if b > 0 {
                    assert(after[b] == entries[sb]);
                    assert(entries[sb].0 == entries[i].0 ==> sb == i);
                }
            }
        },
        None => {
            assert forall|a: int, b: int|
                0 <= a < after.len() && 0 <= b < after.len() && (#[trigger] after[a]).0 == (
                #[trigger] after[b]).0 implies a == b by {
                if a > 0 {
                    assert(after[a] == entries[a - 1]);
                    assert(!has_key(key)(entries[a - 1]));
                }
                if b > 0 {
                    assert(after[b] == entries[b - 1]);
                    assert(!has_key(key)(entries[b - 1]));
                }
            }
        },
    }
    assert(after[0] == (key, value));
    crate::search::lemma_first_index_is(after, has_key(key), 0);
}

/// Why a client turned a block down.
#[derive(Debug, Clone, Copy, PartialEq, Eq, Structural)]
pub enum ClientError {
    /// The block's signature does not verify under the server's key.
    Unauthenticated,
    /// The block holds a directory entry where file data was expected.
    NotData,
    /// The block holds file data where a directory entry was expected.
    NotAnInode,
    /// The signing key could not sign the record.
    Unsigned,
}

/// The client of one capsule: the blocks fetched last, under their addresses, and the
/// key that the capsule's blocks have to verify under.
pub struct BlockClient {
    cache: LruCache<String, DataCapsuleBlock>,
    verifying_key: VerifyingKey,
    enable_crypto: bool,
}

/// The client of the inode capsule: it differs from that of the data capsule in the
/// blocks it is asked for alone.
pub type INodeClient = BlockClient;

/// The mathematical state of a client.
pub struct ClientView {
    /// The cached blocks with their addresses, the most recently used first.
    pub entries: Seq<(Seq<char>, CapsuleBlockView)>,
    /// The number of blocks that the cache holds at most.
    pub capacity: nat,
    pub verifying_key: Seq<u8>,
    pub enable_crypto: bool,
}

impl ClientView {
    /// What every state of a client satisfies.
    pub open spec fn wf(self) -> bool {
        self.capacity > 0 && lru_wf(self.entries, self.capacity)
    }

    /// Whether the client takes a fetched block for good.
    pub open spec fn accepts(self, block: CapsuleBlockView) -> bool {
        !self.enable_crypto || crate::crypto::rsa_verifies(
            self.verifying_key,
            crate::wire::capsule_wire(CapsuleBlockView { signature: Seq::empty(), ..block }),
            block.signature,
        )
    }
}

impl View for BlockClient {
    type V = ClientView;

    closed spec fn view(&self) -> ClientView {
        ClientView {
            entries: lru_entries(self.cache),
            capacity: lru_capacity(self.cache),
            verifying_key: self.verifying_key@,
            enable_crypto: self.enable_crypto,
        }
    }
}

impl BlockClient {
    /// A client with an empty cache for `cache_size` blocks that checks the signatures
    /// of fetched blocks under `verifying_key` where `enable_crypto` is set. There is no
    /// client without room for a block.
    pub fn new(cache_size: usize, verifying_key: VerifyingKey, enable_crypto: bool) -> (client:
        Option<BlockClient>)
        ensures
            match client {
                Some(c) => 0 < cache_size && c@ == (ClientView {
                    entries: Seq::empty(),
                    capacity: cache_size as nat,
                    verifying_key: verifying_key@,
                    enable_crypto,
                }) && c@.wf(),
                None => cache_size == 0,
            },
    {
        if cache_size == 0 {
            return None;
        }
        Some(BlockClient { cache: lru_new(cache_size), verifying_key, enable_crypto })
    }

    /// The block with the address `hash`, if the cache holds it; it then counts as the
    /// most recently used. Where the cache does not hold it, the block has to be
    /// fetched from the capsule and handed to `accept`.
    pub fn get(&mut self, hash: &String) -> (block: Option<DataCapsuleBlock>)
        requires
            old(self)@.wf(),
        ensures
            final(self)@.wf(),
            final(self)@.capacity == old(self)@.capacity,
            final(self)@.verifying_key == old(self)@.verifying_key,
            final(self)@.enable_crypto == old(self)@.enable_crypto,
            match first_index(old(self)@.entries, has_key(hash@)) {
                Some(i) => block is Some && block->Some_0@ == old(self)@.entries[i].1
                    && final(self)@.entries == lru_touched(old(self)@.entries, i),
                None => block is None && final(self)@.entries == old(self)@.entries,
            },
    {
        proof {
            lemma_first_index(self@.entries, has_key(hash@));
            if first_index(self@.entries, has_key(hash@)) is Some {
                lemma_touched_wf(
                    self@.entries,
                    self@.capacity,
                    first_index(self@.entries, has_key(hash@))->Some_0,
                );
            }
        }
        lru_get(&mut self.cache, hash)
    }

    /// Takes the block that the capsule sent for the address `hash`. Where signatures
    /// are in use and the block's signature does not verify under the server's key, the
    /// block is turned down and the cache stays as it is. Else the block is cached as
    /// the most recently used and handed back.
    pub fn accept(&mut self, hash: String, block: DataCapsuleBlock) -> (r: Result<
        DataCapsuleBlock,
        ClientError,
    >)
        requires
            old(self)@.wf(),
        ensures
            final(self)@.wf(),
            final(self)@.capacity == old(self)@.capacity,
            final(self)@.verifying_key == old(self)@.verifying_key,
            final(self)@.enable_crypto == old(self)@.enable_crypto,
            match r {
                Ok(b) => old(self)@.accepts(block@) && b@ == block@ && final(self)@.entries
                    == lru_after_put(old(self)@.entries, old(self)@.capacity, hash@, block@),
                Err(e) => !old(self)@.accepts(block@) && e == ClientError::Unauthenticated
                    && final(self)@.entries == old(self)@.entries,
            },
    {
        if self.enable_crypto && !block.validate(&self.verifying_key) {
            return Err(ClientError::Unauthenticated);
        }
        proof {
            lemma_put_wf(self@.entries, self@.capacity, hash@, block@);
        }
        lru_put(&mut self.cache, hash, block.clone());
        Ok(block)
    }

    /// The bytes of a data block.
    pub fn get_block(block: DataCapsuleBlock) -> (r: Result<Vec<u8>, ClientError>)
        ensures
            match r {
                Ok(bytes) => block@.fs.block is Data && bytes@ == block@.fs.block->Data_0,
                Err(e) => block@.fs.block is Inode && e == ClientError::NotData,
            },
    {
        match block.fs.block {
            Block::Data(data) => Ok(data.data),
            Block::Inode(_) => Err(ClientError::NotData),
        }
    }
}

/// A request to the middleware to store a directory entry.
pub struct PutINodeRequest {
    pub block: DataCapsuleFileSystemBlock,
}

/// The answer to a `PutINodeRequest`: the address of the stored block and the block.
pub struct PutINodeResponse {
    pub hash: String,
    pub block: DataCapsuleBlock,
}

/// A request to the middleware to store file data that belongs to the entry `inode_hash`.
pub struct PutDataRequest {
    pub block: DataCapsuleFileSystemBlock,
    pub inode_hash: String,
}

/// The answer to a `PutDataRequest`: the address of the stored block and the block.
pub struct PutDataResponse {
    pub hash: String,
    pub block: DataCapsuleBlock,
}

/// The signer of a mount: it holds the writer's keys and prepares what the mount sends
/// to the middleware.
pub struct FSMiddlewareClient {
    /// The writer's public key, as SPKI PEM text.
    pub public_key_pkcs8: String,
    pub signing_key: SigningKey,
    /// Whether signatures are made.
    pub enable_crypto: bool,
}

pub struct MiddlewareClientView {
    pub public_key: Seq<u8>,
    pub signing_key: Seq<u8>,
    pub enable_crypto: bool,
}

impl View for FSMiddlewareClient {
    type V = MiddlewareClientView;

    open spec fn view(&self) -> MiddlewareClientView {
        MiddlewareClientView {
            public_key: encode_utf8(self.public_key_pkcs8@),
            signing_key: self.signing_key@,
            enable_crypto: self.enable_crypto,
        }
    }
}

impl MiddlewareClientView {
    /// The identity of the user `uid` before it is signed.
    pub open spec fn bare_id(self, uid: u64) -> IdView {
        IdView { pub_key: self.public_key, uid, signature: Seq::empty() }
    }

    /// The identity of the user `uid`: signed by the writer's key where signatures are
    /// in use. None where the key cannot sign.
    pub open spec fn id(self, uid: u64) -> Option<IdView> {
        if !self.enable_crypto {
            Some(self.bare_id(uid))
        } else {
            match checked_signature(self.signing_key, id_wire(self.bare_id(uid))) {
                Some(signature) => Some(IdView { signature, ..self.bare_id(uid) }),
                None => None,
            }
        }
    }

    /// A file-system block as the signer sends it: signed by the writer's key where
    /// signatures are in use. None where the key cannot sign.
    pub open spec fn signed(self, fs: FileSystemBlockView) -> Option<FileSystemBlockView> {
        if !self.enable_crypto {
            Some(fs)
        } else {
            match checked_signature(
                self.signing_key,
                fs_wire(FileSystemBlockView { signature: Seq::empty(), ..fs }),
            ) {
                Some(signature) => Some(FileSystemBlockView { signature, ..fs }),
                None => None,
            }
        }
    }
}

impl Clone for FSMiddlewareClient {
    fn clone(&self) -> (copy: Self)
        ensures
            copy@ == self@,
    {
        FSMiddlewareClient {
            public_key_pkcs8: self.public_key_pkcs8.clone(),
            signing_key: self.signing_key.clone(),
            enable_crypto: self.enable_crypto,
        }
    }
}

impl FSMiddlewareClient {
    /// A signer for the writer with these keys.
    pub fn new(public_key_pkcs8: String, signing_key: SigningKey, enable_crypto: bool) -> (client:
        FSMiddlewareClient)
        ensures
            client@ == (MiddlewareClientView {
                public_key: encode_utf8(public_key_pkcs8@),
                signing_key: signing_key@,
                enable_crypto,
            }),
    {
        FSMiddlewareClient { public_key_pkcs8, signing_key, enable_crypto }
    }

    /// Signs a file-system block where signatures are in use.
    fn seal(&self, block: DataCapsuleFileSystemBlock) -> (r: Option<DataCapsuleFileSystemBlock>)
        ensures
            match r {
                Some(b) => self@.signed(block@) == Some(b@),
                None => self@.signed(block@) is None,
            },
    {
        let mut block = block;
        if self.enable_crypto {
            if !block.sign(&self.signing_key) {
                return None;
            }
        }
        Some(block)
    }

    /// The request that stores the directory entry `block`: the block, signed where
    /// signatures are in use. A block of file data is turned down.
    pub fn put_inode(&self, block: DataCapsuleFileSystemBlock) -> (r: Result<
        PutINodeRequest,
        ClientError,
    >)
        ensures
            match r {
                Ok(request) => block@.block is Inode && self@.signed(block@) == Some(
                    request.block@,
                ),
                Err(e) => if block@.block is Data {
                    e == ClientError::NotAnInode
                } else {
                    e == ClientError::Unsigned && self@.signed(block@) is None
                },
            },
    {
        match &block.block {
            Block::Inode(_) => {},
            Block::Data(_) => {
                return Err(ClientError::NotAnInode);
            },
        }
        match self.seal(block) {
            Some(block) => Ok(PutINodeRequest { block }),
            None => Err(ClientError::Unsigned),
        }
    }

    /// The request that stores the file data `block` for the entry with the address
    /// `ref_inode_hash`: the block, signed where signatures are in use. A directory
    /// entry is turned down.
    pub fn put_data(&self, block: DataCapsuleFileSystemBlock, ref_inode_hash: String) -> (r: Result<
        PutDataRequest,
        ClientError,
    >)
        ensures
            match r {
                Ok(request) => block@.block is Data && self@.signed(block@) == Some(
                    request.block@,
                ) && request.inode_hash@ == ref_inode_hash@,
                Err(e) => if block@.block is Inode {
                    e == ClientError::NotData
                } else {
                    e == ClientError::Unsigned && self@.signed(block@) is None
                },
            },
    {
        match &block.block {
            Block::Data(_) => {},
            Block::Inode(_) => {
                return Err(ClientError::NotData);
            },
        }
        match self.seal(block) {
            Some(block) => Ok(PutDataRequest { block, inode_hash: ref_inode_hash }),
            None => Err(ClientError::Unsigned),
        }
    }

    /// The identity of the user `uid` under the writer's public key, signed by the
    /// writer where signatures are in use. None where the key cannot sign.
    pub fn get_id(&self, uid: u64) -> (id: Option<Id>)
        ensures
            match id {
                Some(i) => self@.id(uid) == Some(i@),
                None => self@.id(uid) is None,
            },
    {
        let mut id = Id {
            pub_key: slice_to_vec(self.public_key_pkcs8.as_str().as_bytes()),
            uid,
            signature: Vec::new(),
        };
        if self.enable_crypto {
            if !id.sign(&self.signing_key) {
                return None;
            }
        }
        Some(id)
    }
}

} // verus!
