//! The capsule: an append-only store of signed blocks under their content addresses,
//! with the set of blocks that no other block follows.

use vstd::prelude::*;
use vstd::hash_map::StringHashMap;
use crate::block::{
    clone_strings, ids_view, strings_view, Block, CapsuleBlockView, DataCapsuleBlock,
    DataCapsuleFileSystemBlock, FileSystemBlockView, Id, IdView,
};
use crate::crypto::{
    address, checked_signature, rsa_verifies, SignableBlock, SigningKey, VerifyingKey, DIGEST_LIMIT,
};
use crate::wire::{capsule_wire, fs_wire, id_wire};

verus! {

/// Why the capsule turned a block down.
#[derive(Debug, Clone, Copy, PartialEq, Eq, Structural)]
pub enum CapsuleError {
    /// A signature does not verify, or the writer is not on the allow list of the
    /// directory that the block belongs to.
    PermissionDenied,
    /// The capsule could not sign the block or compute its address.
    Internal,
}

/// What a capsule holds.
pub struct DataCapsuleServerData {
    /// Every stored block under its address.
    pub content: StringHashMap<DataCapsuleBlock>,
    /// The addresses of the stored blocks that no stored block follows.
    pub leafs: Vec<String>,
    /// The addresses of all stored blocks, in the order in which they were stored.
    pub addresses: Vec<String>,
}

/// The mathematical state of a capsule.
pub struct CapsuleView {
    pub content: Map<Seq<char>, CapsuleBlockView>,
    pub leafs: Seq<Seq<char>>,
    pub addresses: Seq<Seq<char>>,
}

impl View for DataCapsuleServerData {
    type V = CapsuleView;

    open spec fn view(&self) -> CapsuleView {
        CapsuleView {
            content: self.content@.map_values(|b: DataCapsuleBlock| b@),
            leafs: strings_view(self.leafs@),
            addresses: strings_view(self.addresses@),
        }
    }
}

impl CapsuleView {
    /// Whether some stored block follows the block with address `hash`.
    pub open spec fn followed(self, hash: Seq<char>) -> bool {
        exists|other: Seq<char>|
            self.content.contains_key(other) && (#[trigger] self.content[other]).prev_hash == hash
    }

    /// What every state of a capsule satisfies: the leaves are stored blocks, none is
    /// listed twice, and every address is the text of a digest.
    pub open spec fn wf(self) -> bool {
        &&& self.leafs.no_duplicates()
        &&& forall|i: int| 0 <= i < self.leafs.len() ==> self.content.contains_key(#[trigger] self.leafs[i])
        &&& forall|h: Seq<char>| #[trigger] self.content.contains_key(h) ==> h.len() == 64
    }

    /// Whether the list of addresses names every stored block once and nothing else.
    pub open spec fn indexed(self) -> bool {
        &&& self.addresses.no_duplicates()
        &&& forall|h: Seq<char>| self.content.contains_key(h) <==> self.addresses.contains(h)
    }

    /// Whether every stored block follows a stored block or none at all.
    pub open spec fn chained(self) -> bool {
        forall|h: Seq<char>|
            self.content.contains_key(h) ==> (#[trigger] self.content[h]).prev_hash.len() == 0
                || self.content.contains_key(self.content[h].prev_hash)
    }

    /// Whether the leaves are exactly the stored blocks that no stored block follows.
    pub open spec fn leaf_closed(self) -> bool {
        forall|h: Seq<char>|
            #[trigger] self.content.contains_key(h) ==> (self.leafs.contains(h) <==> !self.followed(h))
    }

    /// The state after the block `block` with address `hash` was handed in: unchanged where
    /// the address is taken; else the block is stored, its address becomes a leaf and
    /// the address of the block that it follows is a leaf no longer.
    pub open spec fn stored(self, hash: Seq<char>, block: CapsuleBlockView) -> CapsuleView {
        if self.content.contains_key(hash) {
            self
        } else {
            CapsuleView {
                content: self.content.insert(hash, block),
                leafs: self.leafs.push(hash).remove_value(block.prev_hash),
                addresses: self.addresses.push(hash),
            }
        }
    }

    /// Whether the directory entry that `fs` belongs to lets its writer write: where
    /// the block follows a stored directory entry, that entry's allow list names the
    /// writer.
    pub open spec fn allows(self, fs: FileSystemBlockView) -> bool {
        (self.content.contains_key(fs.prev_hash) && self.content[fs.prev_hash].fs.block is Inode)
            ==> self.content[fs.prev_hash].fs.block->Inode_0.write_allow_list.contains(
            fs.updated_by,
        )
    }
}

/// Whether `fs` carries a valid signature under `key` and its writer's identity is
/// signed by the key that it names.
pub open spec fn authentic(fs: FileSystemBlockView, key: Seq<u8>) -> bool {
    &&& rsa_verifies(
        key,
        fs_wire(FileSystemBlockView { signature: Seq::empty(), ..fs }),
        fs.signature,
    )
    &&& rsa_verifies(
        fs.updated_by.pub_key,
        id_wire(IdView { signature: Seq::empty(), ..fs.updated_by }),
        fs.updated_by.signature,
    )
}

/// The time of a server whose latest block carries the time `clock` when the wall
/// clock shows `wall`: the wall clock, but later than the latest block wherever a later
/// time can be counted.
pub open spec fn later(clock: i64, wall: i64) -> i64 {
    if wall > clock {
        wall
    } else if clock < i64::MAX {
        (clock + 1) as i64
    } else {
        clock
    }
}

/// The time that the next block carries: server time never goes back.
pub fn next_timestamp(clock: i64, wall: i64) -> (t: i64)
    ensures
        t == later(clock, wall),
        t >= wall,
        t >= clock,
        clock < i64::MAX ==> t > clock,
{
    if wall > clock {
        wall
    } else if clock < i64::MAX {
        clock + 1
    } else {
        clock
    }
}

/// The blocks of a list under their addresses: of two blocks under one address the
/// later in the list.
pub open spec fn restored(blocks: Seq<(Seq<char>, CapsuleBlockView)>) -> Map<
    Seq<char>,
    CapsuleBlockView,
>
    decreases blocks.len(),
{
    if blocks.len() == 0 {
        Map::empty()
    } else {
        restored(blocks.drop_last()).insert(blocks.last().0, blocks.last().1)
    }
}

/// The views of a list of blocks with their addresses.
pub open spec fn pairs_view(s: Seq<(String, DataCapsuleBlock)>) -> Seq<(Seq<char>, CapsuleBlockView)> {
    s.map_values(|e: (String, DataCapsuleBlock)| (e.0@, e.1@))
}

impl DataCapsuleServerData {
    /// The state of a capsule from what a snapshot holds: the blocks with their
    /// addresses, and the leaves.
    pub fn restore(blocks: Vec<(String, DataCapsuleBlock)>, leafs: Vec<String>) -> (data:
        DataCapsuleServerData)
        ensures
            data@.content == restored(pairs_view(blocks@)),
            data@.leafs == strings_view(leafs@),
            data@.indexed(),
    {
        let mut content: StringHashMap<DataCapsuleBlock> = StringHashMap::new();
        let mut addresses: Vec<String> = Vec::new();
        let ghost all = pairs_view(blocks@);
        let mut i: usize = 0;
        assert(strings_view(addresses@) =~= Seq::<Seq<char>>::empty());
        while i < blocks.len()
            invariant
                i <= blocks.len(),
                all == pairs_view(blocks@),
                content@.map_values(|b: DataCapsuleBlock| b@) == restored(all.take(i as int)),
                strings_view(addresses@).no_duplicates(),
                forall|h: Seq<char>|
                    content@.contains_key(h) <==> strings_view(addresses@).contains(h),
            decreases blocks.len() - i,
        {
            let ghost before = content@.map_values(|b: DataCapsuleBlock| b@);
            let ghost listed = strings_view(addresses@);
            let ghost key = blocks@[i as int].0@;
            if !content.contains_key(blocks[i].0.as_str()) {
                addresses.push(blocks[i].0.clone());
                assert(strings_view(addresses@) =~= listed.push(key));
            }
            content.insert(blocks[i].0.clone(), blocks[i].1.clone());
            proof {
                let next = all.take(i as int + 1);
                assert(next.drop_last() =~= all.take(i as int));
                assert(next.last() == (blocks@[i as int].0@, blocks@[i as int].1@));
                assert(content@.map_values(|b: DataCapsuleBlock| b@) =~= before.insert(
                    next.last().0,
                    next.last().1,
                ));
                let now = strings_view(addresses@);
                assert forall|h: Seq<char>| content@.contains_key(h) <==> now.contains(h) by {
                    if listed.contains(h) {
                        let j = choose|j: int| 0 <= j < listed.len() && listed[j] == h;
                        assert(now[j] == h);
                    }
                    if now.contains(h) && !listed.contains(h) {
                        let j = choose|j: int| 0 <= j < now.len() && now[j] == h;
                        assert(j == listed.len());
                    }
                    if h == key && !listed.contains(key) {
                        assert(now[now.len() - 1] == key);
                    }
                }
            }
            i += 1;
        }
        assert(all.take(i as int) =~= all);
        let data = DataCapsuleServerData { content, leafs, addresses };
        assert(data@.content.dom() =~= data.content@.dom());
        data
    }

    /// The stored blocks with their addresses, in the order in which they were stored:
    /// what a snapshot holds beside the leaves. `restore` makes the same blocks of them.
    pub fn snapshot(&self) -> (blocks: Vec<(String, DataCapsuleBlock)>)
        ensures
            forall|i: int|
                0 <= i < blocks@.len() ==> self@.content.contains_key((#[trigger] blocks@[i]).0@)
                    && blocks@[i].1@ == self@.content[blocks@[i].0@],
            self@.indexed() ==> blocks@.len() == self@.addresses.len() && restored(
                pairs_view(blocks@),
            ) == self@.content,
    {
        let ghost content = self@.content;
        let ghost listed = self@.addresses;
        let mut blocks: Vec<(String, DataCapsuleBlock)> = Vec::new();
        let mut i: usize = 0;
        assert(pairs_view(blocks@) =~= Seq::<(Seq<char>, CapsuleBlockView)>::empty());
        while i < self.addresses.len()
            invariant
                i <= self.addresses.len(),
                content == self@.content,
                listed == self@.addresses,
                listed == strings_view(self.addresses@),
                forall|j: int|
                    0 <= j < blocks@.len() ==> content.contains_key((#[trigger] blocks@[j]).0@)
                        && blocks@[j].1@ == content[blocks@[j].0@],
                self@.indexed() ==> blocks@.len() == i,
                forall|h: Seq<char>|
                    #[trigger] restored(pairs_view(blocks@)).contains_key(h)
                        ==> content.contains_key(h) && restored(pairs_view(blocks@))[h]
                        == content[h],
                self@.indexed() ==> forall|h: Seq<char>|
                    #[trigger] listed.take(i as int).contains(h) ==> restored(
                        pairs_view(blocks@),
                    ).contains_key(h),
            decreases self.addresses.len() - i,
        {
            let ghost before = pairs_view(blocks@);
            let ghost key = listed[i as int];
            assert(key == self.addresses@[i as int]@);
            match self.content.get(self.addresses[i].as_str()) {
                Some(block) => {
                    blocks.push((self.addresses[i].clone(), block.clone()));
                    proof {
                        let now = pairs_view(blocks@);
                        assert(self.content@.contains_key(key));
                        assert(content.contains_key(key));
                        assert(content[key] == block@);
                        assert(now =~= before.push((key, block@)));
                        assert(now.drop_last() =~= before);
                        assert(now.last() == (key, block@));
                        assert(restored(now) == restored(before).insert(key, block@));
                        assert forall|h: Seq<char>| #[trigger]
                            restored(now).contains_key(h) implies content.contains_key(h)
                            && restored(now)[h] == content[h] by {
                            if h != key {
                                assert(restored(before).contains_key(h));
                            }
                        }
                        if self@.indexed() {
                            assert forall|h: Seq<char>| #[trigger]
                                listed.take(i as int + 1).contains(h) implies restored(
                                now,
                            ).contains_key(h) by {
                                let short = listed.take(i as int);
                                let long = listed.take(i as int + 1);
                                assert(long =~= short.push(key));
                                if h != key {
                                    let j = choose|j: int| 0 <= j < long.len() && long[j] == h;
                                    assert(short[j] == h);
                                    assert(short.contains(h));
                                    assert(restored(before).contains_key(h));
                                }
                            }
                        }
                    }
                },
                None => {
                    proof {
                        if self@.indexed() {
                            assert(listed.contains(key));
                            assert(false);
                        }
                    }
                },
            }
            i += 1;
        }
        proof {
            if self@.indexed() {
                assert(listed.take(i as int) =~= listed);
                let again = restored(pairs_view(blocks@));
                assert forall|h: Seq<char>| again.contains_key(h) <==> content.contains_key(
                    h,
                ) by {
                    if content.contains_key(h) {
                        assert(listed.contains(h));
                        assert(listed.take(i as int).contains(h));
                    }
                }
                assert(again.dom() =~= content.dom());
                assert(again =~= content);
            }
        }
        blocks
    }
}

/// The capsule block that wraps `fs` at the time `timestamp`, without a signature.
pub open spec fn wrapped(fs: FileSystemBlockView, timestamp: i64) -> CapsuleBlockView {
    CapsuleBlockView { prev_hash: fs.prev_hash, fs, timestamp, signature: Seq::empty() }
}

/// The capsule block that the server makes of `fs` at the time `timestamp`: signed with
/// `signing_key` where signatures are in use. None where the key cannot sign.
pub open spec fn sealed(
    fs: FileSystemBlockView,
    timestamp: i64,
    signing_key: Seq<u8>,
    enable_crypto: bool,
) -> Option<CapsuleBlockView> {
    let bare = wrapped(fs, timestamp);
    if !enable_crypto {
        Some(bare)
    } else {
        match checked_signature(signing_key, capsule_wire(bare)) {
            Some(signature) => Some(CapsuleBlockView { signature, ..bare }),
            None => None,
        }
    }
}

/// A capsule server: the state of one capsule and the keys it works with.
pub struct MyDataCapsule {
    pub data: DataCapsuleServerData,
    /// The key under which the blocks of writers verify.
    pub verifying_key: VerifyingKey,
    /// The key with which the server signs what it stores.
    pub signing_key: SigningKey,
    /// Whether signatures are made and checked.
    pub enable_crypto: bool,
}

pub struct MyDataCapsuleView {
    pub data: CapsuleView,
    pub verifying_key: Seq<u8>,
    pub signing_key: Seq<u8>,
    pub enable_crypto: bool,
}

impl View for MyDataCapsule {
    type V = MyDataCapsuleView;

    open spec fn view(&self) -> MyDataCapsuleView {
        MyDataCapsuleView {
            data: self.data@,
            verifying_key: self.verifying_key@,
            signing_key: self.signing_key@,
            enable_crypto: self.enable_crypto,
        }
    }
}

impl MyDataCapsuleView {
    /// The error that a put of `fs` at the time `timestamp` meets, if any. Where
    /// signatures are in use, a block that is not authentic is denied; a block that the
    /// capsule does not hold yet is denied as well where the directory entry that it
    /// belongs to does not allow its writer.
    pub open spec fn put_error(self, fs: FileSystemBlockView, timestamp: i64) -> Option<
        CapsuleError,
    > {
        if self.enable_crypto && !authentic(fs, self.verifying_key) {
            Some(CapsuleError::PermissionDenied)
        } else {
            match sealed(fs, timestamp, self.signing_key, self.enable_crypto) {
                None => Some(CapsuleError::Internal),
                Some(block) => if capsule_wire(block).len() >= DIGEST_LIMIT {
                    Some(CapsuleError::Internal)
                } else if self.enable_crypto && !self.data.content.contains_key(
                    address(capsule_wire(block)),
                ) && !self.data.allows(fs) {
                    Some(CapsuleError::PermissionDenied)
                } else {
                    None
                },
            }
        }
    }

    /// The block that a put of `fs` at the time `timestamp` stores.
    pub open spec fn put_block(self, fs: FileSystemBlockView, timestamp: i64) -> CapsuleBlockView {
        sealed(fs, timestamp, self.signing_key, self.enable_crypto)->Some_0
    }

    /// The address under which a put of `fs` at the time `timestamp` stores its block.
    pub open spec fn put_hash(self, fs: FileSystemBlockView, timestamp: i64) -> Seq<char> {
        address(capsule_wire(self.put_block(fs, timestamp)))
    }

    /// The state after a put of `fs` at the time `timestamp`.
    pub open spec fn put(self, fs: FileSystemBlockView, timestamp: i64) -> MyDataCapsuleView {
        if self.put_error(fs, timestamp) is Some {
            self
        } else {
            MyDataCapsuleView {
                data: self.data.stored(self.put_hash(fs, timestamp), self.put_block(fs, timestamp)),
                ..self
            }
        }
    }
}

/// A request for the block with the address `block_hash`.
pub struct GetRequest {
    pub block_hash: String,
}

/// The answer to a `GetRequest`: the block, if the capsule holds it.
pub struct GetResponse {
    pub block: Option<DataCapsuleBlock>,
}

/// A request to store a file-system block.
pub struct PutRequest {
    pub block: DataCapsuleFileSystemBlock,
}

/// The answer to a `PutRequest`.
pub struct PutResponse {
    /// Whether the block was stored now; `false` where the capsule held it already.
    pub success: bool,
    /// The address of the block.
    pub hash: String,
    /// The block as the capsule holds it.
    pub block: DataCapsuleBlock,
}

/// A request for the leaves.
pub struct LeafsRequest {}

/// The answer to a `LeafsRequest`.
pub struct LeafsResponse {
    pub leaf_ids: Vec<String>,
}

/// Whether `list` names the identity `id`.
fn names(list: &Vec<Id>, id: &Id) -> (found: bool)
    ensures
        found == ids_view(list@).contains(id@),
{
    let mut i: usize = 0;
    while i < list.len()
        invariant
            i <= list.len(),
            forall|j: int| 0 <= j < i ==> ids_view(list@)[j] != id@,
        decreases list.len() - i,
    {
        if list[i].same(id) {
            assert(ids_view(list@)[i as int] == id@);
            return true;
        }
        i += 1;
    }
    false
}

/// Index of the first item of `list` that equals `text`.
fn position(list: &Vec<String>, text: &String) -> (found: Option<usize>)
    ensures
        match strings_view(list@).index_of_first(text@) {
            Some(i) => found == Some(i as usize) && 0 <= i < list.len(),
            None => found is None,
        },
{
    let ghost view = strings_view(list@);
    let mut i: usize = 0;
    while i < list.len()
        invariant
            i <= list.len(),
            view == strings_view(list@),
            forall|j: int| 0 <= j < i ==> view[j] != text@,
        decreases list.len() - i,
    {
        if list[i] == *text {
            proof {
                assert(view[i as int] == text@);
                view.index_of_first_ensures(text@);
            }
            return Some(i);
        }
        i += 1;
    }
    proof {
        view.index_of_first_ensures(text@);
    }
    None
}

impl MyDataCapsule {
    /// A capsule that holds nothing.
    pub fn new(verifying_key: VerifyingKey, signing_key: SigningKey, enable_crypto: bool) -> (capsule:
        MyDataCapsule)
        ensures
            capsule@.data.content == Map::<Seq<char>, CapsuleBlockView>::empty(),
            capsule@.data.leafs == Seq::<Seq<char>>::empty(),
            capsule@.verifying_key == verifying_key@,
            capsule@.signing_key == signing_key@,
            capsule@.enable_crypto == enable_crypto,
            capsule@.data.addresses == Seq::<Seq<char>>::empty(),
            capsule@.data.wf(),
            capsule@.data.indexed(),
            capsule@.data.chained(),
            capsule@.data.leaf_closed(),
    {
        let data = DataCapsuleServerData {
            content: StringHashMap::new(),
            leafs: Vec::new(),
            addresses: Vec::new(),
        };
        assert(data@.content =~= Map::<Seq<char>, CapsuleBlockView>::empty());
        assert(data@.leafs =~= Seq::<Seq<char>>::empty());
        assert(data@.addresses =~= Seq::<Seq<char>>::empty());
        MyDataCapsule { data, verifying_key, signing_key, enable_crypto }
    }

    /// The block stored under the address that the request names, if there is one.
    pub fn get(&self, request: &GetRequest) -> (response: GetResponse)
        ensures
            match response.block {
                Some(block) => self@.data.content.contains_key(request.block_hash@) && block@
                    == self@.data.content[request.block_hash@],
                None => !self@.data.content.contains_key(request.block_hash@),
            },
    {
        match self.data.content.get(request.block_hash.as_str()) {
            Some(block) => GetResponse { block: Some(block.clone()) },
            None => GetResponse { block: None },
        }
    }

    /// The addresses of the leaves, in the order in which they became leaves.
    pub fn leafs(&self) -> (response: LeafsResponse)
        ensures
            strings_view(response.leaf_ids@) == self@.data.leafs,
    {
        LeafsResponse { leaf_ids: clone_strings(&self.data.leafs) }
    }

    /// Whether `fs` carries a valid signature under the key of this capsule and its
    /// writer's identity is signed by the key that it names.
    fn authentic(&self, fs: &DataCapsuleFileSystemBlock) -> (ok: bool)
        ensures
            ok == authentic(fs@, self@.verifying_key),
    {
        if !fs.validate(&self.verifying_key) {
            return false;
        }
        let own = VerifyingKey { spki_pem: fs.updated_by.pub_key.clone() };
        fs.updated_by.validate(&own)
    }

    /// Whether the directory entry that `fs` belongs to lets its writer write.
    fn allows(&self, fs: &DataCapsuleFileSystemBlock) -> (ok: bool)
        ensures
            ok == self@.data.allows(fs@),
    {
        match self.data.content.get(fs.prev_hash.as_str()) {
            Some(parent) => match &parent.fs.block {
                Block::Inode(entry) => names(&entry.write_allow_list, &fs.updated_by),
                Block::Data(_) => true,
            },
            None => true,
        }
    }

    /// Stores the file-system block of the request, stamped with the time `timestamp`
    /// and, where signatures are in use, signed by the server. A block that the capsule
    /// holds already is not stored again: the answer names its address and says
    /// `success: false`. Where signatures are in use, a block that is not authentic is
    /// denied, and so is a new block whose writer the directory entry that it belongs to
    /// does not allow. Nothing changes where the request is turned down.
    pub fn put(&mut self, request: PutRequest, timestamp: i64) -> (r: Result<
        PutResponse,
        CapsuleError,
    >)
        ensures
            final(self)@ == old(self)@.put(request.block@, timestamp),
            match r {
                Err(e) => old(self)@.put_error(request.block@, timestamp) == Some(e),
                Ok(response) => {
                    &&& old(self)@.put_error(request.block@, timestamp) is None
                    &&& response.hash@ == old(self)@.put_hash(request.block@, timestamp)
                    &&& response.block@ == old(self)@.put_block(request.block@, timestamp)
                    &&& response.success == !old(self)@.data.content.contains_key(response.hash@)
                },
            },
            old(self)@.data.wf() ==> final(self)@.data.wf(),
            old(self)@.data.indexed() ==> final(self)@.data.indexed(),
            old(self)@.data.wf() && old(self)@.data.chained() && old(self)@.data.leaf_closed() && (
            request.block@.prev_hash.len() == 0 || old(self)@.data.content.contains_key(
                request.block@.prev_hash,
            )) ==> final(self)@.data.chained() && final(self)@.data.leaf_closed(),
    {
        let ghost before = self@;
        let ghost fs_view = request.block@;
        if self.enable_crypto && !self.authentic(&request.block) {
            return Err(CapsuleError::PermissionDenied);
        }
        let mut block = DataCapsuleBlock {
            prev_hash: request.block.prev_hash.clone(),
            fs: request.block,
            timestamp,
            signature: Vec::new(),
        };
        assert(block@ == wrapped(fs_view, timestamp));
        if self.enable_crypto {
            if !block.sign(&self.signing_key) {
                return Err(CapsuleError::Internal);
            }
        }
        assert(Some(block@) == sealed(fs_view, timestamp, before.signing_key, before.enable_crypto));
        let hash = match block.hash() {
            Some(hash) => hash,
            None => {
                return Err(CapsuleError::Internal);
            },
        };
        proof {
            lemma_stored_wf(before.data, hash@, block@);
            lemma_stored_indexed(before.data, hash@, block@);
            lemma_stored_closed(before.data, hash@, block@);
        }
        if self.data.content.contains_key(hash.as_str()) {
            return Ok(PutResponse { success: false, hash, block });
        }
        if self.enable_crypto && !self.allows(&block.fs) {
            return Err(CapsuleError::PermissionDenied);
        }
        self.data.content.insert(hash.clone(), block.clone());
        self.data.addresses.push(hash.clone());
        assert(strings_view(self.data.addresses@) =~= before.data.addresses.push(hash@));
        self.data.leafs.push(hash.clone());
        let ghost pushed = strings_view(self.data.leafs@);
        assert(pushed =~= before.data.leafs.push(hash@));
        match position(&self.data.leafs, &block.prev_hash) {
            Some(i) => {
                self.data.leafs.remove(i);
                assert(strings_view(self.data.leafs@) =~= pushed.remove(i as int));
            },
            None => {},
        }
        assert(self@.data.content =~= before.data.content.insert(hash@, block@));
        assert(self@.data == before.data.stored(hash@, block@));
        Ok(PutResponse { success: true, hash, block })
    }
}

/// Storing a block keeps the list of addresses in step with the stored blocks.
pub proof fn lemma_stored_indexed(c: CapsuleView, hash: Seq<char>, block: CapsuleBlockView)
    ensures
        c.indexed() ==> c.stored(hash, block).indexed(),
{
    if c.indexed() && !c.content.contains_key(hash) {
        let after = c.stored(hash, block);
        let listed = c.addresses;
        let now = listed.push(hash);
        assert(after.addresses == now);
        assert forall|i: int, j: int|
            0 <= i < now.len() && 0 <= j < now.len() && i != j implies now[i] != now[j] by {
            if i < listed.len() {
                assert(listed.contains(listed[i]));
            }
            if j < listed.len() {
                assert(listed.contains(listed[j]));
            }
        }
        assert forall|h: Seq<char>| after.content.contains_key(h) <==> now.contains(h) by {
            if listed.contains(h) {
                let j = choose|j: int| 0 <= j < listed.len() && listed[j] == h;
                assert(now[j] == h);
            }
            if now.contains(h) && h != hash {
                let j = choose|j: int| 0 <= j < now.len() && now[j] == h;
                assert(listed[j] == h);
            }
            assert(now[now.len() - 1] == hash);
        }
    }
}

/// Storing a block whose address is the text of a digest keeps the capsule well formed.
pub proof fn lemma_stored_wf(c: CapsuleView, hash: Seq<char>, block: CapsuleBlockView)
    requires
        hash.len() == 64,
    ensures
        c.wf() ==> c.stored(hash, block).wf(),
{
    if c.wf() && !c.content.contains_key(hash) {
        let after = c.stored(hash, block);
        let pushed = c.leafs.push(hash);
        assert(pushed.no_duplicates()) by {
            assert forall|i: int, j: int|
                0 <= i < pushed.len() && 0 <= j < pushed.len() && i != j implies pushed[i]
                != pushed[j] by {
                if i < c.leafs.len() {
                    assert(c.content.contains_key(c.leafs[i]));
                }
                if j < c.leafs.len() {
                    assert(c.content.contains_key(c.leafs[j]));
                }
            }
        }
        pushed.index_of_first_ensures(block.prev_hash);
        match pushed.index_of_first(block.prev_hash) {
            Some(k) => {
                let cut = pushed.remove(k);
                assert(after.leafs == cut);
                assert forall|i: int, j: int|
                    0 <= i < cut.len() && 0 <= j < cut.len() && i != j implies cut[i] != cut[j] by {
                    let si = if i < k { i } else { i + 1 };
                    let sj = if j < k { j } else { j + 1 };
                    assert(cut[i] == pushed[si]);
                    assert(cut[j] == pushed[sj]);
                }
                assert forall|i: int| 0 <= i < cut.len() implies after.content.contains_key(
                    #[trigger] cut[i],
                ) by {
                    let si = if i < k { i } else { i + 1 };
                    assert(cut[i] == pushed[si]);
                    if si < c.leafs.len() {
                        assert(c.content.contains_key(c.leafs[si]));
                    }
                }
            },
            None => {
                assert forall|i: int| 0 <= i < pushed.len() implies after.content.contains_key(
                    #[trigger] pushed[i],
                ) by {
                    if i < c.leafs.len() {
                        assert(c.content.contains_key(c.leafs[i]));
                    }
                }
            },
        }
    }
}

/// The leaves stay the blocks that no block follows: where every stored block follows a
/// stored block or none, and the leaves are exactly the stored blocks that none follows,
/// both still hold after a block was stored that itself follows a stored block or none.
pub proof fn lemma_stored_closed(c: CapsuleView, hash: Seq<char>, block: CapsuleBlockView)
    requires
        hash.len() == 64,
    ensures
        c.wf() && c.chained() && c.leaf_closed() && (block.prev_hash.len() == 0
            || c.content.contains_key(block.prev_hash)) ==> c.stored(hash, block).chained()
            && c.stored(hash, block).leaf_closed(),
{
    if c.wf() && c.chained() && c.leaf_closed() && (block.prev_hash.len() == 0
        || c.content.contains_key(block.prev_hash)) && !c.content.contains_key(hash) {
        let after = c.stored(hash, block);
        let prev = block.prev_hash;
        let pushed = c.leafs.push(hash);
        lemma_stored_wf(c, hash, block);
        pushed.index_of_first_ensures(prev);
        assert(prev != hash);
        // What the list of leaves holds after the block was stored.
        assert forall|h: Seq<char>| after.leafs.contains(h) <==> (h == hash || (c.leafs.contains(h)
            && h != prev)) by {
            match pushed.index_of_first(prev) {
                Some(k) => {
                    let cut = pushed.remove(k);
                    if cut.contains(h) {
                        let i = choose|i: int| 0 <= i < cut.len() && cut[i] == h;
                        let si = if i < k { i } else { i + 1 };
                        assert(cut[i] == pushed[si]);
                        assert(pushed.no_duplicates()) by {
                            assert forall|a: int, b: int|
                                0 <= a < pushed.len() && 0 <= b < pushed.len() && a
                                    != b implies pushed[a] != pushed[b] by {
                                if a < c.leafs.len() {
                                    assert(c.content.contains_key(c.leafs[a]));
                                }
                                if b < c.leafs.len() {
                                    assert(c.content.contains_key(c.leafs[b]));
                                }
                            }
                        }
                        if si < c.leafs.len() {
                            assert(c.leafs[si] == h);
                        }
                    }
                    if h == hash {
                        let at = pushed.len() - 1;
                        assert(pushed[at] == hash);
                        assert(k != at);
                        let di = if at < k { at } else { at - 1 };
                        assert(cut[di] == hash);
                    } else if c.leafs.contains(h) && h != prev {
                        let j = choose|j: int| 0 <= j < c.leafs.len() && c.leafs[j] == h;
                        assert(pushed[j] == h);
                        let dj = if j < k { j } else { j - 1 };
                        assert(cut[dj] == h);
                    }
                },
                None => {
                    if pushed.contains(h) {
                        let i = choose|i: int| 0 <= i < pushed.len() && pushed[i] == h;
                        if i < c.leafs.len() {
                            assert(c.leafs[i] == h);
                        }
                    }
                    if h == hash {
                        assert(pushed[pushed.len() - 1] == hash);
                    } else if c.leafs.contains(h) {
                        let j = choose|j: int| 0 <= j < c.leafs.len() && c.leafs[j] == h;
                        assert(pushed[j] == h);
                    }
                },
            }
        }
        assert forall|h: Seq<char>| #[trigger] after.content.contains_key(h) implies (
        after.leafs.contains(h) <==> !after.followed(h)) by {
            if h == hash {
                if after.followed(h) {
                    let other = choose|other: Seq<char>|
                        after.content.contains_key(other) && (
                        #[trigger] after.content[other]).prev_hash == h;
                    if other != hash {
                        assert(c.content.contains_key(other));
                        assert(c.content[other].prev_hash == h);
                    }
                }
            } else {
                assert(c.content.contains_key(h));
                if c.followed(h) {
                    let other = choose|other: Seq<char>|
                        c.content.contains_key(other) && (#[trigger] c.content[other]).prev_hash
                            == h;
                    assert(after.content.contains_key(other) && after.content[other].prev_hash
                        == h);
                }
                if h == prev {
                    assert(after.content.contains_key(hash) && after.content[hash].prev_hash == h);
                }
                if after.followed(h) {
                    let other = choose|other: Seq<char>|
                        after.content.contains_key(other) && (
                        #[trigger] after.content[other]).prev_hash == h;
                    if other != hash {
                        assert(c.content.contains_key(other) && c.content[other].prev_hash == h);
                    }
                }
            }
        }
        assert forall|h: Seq<char>| after.content.contains_key(h) implies (
        #[trigger] after.content[h]).prev_hash.len() == 0 || after.content.contains_key(
            after.content[h].prev_hash,
        ) by {
            if h != hash {
                assert(c.content.contains_key(h));
                assert(after.content[h] == c.content[h]);
            }
        }
    }
}

/// The leaves are the stored blocks that no stored block follows: in a capsule that is
/// well formed and whose leaves are closed, the set of leaves is the set of the
/// addresses in `content` that are the `prev_hash` of no block in `content`.
pub proof fn lemma_leafs_are_unfollowed(c: CapsuleView)
    requires
        c.wf(),
        c.leaf_closed(),
    ensures
        c.leafs.to_set() == Set::new(|h: Seq<char>| c.content.contains_key(h) && !c.followed(h)),
{
    let want = Set::new(|h: Seq<char>| c.content.contains_key(h) && !c.followed(h));
    assert forall|h: Seq<char>| c.leafs.to_set().contains(h) <==> want.contains(h) by {
        if c.leafs.contains(h) {
            let i = choose|i: int| 0 <= i < c.leafs.len() && c.leafs[i] == h;
            assert(c.content.contains_key(c.leafs[i]));
        }
    }
    assert(c.leafs.to_set() =~= want);
}

/// A put repeated at the same time changes nothing: after a put, the same put once
/// more leaves the blocks and the leaves as they are and names the same address and the
/// same block. Where the first put was taken, the second is taken too and finds the
/// block stored: it answers `success: false` with the same address.
pub proof fn lemma_put_twice(c: MyDataCapsuleView, fs: FileSystemBlockView, timestamp: i64)
    ensures
        ({
            let once = c.put(fs, timestamp);
            &&& once.put(fs, timestamp) == once
            &&& once.put_hash(fs, timestamp) == c.put_hash(fs, timestamp)
            &&& once.put_block(fs, timestamp) == c.put_block(fs, timestamp)
            &&& c.put_error(fs, timestamp) is None ==> once.put_error(fs, timestamp) is None
                && once.data.content.contains_key(c.put_hash(fs, timestamp))
                && once.data.content[c.put_hash(fs, timestamp)] == (if c.data.content.contains_key(
                c.put_hash(fs, timestamp),
            ) {
                c.data.content[c.put_hash(fs, timestamp)]
            } else {
                c.put_block(fs, timestamp)
            })
        }),
{
    let once = c.put(fs, timestamp);
    let hash = c.put_hash(fs, timestamp);
    let block = c.put_block(fs, timestamp);
    if c.put_error(fs, timestamp) is None {
        assert(once.data == c.data.stored(hash, block));
        assert(once.data.content.contains_key(hash));
        assert(once.put_error(fs, timestamp) is None);
        assert(once.data.stored(hash, block) == once.data);
    }
}

} // verus!
