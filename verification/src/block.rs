//! The records that travel between clients, the signing middleware and the capsules,
//! each with its mathematical view.

use vstd::prelude::*;

verus! {

/// A self-signed identity: a public key bound to a numeric user id.
#[derive(Debug)]
pub struct Id {
    /// The writer's public key, as SPKI PEM text.
    pub pub_key: Vec<u8>,
    pub uid: u64,
    /// Signature over the record with this field empty.
    pub signature: Vec<u8>,
}

pub struct IdView {
    pub pub_key: Seq<u8>,
    pub uid: u64,
    pub signature: Seq<u8>,
}

impl View for Id {
    type V = IdView;

    open spec fn view(&self) -> IdView {
        IdView { pub_key: self.pub_key@, uid: self.uid, signature: self.signature@ }
    }
}

/// What an inode block describes.
#[derive(Debug, Clone, Copy, PartialEq, Eq, Structural)]
pub enum Kind {
    Directory,
    RegularFile,
    DeletedFolder,
    DeletedRegularFile,
}

/// A directory entry: one revision of a file or a folder.
#[derive(Debug)]
pub struct INodeBlock {
    pub filename: Vec<u8>,
    pub size: u64,
    pub kind: Kind,
    /// `hashes[i]` names the data block that holds the file's `i`-th block of bytes.
    pub hashes: Vec<String>,
    pub write_allow_list: Vec<Id>,
}

pub struct INodeBlockView {
    pub filename: Seq<u8>,
    pub size: u64,
    pub kind: Kind,
    pub hashes: Seq<Seq<char>>,
    pub write_allow_list: Seq<IdView>,
}

/// The views of a sequence of strings.
pub open spec fn strings_view(s: Seq<String>) -> Seq<Seq<char>> {
    s.map_values(|h: String| h@)
}

/// The views of a sequence of identities.
pub open spec fn ids_view(s: Seq<Id>) -> Seq<IdView> {
    s.map_values(|i: Id| i@)
}

/// The views of a sequence of byte blocks.
pub open spec fn blocks_view(s: Seq<Vec<u8>>) -> Seq<Seq<u8>> {
    s.map_values(|b: Vec<u8>| b@)
}

impl View for INodeBlock {
    type V = INodeBlockView;

    open spec fn view(&self) -> INodeBlockView {
        INodeBlockView {
            filename: self.filename@,
            size: self.size,
            kind: self.kind,
            hashes: strings_view(self.hashes@),
            write_allow_list: ids_view(self.write_allow_list@),
        }
    }
}

/// A slice of file contents.
#[derive(Debug)]
pub struct DataBlock {
    pub data: Vec<u8>,
}

impl View for DataBlock {
    type V = Seq<u8>;

    open spec fn view(&self) -> Seq<u8> {
        self.data@
    }
}

/// The payload of a file-system block.
#[derive(Debug)]
pub enum Block {
    Inode(INodeBlock),
    Data(DataBlock),
}

pub enum BlockView {
    Inode(INodeBlockView),
    Data(Seq<u8>),
}

impl View for Block {
    type V = BlockView;

    open spec fn view(&self) -> BlockView {
        match self {
            Block::Inode(b) => BlockView::Inode(b@),
            Block::Data(d) => BlockView::Data(d@),
        }
    }
}

/// A client-signed record: a payload, the block it follows and who wrote it.
#[derive(Debug)]
pub struct DataCapsuleFileSystemBlock {
    pub prev_hash: String,
    pub block: Block,
    pub updated_by: Id,
    /// Signature over the record with this field empty.
    pub signature: Vec<u8>,
}

pub struct FileSystemBlockView {
    pub prev_hash: Seq<char>,
    pub block: BlockView,
    pub updated_by: IdView,
    pub signature: Seq<u8>,
}

impl View for DataCapsuleFileSystemBlock {
    type V = FileSystemBlockView;

    open spec fn view(&self) -> FileSystemBlockView {
        FileSystemBlockView {
            prev_hash: self.prev_hash@,
            block: self.block@,
            updated_by: self.updated_by@,
            signature: self.signature@,
        }
    }
}

/// What a capsule stores: a file-system block stamped and signed by the server.
#[derive(Debug)]
pub struct DataCapsuleBlock {
    pub prev_hash: String,
    pub fs: DataCapsuleFileSystemBlock,
    pub timestamp: i64,
    /// Signature over the record with this field empty.
    pub signature: Vec<u8>,
}

pub struct CapsuleBlockView {
    pub prev_hash: Seq<char>,
    pub fs: FileSystemBlockView,
    pub timestamp: i64,
    pub signature: Seq<u8>,
}

impl View for DataCapsuleBlock {
    type V = CapsuleBlockView;

    open spec fn view(&self) -> CapsuleBlockView {
        CapsuleBlockView {
            prev_hash: self.prev_hash@,
            fs: self.fs@,
            timestamp: self.timestamp,
            signature: self.signature@,
        }
    }
}

/// The view of a block of bytes that may be missing.
pub open spec fn block_view(block: Option<Vec<u8>>) -> Option<Seq<u8>> {
    match block {
        Some(v) => Some(v@),
        None => None,
    }
}

/// Whether two byte strings hold the same bytes.
pub fn bytes_eq(a: &[u8], b: &[u8]) -> (same: bool)
    ensures
        same == (a@ == b@),
{
    if a.len() != b.len() {
        return false;
    }
    let mut i: usize = 0;
    while i < a.len()
        invariant
            a.len() == b.len(),
            i <= a.len(),
            forall|j: int| 0 <= j < i ==> a@[j] == b@[j],
        decreases a.len() - i,
    {
        if a[i] != b[i] {
            return false;
        }
        i += 1;
    }
    assert(a@ =~= b@);
    true
}

/// A copy of a list of strings.
pub fn clone_strings(v: &Vec<String>) -> (copy: Vec<String>)
    ensures
        strings_view(copy@) == strings_view(v@),
{
    let mut copy: Vec<String> = Vec::new();
    let mut i: usize = 0;
    while i < v.len()
        invariant
            i <= v.len(),
            copy.len() == i,
            forall|j: int| 0 <= j < i ==> copy@[j]@ == v@[j]@,
        decreases v.len() - i,
    {
        copy.push(v[i].clone());
        i += 1;
    }
    assert(strings_view(copy@) =~= strings_view(v@));
    copy
}

impl Id {
    /// Whether two identities agree in every field.
    pub fn same(&self, other: &Id) -> (same: bool)
        ensures
            same == (self@ == other@),
    {
        self.uid == other.uid && bytes_eq(self.pub_key.as_slice(), other.pub_key.as_slice())
            && bytes_eq(self.signature.as_slice(), other.signature.as_slice())
    }
}

impl Clone for Id {
    fn clone(&self) -> (copy: Self)
        ensures
            copy@ == self@,
    {
        Id { pub_key: self.pub_key.clone(), uid: self.uid, signature: self.signature.clone() }
    }
}

/// A copy of a list of identities.
pub fn clone_ids(v: &Vec<Id>) -> (copy: Vec<Id>)
    ensures
        ids_view(copy@) == ids_view(v@),
{
    let mut copy: Vec<Id> = Vec::new();
    let mut i: usize = 0;
    while i < v.len()
        invariant
            i <= v.len(),
            copy.len() == i,
            forall|j: int| 0 <= j < i ==> copy@[j]@ == v@[j]@,
        decreases v.len() - i,
    {
        copy.push(v[i].clone());
        i += 1;
    }
    assert(ids_view(copy@) =~= ids_view(v@));
    copy
}

impl Kind {
    /// Whether the kind marks a removed entry.
    pub open spec fn spec_is_deleted(self) -> bool {
        self == Kind::DeletedFolder || self == Kind::DeletedRegularFile
    }

    /// The kind that marks the removal of an entry of this kind.
    pub open spec fn spec_deleted(self) -> Kind {
        match self {
            Kind::Directory => Kind::DeletedFolder,
            Kind::RegularFile => Kind::DeletedRegularFile,
            k => k,
        }
    }
}

impl Clone for INodeBlock {
    fn clone(&self) -> (copy: Self)
        ensures
            copy@ == self@,
    {
        INodeBlock {
            filename: self.filename.clone(),
            size: self.size,
            kind: self.kind,
            hashes: clone_strings(&self.hashes),
            write_allow_list: clone_ids(&self.write_allow_list),
        }
    }
}

impl Clone for DataBlock {
    fn clone(&self) -> (copy: Self)
        ensures
            copy@ == self@,
    {
        DataBlock { data: self.data.clone() }
    }
}

impl Clone for Block {
    fn clone(&self) -> (copy: Self)
        ensures
            copy@ == self@,
    {
        match self {
            Block::Inode(b) => Block::Inode(b.clone()),
            Block::Data(d) => Block::Data(d.clone()),
        }
    }
}

impl Clone for DataCapsuleFileSystemBlock {
    fn clone(&self) -> (copy: Self)
        ensures
            copy@ == self@,
    {
        DataCapsuleFileSystemBlock {
            prev_hash: self.prev_hash.clone(),
            block: self.block.clone(),
            updated_by: self.updated_by.clone(),
            signature: self.signature.clone(),
        }
    }
}

impl Clone for DataCapsuleBlock {
    fn clone(&self) -> (copy: Self)
        ensures
            copy@ == self@,
    {
        DataCapsuleBlock {
            prev_hash: self.prev_hash.clone(),
            fs: self.fs.clone(),
            timestamp: self.timestamp,
            signature: self.signature.clone(),
        }
    }
}

} // verus!
