//! The canonical bytes of the records: the protocol-buffers wire encoding, written out
//! field by field. Hashes and signatures are computed over these bytes.

use vstd::prelude::*;
use vstd::utf8::encode_utf8;
use crate::block::{
    strings_view, ids_view, Block, BlockView, CapsuleBlockView, DataCapsuleBlock,
    DataCapsuleFileSystemBlock, FileSystemBlockView, INodeBlock, INodeBlockView, Id, IdView, Kind,
};

verus! {

/// A number in base 128, the low digits first, each digit but the last marked by its
/// high bit.
pub open spec fn varint(v: u64) -> Seq<u8>
    decreases v,
{
    if v < 128 {
        seq![v as u8]
    } else {
        seq![(v % 128 + 128) as u8] + varint(v / 128)
    }
}

/// The key that opens field `field` (below 16) with wire type `wire` (below 8).
pub open spec fn tag(field: u8, wire: u8) -> Seq<u8> {
    seq![(field * 8 + wire) as u8]
}

/// A field that holds `body` behind its length.
pub open spec fn delimited(field: u8, body: Seq<u8>) -> Seq<u8> {
    tag(field, 2) + varint(body.len() as u64) + body
}

/// A field of bytes: left out where there are none.
pub open spec fn bytes_field(field: u8, bytes: Seq<u8>) -> Seq<u8> {
    if bytes.len() == 0 {
        Seq::empty()
    } else {
        delimited(field, bytes)
    }
}

/// A field that holds text, as UTF-8: left out where the text is empty.
pub open spec fn string_field(field: u8, text: Seq<char>) -> Seq<u8> {
    bytes_field(field, encode_utf8(text))
}

/// A field that holds a number: left out where the number is zero.
pub open spec fn uint_field(field: u8, v: u64) -> Seq<u8> {
    if v == 0 {
        Seq::empty()
    } else {
        tag(field, 0) + varint(v)
    }
}

/// The number that stands for a kind on the wire.
pub open spec fn kind_code(kind: Kind) -> u64 {
    match kind {
        Kind::Directory => 0,
        Kind::RegularFile => 1,
        Kind::DeletedFolder => 2,
        Kind::DeletedRegularFile => 3,
    }
}

/// The canonical bytes of an identity.
pub open spec fn id_wire(id: IdView) -> Seq<u8> {
    bytes_field(1, id.pub_key) + uint_field(2, id.uid) + bytes_field(3, id.signature)
}

/// A repeated field of text: every item is there, the empty ones too.
pub open spec fn strings_wire(field: u8, items: Seq<Seq<char>>) -> Seq<u8>
    decreases items.len(),
{
    if items.len() == 0 {
        Seq::empty()
    } else {
        strings_wire(field, items.drop_last()) + delimited(field, encode_utf8(items.last()))
    }
}

/// A repeated field of identities.
pub open spec fn ids_wire(field: u8, items: Seq<IdView>) -> Seq<u8>
    decreases items.len(),
{
    if items.len() == 0 {
        Seq::empty()
    } else {
        ids_wire(field, items.drop_last()) + delimited(field, id_wire(items.last()))
    }
}

/// The canonical bytes of an inode block.
pub open spec fn inode_wire(b: INodeBlockView) -> Seq<u8> {
    bytes_field(1, b.filename) + uint_field(2, b.size) + uint_field(3, kind_code(b.kind))
        + strings_wire(4, b.hashes) + ids_wire(5, b.write_allow_list)
}

/// The canonical bytes of a data block.
pub open spec fn data_wire(data: Seq<u8>) -> Seq<u8> {
    bytes_field(1, data)
}

/// The field that holds the payload of a file-system block: one field number for each
/// of the two kinds of payload.
pub open spec fn payload_wire(b: BlockView) -> Seq<u8> {
    match b {
        BlockView::Inode(i) => delimited(2, inode_wire(i)),
        BlockView::Data(d) => delimited(3, data_wire(d)),
    }
}

/// The canonical bytes of a file-system block.
pub open spec fn fs_wire(f: FileSystemBlockView) -> Seq<u8> {
    string_field(1, f.prev_hash) + payload_wire(f.block) + delimited(4, id_wire(f.updated_by))
        + bytes_field(5, f.signature)
}

/// The canonical bytes of a capsule block. The timestamp travels as the 64 bits of its
/// two's complement.
pub open spec fn capsule_wire(c: CapsuleBlockView) -> Seq<u8> {
    string_field(1, c.prev_hash) + delimited(2, fs_wire(c.fs)) + uint_field(3, c.timestamp as u64)
        + bytes_field(4, c.signature)
}

/// Appends a number in base 128.
pub fn put_varint(buf: &mut Vec<u8>, v: u64)
    ensures
        final(buf)@ == old(buf)@ + varint(v),
{
    let ghost start = buf@;
    let mut rest: u64 = v;
    while rest >= 128
        invariant
            start + varint(v) == buf@ + varint(rest),
        decreases rest,
    {
        let ghost before = buf@;
        let digit: u8 = (rest % 128 + 128) as u8;
        buf.push(digit);
        assert(buf@ + varint(rest / 128) =~= before + (seq![digit] + varint(rest / 128)));
        rest = rest / 128;
    }
    let ghost before = buf@;
    buf.push(rest as u8);
    assert(buf@ =~= before + varint(rest));
}

/// Appends bytes as they are.
pub fn put_raw(buf: &mut Vec<u8>, bytes: &[u8])
    ensures
        final(buf)@ == old(buf)@ + bytes@,
{
    let ghost before = buf@;
    buf.extend_from_slice(bytes);
    assert(buf@ =~= before + bytes@);
}

/// Appends a field that holds `body` behind its length.
pub fn put_delimited(buf: &mut Vec<u8>, field: u8, body: &[u8])
    requires
        field < 16,
    ensures
        final(buf)@ == old(buf)@ + delimited(field, body@),
{
    let ghost before = buf@;
    buf.push(field * 8 + 2);
    put_varint(buf, body.len() as u64);
    put_raw(buf, body);
    assert(buf@ =~= before + delimited(field, body@));
}

/// Appends a field of bytes, unless there are none.
pub fn put_bytes(buf: &mut Vec<u8>, field: u8, bytes: &[u8])
    requires
        field < 16,
    ensures
        final(buf)@ == old(buf)@ + bytes_field(field, bytes@),
{
    if bytes.len() != 0 {
        put_delimited(buf, field, bytes);
    } else {
        assert(buf@ =~= buf@ + bytes_field(field, bytes@));
    }
}

/// Appends a field of text, unless the text is empty.
pub fn put_string(buf: &mut Vec<u8>, field: u8, text: &String)
    requires
        field < 16,
    ensures
        final(buf)@ == old(buf)@ + string_field(field, text@),
{
    put_bytes(buf, field, text.as_str().as_bytes());
}

/// Appends a field that holds a number, unless the number is zero.
pub fn put_uint(buf: &mut Vec<u8>, field: u8, v: u64)
    requires
        field < 16,
    ensures
        final(buf)@ == old(buf)@ + uint_field(field, v),
{
    let ghost before = buf@;
    if v != 0 {
        buf.push(field * 8);
        put_varint(buf, v);
        assert(buf@ =~= before + uint_field(field, v));
    } else {
        assert(buf@ =~= before + uint_field(field, v));
    }
}

impl Kind {
    /// The number that stands for this kind on the wire.
    pub fn code(&self) -> (code: u64)
        ensures
            code == kind_code(*self),
    {
        match self {
            Kind::Directory => 0,
            Kind::RegularFile => 1,
            Kind::DeletedFolder => 2,
            Kind::DeletedRegularFile => 3,
        }
    }
}

impl Id {
    /// The canonical bytes of this identity.
    pub fn encode(&self) -> (bytes: Vec<u8>)
        ensures
            bytes@ == id_wire(self@),
    {
        let mut buf: Vec<u8> = Vec::new();
        put_bytes(&mut buf, 1, self.pub_key.as_slice());
        put_uint(&mut buf, 2, self.uid);
        put_bytes(&mut buf, 3, self.signature.as_slice());
        assert(buf@ =~= id_wire(self@));
        buf
    }
}

impl INodeBlock {
    /// The canonical bytes of this inode block.
    pub fn encode(&self) -> (bytes: Vec<u8>)
        ensures
            bytes@ == inode_wire(self@),
    {
        let mut buf: Vec<u8> = Vec::new();
        put_bytes(&mut buf, 1, self.filename.as_slice());
        put_uint(&mut buf, 2, self.size);
        put_uint(&mut buf, 3, self.kind.code());
        let ghost head = buf@;
        let ghost hashes = strings_view(self.hashes@);
        let mut i: usize = 0;
        while i < self.hashes.len()
            invariant
                i <= self.hashes.len(),
                hashes == strings_view(self.hashes@),
                buf@ == head + strings_wire(4, hashes.take(i as int)),
            decreases self.hashes.len() - i,
        {
            let ghost before = buf@;
            put_string_item(&mut buf, 4, &self.hashes[i]);
            proof {
                assert(hashes.take(i as int + 1).drop_last() =~= hashes.take(i as int));
                assert(hashes.take(i as int + 1).last() == self.hashes@[i as int]@);
                assert(buf@ =~= head + strings_wire(4, hashes.take(i as int + 1)));
            }
            i += 1;
        }
        assert(hashes.take(i as int) =~= hashes);
        let ghost middle = buf@;
        let ghost ids = ids_view(self.write_allow_list@);
        let mut j: usize = 0;
        while j < self.write_allow_list.len()
            invariant
                j <= self.write_allow_list.len(),
                ids == ids_view(self.write_allow_list@),
                buf@ == middle + ids_wire(5, ids.take(j as int)),
            decreases self.write_allow_list.len() - j,
        {
            let body = self.write_allow_list[j].encode();
            put_delimited(&mut buf, 5, body.as_slice());
            proof {
                assert(ids.take(j as int + 1).drop_last() =~= ids.take(j as int));
                assert(ids.take(j as int + 1).last() == self.write_allow_list@[j as int]@);
                assert(buf@ =~= middle + ids_wire(5, ids.take(j as int + 1)));
            }
            j += 1;
        }
        assert(ids.take(j as int) =~= ids);
        assert(buf@ =~= inode_wire(self@));
        buf
    }
}

/// Appends one item of a repeated field of text.
fn put_string_item(buf: &mut Vec<u8>, field: u8, text: &String)
    requires
        field < 16,
    ensures
        final(buf)@ == old(buf)@ + delimited(field, encode_utf8(text@)),
{
    put_delimited(buf, field, text.as_str().as_bytes());
}

impl Block {
    /// The field that holds this payload in a file-system block.
    pub fn encode(&self) -> (bytes: Vec<u8>)
        ensures
            bytes@ == payload_wire(self@),
    {
        let mut buf: Vec<u8> = Vec::new();
        match self {
            Block::Inode(inode) => {
                let body = inode.encode();
                put_delimited(&mut buf, 2, body.as_slice());
            },
            Block::Data(data) => {
                let mut body: Vec<u8> = Vec::new();
                put_bytes(&mut body, 1, data.data.as_slice());
                assert(body@ =~= data_wire(data@));
                put_delimited(&mut buf, 3, body.as_slice());
            },
        }
        assert(buf@ =~= payload_wire(self@));
        buf
    }
}

impl DataCapsuleFileSystemBlock {
    /// The canonical bytes of this file-system block.
    pub fn encode(&self) -> (bytes: Vec<u8>)
        ensures
            bytes@ == fs_wire(self@),
    {
        let mut buf: Vec<u8> = Vec::new();
        put_string(&mut buf, 1, &self.prev_hash);
        let payload = self.block.encode();
        put_raw(&mut buf, payload.as_slice());
        let id = self.updated_by.encode();
        put_delimited(&mut buf, 4, id.as_slice());
        put_bytes(&mut buf, 5, self.signature.as_slice());
        assert(buf@ =~= fs_wire(self@));
        buf
    }
}

impl DataCapsuleBlock {
    /// The canonical bytes of this capsule block.
    pub fn encode(&self) -> (bytes: Vec<u8>)
        ensures
            bytes@ == capsule_wire(self@),
    {
        let mut buf: Vec<u8> = Vec::new();
        put_string(&mut buf, 1, &self.prev_hash);
        let fs = self.fs.encode();
        put_delimited(&mut buf, 2, fs.as_slice());
        put_uint(&mut buf, 3, #[verifier::truncate] (self.timestamp as u64));
        put_bytes(&mut buf, 4, self.signature.as_slice());
        assert(buf@ =~= capsule_wire(self@));
        buf
    }
}

} // verus!
