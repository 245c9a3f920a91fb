//! Reading the canonical bytes back: every reader accepts exactly what the writers of
//! `wire` produce, so that what was read is written again byte for byte.

use vstd::prelude::*;
use vstd::slice::{slice_subrange, slice_to_vec};
use vstd::utf8::{decode_utf8, encode_utf8, valid_utf8};
use crate::block::{
    ids_view, strings_view, Block, BlockView, CapsuleBlockView, DataBlock, DataCapsuleBlock,
    DataCapsuleFileSystemBlock, FileSystemBlockView, INodeBlock, INodeBlockView, Id, IdView, Kind,
};
use crate::crypto::{address, SignableBlock};
use crate::wire::{
    bytes_field, capsule_wire, data_wire, delimited, fs_wire, id_wire, ids_wire, inode_wire,
    kind_code, payload_wire, string_field, strings_wire, tag, uint_field, varint,
};

verus! {

/// The largest number of bytes of a number in base 128 that fits 64 bits.
pub const VARINT_LIMIT: u8 = 10;

/// The largest number that can take one more digit in base 128 and still fit 64 bits.
pub const VARINT_HIGH: u64 = 0x01ff_ffff_ffff_ffff;

/// The number in base 128 at the front of `s` and the count of its bytes; none where
/// there is no such number in at most `limit` bytes, where it does not fit 64 bits or
/// where it is written with more digits than it needs.
pub open spec fn read_varint(s: Seq<u8>, limit: nat) -> Option<(u64, int)>
    decreases limit,
{
    if limit == 0 || s.len() == 0 {
        None
    } else if s[0] < 128 {
        Some((s[0] as u64, 1))
    } else {
        match read_varint(s.skip(1), (limit - 1) as nat) {
            Some((high, n)) => if 0 < high <= VARINT_HIGH {
                Some(((high * 128 + (s[0] - 128)) as u64, n + 1))
            } else {
                None
            },
            None => None,
        }
    }
}

/// 128 to the power of `k`.
pub open spec fn pow128(k: nat) -> int
    decreases k,
{
    if k == 0 {
        1
    } else {
        128 * pow128((k - 1) as nat)
    }
}

/// A number below 128 to the power of `k` has no more than `k` digits in base 128.
proof fn lemma_varint_len(v: u64, k: nat)
    requires
        k >= 1,
        v < pow128(k),
    ensures
        1 <= varint(v).len() <= k,
    decreases k,
{
    if v >= 128 {
        assert(pow128(1) == 128) by {
            reveal_with_fuel(pow128, 2);
        }
        assert(k >= 2);
        lemma_varint_len(v / 128, (k - 1) as nat);
    }
}

/// Every number of 64 bits has at most ten digits in base 128.
pub proof fn lemma_varint_fits(v: u64)
    ensures
        1 <= varint(v).len() <= 10,
{
    assert(pow128(10) == 0x40_0000_0000_0000_0000) by {
        reveal_with_fuel(pow128, 11);
    }
    lemma_varint_len(v, 10);
}

/// What was read as a number is the number as it is written.
pub proof fn lemma_read_varint_sound(s: Seq<u8>, limit: nat)
    ensures
        match read_varint(s, limit) {
            Some((v, n)) => 0 < n <= s.len() && n <= limit && s.take(n) == varint(v),
            None => true,
        },
    decreases limit,
{
    if limit > 0 && s.len() > 0 {
        if s[0] < 128 {
            assert(s.take(1) =~= varint(s[0] as u64));
        } else {
            lemma_read_varint_sound(s.skip(1), (limit - 1) as nat);
            match read_varint(s.skip(1), (limit - 1) as nat) {
                Some((high, n)) => {
                    if 0 < high <= VARINT_HIGH {
                        let v = (high * 128 + (s[0] - 128)) as u64;
                        assert(v / 128 == high && v % 128 == s[0] - 128);
                        assert(s.take(n + 1) =~= seq![s[0]] + s.skip(1).take(n));
                    }
                },
                None => {},
            }
        }
    }
}

/// A number as it is written is read as that number, whatever follows it.
pub proof fn lemma_read_varint_complete(v: u64, rest: Seq<u8>, limit: nat)
    requires
        limit >= varint(v).len(),
    ensures
        read_varint(varint(v) + rest, limit) == Some((v, varint(v).len() as int)),
    decreases v,
{
    let s = varint(v) + rest;
    if v < 128 {
        assert(s[0] == v as u8);
    } else {
        assert(s[0] == (v % 128 + 128) as u8);
        assert(s.skip(1) =~= varint(v / 128) + rest);
        lemma_read_varint_complete(v / 128, rest, (limit - 1) as nat);
    }
}

/// Whether `s` begins with the byte `t`.
pub open spec fn starts_with(s: Seq<u8>, t: u8) -> bool {
    s.len() > 0 && s[0] == t
}

/// The body of the length-delimited field `field` at the front of `s` and the count of
/// the bytes that the field takes; none where there is no such field.
pub open spec fn read_field(s: Seq<u8>, field: u8) -> Option<(Seq<u8>, int)> {
    if !starts_with(s, (field * 8 + 2) as u8) {
        None
    } else {
        match read_varint(s.skip(1), 10) {
            Some((len, n)) => if 1 + n + len <= s.len() {
                Some((s.subrange(1 + n, 1 + n + len), 1 + n + len))
            } else {
                None
            },
            None => None,
        }
    }
}

/// What was read as a field is the field as it is written.
pub proof fn lemma_read_field_sound(s: Seq<u8>, field: u8)
    requires
        field < 16,
    ensures
        match read_field(s, field) {
            Some((body, n)) => 0 < n <= s.len() && s.take(n) == delimited(field, body),
            None => true,
        },
{
    if starts_with(s, (field * 8 + 2) as u8) {
        lemma_read_varint_sound(s.skip(1), 10);
        match read_varint(s.skip(1), 10) {
            Some((len, n)) => {
                if 1 + n + len <= s.len() {
                    let body = s.subrange(1 + n, 1 + n + len);
                    assert(body.len() as u64 == len);
                    assert(s.take(1 + n + len) =~= tag(field, 2) + s.skip(1).take(n) + body);
                }
            },
            None => {},
        }
    }
}

/// A field as it is written is read as that field, whatever follows it.
pub proof fn lemma_read_field_complete(field: u8, body: Seq<u8>, rest: Seq<u8>)
    requires
        field < 16,
        body.len() <= u64::MAX,
    ensures
        read_field(delimited(field, body) + rest, field) == Some(
            (body, delimited(field, body).len() as int),
        ),
{
    let s = delimited(field, body) + rest;
    let len = body.len() as u64;
    lemma_varint_fits(len);
    assert(s[0] == (field * 8 + 2) as u8);
    assert(s.skip(1) =~= varint(len) + (body + rest));
    lemma_read_varint_complete(len, body + rest, 10);
    let n = varint(len).len() as int;
    assert(s.subrange(1 + n, 1 + n + len) =~= body);
}

/// An optional field of bytes at the front of `s`: its bytes, none where the field is
/// not there, and what follows it. A field that is there without bytes is not accepted.
#[verifier::opaque]
pub open spec fn read_bytes(s: Seq<u8>, field: u8) -> Option<(Seq<u8>, Seq<u8>)> {
    if starts_with(s, (field * 8 + 2) as u8) {
        match read_field(s, field) {
            Some((body, n)) => if body.len() > 0 {
                Some((body, s.skip(n)))
            } else {
                None
            },
            None => None,
        }
    } else {
        Some((Seq::empty(), s))
    }
}

/// An optional field that holds a number at the front of `s`: the number, zero where
/// the field is not there, and what follows it. A field that holds zero is not
/// accepted.
#[verifier::opaque]
pub open spec fn read_uint(s: Seq<u8>, field: u8) -> Option<(u64, Seq<u8>)> {
    if starts_with(s, (field * 8) as u8) {
        match read_varint(s.skip(1), 10) {
            Some((v, n)) => if v > 0 {
                Some((v, s.skip(1 + n)))
            } else {
                None
            },
            None => None,
        }
    } else {
        Some((0, s))
    }
}

/// A field that has to be there at the front of `s`: its body and what follows it.
#[verifier::opaque]
pub open spec fn read_message(s: Seq<u8>, field: u8) -> Option<(Seq<u8>, Seq<u8>)> {
    match read_field(s, field) {
        Some((body, n)) => Some((body, s.skip(n))),
        None => None,
    }
}

/// A repeated field at the front of `s`: the bodies of its items and what follows them.
#[verifier::opaque]
pub open spec fn read_repeated(s: Seq<u8>, field: u8) -> Option<(Seq<Seq<u8>>, Seq<u8>)>
    decreases s.len(),
{
    if starts_with(s, (field * 8 + 2) as u8) {
        match read_field(s, field) {
            Some((body, n)) => if 0 < n <= s.len() {
                match read_repeated(s.skip(n), field) {
                    Some((items, rest)) => Some((seq![body] + items, rest)),
                    None => None,
                }
            } else {
                None
            },
            None => None,
        }
    } else {
        Some((Seq::empty(), s))
    }
}

/// The items of a repeated field as they are written, given their bodies.
pub open spec fn repeated_wire(field: u8, bodies: Seq<Seq<u8>>) -> Seq<u8>
    decreases bodies.len(),
{
    if bodies.len() == 0 {
        Seq::empty()
    } else {
        repeated_wire(field, bodies.drop_last()) + delimited(field, bodies.last())
    }
}

/// A repeated field is its first item followed by the others.
pub proof fn lemma_repeated_front(field: u8, body: Seq<u8>, items: Seq<Seq<u8>>)
    ensures
        repeated_wire(field, seq![body] + items) == delimited(field, body) + repeated_wire(
            field,
            items,
        ),
    decreases items.len(),
{
    let all = seq![body] + items;
    if items.len() == 0 {
        assert(all.drop_last() =~= Seq::<Seq<u8>>::empty());
        assert(all.last() == body);
        assert(repeated_wire(field, all.drop_last()) =~= Seq::<u8>::empty());
        assert(repeated_wire(field, all) =~= delimited(field, body));
        assert(delimited(field, body) + repeated_wire(field, items) =~= delimited(field, body));
    } else {
        assert(all.drop_last() =~= seq![body] + items.drop_last());
        assert(all.last() == items.last());
        lemma_repeated_front(field, body, items.drop_last());
        assert(repeated_wire(field, all) =~= delimited(field, body) + repeated_wire(field, items));
    }
}

/// A repeated field is empty or begins with its key, and is as long as its bodies at least.
pub proof fn lemma_repeated_shape(field: u8, bodies: Seq<Seq<u8>>)
    ensures
        bodies.len() == 0 ==> repeated_wire(field, bodies).len() == 0,
        bodies.len() > 0 ==> starts_with(repeated_wire(field, bodies), (field * 8 + 2) as u8),
        forall|i: int|
            0 <= i < bodies.len() ==> (#[trigger] bodies[i]).len() <= repeated_wire(
                field,
                bodies,
            ).len(),
    decreases bodies.len(),
{
    if bodies.len() > 0 {
        let shorter = bodies.drop_last();
        lemma_repeated_shape(field, shorter);
        let w = repeated_wire(field, bodies);
        assert(delimited(field, bodies.last())[0] == (field * 8 + 2) as u8);
        if shorter.len() > 0 {
            assert(w[0] == repeated_wire(field, shorter)[0]);
        } else {
            assert(w[0] == delimited(field, bodies.last())[0]);
        }
        assert forall|i: int| 0 <= i < bodies.len() implies (#[trigger] bodies[i]).len()
            <= w.len() by {
            if i < shorter.len() {
                assert(shorter[i] == bodies[i]);
            }
        }
    }
}

/// What was read as an optional field of bytes is the field as it is written.
pub proof fn lemma_read_bytes_sound(s: Seq<u8>, field: u8)
    requires
        field < 16,
    ensures
        match read_bytes(s, field) {
            Some((body, rest)) => s == bytes_field(field, body) + rest,
            None => true,
        },
{
    reveal(read_bytes);
    lemma_read_field_sound(s, field);
    match read_bytes(s, field) {
        Some((body, rest)) => {
            if starts_with(s, (field * 8 + 2) as u8) {
                let n = read_field(s, field)->Some_0.1;
                assert(s =~= s.take(n) + s.skip(n));
            } else {
                assert(s =~= bytes_field(field, body) + rest);
            }
        },
        None => {},
    }
}

/// An optional field of bytes as it is written is read as it was, where what follows
/// does not begin with the key of the field.
pub proof fn lemma_read_bytes_complete(field: u8, body: Seq<u8>, rest: Seq<u8>)
    requires
        field < 16,
        body.len() <= u64::MAX,
        !starts_with(rest, (field * 8 + 2) as u8),
    ensures
        read_bytes(bytes_field(field, body) + rest, field) == Some((body, rest)),
{
    reveal(read_bytes);
    let s = bytes_field(field, body) + rest;
    if body.len() == 0 {
        assert(s =~= rest);
    } else {
        lemma_read_field_complete(field, body, rest);
        assert(s[0] == (field * 8 + 2) as u8);
        assert(s.skip(delimited(field, body).len() as int) =~= rest);
    }
}

/// What was read as an optional number is the field as it is written.
pub proof fn lemma_read_uint_sound(s: Seq<u8>, field: u8)
    requires
        field < 16,
    ensures
        match read_uint(s, field) {
            Some((v, rest)) => s == uint_field(field, v) + rest,
            None => true,
        },
{
    reveal(read_uint);
    match read_uint(s, field) {
        Some((v, rest)) => {
            if starts_with(s, (field * 8) as u8) {
                lemma_read_varint_sound(s.skip(1), 10);
                let n = read_varint(s.skip(1), 10)->Some_0.1;
                assert(s =~= tag(field, 0) + s.skip(1).take(n) + s.skip(1 + n));
            } else {
                assert(s =~= uint_field(field, v) + rest);
            }
        },
        None => {},
    }
}

/// An optional number as it is written is read as it was, where what follows does not
/// begin with the key of the field.
pub proof fn lemma_read_uint_complete(field: u8, v: u64, rest: Seq<u8>)
    requires
        field < 16,
        !starts_with(rest, (field * 8) as u8),
    ensures
        read_uint(uint_field(field, v) + rest, field) == Some((v, rest)),
{
    reveal(read_uint);
    let s = uint_field(field, v) + rest;
    if v == 0 {
        assert(s =~= rest);
    } else {
        lemma_varint_fits(v);
        assert(s[0] == (field * 8) as u8);
        assert(s.skip(1) =~= varint(v) + rest);
        lemma_read_varint_complete(v, rest, 10);
        assert(s.skip(1 + varint(v).len() as int) =~= rest);
    }
}

/// What was read as a field that has to be there is the field as it is written.
pub proof fn lemma_read_message_sound(s: Seq<u8>, field: u8)
    requires
        field < 16,
    ensures
        match read_message(s, field) {
            Some((body, rest)) => s == delimited(field, body) + rest,
            None => true,
        },
{
    reveal(read_message);
    lemma_read_field_sound(s, field);
    match read_field(s, field) {
        Some((body, n)) => {
            assert(s =~= s.take(n) + s.skip(n));
        },
        None => {},
    }
}

/// A field as it is written is read as it was, whatever follows it.
pub proof fn lemma_read_message_complete(field: u8, body: Seq<u8>, rest: Seq<u8>)
    requires
        field < 16,
        body.len() <= u64::MAX,
    ensures
        read_message(delimited(field, body) + rest, field) == Some((body, rest)),
{
    reveal(read_message);
    lemma_read_field_complete(field, body, rest);
    assert((delimited(field, body) + rest).skip(delimited(field, body).len() as int) =~= rest);
}

/// What was read as a repeated field is the field as it is written.
pub proof fn lemma_read_repeated_sound(s: Seq<u8>, field: u8)
    requires
        field < 16,
    ensures
        match read_repeated(s, field) {
            Some((items, rest)) => s == repeated_wire(field, items) + rest,
            None => true,
        },
    decreases s.len(),
{
    reveal(read_repeated);
    if starts_with(s, (field * 8 + 2) as u8) {
        lemma_read_field_sound(s, field);
        match read_field(s, field) {
            Some((body, n)) => {
                lemma_read_repeated_sound(s.skip(n), field);
                match read_repeated(s.skip(n), field) {
                    Some((items, rest)) => {
                        lemma_repeated_front(field, body, items);
                        assert(s =~= s.take(n) + s.skip(n));
                        assert(s =~= repeated_wire(field, seq![body] + items) + rest);
                    },
                    None => {},
                }
            },
            None => {},
        }
    } else {
        assert(s =~= repeated_wire(field, Seq::empty()) + s);
    }
}

/// A repeated field as it is written is read as it was, where what follows does not
/// begin with the key of the field.
pub proof fn lemma_read_repeated_complete(field: u8, items: Seq<Seq<u8>>, rest: Seq<u8>)
    requires
        field < 16,
        forall|i: int| 0 <= i < items.len() ==> (#[trigger] items[i]).len() <= u64::MAX,
        !starts_with(rest, (field * 8 + 2) as u8),
    ensures
        read_repeated(repeated_wire(field, items) + rest, field) == Some((items, rest)),
    decreases items.len(),
{
    reveal(read_repeated);
    let s = repeated_wire(field, items) + rest;
    if items.len() == 0 {
        assert(s =~= rest);
    } else {
        let body = items[0];
        let others = items.skip(1);
        assert(items =~= seq![body] + others);
        lemma_repeated_front(field, body, others);
        let tail = repeated_wire(field, others) + rest;
        assert(s =~= delimited(field, body) + tail);
        lemma_read_field_complete(field, body, tail);
        assert(s[0] == (field * 8 + 2) as u8);
        let n = delimited(field, body).len() as int;
        assert(s.skip(n) =~= tail);
        assert forall|i: int| 0 <= i < others.len() implies (#[trigger] others[i]).len()
            <= u64::MAX by {
            assert(others[i] == items[i + 1]);
        }
        lemma_read_repeated_complete(field, others, rest);
    }
}

/// Reads the number in base 128 at position `pos`: the number and the position behind it.
fn take_varint(bytes: &[u8], pos: usize, limit: u8) -> (r: Option<(u64, usize)>)
    requires
        pos <= bytes.len(),
    ensures
        match read_varint(bytes@.skip(pos as int), limit as nat) {
            Some((v, n)) => 0 < n && pos + n <= bytes.len() && r == Some((v, (pos + n) as usize)),
            None => r is None,
        },
    decreases limit,
{
    proof {
        lemma_read_varint_sound(bytes@.skip(pos as int), limit as nat);
    }
    if limit == 0 || pos >= bytes.len() {
        return None;
    }
    let byte = bytes[pos];
    if byte < 128 {
        return Some((byte as u64, pos + 1));
    }
    assert(bytes@.skip(pos as int).skip(1) =~= bytes@.skip(pos + 1));
    match take_varint(bytes, pos + 1, limit - 1) {
        Some((high, next)) => {
            if high > 0 && high <= VARINT_HIGH {
                Some((high * 128 + (byte - 128) as u64, next))
            } else {
                None
            }
        },
        None => None,
    }
}

/// Reads the length-delimited field `field` at position `pos`: where its body begins
/// and where it ends, which is the position behind the field.
fn take_field(bytes: &[u8], pos: usize, field: u8) -> (r: Option<(usize, usize)>)
    requires
        pos <= bytes.len(),
        field < 16,
    ensures
        match read_field(bytes@.skip(pos as int), field) {
            Some((body, n)) => r is Some && pos < r->Some_0.0 <= r->Some_0.1 <= bytes.len()
                && r->Some_0.1 == pos + n && bytes@.subrange(
                r->Some_0.0 as int,
                r->Some_0.1 as int,
            ) == body,
            None => r is None,
        },
{
    let ghost s = bytes@.skip(pos as int);
    if pos >= bytes.len() || bytes[pos] != field * 8 + 2 {
        return None;
    }
    assert(s.skip(1) =~= bytes@.skip(pos + 1));
    match take_varint(bytes, pos + 1, VARINT_LIMIT) {
        Some((len, start)) => {
            if len <= (bytes.len() - start) as u64 {
                let end = start + len as usize;
                assert(s.subrange(start - pos, end - pos) =~= bytes@.subrange(
                    start as int,
                    end as int,
                ));
                Some((start, end))
            } else {
                None
            }
        },
        None => None,
    }
}

/// Reads an optional field of bytes at position `pos`: its bytes and the position behind it.
fn take_bytes(bytes: &[u8], pos: usize, field: u8) -> (r: Option<(Vec<u8>, usize)>)
    requires
        pos <= bytes.len(),
        field < 16,
    ensures
        match read_bytes(bytes@.skip(pos as int), field) {
            Some((body, rest)) => r is Some && r->Some_0.0@ == body && pos <= r->Some_0.1
                <= bytes.len() && bytes@.skip(r->Some_0.1 as int) == rest,
            None => r is None,
        },
{
    proof {
        reveal(read_bytes);
    }
    let ghost s = bytes@.skip(pos as int);
    if pos < bytes.len() && bytes[pos] == field * 8 + 2 {
        match take_field(bytes, pos, field) {
            Some((start, end)) => {
                if end > start {
                    assert(s.skip(end - pos) =~= bytes@.skip(end as int));
                    Some((slice_to_vec(slice_subrange(bytes, start, end)), end))
                } else {
                    None
                }
            },
            None => None,
        }
    } else {
        Some((Vec::new(), pos))
    }
}

/// Reads an optional field that holds a number at position `pos`: the number and the
/// position behind the field.
fn take_uint(bytes: &[u8], pos: usize, field: u8) -> (r: Option<(u64, usize)>)
    requires
        pos <= bytes.len(),
        field < 16,
    ensures
        match read_uint(bytes@.skip(pos as int), field) {
            Some((v, rest)) => r is Some && r->Some_0.0 == v && pos <= r->Some_0.1 <= bytes.len()
                && bytes@.skip(r->Some_0.1 as int) == rest,
            None => r is None,
        },
{
    proof {
        reveal(read_uint);
    }
    let ghost s = bytes@.skip(pos as int);
    if pos < bytes.len() && bytes[pos] == field * 8 {
        assert(s.skip(1) =~= bytes@.skip(pos + 1));
        match take_varint(bytes, pos + 1, VARINT_LIMIT) {
            Some((v, next)) => {
                if v > 0 {
                    assert(s.skip(next - pos) =~= bytes@.skip(next as int));
                    Some((v, next))
                } else {
                    None
                }
            },
            None => None,
        }
    } else {
        Some((0, pos))
    }
}

/// Reads a field that has to be there at position `pos`: where its body begins and
/// where it ends, which is the position behind the field.
fn take_message(bytes: &[u8], pos: usize, field: u8) -> (r: Option<(usize, usize)>)
    requires
        pos <= bytes.len(),
        field < 16,
    ensures
        match read_message(bytes@.skip(pos as int), field) {
            Some((body, rest)) => r is Some && pos < r->Some_0.0 <= r->Some_0.1 <= bytes.len()
                && bytes@.subrange(r->Some_0.0 as int, r->Some_0.1 as int) == body && bytes@.skip(
                r->Some_0.1 as int,
            ) == rest,
            None => r is None,
        },
{
    proof {
        reveal(read_message);
    }
    let ghost s = bytes@.skip(pos as int);
    match take_field(bytes, pos, field) {
        Some((start, end)) => {
            assert(s.skip(end - pos) =~= bytes@.skip(end as int));
            Some((start, end))
        },
        None => None,
    }
}

/// The identity that the bytes `s` are the canonical bytes of, if there is one.
pub open spec fn parse_id(s: Seq<u8>) -> Option<IdView> {
    match read_bytes(s, 1) {
        None => None,
        Some((pub_key, s1)) => match read_uint(s1, 2) {
            None => None,
            Some((uid, s2)) => match read_bytes(s2, 3) {
                None => None,
                Some((signature, s3)) => if s3.len() == 0 {
                    Some(IdView { pub_key, uid, signature })
                } else {
                    None
                },
            },
        },
    }
}

/// An identity that was read is written as the bytes it was read from.
pub proof fn lemma_parse_id_sound(s: Seq<u8>)
    ensures
        match parse_id(s) {
            Some(id) => id_wire(id) == s,
            None => true,
        },
{
    lemma_read_bytes_sound(s, 1);
    match read_bytes(s, 1) {
        None => {},
        Some((pub_key, s1)) => {
            lemma_read_uint_sound(s1, 2);
            match read_uint(s1, 2) {
                None => {},
                Some((uid, s2)) => {
                    lemma_read_bytes_sound(s2, 3);
                    match read_bytes(s2, 3) {
                        None => {},
                        Some((signature, s3)) => {
                            if s3.len() == 0 {
                                let id = IdView { pub_key, uid, signature };
                                assert(id_wire(id) =~= s);
                            }
                        },
                    }
                },
            }
        },
    }
}

/// An optional field of bytes is empty or begins with its key.
proof fn lemma_bytes_field_shape(field: u8, body: Seq<u8>)
    requires
        field < 16,
    ensures
        bytes_field(field, body).len() == 0 || starts_with(
            bytes_field(field, body),
            (field * 8 + 2) as u8,
        ),
        body.len() <= bytes_field(field, body).len(),
{
    if body.len() > 0 {
        assert(bytes_field(field, body)[0] == (field * 8 + 2) as u8);
    }
}

/// An optional number is empty or begins with its key.
proof fn lemma_uint_field_shape(field: u8, v: u64)
    requires
        field < 16,
    ensures
        uint_field(field, v).len() == 0 || starts_with(uint_field(field, v), (field * 8) as u8),
{
    if v != 0 {
        assert(uint_field(field, v)[0] == (field * 8) as u8);
    }
}

/// A field begins with its key and is longer than its body.
proof fn lemma_delimited_shape(field: u8, body: Seq<u8>)
    requires
        field < 16,
    ensures
        starts_with(delimited(field, body), (field * 8 + 2) as u8),
        body.len() < delimited(field, body).len(),
{
    assert(delimited(field, body)[0] == (field * 8 + 2) as u8);
}

/// The first byte of two byte strings one after the other is the first byte of the
/// first, or of the second where the first is empty.
proof fn lemma_first_of_two(a: Seq<u8>, b: Seq<u8>, t: u8)
    ensures
        starts_with(a + b, t) == (if a.len() > 0 {
            starts_with(a, t)
        } else {
            starts_with(b, t)
        }),
{
    if a.len() > 0 {
        assert((a + b)[0] == a[0]);
    } else {
        assert(a + b =~= b);
    }
}

/// The canonical bytes of an identity are read as that identity.
pub proof fn lemma_parse_id_complete(id: IdView)
    requires
        id_wire(id).len() <= u64::MAX,
    ensures
        parse_id(id_wire(id)) == Some(id),
{
    let a = bytes_field(1, id.pub_key);
    let b = uint_field(2, id.uid);
    let c = bytes_field(3, id.signature);
    lemma_bytes_field_shape(1, id.pub_key);
    lemma_uint_field_shape(2, id.uid);
    lemma_bytes_field_shape(3, id.signature);
    lemma_first_of_two(b, c, 10);
    assert(id_wire(id) =~= a + (b + c));
    lemma_read_bytes_complete(1, id.pub_key, b + c);
    lemma_read_uint_complete(2, id.uid, c);
    assert(c =~= c + Seq::<u8>::empty());
    lemma_read_bytes_complete(3, id.signature, Seq::empty());
}

impl Id {
    /// The identity with the canonical bytes `bytes`; none where they are the
    /// canonical bytes of no identity.
    pub fn decode(bytes: &[u8]) -> (id: Option<Id>)
        ensures
            match id {
                Some(i) => parse_id(bytes@) == Some(i@),
                None => parse_id(bytes@) is None,
            },
    {
        assert(bytes@.skip(0) =~= bytes@);
        let (pub_key, pos) = match take_bytes(bytes, 0, 1) {
            Some(found) => found,
            None => {
                return None;
            },
        };
        let (uid, pos) = match take_uint(bytes, pos, 2) {
            Some(found) => found,
            None => {
                return None;
            },
        };
        let (signature, pos) = match take_bytes(bytes, pos, 3) {
            Some(found) => found,
            None => {
                return None;
            },
        };
        if pos != bytes.len() {
            return None;
        }
        Some(Id { pub_key, uid, signature })
    }
}

/// The bodies that the ranges `ranges` cut out of `bytes`.
pub open spec fn cut(bytes: Seq<u8>, ranges: Seq<(usize, usize)>) -> Seq<Seq<u8>> {
    ranges.map_values(|r: (usize, usize)| bytes.subrange(r.0 as int, r.1 as int))
}

/// Reads a repeated field at position `pos`: where the bodies of its items begin and
/// end, and the position behind the last item.
fn take_repeated(bytes: &[u8], pos: usize, field: u8) -> (r: Option<(Vec<(usize, usize)>, usize)>)
    requires
        pos <= bytes.len(),
        field < 16,
    ensures
        match read_repeated(bytes@.skip(pos as int), field) {
            Some((items, rest)) => {
                &&& r is Some
                &&& cut(bytes@, r->Some_0.0@) == items
                &&& forall|i: int|
                    0 <= i < r->Some_0.0@.len() ==> (#[trigger] r->Some_0.0@[i]).0 <= r->Some_0.0@[i].1
                        <= bytes.len()
                &&& pos <= r->Some_0.1 <= bytes.len()
                &&& bytes@.skip(r->Some_0.1 as int) == rest
            },
            None => r is None,
        },
{
    let ghost whole = read_repeated(bytes@.skip(pos as int), field);
    let mut ranges: Vec<(usize, usize)> = Vec::new();
    let mut at: usize = pos;
    assert(cut(bytes@, ranges@) =~= Seq::<Seq<u8>>::empty());
    loop
        invariant
            field < 16,
            pos <= at <= bytes.len(),
            whole == read_repeated(bytes@.skip(pos as int), field),
            forall|i: int|
                0 <= i < ranges@.len() ==> (#[trigger] ranges@[i]).0 <= ranges@[i].1 <= bytes.len(),
            whole == (match read_repeated(bytes@.skip(at as int), field) {
                Some((items, rest)) => Some((cut(bytes@, ranges@) + items, rest)),
                None => None,
            }),
        ensures
            match whole {
                Some((items, rest)) => {
                    &&& cut(bytes@, ranges@) == items
                    &&& pos <= at <= bytes.len()
                    &&& bytes@.skip(at as int) == rest
                    &&& forall|i: int|
                        0 <= i < ranges@.len() ==> (#[trigger] ranges@[i]).0 <= ranges@[i].1
                            <= bytes.len()
                },
                None => false,
            },
        decreases bytes.len() - at,
    {
        let ghost s = bytes@.skip(at as int);
        proof {
            reveal(read_repeated);
        }
        if at < bytes.len() && bytes[at] == field * 8 + 2 {
            match take_field(bytes, at, field) {
                Some((start, end)) => {
                    let ghost before = cut(bytes@, ranges@);
                    let ghost body = bytes@.subrange(start as int, end as int);
                    ranges.push((start, end));
                    proof {
                        assert(s.skip(end - at) =~= bytes@.skip(end as int));
                        assert(cut(bytes@, ranges@) =~= before.push(body));
                        match read_repeated(bytes@.skip(end as int), field) {
                            Some((items, rest)) => {
                                assert(before + (seq![body] + items) =~= before.push(body) + items);
                            },
                            None => {},
                        }
                    }
                    at = end;
                },
                None => {
                    return None;
                },
            }
        } else {
            proof {
                assert(cut(bytes@, ranges@) + Seq::<Seq<u8>>::empty() =~= cut(bytes@, ranges@));
            }
            break;
        }
    }
    Some((ranges, at))
}

/// The kind that the number `code` stands for on the wire.
pub open spec fn kind_of_code(code: u64) -> Option<Kind> {
    if code == 0 {
        Some(Kind::Directory)
    } else if code == 1 {
        Some(Kind::RegularFile)
    } else if code == 2 {
        Some(Kind::DeletedFolder)
    } else if code == 3 {
        Some(Kind::DeletedRegularFile)
    } else {
        None
    }
}

/// The texts that the bodies of a repeated field hold, where all are UTF-8.
pub open spec fn parse_strings(bodies: Seq<Seq<u8>>) -> Option<Seq<Seq<char>>> {
    if forall|i: int| 0 <= i < bodies.len() ==> valid_utf8(#[trigger] bodies[i]) {
        Some(bodies.map_values(|b: Seq<u8>| decode_utf8(b)))
    } else {
        None
    }
}

/// The identities that the bodies of a repeated field hold, where all hold one.
pub open spec fn parse_ids(bodies: Seq<Seq<u8>>) -> Option<Seq<IdView>> {
    if forall|i: int| 0 <= i < bodies.len() ==> parse_id(#[trigger] bodies[i]) is Some {
        Some(bodies.map_values(|b: Seq<u8>| parse_id(b)->Some_0))
    } else {
        None
    }
}

/// A repeated field of text is the repeated field of the UTF-8 bytes of its items.
pub proof fn lemma_strings_as_repeated(field: u8, items: Seq<Seq<char>>)
    ensures
        strings_wire(field, items) == repeated_wire(
            field,
            items.map_values(|c: Seq<char>| encode_utf8(c)),
        ),
    decreases items.len(),
{
    let bodies = items.map_values(|c: Seq<char>| encode_utf8(c));
    if items.len() > 0 {
        lemma_strings_as_repeated(field, items.drop_last());
        assert(bodies.drop_last() =~= items.drop_last().map_values(|c: Seq<char>| encode_utf8(c)));
        assert(bodies.last() == encode_utf8(items.last()));
    }
}

/// A repeated field of identities is the repeated field of their canonical bytes.
pub proof fn lemma_ids_as_repeated(field: u8, items: Seq<IdView>)
    ensures
        ids_wire(field, items) == repeated_wire(field, items.map_values(|i: IdView| id_wire(i))),
    decreases items.len(),
{
    let bodies = items.map_values(|i: IdView| id_wire(i));
    if items.len() > 0 {
        lemma_ids_as_repeated(field, items.drop_last());
        assert(bodies.drop_last() =~= items.drop_last().map_values(|i: IdView| id_wire(i)));
        assert(bodies.last() == id_wire(items.last()));
    }
}

/// Texts that were read are written as the bodies they were read from.
pub proof fn lemma_parse_strings_sound(bodies: Seq<Seq<u8>>)
    ensures
        match parse_strings(bodies) {
            Some(texts) => texts.map_values(|c: Seq<char>| encode_utf8(c)) == bodies,
            None => true,
        },
{
    match parse_strings(bodies) {
        Some(texts) => {
            let again = texts.map_values(|c: Seq<char>| encode_utf8(c));
            assert forall|i: int| 0 <= i < bodies.len() implies again[i] == bodies[i] by {
                assert(valid_utf8(bodies[i]));
                vstd::utf8::decode_utf8_encode_utf8(bodies[i]);
            }
            assert(again =~= bodies);
        },
        None => {},
    }
}

/// The UTF-8 bytes of texts are read as those texts.
pub proof fn lemma_parse_strings_complete(texts: Seq<Seq<char>>)
    ensures
        parse_strings(texts.map_values(|c: Seq<char>| encode_utf8(c))) == Some(texts),
{
    let bodies = texts.map_values(|c: Seq<char>| encode_utf8(c));
    assert forall|i: int| 0 <= i < bodies.len() implies valid_utf8(#[trigger] bodies[i])
        && decode_utf8(bodies[i]) == texts[i] by {
        vstd::utf8::encode_utf8_valid_utf8(texts[i]);
        vstd::utf8::encode_utf8_decode_utf8(texts[i]);
    }
    assert(bodies.map_values(|b: Seq<u8>| decode_utf8(b)) =~= texts);
}

/// Identities that were read are written as the bodies they were read from.
pub proof fn lemma_parse_ids_sound(bodies: Seq<Seq<u8>>)
    ensures
        match parse_ids(bodies) {
            Some(ids) => ids.map_values(|i: IdView| id_wire(i)) == bodies,
            None => true,
        },
{
    match parse_ids(bodies) {
        Some(ids) => {
            let again = ids.map_values(|i: IdView| id_wire(i));
            assert forall|i: int| 0 <= i < bodies.len() implies again[i] == bodies[i] by {
                assert(parse_id(bodies[i]) is Some);
                lemma_parse_id_sound(bodies[i]);
            }
            assert(again =~= bodies);
        },
        None => {},
    }
}

/// The canonical bytes of identities are read as those identities.
pub proof fn lemma_parse_ids_complete(ids: Seq<IdView>)
    requires
        forall|i: int| 0 <= i < ids.len() ==> id_wire(#[trigger] ids[i]).len() <= u64::MAX,
    ensures
        parse_ids(ids.map_values(|i: IdView| id_wire(i))) == Some(ids),
{
    let bodies = ids.map_values(|i: IdView| id_wire(i));
    assert forall|i: int| 0 <= i < bodies.len() implies parse_id(#[trigger] bodies[i]) == Some(
        ids[i],
    ) by {
        lemma_parse_id_complete(ids[i]);
    }
    assert(bodies.map_values(|b: Seq<u8>| parse_id(b)->Some_0) =~= ids);
}

/// Calls `String::from_utf8`. Taken on trust: the bytes are taken for text exactly
/// where they are UTF-8, and the text is what they decode to.
#[verifier::external_body]
fn string_from_utf8(bytes: Vec<u8>) -> (text: Option<String>)
    ensures
        match text {
            Some(t) => valid_utf8(bytes@) && t@ == decode_utf8(bytes@),
            None => !valid_utf8(bytes@),
        },
{
    String::from_utf8(bytes).ok()
}

/// Whether `s` is empty or begins with a byte from `low` on.
pub open spec fn first_from(s: Seq<u8>, low: u8) -> bool {
    s.len() == 0 || s[0] >= low
}

/// Of two byte strings that begin from `low` on, one after the other begins from `low` on.
proof fn lemma_first_from_two(a: Seq<u8>, b: Seq<u8>, low: u8)
    requires
        first_from(a, low),
        first_from(b, low),
    ensures
        first_from(a + b, low),
{
    if a.len() > 0 {
        assert((a + b)[0] == a[0]);
    } else {
        assert(a + b =~= b);
    }
}

/// The texts in the ranges `ranges` of `bytes`, where all are UTF-8.
fn strings_of(bytes: &[u8], ranges: &Vec<(usize, usize)>) -> (r: Option<Vec<String>>)
    requires
        forall|i: int|
            0 <= i < ranges@.len() ==> (#[trigger] ranges@[i]).0 <= ranges@[i].1 <= bytes.len(),
    ensures
        match parse_strings(cut(bytes@, ranges@)) {
            Some(texts) => r is Some && strings_view(r->Some_0@) == texts,
            None => r is None,
        },
{
    let ghost bodies = cut(bytes@, ranges@);
    let mut texts: Vec<String> = Vec::new();
    let mut i: usize = 0;
    while i < ranges.len()
        invariant
            i <= ranges.len(),
            bodies == cut(bytes@, ranges@),
            forall|j: int|
                0 <= j < ranges@.len() ==> (#[trigger] ranges@[j]).0 <= ranges@[j].1
                    <= bytes.len(),
            texts.len() == i,
            forall|j: int| 0 <= j < i ==> valid_utf8(#[trigger] bodies[j]),
            forall|j: int| 0 <= j < i ==> (#[trigger] texts@[j])@ == decode_utf8(bodies[j]),
        decreases ranges.len() - i,
    {
        let (start, end) = ranges[i];
        let body = slice_to_vec(slice_subrange(bytes, start, end));
        assert(body@ == bodies[i as int]);
        match string_from_utf8(body) {
            Some(text) => {
                texts.push(text);
            },
            None => {
                assert(!valid_utf8(bodies[i as int]));
                return None;
            },
        }
        i += 1;
    }
    assert(strings_view(texts@) =~= bodies.map_values(|b: Seq<u8>| decode_utf8(b)));
    Some(texts)
}

/// The identities in the ranges `ranges` of `bytes`, where all hold one.
fn ids_of(bytes: &[u8], ranges: &Vec<(usize, usize)>) -> (r: Option<Vec<Id>>)
    requires
        forall|i: int|
            0 <= i < ranges@.len() ==> (#[trigger] ranges@[i]).0 <= ranges@[i].1 <= bytes.len(),
    ensures
        match parse_ids(cut(bytes@, ranges@)) {
            Some(ids) => r is Some && ids_view(r->Some_0@) == ids,
            None => r is None,
        },
{
    let ghost bodies = cut(bytes@, ranges@);
    let mut ids: Vec<Id> = Vec::new();
    let mut i: usize = 0;
    while i < ranges.len()
        invariant
            i <= ranges.len(),
            bodies == cut(bytes@, ranges@),
            forall|j: int|
                0 <= j < ranges@.len() ==> (#[trigger] ranges@[j]).0 <= ranges@[j].1
                    <= bytes.len(),
            ids.len() == i,
            forall|j: int| 0 <= j < i ==> parse_id(#[trigger] bodies[j]) is Some,
            forall|j: int| 0 <= j < i ==> Some((#[trigger] ids@[j])@) == parse_id(bodies[j]),
        decreases ranges.len() - i,
    {
        let (start, end) = ranges[i];
        let body = slice_subrange(bytes, start, end);
        assert(body@ == bodies[i as int]);
        match Id::decode(body) {
            Some(id) => {
                ids.push(id);
            },
            None => {
                assert(parse_id(bodies[i as int]) is None);
                return None;
            },
        }
        i += 1;
    }
    assert(ids_view(ids@) =~= bodies.map_values(|b: Seq<u8>| parse_id(b)->Some_0));
    Some(ids)
}

/// The inode block that the bytes `s` are the canonical bytes of, if there is one.
pub open spec fn parse_inode(s: Seq<u8>) -> Option<INodeBlockView> {
    match read_bytes(s, 1) {
        None => None,
        Some((filename, s1)) => match read_uint(s1, 2) {
            None => None,
            Some((size, s2)) => match read_uint(s2, 3) {
                None => None,
                Some((code, s3)) => match kind_of_code(code) {
                    None => None,
                    Some(kind) => match read_repeated(s3, 4) {
                        None => None,
                        Some((texts, s4)) => match parse_strings(texts) {
                            None => None,
                            Some(hashes) => match read_repeated(s4, 5) {
                                None => None,
                                Some((items, s5)) => match parse_ids(items) {
                                    None => None,
                                    Some(write_allow_list) => if s5.len() == 0 {
                                        Some(
                                            INodeBlockView {
                                                filename,
                                                size,
                                                kind,
                                                hashes,
                                                write_allow_list,
                                            },
                                        )
                                    } else {
                                        None
                                    },
                                },
                            },
                        },
                    },
                },
            },
        },
    }
}

/// An inode block that was read is written as the bytes it was read from.
pub proof fn lemma_parse_inode_sound(s: Seq<u8>)
    ensures
        match parse_inode(s) {
            Some(block) => inode_wire(block) == s,
            None => true,
        },
{
    if parse_inode(s) is Some {
        let block = parse_inode(s)->Some_0;
        let s1 = read_bytes(s, 1)->Some_0.1;
        let s2 = read_uint(s1, 2)->Some_0.1;
        let code = read_uint(s2, 3)->Some_0.0;
        let s3 = read_uint(s2, 3)->Some_0.1;
        let texts = read_repeated(s3, 4)->Some_0.0;
        let s4 = read_repeated(s3, 4)->Some_0.1;
        let items = read_repeated(s4, 5)->Some_0.0;
        let s5 = read_repeated(s4, 5)->Some_0.1;
        let a = bytes_field(1, block.filename);
        let b = uint_field(2, block.size);
        let c = uint_field(3, kind_code(block.kind));
        let d = strings_wire(4, block.hashes);
        let e = ids_wire(5, block.write_allow_list);
        assert(s == a + s1) by {
            lemma_read_bytes_sound(s, 1);
        }
        assert(s1 == b + s2) by {
            lemma_read_uint_sound(s1, 2);
        }
        assert(s2 == c + s3) by {
            lemma_read_uint_sound(s2, 3);
            assert(kind_code(block.kind) == code);
        }
        assert(s3 == d + s4) by {
            lemma_read_repeated_sound(s3, 4);
            lemma_parse_strings_sound(texts);
            lemma_strings_as_repeated(4, block.hashes);
        }
        assert(s4 == e + s5) by {
            lemma_read_repeated_sound(s4, 5);
            lemma_parse_ids_sound(items);
            lemma_ids_as_repeated(5, block.write_allow_list);
        }
        assert(s5.len() == 0);
        assert(s4 =~= e);
        assert(inode_wire(block) == a + b + c + d + e);
        assert(a + b + c + d + e =~= a + (b + (c + (d + e))));
    }
}

/// The canonical bytes of an inode block are read as that block.
pub proof fn lemma_parse_inode_complete(block: INodeBlockView)
    requires
        inode_wire(block).len() <= u64::MAX,
    ensures
        parse_inode(inode_wire(block)) == Some(block),
{
    let a = bytes_field(1, block.filename);
    let b = uint_field(2, block.size);
    let c = uint_field(3, kind_code(block.kind));
    let d = strings_wire(4, block.hashes);
    let e = ids_wire(5, block.write_allow_list);
    let texts = block.hashes.map_values(|c: Seq<char>| encode_utf8(c));
    let items = block.write_allow_list.map_values(|i: IdView| id_wire(i));
    lemma_strings_as_repeated(4, block.hashes);
    lemma_ids_as_repeated(5, block.write_allow_list);
    lemma_bytes_field_shape(1, block.filename);
    lemma_uint_field_shape(2, block.size);
    lemma_uint_field_shape(3, kind_code(block.kind));
    lemma_repeated_shape(4, texts);
    lemma_repeated_shape(5, items);
    assert(first_from(e, 42));
    assert(first_from(d, 34));
    assert(first_from(c, 24));
    assert(first_from(b, 16));
    lemma_first_from_two(d, e, 34);
    lemma_first_from_two(c, d + e, 24);
    lemma_first_from_two(b, c + (d + e), 16);
    assert(inode_wire(block) =~= a + (b + (c + (d + e))));
    assert(inode_wire(block).len() == a.len() + b.len() + c.len() + d.len() + e.len());
    lemma_read_bytes_complete(1, block.filename, b + (c + (d + e)));
    lemma_read_uint_complete(2, block.size, c + (d + e));
    lemma_read_uint_complete(3, kind_code(block.kind), d + e);
    assert(kind_of_code(kind_code(block.kind)) == Some(block.kind));
    assert forall|i: int| 0 <= i < texts.len() implies (#[trigger] texts[i]).len() <= u64::MAX by {}
    lemma_read_repeated_complete(4, texts, e);
    lemma_parse_strings_complete(block.hashes);
    assert forall|i: int| 0 <= i < items.len() implies (#[trigger] items[i]).len() <= u64::MAX by {}
    assert(e =~= e + Seq::<u8>::empty());
    lemma_read_repeated_complete(5, items, Seq::empty());
    assert forall|i: int| 0 <= i < block.write_allow_list.len() implies id_wire(
        #[trigger] block.write_allow_list[i],
    ).len() <= u64::MAX by {
        assert(items[i] == id_wire(block.write_allow_list[i]));
    }
    lemma_parse_ids_complete(block.write_allow_list);
}

/// The kind that the number `code` stands for on the wire.
fn kind_from(code: u64) -> (kind: Option<Kind>)
    ensures
        kind == kind_of_code(code),
{
    if code == 0 {
        Some(Kind::Directory)
    } else if code == 1 {
        Some(Kind::RegularFile)
    } else if code == 2 {
        Some(Kind::DeletedFolder)
    } else if code == 3 {
        Some(Kind::DeletedRegularFile)
    } else {
        None
    }
}

impl INodeBlock {
    /// The inode block with the canonical bytes `bytes`; none where they are the
    /// canonical bytes of no inode block.
    pub fn decode(bytes: &[u8]) -> (block: Option<INodeBlock>)
        ensures
            match block {
                Some(b) => parse_inode(bytes@) == Some(b@),
                None => parse_inode(bytes@) is None,
            },
    {
        assert(bytes@.skip(0) =~= bytes@);
        let (filename, pos) = match take_bytes(bytes, 0, 1) {
            Some(found) => found,
            None => {
                return None;
            },
        };
        let (size, pos) = match take_uint(bytes, pos, 2) {
            Some(found) => found,
            None => {
                return None;
            },
        };
        let (code, pos) = match take_uint(bytes, pos, 3) {
            Some(found) => found,
            None => {
                return None;
            },
        };
        let kind = match kind_from(code) {
            Some(kind) => kind,
            None => {
                return None;
            },
        };
        let (texts, pos) = match take_repeated(bytes, pos, 4) {
            Some(found) => found,
            None => {
                return None;
            },
        };
        let hashes = match strings_of(bytes, &texts) {
            Some(hashes) => hashes,
            None => {
                return None;
            },
        };
        let (items, pos) = match take_repeated(bytes, pos, 5) {
            Some(found) => found,
            None => {
                return None;
            },
        };
        let write_allow_list = match ids_of(bytes, &items) {
            Some(list) => list,
            None => {
                return None;
            },
        };
        if pos != bytes.len() {
            return None;
        }
        Some(INodeBlock { filename, size, kind, hashes, write_allow_list })
    }
}

/// The data that the bytes `s` are the canonical bytes of a data block of, if there is one.
pub open spec fn parse_data(s: Seq<u8>) -> Option<Seq<u8>> {
    match read_bytes(s, 1) {
        Some((data, rest)) => if rest.len() == 0 {
            Some(data)
        } else {
            None
        },
        None => None,
    }
}

/// The text that the bytes are the UTF-8 bytes of, if there is one.
pub open spec fn parse_text(bytes: Seq<u8>) -> Option<Seq<char>> {
    if valid_utf8(bytes) {
        Some(decode_utf8(bytes))
    } else {
        None
    }
}

/// The payload in the field at the front of `s`, and what follows the field.
pub open spec fn parse_payload(s: Seq<u8>) -> Option<(BlockView, Seq<u8>)> {
    if starts_with(s, 18) {
        match read_message(s, 2) {
            Some((body, rest)) => match parse_inode(body) {
                Some(block) => Some((BlockView::Inode(block), rest)),
                None => None,
            },
            None => None,
        }
    } else {
        match read_message(s, 3) {
            Some((body, rest)) => match parse_data(body) {
                Some(data) => Some((BlockView::Data(data), rest)),
                None => None,
            },
            None => None,
        }
    }
}

/// The file-system block that the bytes `s` are the canonical bytes of, if there is one.
pub open spec fn parse_fs(s: Seq<u8>) -> Option<FileSystemBlockView> {
    match read_bytes(s, 1) {
        None => None,
        Some((prev, s1)) => match parse_text(prev) {
            None => None,
            Some(prev_hash) => match parse_payload(s1) {
                None => None,
                Some((block, s2)) => match read_message(s2, 4) {
                    None => None,
                    Some((writer, s3)) => match parse_id(writer) {
                        None => None,
                        Some(updated_by) => match read_bytes(s3, 5) {
                            None => None,
                            Some((signature, s4)) => if s4.len() == 0 {
                                Some(
                                    FileSystemBlockView {
                                        prev_hash,
                                        block,
                                        updated_by,
                                        signature,
                                    },
                                )
                            } else {
                                None
                            },
                        },
                    },
                },
            },
        },
    }
}

/// The capsule block that the bytes `s` are the canonical bytes of, if there is one.
pub open spec fn parse_capsule(s: Seq<u8>) -> Option<CapsuleBlockView> {
    match read_bytes(s, 1) {
        None => None,
        Some((prev, s1)) => match parse_text(prev) {
            None => None,
            Some(prev_hash) => match read_message(s1, 2) {
                None => None,
                Some((inner, s2)) => match parse_fs(inner) {
                    None => None,
                    Some(fs) => match read_uint(s2, 3) {
                        None => None,
                        Some((stamp, s3)) => match read_bytes(s3, 4) {
                            None => None,
                            Some((signature, s4)) => if s4.len() == 0 {
                                Some(
                                    CapsuleBlockView {
                                        prev_hash,
                                        fs,
                                        timestamp: stamp as i64,
                                        signature,
                                    },
                                )
                            } else {
                                None
                            },
                        },
                    },
                },
            },
        },
    }
}

/// Data that was read is written as the bytes it was read from.
pub proof fn lemma_parse_data_sound(s: Seq<u8>)
    ensures
        match parse_data(s) {
            Some(data) => data_wire(data) == s,
            None => true,
        },
{
    lemma_read_bytes_sound(s, 1);
    if parse_data(s) is Some {
        assert(data_wire(parse_data(s)->Some_0) =~= s);
    }
}

/// The canonical bytes of a data block are read as its data.
pub proof fn lemma_parse_data_complete(data: Seq<u8>)
    requires
        data.len() <= u64::MAX,
    ensures
        parse_data(data_wire(data)) == Some(data),
{
    assert(data_wire(data) =~= bytes_field(1, data) + Seq::<u8>::empty());
    lemma_read_bytes_complete(1, data, Seq::empty());
}

/// A payload that was read is written as the bytes it was read from.
pub proof fn lemma_parse_payload_sound(s: Seq<u8>)
    ensures
        match parse_payload(s) {
            Some((block, rest)) => s == payload_wire(block) + rest,
            None => true,
        },
{
    if parse_payload(s) is Some {
        if starts_with(s, 18) {
            lemma_read_message_sound(s, 2);
            lemma_parse_inode_sound(read_message(s, 2)->Some_0.0);
        } else {
            lemma_read_message_sound(s, 3);
            lemma_parse_data_sound(read_message(s, 3)->Some_0.0);
        }
    }
}

/// A payload as it is written is read as it was, whatever follows it.
pub proof fn lemma_parse_payload_complete(block: BlockView, rest: Seq<u8>)
    requires
        payload_wire(block).len() <= u64::MAX,
    ensures
        parse_payload(payload_wire(block) + rest) == Some((block, rest)),
{
    let s = payload_wire(block) + rest;
    match block {
        BlockView::Inode(inode) => {
            lemma_delimited_shape(2, inode_wire(inode));
            assert(s[0] == 18);
            lemma_read_message_complete(2, inode_wire(inode), rest);
            lemma_parse_inode_complete(inode);
        },
        BlockView::Data(data) => {
            lemma_delimited_shape(3, data_wire(data));
            assert(s[0] == 26);
            lemma_bytes_field_shape(1, data);
            lemma_read_message_complete(3, data_wire(data), rest);
            lemma_parse_data_complete(data);
        },
    }
}

/// A file-system block that was read is written as the bytes it was read from.
pub proof fn lemma_parse_fs_sound(s: Seq<u8>)
    ensures
        match parse_fs(s) {
            Some(fs) => fs_wire(fs) == s,
            None => true,
        },
{
    if parse_fs(s) is Some {
        let fs = parse_fs(s)->Some_0;
        let prev = read_bytes(s, 1)->Some_0.0;
        let s1 = read_bytes(s, 1)->Some_0.1;
        let s2 = parse_payload(s1)->Some_0.1;
        let writer = read_message(s2, 4)->Some_0.0;
        let s3 = read_message(s2, 4)->Some_0.1;
        let s4 = read_bytes(s3, 5)->Some_0.1;
        let a = string_field(1, fs.prev_hash);
        let b = payload_wire(fs.block);
        let c = delimited(4, id_wire(fs.updated_by));
        let d = bytes_field(5, fs.signature);
        assert(s == a + s1) by {
            lemma_read_bytes_sound(s, 1);
            vstd::utf8::decode_utf8_encode_utf8(prev);
        }
        assert(s1 == b + s2) by {
            lemma_parse_payload_sound(s1);
        }
        assert(s2 == c + s3) by {
            lemma_read_message_sound(s2, 4);
            lemma_parse_id_sound(writer);
        }
        assert(s3 == d + s4) by {
            lemma_read_bytes_sound(s3, 5);
        }
        assert(s3 =~= d);
        assert(fs_wire(fs) == a + b + c + d);
        assert(a + b + c + d =~= a + (b + (c + d)));
    }
}

/// The canonical bytes of a file-system block are read as that block.
pub proof fn lemma_parse_fs_complete(fs: FileSystemBlockView)
    requires
        fs_wire(fs).len() <= u64::MAX,
    ensures
        parse_fs(fs_wire(fs)) == Some(fs),
{
    let prev = encode_utf8(fs.prev_hash);
    let a = string_field(1, fs.prev_hash);
    let b = payload_wire(fs.block);
    let c = delimited(4, id_wire(fs.updated_by));
    let d = bytes_field(5, fs.signature);
    lemma_bytes_field_shape(1, prev);
    lemma_bytes_field_shape(5, fs.signature);
    lemma_delimited_shape(4, id_wire(fs.updated_by));
    match fs.block {
        BlockView::Inode(inode) => {
            lemma_delimited_shape(2, inode_wire(inode));
        },
        BlockView::Data(data) => {
            lemma_delimited_shape(3, data_wire(data));
        },
    }
    assert(fs_wire(fs) =~= a + (b + (c + d)));
    assert(fs_wire(fs).len() == a.len() + b.len() + c.len() + d.len());
    assert((b + (c + d))[0] == b[0]);
    lemma_read_bytes_complete(1, prev, b + (c + d));
    vstd::utf8::encode_utf8_valid_utf8(fs.prev_hash);
    vstd::utf8::encode_utf8_decode_utf8(fs.prev_hash);
    lemma_parse_payload_complete(fs.block, c + d);
    lemma_read_message_complete(4, id_wire(fs.updated_by), d);
    lemma_parse_id_complete(fs.updated_by);
    assert(d =~= d + Seq::<u8>::empty());
    lemma_read_bytes_complete(5, fs.signature, Seq::empty());
}

/// The 64 bits of a number are the same whether they are read with or without a sign.
proof fn lemma_stamp(v: u64, t: i64)
    ensures
        (v as i64) as u64 == v,
        (t as u64) as i64 == t,
{
    assert((v as i64) as u64 == v) by (bit_vector);
    assert((t as u64) as i64 == t) by (bit_vector);
}

/// A capsule block that was read is written as the bytes it was read from.
pub proof fn lemma_parse_capsule_sound(s: Seq<u8>)
    ensures
        match parse_capsule(s) {
            Some(block) => capsule_wire(block) == s,
            None => true,
        },
{
    if parse_capsule(s) is Some {
        let block = parse_capsule(s)->Some_0;
        let prev = read_bytes(s, 1)->Some_0.0;
        let s1 = read_bytes(s, 1)->Some_0.1;
        let inner = read_message(s1, 2)->Some_0.0;
        let s2 = read_message(s1, 2)->Some_0.1;
        let stamp = read_uint(s2, 3)->Some_0.0;
        let s3 = read_uint(s2, 3)->Some_0.1;
        let s4 = read_bytes(s3, 4)->Some_0.1;
        let a = string_field(1, block.prev_hash);
        let b = delimited(2, fs_wire(block.fs));
        let c = uint_field(3, block.timestamp as u64);
        let d = bytes_field(4, block.signature);
        assert(s == a + s1) by {
            lemma_read_bytes_sound(s, 1);
            vstd::utf8::decode_utf8_encode_utf8(prev);
        }
        assert(s1 == b + s2) by {
            lemma_read_message_sound(s1, 2);
            lemma_parse_fs_sound(inner);
        }
        assert(s2 == c + s3) by {
            lemma_read_uint_sound(s2, 3);
            lemma_stamp(stamp, 0);
        }
        assert(s3 == d + s4) by {
            lemma_read_bytes_sound(s3, 4);
        }
        assert(s3 =~= d);
        assert(capsule_wire(block) == a + b + c + d);
        assert(a + b + c + d =~= a + (b + (c + d)));
    }
}

/// The canonical bytes of a capsule block are read as that block.
pub proof fn lemma_parse_capsule_complete(block: CapsuleBlockView)
    requires
        capsule_wire(block).len() <= u64::MAX,
    ensures
        parse_capsule(capsule_wire(block)) == Some(block),
{
    let prev = encode_utf8(block.prev_hash);
    let a = string_field(1, block.prev_hash);
    let b = delimited(2, fs_wire(block.fs));
    let c = uint_field(3, block.timestamp as u64);
    let d = bytes_field(4, block.signature);
    lemma_bytes_field_shape(1, prev);
    lemma_bytes_field_shape(4, block.signature);
    lemma_uint_field_shape(3, block.timestamp as u64);
    lemma_delimited_shape(2, fs_wire(block.fs));
    assert(capsule_wire(block) =~= a + (b + (c + d)));
    assert(capsule_wire(block).len() == a.len() + b.len() + c.len() + d.len());
    assert((b + (c + d))[0] == b[0]);
    lemma_read_bytes_complete(1, prev, b + (c + d));
    vstd::utf8::encode_utf8_valid_utf8(block.prev_hash);
    vstd::utf8::encode_utf8_decode_utf8(block.prev_hash);
    lemma_read_message_complete(2, fs_wire(block.fs), c + d);
    lemma_parse_fs_complete(block.fs);
    lemma_first_of_two(c, d, 24);
    lemma_read_uint_complete(3, block.timestamp as u64, d);
    lemma_stamp(0, block.timestamp);
    assert(d =~= d + Seq::<u8>::empty());
    lemma_read_bytes_complete(4, block.signature, Seq::empty());
}

/// Reads the payload in the field at position `pos`: the payload and the position
/// behind the field.
fn take_payload(bytes: &[u8], pos: usize) -> (r: Option<(Block, usize)>)
    requires
        pos <= bytes.len(),
    ensures
        match parse_payload(bytes@.skip(pos as int)) {
            Some((block, rest)) => r is Some && r->Some_0.0@ == block && pos <= r->Some_0.1
                <= bytes.len() && bytes@.skip(r->Some_0.1 as int) == rest,
            None => r is None,
        },
{
    if pos < bytes.len() && bytes[pos] == 18 {
        match take_message(bytes, pos, 2) {
            Some((start, end)) => match INodeBlock::decode(slice_subrange(bytes, start, end)) {
                Some(block) => Some((Block::Inode(block), end)),
                None => None,
            },
            None => None,
        }
    } else {
        match take_message(bytes, pos, 3) {
            Some((start, end)) => {
                let body = slice_subrange(bytes, start, end);
                assert(body@.skip(0) =~= body@);
                match take_bytes(body, 0, 1) {
                    Some((data, at)) => {
                        if at == body.len() {
                            Some((Block::Data(DataBlock { data }), end))
                        } else {
                            None
                        }
                    },
                    None => None,
                }
            },
            None => None,
        }
    }
}

impl DataCapsuleFileSystemBlock {
    /// The file-system block with the canonical bytes `bytes`; none where they are the
    /// canonical bytes of no file-system block.
    pub fn decode(bytes: &[u8]) -> (block: Option<DataCapsuleFileSystemBlock>)
        ensures
            match block {
                Some(b) => parse_fs(bytes@) == Some(b@),
                None => parse_fs(bytes@) is None,
            },
    {
        assert(bytes@.skip(0) =~= bytes@);
        let (prev, pos) = match take_bytes(bytes, 0, 1) {
            Some(found) => found,
            None => {
                return None;
            },
        };
        let prev_hash = match string_from_utf8(prev) {
            Some(text) => text,
            None => {
                return None;
            },
        };
        let (block, pos) = match take_payload(bytes, pos) {
            Some(found) => found,
            None => {
                return None;
            },
        };
        let (start, pos) = match take_message(bytes, pos, 4) {
            Some(found) => found,
            None => {
                return None;
            },
        };
        let updated_by = match Id::decode(slice_subrange(bytes, start, pos)) {
            Some(id) => id,
            None => {
                return None;
            },
        };
        let (signature, pos) = match take_bytes(bytes, pos, 5) {
            Some(found) => found,
            None => {
                return None;
            },
        };
        if pos != bytes.len() {
            return None;
        }
        Some(DataCapsuleFileSystemBlock { prev_hash, block, updated_by, signature })
    }
}

impl DataCapsuleBlock {
    /// The capsule block with the canonical bytes `bytes`; none where they are the
    /// canonical bytes of no capsule block.
    pub fn decode(bytes: &[u8]) -> (block: Option<DataCapsuleBlock>)
        ensures
            match block {
                Some(b) => parse_capsule(bytes@) == Some(b@),
                None => parse_capsule(bytes@) is None,
            },
    {
        assert(bytes@.skip(0) =~= bytes@);
        let (prev, pos) = match take_bytes(bytes, 0, 1) {
            Some(found) => found,
            None => {
                return None;
            },
        };
        let prev_hash = match string_from_utf8(prev) {
            Some(text) => text,
            None => {
                return None;
            },
        };
        let (start, pos) = match take_message(bytes, pos, 2) {
            Some(found) => found,
            None => {
                return None;
            },
        };
        let fs = match DataCapsuleFileSystemBlock::decode(slice_subrange(bytes, start, pos)) {
            Some(fs) => fs,
            None => {
                return None;
            },
        };
        let (stamp, pos) = match take_uint(bytes, pos, 3) {
            Some(found) => found,
            None => {
                return None;
            },
        };
        let (signature, pos) = match take_bytes(bytes, pos, 4) {
            Some(found) => found,
            None => {
                return None;
            },
        };
        if pos != bytes.len() {
            return None;
        }
        Some(
            DataCapsuleBlock {
                prev_hash,
                fs,
                timestamp: #[verifier::truncate] (stamp as i64),
                signature,
            },
        )
    }
}

/// The address of a record survives the wire: the canonical bytes of an identity, of a
/// file-system block and of a capsule block are read back as the record that they were
/// written from, so what was read has the same canonical bytes and the same address.
pub proof fn lemma_address_survives_the_wire(
    id: IdView,
    fs: FileSystemBlockView,
    block: CapsuleBlockView,
)
    requires
        id_wire(id).len() <= u64::MAX,
        fs_wire(fs).len() <= u64::MAX,
        capsule_wire(block).len() <= u64::MAX,
    ensures
        parse_id(id_wire(id)) == Some(id),
        parse_fs(fs_wire(fs)) == Some(fs),
        parse_capsule(capsule_wire(block)) == Some(block),
        address(id_wire(parse_id(id_wire(id))->Some_0)) == address(id_wire(id)),
        address(fs_wire(parse_fs(fs_wire(fs))->Some_0)) == address(fs_wire(fs)),
        address(capsule_wire(parse_capsule(capsule_wire(block))->Some_0)) == address(
            capsule_wire(block),
        ),
{
    lemma_parse_id_complete(id);
    lemma_parse_fs_complete(fs);
    lemma_parse_capsule_complete(block);
}

/// The address of what was read is the address of the bytes: whatever bytes are read
/// as a record, the record is written as the same bytes again.
pub proof fn lemma_address_of_what_was_read(s: Seq<u8>)
    ensures
        parse_id(s) is Some ==> address(id_wire(parse_id(s)->Some_0)) == address(s),
        parse_fs(s) is Some ==> address(fs_wire(parse_fs(s)->Some_0)) == address(s),
        parse_capsule(s) is Some ==> address(capsule_wire(parse_capsule(s)->Some_0)) == address(
            s,
        ),
{
    lemma_parse_id_sound(s);
    lemma_parse_fs_sound(s);
    lemma_parse_capsule_sound(s);
}

/// The address depends on the value alone: two records that hold the same values have
/// the same canonical bytes and the same address, signature included.
pub proof fn lemma_address_of_equal_records(
    a: DataCapsuleBlock,
    b: DataCapsuleBlock,
    c: DataCapsuleFileSystemBlock,
    d: DataCapsuleFileSystemBlock,
    e: Id,
    f: Id,
)
    requires
        a@ == b@,
        c@ == d@,
        e@ == f@,
    ensures
        address(a.wire()) == address(b.wire()),
        address(c.wire()) == address(d.wire()),
        address(e.wire()) == address(f.wire()),
{
}

} // verus!
