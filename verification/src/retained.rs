use vstd::prelude::*;
use crate::stack_value::{StackValue, Item, model_seq, model_pairs, lemma_model_seq_index, lemma_model_pairs_index,
    lemma_model_seq_push, lemma_model_pairs_push};
use crate::text::{text, push_hex2, hex2};

verus! {

broadcast use vstd::std_specs::vec::group_vec_axioms;

/// Most levels of nesting that decoding accepts below the top level.
pub const MAX_RETAINED_DECODE_DEPTH: usize = 64;
/// Most elements a collection may hold in the retained encoding.
pub const MAX_RETAINED_COLLECTION_LEN: usize = 4096;

pub const RETAINED_TAG_INTEGER: u8 = 0x01;
pub const RETAINED_TAG_BIGINTEGER: u8 = 0x02;
pub const RETAINED_TAG_BYTESTRING: u8 = 0x03;
pub const RETAINED_TAG_BOOLEAN: u8 = 0x04;
pub const RETAINED_TAG_ARRAY: u8 = 0x05;
pub const RETAINED_TAG_STRUCT: u8 = 0x06;
pub const RETAINED_TAG_MAP: u8 = 0x07;
pub const RETAINED_TAG_INTEROP: u8 = 0x08;
pub const RETAINED_TAG_ITERATOR: u8 = 0x09;
pub const RETAINED_TAG_NULL: u8 = 0x0A;
pub const RETAINED_TAG_POINTER: u8 = 0x0B;
pub const RETAINED_TAG_BUFFER: u8 = 0x0C;

/// Why encoding or decoding a retained stack failed.
#[derive(Debug, PartialEq, Eq, Clone, Copy)]
pub enum RetainedError {
    BufferTooSmall,
    CollectionTooLarge,
    LengthExceedsU32,
    TruncatedLength,
    DepthExceeded,
    TruncatedTag,
    Truncated,
    TruncatedBytes,
    PointerOutOfRange,
    InvalidTag(u8),
    TrailingBytes,
}

// ---------------------------------------------------------------------------
// Little-endian integers

/// The four little-endian bytes of `x`.
pub open spec fn le_bytes_u32(x: u32) -> Seq<u8> {
    seq![(x & 0xff) as u8, ((x >> 8u32) & 0xff) as u8, ((x >> 16u32) & 0xff) as u8, ((x >> 24u32) & 0xff) as u8]
}

/// The eight little-endian bytes of `x`.
pub open spec fn le_bytes_u64(x: u64) -> Seq<u8> {
    seq![
        (x & 0xff) as u8,
        ((x >> 8u64) & 0xff) as u8,
        ((x >> 16u64) & 0xff) as u8,
        ((x >> 24u64) & 0xff) as u8,
        ((x >> 32u64) & 0xff) as u8,
        ((x >> 40u64) & 0xff) as u8,
        ((x >> 48u64) & 0xff) as u8,
        ((x >> 56u64) & 0xff) as u8,
    ]
}

/// The `u32` whose little-endian bytes start at `b[p]`.
pub open spec fn le_u32_at(b: Seq<u8>, p: int) -> u32 {
    (b[p] as u32) | ((b[p + 1] as u32) << 8u32) | ((b[p + 2] as u32) << 16u32) | ((b[p + 3] as u32) << 24u32)
}

/// The `u64` whose little-endian bytes start at `b[p]`.
pub open spec fn le_u64_at(b: Seq<u8>, p: int) -> u64 {
    (b[p] as u64) | ((b[p + 1] as u64) << 8u64) | ((b[p + 2] as u64) << 16u64) | ((b[p + 3] as u64) << 24u64)
        | ((b[p + 4] as u64) << 32u64) | ((b[p + 5] as u64) << 40u64) | ((b[p + 6] as u64) << 48u64)
        | ((b[p + 7] as u64) << 56u64)
}

pub proof fn lemma_u32_round_trip(x: u32, b: Seq<u8>, p: int)
    requires
        0 <= p,
        p + 4 <= b.len(),
        b.subrange(p, p + 4) == le_bytes_u32(x),
    ensures
        le_u32_at(b, p) == x,
{
    assert(b[p] == b.subrange(p, p + 4)[0]);
    assert(b[p + 1] == b.subrange(p, p + 4)[1]);
    assert(b[p + 2] == b.subrange(p, p + 4)[2]);
    assert(b[p + 3] == b.subrange(p, p + 4)[3]);
    let b0 = b[p];
    let b1 = b[p + 1];
    let b2 = b[p + 2];
    let b3 = b[p + 3];
    assert((b0 as u32) | ((b1 as u32) << 8u32) | ((b2 as u32) << 16u32) | ((b3 as u32) << 24u32) == x) by (bit_vector)
        requires
            b0 == (x & 0xff) as u8,
            b1 == ((x >> 8u32) & 0xff) as u8,
            b2 == ((x >> 16u32) & 0xff) as u8,
            b3 == ((x >> 24u32) & 0xff) as u8,
    ;
}

pub proof fn lemma_u64_round_trip(x: u64, b: Seq<u8>, p: int)
    requires
        0 <= p,
        p + 8 <= b.len(),
        b.subrange(p, p + 8) == le_bytes_u64(x),
    ensures
        le_u64_at(b, p) == x,
{
    let s = b.subrange(p, p + 8);
    assert(b[p] == s[0]);
    assert(b[p + 1] == s[1]);
    assert(b[p + 2] == s[2]);
    assert(b[p + 3] == s[3]);
    assert(b[p + 4] == s[4]);
    assert(b[p + 5] == s[5]);
    assert(b[p + 6] == s[6]);
    assert(b[p + 7] == s[7]);
    let b0 = b[p];
    let b1 = b[p + 1];
    let b2 = b[p + 2];
    let b3 = b[p + 3];
    let b4 = b[p + 4];
    let b5 = b[p + 5];
    let b6 = b[p + 6];
    let b7 = b[p + 7];
    assert((b0 as u64) | ((b1 as u64) << 8u64) | ((b2 as u64) << 16u64) | ((b3 as u64) << 24u64)
        | ((b4 as u64) << 32u64) | ((b5 as u64) << 40u64) | ((b6 as u64) << 48u64)
        | ((b7 as u64) << 56u64) == x) by (bit_vector)
        requires
            b0 == (x & 0xff) as u8,
            b1 == ((x >> 8u64) & 0xff) as u8,
            b2 == ((x >> 16u64) & 0xff) as u8,
            b3 == ((x >> 24u64) & 0xff) as u8,
            b4 == ((x >> 32u64) & 0xff) as u8,
            b5 == ((x >> 40u64) & 0xff) as u8,
            b6 == ((x >> 48u64) & 0xff) as u8,
            b7 == ((x >> 56u64) & 0xff) as u8,
    ;
}

/// `buf` with `data` written over it from `pos` on.
pub open spec fn splice(buf: Seq<u8>, pos: int, data: Seq<u8>) -> Seq<u8> {
    buf.subrange(0, pos) + data + buf.subrange(pos + data.len(), buf.len() as int)
}

proof fn lemma_splice_twice(buf: Seq<u8>, pos: int, x: Seq<u8>, y: Seq<u8>)
    requires
        0 <= pos,
        pos + x.len() + y.len() <= buf.len(),
    ensures
        splice(splice(buf, pos, x), pos + x.len(), y) == splice(buf, pos, x + y),
        splice(buf, pos, x).len() == buf.len(),
{
    assert(splice(splice(buf, pos, x), pos + x.len(), y) =~= splice(buf, pos, x + y));
}

/// Writes `data` into `buf` from `pos` on.
fn write_bytes(buf: &mut Vec<u8>, pos: usize, data: &[u8])
    requires
        pos + data@.len() <= old(buf)@.len(),
    ensures
        final(buf)@ == splice(old(buf)@, pos as int, data@),
{
    let ghost b0 = buf@;
    let len = buf.len();
    let mut i: usize = 0;
    while i < data.len()
        invariant
            len == b0.len(),
            buf@.len() == len,
            pos + data@.len() <= b0.len(),
            i <= data@.len(),
            buf@ == splice(b0, pos as int, data@.subrange(0, i as int)),
        decreases data.len() - i,
    {
        buf.set(pos + i, data[i]);
        i += 1;
        assert(buf@ =~= splice(b0, pos as int, data@.subrange(0, i as int)));
    }
    assert(data@.subrange(0, data@.len() as int) =~= data@);
}

fn write_u8(buf: &mut Vec<u8>, pos: usize, x: u8)
    requires
        pos + 1 <= old(buf)@.len(),
    ensures
        final(buf)@ == splice(old(buf)@, pos as int, seq![x]),
{
    buf.set(pos, x);
    assert(buf@ =~= splice(old(buf)@, pos as int, seq![x]));
}

fn write_le_u32(buf: &mut Vec<u8>, pos: usize, x: u32)
    requires
        pos + 4 <= old(buf)@.len(),
    ensures
        final(buf)@ == splice(old(buf)@, pos as int, le_bytes_u32(x)),
{
    let _len = buf.len();
    buf.set(pos, (x & 0xff) as u8);
    buf.set(pos + 1, ((x >> 8u32) & 0xff) as u8);
    buf.set(pos + 2, ((x >> 16u32) & 0xff) as u8);
    buf.set(pos + 3, ((x >> 24u32) & 0xff) as u8);
    assert(buf@ =~= splice(old(buf)@, pos as int, le_bytes_u32(x)));
}

fn write_le_u64(buf: &mut Vec<u8>, pos: usize, x: u64)
    requires
        pos + 8 <= old(buf)@.len(),
    ensures
        final(buf)@ == splice(old(buf)@, pos as int, le_bytes_u64(x)),
{
    let _len = buf.len();
    buf.set(pos, (x & 0xff) as u8);
    buf.set(pos + 1, ((x >> 8u64) & 0xff) as u8);
    buf.set(pos + 2, ((x >> 16u64) & 0xff) as u8);
    buf.set(pos + 3, ((x >> 24u64) & 0xff) as u8);
    buf.set(pos + 4, ((x >> 32u64) & 0xff) as u8);
    buf.set(pos + 5, ((x >> 40u64) & 0xff) as u8);
    buf.set(pos + 6, ((x >> 48u64) & 0xff) as u8);
    buf.set(pos + 7, ((x >> 56u64) & 0xff) as u8);
    assert(buf@ =~= splice(old(buf)@, pos as int, le_bytes_u64(x)));
}

fn read_le_u32(bytes: &[u8], pos: usize) -> (r: u32)
    requires
        pos + 4 <= bytes@.len(),
    ensures
        r == le_u32_at(bytes@, pos as int),
{
    (bytes[pos] as u32) | ((bytes[pos + 1] as u32) << 8u32) | ((bytes[pos + 2] as u32) << 16u32)
        | ((bytes[pos + 3] as u32) << 24u32)
}

fn read_le_u64(bytes: &[u8], pos: usize) -> (r: u64)
    requires
        pos + 8 <= bytes@.len(),
    ensures
        r == le_u64_at(bytes@, pos as int),
{
    (bytes[pos] as u64) | ((bytes[pos + 1] as u64) << 8u64) | ((bytes[pos + 2] as u64) << 16u64)
        | ((bytes[pos + 3] as u64) << 24u64) | ((bytes[pos + 4] as u64) << 32u64)
        | ((bytes[pos + 5] as u64) << 40u64) | ((bytes[pos + 6] as u64) << 48u64)
        | ((bytes[pos + 7] as u64) << 56u64)
}

// ---------------------------------------------------------------------------
// The encoding

/// The byte that stands for a boolean.
pub open spec fn bool_byte(x: bool) -> u8 {
    if x { 1 } else { 0 }
}

/// The retained encoding of one value: a tag byte, then the payload.
pub open spec fn enc_item(v: Item) -> Seq<u8>
    decreases v, 0nat,
{
    match v {
        Item::Integer(x) => seq![RETAINED_TAG_INTEGER] + le_bytes_u64(x as u64),
        Item::BigInteger(b) => seq![RETAINED_TAG_BIGINTEGER] + le_bytes_u32(b.len() as u32) + b,
        Item::ByteString(b) => seq![RETAINED_TAG_BYTESTRING] + le_bytes_u32(b.len() as u32) + b,
        Item::Boolean(x) => seq![RETAINED_TAG_BOOLEAN, bool_byte(x)],
        Item::Pointer(p) => seq![RETAINED_TAG_POINTER] + le_bytes_u64(p as u64),
        Item::Array(id, items) => seq![RETAINED_TAG_ARRAY] + le_bytes_u64(id) + le_bytes_u32(items.len() as u32)
            + enc_items(items),
        Item::Struct(id, items) => seq![RETAINED_TAG_STRUCT] + le_bytes_u64(id) + le_bytes_u32(items.len() as u32)
            + enc_items(items),
        Item::Dictionary(id, entries) => seq![RETAINED_TAG_MAP] + le_bytes_u64(id) + le_bytes_u32(entries.len() as u32)
            + enc_pairs(entries),
        Item::Buffer(id, b) => seq![RETAINED_TAG_BUFFER] + le_bytes_u64(id) + le_bytes_u32(b.len() as u32) + b,
        Item::Interop(h) => seq![RETAINED_TAG_INTEROP] + le_bytes_u64(h),
        Item::Iterator(h) => seq![RETAINED_TAG_ITERATOR] + le_bytes_u64(h),
        Item::Null => seq![RETAINED_TAG_NULL],
    }
}

/// The encodings of the values of `s`, one after the other.
pub open spec fn enc_items(s: Seq<Item>) -> Seq<u8>
    decreases s, 1nat,
{
    if s.len() == 0 {
        Seq::empty()
    } else {
        enc_item(s[0]) + enc_items(s.subrange(1, s.len() as int))
    }
}

/// The encodings of the entries of `s`, key before value, one entry after the other.
pub open spec fn enc_pairs(s: Seq<(Item, Item)>) -> Seq<u8>
    decreases s, 1nat,
{
    if s.len() == 0 {
        Seq::empty()
    } else {
        enc_item(s[0].0) + enc_item(s[0].1) + enc_pairs(s.subrange(1, s.len() as int))
    }
}

/// The retained encoding of a stack: its length as four little-endian bytes, then its values.
pub open spec fn enc_prefix(s: Seq<Item>) -> Seq<u8> {
    le_bytes_u32(s.len() as u32) + enc_items(s)
}

/// The first error that encoding `v` into `room` bytes meets, if any.
pub open spec fn enc_error(v: Item, room: int) -> Option<RetainedError>
    decreases v, 0nat,
{
    match v {
        Item::Integer(_) | Item::Pointer(_) | Item::Interop(_) | Item::Iterator(_) =>
            if room < 9 { Some(RetainedError::BufferTooSmall) } else { None },
        Item::BigInteger(b) | Item::ByteString(b) =>
            if b.len() > u32::MAX {
                Some(RetainedError::LengthExceedsU32)
            } else if room < 5 + b.len() {
                Some(RetainedError::BufferTooSmall)
            } else {
                None
            },
        Item::Boolean(_) => if room < 2 { Some(RetainedError::BufferTooSmall) } else { None },
        Item::Null => if room < 1 { Some(RetainedError::BufferTooSmall) } else { None },
        Item::Array(_, items) | Item::Struct(_, items) =>
            if items.len() > MAX_RETAINED_COLLECTION_LEN {
                Some(RetainedError::CollectionTooLarge)
            } else if room < 13 {
                Some(RetainedError::BufferTooSmall)
            } else {
                items_error(items, room - 13)
            },
        Item::Dictionary(_, entries) =>
            if entries.len() > MAX_RETAINED_COLLECTION_LEN {
                Some(RetainedError::CollectionTooLarge)
            } else if room < 13 {
                Some(RetainedError::BufferTooSmall)
            } else {
                pairs_error(entries, room - 13)
            },
        Item::Buffer(_, b) =>
            if b.len() > MAX_RETAINED_COLLECTION_LEN {
                Some(RetainedError::CollectionTooLarge)
            } else if room < 13 + b.len() {
                Some(RetainedError::BufferTooSmall)
            } else {
                None
            },
    }
}

/// The first error that encoding the values of `s` one after the other into `room` bytes meets.
pub open spec fn items_error(s: Seq<Item>, room: int) -> Option<RetainedError>
    decreases s, 1nat,
{
    if s.len() == 0 {
        None
    } else if enc_error(s[0], room) is Some {
        enc_error(s[0], room)
    } else {
        items_error(s.subrange(1, s.len() as int), room - enc_item(s[0]).len())
    }
}

/// The first error that encoding the entries of `s` into `room` bytes meets.
pub open spec fn pairs_error(s: Seq<(Item, Item)>, room: int) -> Option<RetainedError>
    decreases s, 1nat,
{
    if s.len() == 0 {
        None
    } else if enc_error(s[0].0, room) is Some {
        enc_error(s[0].0, room)
    } else if enc_error(s[0].1, room - enc_item(s[0].0).len()) is Some {
        enc_error(s[0].1, room - enc_item(s[0].0).len())
    } else {
        pairs_error(s.subrange(1, s.len() as int), room - enc_item(s[0].0).len() - enc_item(s[0].1).len())
    }
}

/// The first error that encoding the stack `s` into a buffer of `cap` bytes meets.
pub open spec fn enc_prefix_error(s: Seq<Item>, cap: int) -> Option<RetainedError> {
    if cap < 4 {
        Some(RetainedError::BufferTooSmall)
    } else if s.len() > MAX_RETAINED_COLLECTION_LEN {
        Some(RetainedError::CollectionTooLarge)
    } else {
        items_error(s, cap - 4)
    }
}

proof fn lemma_enc_items_push(a: Seq<Item>, x: Item)
    ensures
        enc_items(a.push(x)) == enc_items(a) + enc_item(x),
    decreases a.len(),
{
    if a.len() == 0 {
        assert(a.push(x).subrange(1, 1) =~= Seq::<Item>::empty());
        assert(enc_items(a.push(x)) =~= enc_item(x) + enc_items(Seq::<Item>::empty()));
        assert(enc_items(a) + enc_item(x) =~= enc_item(x));
    } else {
        let rest = a.subrange(1, a.len() as int);
        lemma_enc_items_push(rest, x);
        assert(a.push(x).subrange(1, a.len() as int + 1) =~= rest.push(x));
        assert(a.push(x)[0] == a[0]);
        assert(enc_items(a.push(x)) =~= enc_item(a[0]) + enc_items(rest.push(x)));
        assert(enc_items(a.push(x)) =~= enc_items(a) + enc_item(x));
    }
}

proof fn lemma_enc_pairs_push(a: Seq<(Item, Item)>, x: (Item, Item))
    ensures
        enc_pairs(a.push(x)) == enc_pairs(a) + enc_item(x.0) + enc_item(x.1),
    decreases a.len(),
{
    if a.len() == 0 {
        assert(a.push(x).subrange(1, 1) =~= Seq::<(Item, Item)>::empty());
        assert(enc_pairs(a.push(x)) =~= enc_item(x.0) + enc_item(x.1) + enc_pairs(Seq::<(Item, Item)>::empty()));
        assert(enc_pairs(a) + enc_item(x.0) + enc_item(x.1) =~= enc_item(x.0) + enc_item(x.1));
    } else {
        let rest = a.subrange(1, a.len() as int);
        lemma_enc_pairs_push(rest, x);
        assert(a.push(x).subrange(1, a.len() as int + 1) =~= rest.push(x));
        assert(a.push(x)[0] == a[0]);
        assert(enc_pairs(a.push(x)) =~= enc_item(a[0].0) + enc_item(a[0].1) + enc_pairs(rest.push(x)));
        assert(enc_pairs(a.push(x)) =~= enc_pairs(a) + enc_item(x.0) + enc_item(x.1));
    }
}

// ---------------------------------------------------------------------------
// The encoder

fn ensure_retained_capacity(buf: &Vec<u8>, pos: usize, needed: usize) -> (r: Result<(), RetainedError>)
    requires
        pos <= buf@.len(),
    ensures
        buf@.len() <= usize::MAX,
        r is Ok <==> buf@.len() - pos >= needed,
        r matches Err(e) ==> e == RetainedError::BufferTooSmall,
{
    if buf.len().saturating_sub(pos) < needed {
        Err(RetainedError::BufferTooSmall)
    } else {
        Ok(())
    }
}

fn encode_retained_tag_and_len(tag: u8, len: usize, buf: &mut Vec<u8>, pos: usize) -> (r: Result<usize, RetainedError>)
    requires
        pos <= old(buf)@.len(),
    ensures
        final(buf)@.len() == old(buf)@.len(),
        match r {
            Ok(n) => {
                &&& !(len > MAX_RETAINED_COLLECTION_LEN && (tag == RETAINED_TAG_ARRAY || tag == RETAINED_TAG_STRUCT || tag == RETAINED_TAG_MAP))
                &&& len <= u32::MAX
                &&& old(buf)@.len() - pos >= 5
                &&& n == pos + 5
                &&& final(buf)@ == splice(old(buf)@, pos as int, seq![tag] + le_bytes_u32(len as u32))
            },
            Err(e) => {
                &&& final(buf)@ == old(buf)@
                &&& e == (if len > MAX_RETAINED_COLLECTION_LEN && (tag == RETAINED_TAG_ARRAY || tag == RETAINED_TAG_STRUCT || tag == RETAINED_TAG_MAP) {
                    RetainedError::CollectionTooLarge
                } else if len > u32::MAX {
                    RetainedError::LengthExceedsU32
                } else {
                    RetainedError::BufferTooSmall
                })
                &&& (e == RetainedError::BufferTooSmall ==> old(buf)@.len() - pos < 5)
            },
        },
{
    if len > MAX_RETAINED_COLLECTION_LEN && (tag == RETAINED_TAG_ARRAY || tag == RETAINED_TAG_STRUCT || tag == RETAINED_TAG_MAP) {
        return Err(RetainedError::CollectionTooLarge);
    }
    if len > u32::MAX as usize {
        return Err(RetainedError::LengthExceedsU32);
    }
    let len32 = len as u32;
    match ensure_retained_capacity(buf, pos, 5) {
        Ok(()) => {},
        Err(e) => return Err(e),
    }
    let ghost b0 = buf@;
    write_u8(buf, pos, tag);
    write_le_u32(buf, pos + 1, len32);
    proof { lemma_splice_twice(b0, pos as int, seq![tag], le_bytes_u32(len32)); }
    Ok(pos + 5)
}

fn encode_retained_tag_id_len(tag: u8, id: u64, len: usize, buf: &mut Vec<u8>, pos: usize) -> (r: Result<usize, RetainedError>)
    requires
        pos <= old(buf)@.len(),
    ensures
        final(buf)@.len() == old(buf)@.len(),
        match r {
            Ok(n) => {
                &&& len <= MAX_RETAINED_COLLECTION_LEN
                &&& old(buf)@.len() - pos >= 13
                &&& n == pos + 13
                &&& final(buf)@ == splice(old(buf)@, pos as int, seq![tag] + le_bytes_u64(id) + le_bytes_u32(len as u32))
            },
            Err(e) => {
                &&& final(buf)@ == old(buf)@
                &&& e == (if len > MAX_RETAINED_COLLECTION_LEN { RetainedError::CollectionTooLarge } else { RetainedError::BufferTooSmall })
                &&& (e == RetainedError::BufferTooSmall ==> old(buf)@.len() - pos < 13)
            },
        },
{
    if len > MAX_RETAINED_COLLECTION_LEN {
        return Err(RetainedError::CollectionTooLarge);
    }
    let len32 = len as u32;
    match ensure_retained_capacity(buf, pos, 13) {
        Ok(()) => {},
        Err(e) => return Err(e),
    }
    let ghost b0 = buf@;
    write_u8(buf, pos, tag);
    write_le_u64(buf, pos + 1, id);
    proof { lemma_splice_twice(b0, pos as int, seq![tag], le_bytes_u64(id)); }
    let ghost b1 = buf@;
    write_le_u32(buf, pos + 9, len32);
    proof { lemma_splice_twice(b0, pos as int, seq![tag] + le_bytes_u64(id), le_bytes_u32(len32)); }
    Ok(pos + 13)
}

fn encode_fixed(tag: u8, x: u64, buf: &mut Vec<u8>, pos: usize) -> (r: Result<usize, RetainedError>)
    requires
        pos <= old(buf)@.len(),
    ensures
        final(buf)@.len() == old(buf)@.len(),
        match r {
            Ok(n) => old(buf)@.len() - pos >= 9 && n == pos + 9
                && final(buf)@ == splice(old(buf)@, pos as int, seq![tag] + le_bytes_u64(x)),
            Err(e) => old(buf)@.len() - pos < 9 && e == RetainedError::BufferTooSmall && final(buf)@ == old(buf)@,
        },
{
    match ensure_retained_capacity(buf, pos, 9) {
        Ok(()) => {},
        Err(e) => return Err(e),
    }
    let ghost b0 = buf@;
    write_u8(buf, pos, tag);
    write_le_u64(buf, pos + 1, x);
    proof { lemma_splice_twice(b0, pos as int, seq![tag], le_bytes_u64(x)); }
    Ok(pos + 9)
}

fn encode_bytes_payload(bytes: &Vec<u8>, buf: &mut Vec<u8>, pos: usize) -> (r: Result<usize, RetainedError>)
    requires
        pos <= old(buf)@.len(),
    ensures
        final(buf)@.len() == old(buf)@.len(),
        match r {
            Ok(n) => old(buf)@.len() - pos >= bytes@.len() && n == pos + bytes@.len()
                && final(buf)@ == splice(old(buf)@, pos as int, bytes@),
            Err(e) => old(buf)@.len() - pos < bytes@.len() && e == RetainedError::BufferTooSmall && final(buf)@ == old(buf)@,
        },
{
    match ensure_retained_capacity(buf, pos, bytes.len()) {
        Ok(()) => {},
        Err(e) => return Err(e),
    }
    write_bytes(buf, pos, bytes.as_slice());
    Ok(pos + bytes.len())
}

/// Encodes one value at `pos`; answers the position just past it.
fn encode_retained_value_to_slice(value: &StackValue, buf: &mut Vec<u8>, pos: usize) -> (r: Result<usize, RetainedError>)
    requires
        pos <= old(buf)@.len(),
    ensures
        final(buf)@.len() == old(buf)@.len(),
        final(buf)@.subrange(0, pos as int) == old(buf)@.subrange(0, pos as int),
        match r {
            Ok(n) => {
                &&& enc_error(value.model(), old(buf)@.len() - pos) is None
                &&& n == pos + enc_item(value.model()).len()
                &&& final(buf)@ == splice(old(buf)@, pos as int, enc_item(value.model()))
            },
            Err(e) => enc_error(value.model(), old(buf)@.len() - pos) == Some(e),
        },
    decreases value, 0nat,
{
    let ghost b0 = buf@;
    match value {
        StackValue::Integer(v) => encode_fixed(RETAINED_TAG_INTEGER, *v as u64, buf, pos),
        StackValue::BigInteger(bytes) => {
            let p = match encode_retained_tag_and_len(RETAINED_TAG_BIGINTEGER, bytes.len(), buf, pos) {
                Ok(v) => v,
                Err(e) => return Err(e),
            };
            let ghost b1 = buf@;
            let q = match encode_bytes_payload(bytes, buf, p) {
        Ok(v) => v,
        Err(e) => return Err(e),
    };
            proof { lemma_splice_twice(b0, pos as int, seq![RETAINED_TAG_BIGINTEGER] + le_bytes_u32(bytes@.len() as u32), bytes@); }
            Ok(q)
        },
        StackValue::ByteString(bytes) => {
            let p = match encode_retained_tag_and_len(RETAINED_TAG_BYTESTRING, bytes.len(), buf, pos) {
        Ok(v) => v,
        Err(e) => return Err(e),
    };
            let q = match encode_bytes_payload(bytes, buf, p) {
        Ok(v) => v,
        Err(e) => return Err(e),
    };
            proof { lemma_splice_twice(b0, pos as int, seq![RETAINED_TAG_BYTESTRING] + le_bytes_u32(bytes@.len() as u32), bytes@); }
            Ok(q)
        },
        StackValue::Boolean(v) => {
            match ensure_retained_capacity(buf, pos, 2) {
                Ok(()) => {},
                Err(e) => return Err(e),
            }
            let byte: u8 = if *v { 1 } else { 0 };
            write_u8(buf, pos, RETAINED_TAG_BOOLEAN);
            write_u8(buf, pos + 1, byte);
            proof {
                lemma_splice_twice(b0, pos as int, seq![RETAINED_TAG_BOOLEAN], seq![byte]);
                assert(seq![RETAINED_TAG_BOOLEAN] + seq![byte] =~= seq![RETAINED_TAG_BOOLEAN, byte]);
            }
            Ok(pos + 2)
        },
        StackValue::Pointer(v) => encode_fixed(RETAINED_TAG_POINTER, *v as u64, buf, pos),
        StackValue::Array(id, items) => {
            proof { lemma_model_seq_index(items@); }
            let p = match encode_retained_tag_id_len(RETAINED_TAG_ARRAY, *id, items.len(), buf, pos) {
        Ok(v) => v,
        Err(e) => return Err(e),
    };
            let q = match encode_retained_items(items.as_slice(), buf, p) {
        Ok(v) => v,
        Err(e) => return Err(e),
    };
            proof { lemma_splice_twice(b0, pos as int, seq![RETAINED_TAG_ARRAY] + le_bytes_u64(*id) + le_bytes_u32(items@.len() as u32), enc_items(model_seq(items@))); }
            Ok(q)
        },
        StackValue::Struct(id, items) => {
            proof { lemma_model_seq_index(items@); }
            let p = match encode_retained_tag_id_len(RETAINED_TAG_STRUCT, *id, items.len(), buf, pos) {
        Ok(v) => v,
        Err(e) => return Err(e),
    };
            let q = match encode_retained_items(items.as_slice(), buf, p) {
        Ok(v) => v,
        Err(e) => return Err(e),
    };
            proof { lemma_splice_twice(b0, pos as int, seq![RETAINED_TAG_STRUCT] + le_bytes_u64(*id) + le_bytes_u32(items@.len() as u32), enc_items(model_seq(items@))); }
            Ok(q)
        },
        StackValue::Dictionary(id, entries) => {
            proof { lemma_model_pairs_index(entries@); }
            let p = match encode_retained_tag_id_len(RETAINED_TAG_MAP, *id, entries.len(), buf, pos) {
        Ok(v) => v,
        Err(e) => return Err(e),
    };
            let q = match encode_retained_pairs(entries.as_slice(), buf, p) {
        Ok(v) => v,
        Err(e) => return Err(e),
    };
            proof { lemma_splice_twice(b0, pos as int, seq![RETAINED_TAG_MAP] + le_bytes_u64(*id) + le_bytes_u32(entries@.len() as u32), enc_pairs(model_pairs(entries@))); }
            Ok(q)
        },
        StackValue::Buffer(id, bytes) => {
            let p = match encode_retained_tag_id_len(RETAINED_TAG_BUFFER, *id, bytes.len(), buf, pos) {
        Ok(v) => v,
        Err(e) => return Err(e),
    };
            let q = match encode_bytes_payload(bytes, buf, p) {
        Ok(v) => v,
        Err(e) => return Err(e),
    };
            proof { lemma_splice_twice(b0, pos as int, seq![RETAINED_TAG_BUFFER] + le_bytes_u64(*id) + le_bytes_u32(bytes@.len() as u32), bytes@); }
            Ok(q)
        },
        StackValue::Interop(h) => encode_fixed(RETAINED_TAG_INTEROP, *h, buf, pos),
        StackValue::Iterator(h) => encode_fixed(RETAINED_TAG_ITERATOR, *h, buf, pos),
        StackValue::Null => {
            match ensure_retained_capacity(buf, pos, 1) {
                Ok(()) => {},
                Err(e) => return Err(e),
            }
            write_u8(buf, pos, RETAINED_TAG_NULL);
            Ok(pos + 1)
        },
    }
}

fn encode_retained_items(items: &[StackValue], buf: &mut Vec<u8>, pos: usize) -> (r: Result<usize, RetainedError>)
    requires
        pos <= old(buf)@.len(),
    ensures
        final(buf)@.len() == old(buf)@.len(),
        final(buf)@.subrange(0, pos as int) == old(buf)@.subrange(0, pos as int),
        match r {
            Ok(n) => {
                &&& items_error(model_seq(items@), old(buf)@.len() - pos) is None
                &&& n == pos + enc_items(model_seq(items@)).len()
                &&& final(buf)@ == splice(old(buf)@, pos as int, enc_items(model_seq(items@)))
            },
            Err(e) => items_error(model_seq(items@), old(buf)@.len() - pos) == Some(e),
        },
    decreases items@, 1nat,
{
    let ghost b0 = buf@;
    let ghost m = model_seq(items@);
    let ghost total = b0.len() as int;
    proof { lemma_model_seq_index(items@); }
    let mut p = pos;
    let mut i: usize = 0;
    proof {
        assert(m.subrange(0, 0) =~= Seq::<Item>::empty());
        assert(m.subrange(0, m.len() as int) =~= m);
        assert(splice(b0, pos as int, Seq::empty()) =~= b0);
    }
    while i < items.len()
        invariant
            m == model_seq(items@),
            m.len() == items@.len(),
            forall|j: int| 0 <= j < items@.len() ==> #[trigger] m[j] == items@[j].model(),
            total == b0.len(),
            b0 == old(buf)@,
            i <= items@.len(),
            pos <= p <= total,
            buf@.len() == total,
            buf@ == splice(b0, pos as int, enc_items(m.subrange(0, i as int))),
            p == pos + enc_items(m.subrange(0, i as int)).len(),
            items_error(m, total - pos) == items_error(m.subrange(i as int, m.len() as int), total - p),
        decreases items.len() - i,
    {
        proof { assert(decreases_to!(items@ => items@[i as int])); }
        let ghost bi = buf@;
        let ghost tail = m.subrange(i as int, m.len() as int);
        proof {
            assert(tail[0] == m[i as int]);
            assert(tail.subrange(1, tail.len() as int) =~= m.subrange(i + 1, m.len() as int));
        }
        let res = encode_retained_value_to_slice(&items[i], buf, p);
        match res {
            Ok(q) => {
                proof {
                    lemma_enc_items_push(m.subrange(0, i as int), m[i as int]);
                    assert(m.subrange(0, i + 1) =~= m.subrange(0, i as int).push(m[i as int]));
                    lemma_splice_twice(b0, pos as int, enc_items(m.subrange(0, i as int)), enc_item(m[i as int]));
                }
                p = q;
                i += 1;
            },
            Err(e) => {
                proof {
                    assert(buf@.subrange(0, pos as int) =~= buf@.subrange(0, p as int).subrange(0, pos as int));
                    assert(bi.subrange(0, pos as int) =~= bi.subrange(0, p as int).subrange(0, pos as int));
                    assert(b0.subrange(0, pos as int) =~= bi.subrange(0, pos as int));
                }
                return Err(e);
            },
        }
    }
    proof {
        assert(m.subrange(0, m.len() as int) =~= m);
        assert(m.subrange(m.len() as int, m.len() as int) =~= Seq::<Item>::empty());
        assert(buf@.subrange(0, pos as int) =~= b0.subrange(0, pos as int));
    }
    Ok(p)
}

fn encode_retained_entry(entry: &(StackValue, StackValue), buf: &mut Vec<u8>, pos: usize) -> (r: Result<usize, RetainedError>)
    requires
        pos <= old(buf)@.len(),
    ensures
        final(buf)@.len() == old(buf)@.len(),
        final(buf)@.subrange(0, pos as int) == old(buf)@.subrange(0, pos as int),
        match r {
            Ok(n) => {
                &&& enc_error(entry.0.model(), old(buf)@.len() - pos) is None
                &&& enc_error(entry.1.model(), old(buf)@.len() - pos - enc_item(entry.0.model()).len()) is None
                &&& n == pos + enc_item(entry.0.model()).len() + enc_item(entry.1.model()).len()
                &&& final(buf)@ == splice(old(buf)@, pos as int, enc_item(entry.0.model()) + enc_item(entry.1.model()))
            },
            Err(e) => {
                if enc_error(entry.0.model(), old(buf)@.len() - pos) is Some {
                    enc_error(entry.0.model(), old(buf)@.len() - pos) == Some(e)
                } else {
                    enc_error(entry.1.model(), old(buf)@.len() - pos - enc_item(entry.0.model()).len()) == Some(e)
                }
            },
        },
    decreases entry, 0nat,
{
    let ghost b0 = buf@;
    let q = match encode_retained_value_to_slice(&entry.0, buf, pos) {
        Ok(v) => v,
        Err(e) => return Err(e),
    };
    let ghost bq = buf@;
    match encode_retained_value_to_slice(&entry.1, buf, q) {
        Ok(q2) => {
            proof { lemma_splice_twice(b0, pos as int, enc_item(entry.0.model()), enc_item(entry.1.model())); }
            Ok(q2)
        },
        Err(e) => {
            proof {
                assert(buf@.subrange(0, pos as int) =~= buf@.subrange(0, q as int).subrange(0, pos as int));
                assert(bq.subrange(0, pos as int) =~= bq.subrange(0, q as int).subrange(0, pos as int));
            }
            Err(e)
        },
    }
}

fn encode_retained_pairs(entries: &[(StackValue, StackValue)], buf: &mut Vec<u8>, pos: usize) -> (r: Result<usize, RetainedError>)
    requires
        pos <= old(buf)@.len(),
    ensures
        final(buf)@.len() == old(buf)@.len(),
        final(buf)@.subrange(0, pos as int) == old(buf)@.subrange(0, pos as int),
        match r {
            Ok(n) => {
                &&& pairs_error(model_pairs(entries@), old(buf)@.len() - pos) is None
                &&& n == pos + enc_pairs(model_pairs(entries@)).len()
                &&& final(buf)@ == splice(old(buf)@, pos as int, enc_pairs(model_pairs(entries@)))
            },
            Err(e) => pairs_error(model_pairs(entries@), old(buf)@.len() - pos) == Some(e),
        },
    decreases entries@, 1nat,
{
    let ghost b0 = buf@;
    let ghost m = model_pairs(entries@);
    let ghost total = b0.len() as int;
    proof { lemma_model_pairs_index(entries@); }
    let mut p = pos;
    let mut i: usize = 0;
    proof {
        assert(m.subrange(0, 0) =~= Seq::<(Item, Item)>::empty());
        assert(m.subrange(0, m.len() as int) =~= m);
        assert(splice(b0, pos as int, Seq::empty()) =~= b0);
    }
    while i < entries.len()
        invariant
            m == model_pairs(entries@),
            m.len() == entries@.len(),
            forall|j: int| 0 <= j < entries@.len() ==> #[trigger] m[j] == (entries@[j].0.model(), entries@[j].1.model()),
            total == b0.len(),
            b0 == old(buf)@,
            i <= entries@.len(),
            pos <= p <= total,
            buf@.len() == total,
            buf@ == splice(b0, pos as int, enc_pairs(m.subrange(0, i as int))),
            p == pos + enc_pairs(m.subrange(0, i as int)).len(),
            pairs_error(m, total - pos) == pairs_error(m.subrange(i as int, m.len() as int), total - p),
        decreases entries.len() - i,
    {
        proof { assert(decreases_to!(entries@ => entries@[i as int])); }
        let ghost bi = buf@;
        let ghost tail = m.subrange(i as int, m.len() as int);
        proof {
            assert(tail[0] == m[i as int]);
            assert(tail.subrange(1, tail.len() as int) =~= m.subrange(i + 1, m.len() as int));
        }
        match encode_retained_entry(&entries[i], buf, p) {
            Ok(q) => {
                proof {
                    lemma_enc_pairs_push(m.subrange(0, i as int), m[i as int]);
                    assert(m.subrange(0, i + 1) =~= m.subrange(0, i as int).push(m[i as int]));
                    lemma_splice_twice(b0, pos as int, enc_pairs(m.subrange(0, i as int)), enc_item(m[i as int].0) + enc_item(m[i as int].1));
                    assert(enc_pairs(m.subrange(0, i as int)) + (enc_item(m[i as int].0) + enc_item(m[i as int].1))
                        =~= enc_pairs(m.subrange(0, i as int)) + enc_item(m[i as int].0) + enc_item(m[i as int].1));
                }
                p = q;
                i += 1;
            },
            Err(e) => {
                proof {
                    assert(buf@.subrange(0, pos as int) =~= buf@.subrange(0, p as int).subrange(0, pos as int));
                    assert(bi.subrange(0, pos as int) =~= bi.subrange(0, p as int).subrange(0, pos as int));
                    assert(b0.subrange(0, pos as int) =~= bi.subrange(0, pos as int));
                }
                return Err(e);
            },
        }
    }
    proof {
        assert(m.subrange(m.len() as int, m.len() as int) =~= Seq::<(Item, Item)>::empty());
        assert(buf@.subrange(0, pos as int) =~= b0.subrange(0, pos as int));
    }
    Ok(p)
}

// ---------------------------------------------------------------------------
// The decoding

/// The result of reading a length-prefixed byte string at `p`.
pub open spec fn dec_bytes(b: Seq<u8>, p: int) -> Result<(Seq<u8>, int), RetainedError> {
    if b.len() - p < 4 {
        Err(RetainedError::Truncated)
    } else {
        let n = le_u32_at(b, p) as int;
        if b.len() - (p + 4) < n {
            Err(RetainedError::TruncatedBytes)
        } else {
            Ok((b.subrange(p + 4, p + 4 + n), p + 4 + n))
        }
    }
}

/// The result of decoding one value at `pos`, nested `depth` levels deep: the value and the
/// position just past it, or the first error met.
pub open spec fn dec_value(b: Seq<u8>, pos: int, depth: int) -> Result<(Item, int), RetainedError>
    decreases 65 - depth, 0nat,
{
    if depth > MAX_RETAINED_DECODE_DEPTH {
        Err(RetainedError::DepthExceeded)
    } else if pos >= b.len() {
        Err(RetainedError::TruncatedTag)
    } else {
        let tag = b[pos];
        let p = pos + 1;
        if tag == RETAINED_TAG_INTEGER {
            if b.len() - p < 8 { Err(RetainedError::Truncated) } else { Ok((Item::Integer(le_u64_at(b, p) as i64), p + 8)) }
        } else if tag == RETAINED_TAG_BIGINTEGER || tag == RETAINED_TAG_BYTESTRING {
            match dec_bytes(b, p) {
                Ok((data, q)) => Ok((if tag == RETAINED_TAG_BIGINTEGER { Item::BigInteger(data) } else { Item::ByteString(data) }, q)),
                Err(e) => Err(e),
            }
        } else if tag == RETAINED_TAG_BOOLEAN {
            if b.len() - p < 1 { Err(RetainedError::Truncated) } else { Ok((Item::Boolean(b[p] != 0), p + 1)) }
        } else if tag == RETAINED_TAG_POINTER {
            if b.len() - p < 8 {
                Err(RetainedError::Truncated)
            } else if le_u64_at(b, p) > usize::MAX {
                Err(RetainedError::PointerOutOfRange)
            } else {
                Ok((Item::Pointer(le_u64_at(b, p) as usize), p + 8))
            }
        } else if tag == RETAINED_TAG_ARRAY || tag == RETAINED_TAG_STRUCT || tag == RETAINED_TAG_MAP {
            if b.len() - p < 8 {
                Err(RetainedError::Truncated)
            } else if b.len() - (p + 8) < 4 {
                Err(RetainedError::Truncated)
            } else {
                let id = le_u64_at(b, p);
                let n = le_u32_at(b, p + 8) as nat;
                if n > MAX_RETAINED_COLLECTION_LEN {
                    Err(RetainedError::CollectionTooLarge)
                } else if tag == RETAINED_TAG_MAP {
                    match dec_pairs(b, p + 12, n, depth + 1) {
                        Ok((entries, q)) => Ok((Item::Dictionary(id, entries), q)),
                        Err(e) => Err(e),
                    }
                } else {
                    match dec_items(b, p + 12, n, depth + 1) {
                        Ok((items, q)) => Ok((if tag == RETAINED_TAG_ARRAY { Item::Array(id, items) } else { Item::Struct(id, items) }, q)),
                        Err(e) => Err(e),
                    }
                }
            }
        } else if tag == RETAINED_TAG_BUFFER {
            if b.len() - p < 8 {
                Err(RetainedError::Truncated)
            } else {
                match dec_bytes(b, p + 8) {
                    Ok((data, q)) => Ok((Item::Buffer(le_u64_at(b, p), data), q)),
                    Err(e) => Err(e),
                }
            }
        } else if tag == RETAINED_TAG_INTEROP || tag == RETAINED_TAG_ITERATOR {
            if b.len() - p < 8 {
                Err(RetainedError::Truncated)
            } else if tag == RETAINED_TAG_INTEROP {
                Ok((Item::Interop(le_u64_at(b, p)), p + 8))
            } else {
                Ok((Item::Iterator(le_u64_at(b, p)), p + 8))
            }
        } else if tag == RETAINED_TAG_NULL {
            Ok((Item::Null, p))
        } else {
            Err(RetainedError::InvalidTag(tag))
        }
    }
}

/// The result of decoding `n` values one after the other from `pos`.
pub open spec fn dec_items(b: Seq<u8>, pos: int, n: nat, depth: int) -> Result<(Seq<Item>, int), RetainedError>
    decreases 65 - depth, n + 1,
{
    if n == 0 {
        Ok((Seq::empty(), pos))
    } else {
        match dec_value(b, pos, depth) {
            Err(e) => Err(e),
            Ok((x, p)) => match dec_items(b, p, (n - 1) as nat, depth) {
                Err(e) => Err(e),
                Ok((xs, q)) => Ok((seq![x] + xs, q)),
            },
        }
    }
}

/// The result of decoding `n` entries, each a key then a value, from `pos`.
pub open spec fn dec_pairs(b: Seq<u8>, pos: int, n: nat, depth: int) -> Result<(Seq<(Item, Item)>, int), RetainedError>
    decreases 65 - depth, n + 1,
{
    if n == 0 {
        Ok((Seq::empty(), pos))
    } else {
        match dec_value(b, pos, depth) {
            Err(e) => Err(e),
            Ok((k, p)) => match dec_value(b, p, depth) {
                Err(e) => Err(e),
                Ok((v, p2)) => match dec_pairs(b, p2, (n - 1) as nat, depth) {
                    Err(e) => Err(e),
                    Ok((xs, q)) => Ok((seq![(k, v)] + xs, q)),
                },
            },
        }
    }
}

/// The result of decoding a whole retained stack.
pub open spec fn dec_prefix(b: Seq<u8>) -> Result<Seq<Item>, RetainedError> {
    if b.len() < 4 {
        Err(RetainedError::TruncatedLength)
    } else if le_u32_at(b, 0) > MAX_RETAINED_COLLECTION_LEN {
        Err(RetainedError::CollectionTooLarge)
    } else {
        match dec_items(b, 4, le_u32_at(b, 0) as nat, 0) {
            Err(e) => Err(e),
            Ok((xs, q)) => if q != b.len() { Err(RetainedError::TrailingBytes) } else { Ok(xs) },
        }
    }
}

fn ensure_retained_input(bytes: &[u8], pos: usize, needed: usize) -> (r: Result<(), RetainedError>)
    requires
        pos <= bytes@.len(),
    ensures
        bytes@.len() <= usize::MAX,
        r is Ok <==> bytes@.len() - pos >= needed,
        r matches Err(e) ==> e == RetainedError::Truncated,
{
    if bytes.len().saturating_sub(pos) < needed {
        Err(RetainedError::Truncated)
    } else {
        Ok(())
    }
}

fn decode_retained_u8(bytes: &[u8], pos: &mut usize) -> (r: Result<u8, RetainedError>)
    requires
        *old(pos) <= bytes@.len(),
    ensures
        match r {
            Ok(v) => bytes@.len() - *old(pos) >= 1 && v == bytes@[*old(pos) as int] && *final(pos) == *old(pos) + 1,
            Err(e) => bytes@.len() - *old(pos) < 1 && e == RetainedError::Truncated,
        },
{
    match ensure_retained_input(bytes, *pos, 1) {
        Ok(()) => {},
        Err(e) => return Err(e),
    }
    let value = bytes[*pos];
    *pos = *pos + 1;
    Ok(value)
}

fn decode_retained_u32(bytes: &[u8], pos: &mut usize) -> (r: Result<u32, RetainedError>)
    requires
        *old(pos) <= bytes@.len(),
    ensures
        match r {
            Ok(v) => bytes@.len() - *old(pos) >= 4 && v == le_u32_at(bytes@, *old(pos) as int) && *final(pos) == *old(pos) + 4,
            Err(e) => bytes@.len() - *old(pos) < 4 && e == RetainedError::Truncated,
        },
{
    match ensure_retained_input(bytes, *pos, 4) {
        Ok(()) => {},
        Err(e) => return Err(e),
    }
    let value = read_le_u32(bytes, *pos);
    *pos = *pos + 4;
    Ok(value)
}

fn decode_retained_u64(bytes: &[u8], pos: &mut usize) -> (r: Result<u64, RetainedError>)
    requires
        *old(pos) <= bytes@.len(),
    ensures
        match r {
            Ok(v) => bytes@.len() - *old(pos) >= 8 && v == le_u64_at(bytes@, *old(pos) as int) && *final(pos) == *old(pos) + 8,
            Err(e) => bytes@.len() - *old(pos) < 8 && e == RetainedError::Truncated,
        },
{
    match ensure_retained_input(bytes, *pos, 8) {
        Ok(()) => {},
        Err(e) => return Err(e),
    }
    let value = read_le_u64(bytes, *pos);
    *pos = *pos + 8;
    Ok(value)
}

fn decode_retained_i64(bytes: &[u8], pos: &mut usize) -> (r: Result<i64, RetainedError>)
    requires
        *old(pos) <= bytes@.len(),
    ensures
        match r {
            Ok(v) => bytes@.len() - *old(pos) >= 8 && v == le_u64_at(bytes@, *old(pos) as int) as i64 && *final(pos) == *old(pos) + 8,
            Err(e) => bytes@.len() - *old(pos) < 8 && e == RetainedError::Truncated,
        },
{
    match decode_retained_u64(bytes, pos) {
        Ok(v) => Ok(v as i64),
        Err(e) => Err(e),
    }
}

fn decode_retained_bytes(bytes: &[u8], pos: &mut usize) -> (r: Result<Vec<u8>, RetainedError>)
    requires
        *old(pos) <= bytes@.len(),
    ensures
        match r {
            Ok(v) => dec_bytes(bytes@, *old(pos) as int) == Ok::<(Seq<u8>, int), RetainedError>((v@, *final(pos) as int)),
            Err(e) => dec_bytes(bytes@, *old(pos) as int) == Err::<(Seq<u8>, int), RetainedError>(e),
        },
{
    let len = match decode_retained_u32(bytes, pos) {
        Ok(v) => v as usize,
        Err(e) => return Err(e),
    };
    if bytes.len().saturating_sub(*pos) < len {
        return Err(RetainedError::TruncatedBytes);
    }
    let data = crate::storage::bytes_to_vec(vstd::slice::slice_subrange(bytes, *pos, *pos + len));
    *pos = *pos + len;
    Ok(data)
}

/// Decodes one value at `*pos`, nested `depth` levels deep, and moves `*pos` past it.
fn decode_retained_value(bytes: &[u8], pos: &mut usize, depth: usize) -> (r: Result<StackValue, RetainedError>)
    requires
        *old(pos) <= bytes@.len(),
    ensures
        match r {
            Ok(v) => dec_value(bytes@, *old(pos) as int, depth as int) == Ok::<(Item, int), RetainedError>((v.model(), *final(pos) as int))
                && *final(pos) <= bytes@.len(),
            Err(e) => dec_value(bytes@, *old(pos) as int, depth as int) == Err::<(Item, int), RetainedError>(e),
        },
    decreases 65 - depth, 0nat,
{
    if depth > MAX_RETAINED_DECODE_DEPTH {
        return Err(RetainedError::DepthExceeded);
    }
    if *pos >= bytes.len() {
        return Err(RetainedError::TruncatedTag);
    }
    let tag = bytes[*pos];
    *pos = *pos + 1;
    if tag == RETAINED_TAG_INTEGER {
        match decode_retained_i64(bytes, pos) {
            Ok(v) => Ok(StackValue::Integer(v)),
            Err(e) => Err(e),
        }
    } else if tag == RETAINED_TAG_BIGINTEGER {
        match decode_retained_bytes(bytes, pos) {
            Ok(data) => Ok(StackValue::BigInteger(data)),
            Err(e) => Err(e),
        }
    } else if tag == RETAINED_TAG_BYTESTRING {
        match decode_retained_bytes(bytes, pos) {
            Ok(data) => Ok(StackValue::ByteString(data)),
            Err(e) => Err(e),
        }
    } else if tag == RETAINED_TAG_BOOLEAN {
        match decode_retained_u8(bytes, pos) {
            Ok(v) => Ok(StackValue::Boolean(v != 0)),
            Err(e) => Err(e),
        }
    } else if tag == RETAINED_TAG_POINTER {
        match decode_retained_u64(bytes, pos) {
            Ok(v) => {
                if v > usize::MAX as u64 {
                    Err(RetainedError::PointerOutOfRange)
                } else {
                    Ok(StackValue::Pointer(v as usize))
                }
            },
            Err(e) => Err(e),
        }
    } else if tag == RETAINED_TAG_ARRAY || tag == RETAINED_TAG_STRUCT || tag == RETAINED_TAG_MAP {
        let id = match decode_retained_u64(bytes, pos) {
            Ok(v) => v,
            Err(e) => return Err(e),
        };
        let len = match decode_retained_u32(bytes, pos) {
            Ok(v) => v as usize,
            Err(e) => return Err(e),
        };
        if len > MAX_RETAINED_COLLECTION_LEN {
            return Err(RetainedError::CollectionTooLarge);
        }
        if tag == RETAINED_TAG_MAP {
            match decode_retained_pairs(bytes, pos, len, depth + 1) {
                Ok(entries) => Ok(StackValue::Dictionary(id, entries)),
                Err(e) => Err(e),
            }
        } else {
            match decode_retained_items(bytes, pos, len, depth + 1) {
                Ok(items) => {
                    if tag == RETAINED_TAG_ARRAY {
                        Ok(StackValue::Array(id, items))
                    } else {
                        Ok(StackValue::Struct(id, items))
                    }
                },
                Err(e) => Err(e),
            }
        }
    } else if tag == RETAINED_TAG_BUFFER {
        let id = match decode_retained_u64(bytes, pos) {
            Ok(v) => v,
            Err(e) => return Err(e),
        };
        match decode_retained_bytes(bytes, pos) {
            Ok(data) => Ok(StackValue::Buffer(id, data)),
            Err(e) => Err(e),
        }
    } else if tag == RETAINED_TAG_INTEROP {
        match decode_retained_u64(bytes, pos) {
            Ok(v) => Ok(StackValue::Interop(v)),
            Err(e) => Err(e),
        }
    } else if tag == RETAINED_TAG_ITERATOR {
        match decode_retained_u64(bytes, pos) {
            Ok(v) => Ok(StackValue::Iterator(v)),
            Err(e) => Err(e),
        }
    } else if tag == RETAINED_TAG_NULL {
        Ok(StackValue::Null)
    } else {
        Err(RetainedError::InvalidTag(tag))
    }
}

/// Decodes `count` values one after the other, nested `depth` levels deep.
fn decode_retained_items(bytes: &[u8], pos: &mut usize, count: usize, depth: usize) -> (r: Result<Vec<StackValue>, RetainedError>)
    requires
        *old(pos) <= bytes@.len(),
        depth <= 65,
    ensures
        match r {
            Ok(items) => dec_items(bytes@, *old(pos) as int, count as nat, depth as int)
                == Ok::<(Seq<Item>, int), RetainedError>((model_seq(items@), *final(pos) as int))
                && *final(pos) <= bytes@.len(),
            Err(e) => dec_items(bytes@, *old(pos) as int, count as nat, depth as int) == Err::<(Seq<Item>, int), RetainedError>(e),
        },
    decreases 65 - depth, count + 1,
{
    let ghost p0 = *pos as int;
    let mut items: Vec<StackValue> = Vec::with_capacity(count);
    let mut i: usize = 0;
    while i < count
        invariant
            i <= count,
            *pos <= bytes@.len(),
            depth <= 65,
            p0 == *old(pos) as int,
            dec_items(bytes@, p0, count as nat, depth as int) == match dec_items(bytes@, *pos as int, (count - i) as nat, depth as int) {
                Ok((xs, q)) => Ok::<(Seq<Item>, int), RetainedError>((model_seq(items@) + xs, q)),
                Err(e) => Err::<(Seq<Item>, int), RetainedError>(e),
            },
        decreases count - i,
    {
        let ghost pi = *pos as int;
        let ghost before = items@;
        match decode_retained_value(bytes, pos, depth) {
            Ok(v) => {
                proof {
                    lemma_model_seq_push(before, v);
                    let rest = dec_items(bytes@, *pos as int, (count - i - 1) as nat, depth as int);
                    match rest {
                        Ok((xs, q)) => {
                            assert(model_seq(before) + (seq![v.model()] + xs) =~= model_seq(before).push(v.model()) + xs);
                        },
                        Err(_) => {},
                    }
                }
                items.push(v);
                i += 1;
            },
            Err(e) => {
                proof {
                    assert(dec_items(bytes@, pi, (count - i) as nat, depth as int) == Err::<(Seq<Item>, int), RetainedError>(e));
                }
                return Err(e);
            },
        }
    }
    proof {
        assert(model_seq(items@) + Seq::<Item>::empty() =~= model_seq(items@));
    }
    Ok(items)
}

/// Decodes `count` entries, each a key then a value, nested `depth` levels deep.
fn decode_retained_pairs(bytes: &[u8], pos: &mut usize, count: usize, depth: usize) -> (r: Result<Vec<(StackValue, StackValue)>, RetainedError>)
    requires
        *old(pos) <= bytes@.len(),
        depth <= 65,
    ensures
        match r {
            Ok(entries) => dec_pairs(bytes@, *old(pos) as int, count as nat, depth as int)
                == Ok::<(Seq<(Item, Item)>, int), RetainedError>((model_pairs(entries@), *final(pos) as int))
                && *final(pos) <= bytes@.len(),
            Err(e) => dec_pairs(bytes@, *old(pos) as int, count as nat, depth as int) == Err::<(Seq<(Item, Item)>, int), RetainedError>(e),
        },
    decreases 65 - depth, count + 1,
{
    let ghost p0 = *pos as int;
    let mut entries: Vec<(StackValue, StackValue)> = Vec::with_capacity(count);
    let mut i: usize = 0;
    while i < count
        invariant
            i <= count,
            *pos <= bytes@.len(),
            depth <= 65,
            p0 == *old(pos) as int,
            dec_pairs(bytes@, p0, count as nat, depth as int) == match dec_pairs(bytes@, *pos as int, (count - i) as nat, depth as int) {
                Ok((xs, q)) => Ok::<(Seq<(Item, Item)>, int), RetainedError>((model_pairs(entries@) + xs, q)),
                Err(e) => Err::<(Seq<(Item, Item)>, int), RetainedError>(e),
            },
        decreases count - i,
    {
        let ghost before = entries@;
        let ghost pi = *pos as int;
        let key = match decode_retained_value(bytes, pos, depth) {
            Ok(v) => v,
            Err(e) => {
                proof {
                    assert(dec_pairs(bytes@, pi, (count - i) as nat, depth as int) == Err::<(Seq<(Item, Item)>, int), RetainedError>(e));
                }
                return Err(e);
            },
        };
        let ghost pk = *pos as int;
        let value = match decode_retained_value(bytes, pos, depth) {
            Ok(v) => v,
            Err(e) => {
                proof {
                    assert(dec_pairs(bytes@, pi, (count - i) as nat, depth as int) == Err::<(Seq<(Item, Item)>, int), RetainedError>(e));
                }
                return Err(e);
            },
        };
        proof {
            lemma_model_pairs_push(before, (key, value));
            let rest = dec_pairs(bytes@, *pos as int, (count - i - 1) as nat, depth as int);
            match rest {
                Ok((xs, q)) => {
                    assert(model_pairs(before) + (seq![(key.model(), value.model())] + xs)
                        =~= model_pairs(before).push((key.model(), value.model())) + xs);
                },
                Err(_) => {},
            }
        }
        entries.push((key, value));
        i += 1;
    }
    proof {
        assert(model_pairs(entries@) + Seq::<(Item, Item)>::empty() =~= model_pairs(entries@));
    }
    Ok(entries)
}


// ---------------------------------------------------------------------------
// The whole retained stack

/// Encodes the stack `stack` at the start of `buf`: the count as four little-endian bytes,
/// then each value. Answers how many bytes were written.
fn encode_prefix(stack: &[StackValue], buf: &mut Vec<u8>) -> (r: Result<usize, RetainedError>)
    ensures
        final(buf)@.len() == old(buf)@.len(),
        match r {
            Ok(n) => {
                &&& enc_prefix_error(model_seq(stack@), old(buf)@.len() as int) is None
                &&& n == enc_prefix(model_seq(stack@)).len()
                &&& final(buf)@ == splice(old(buf)@, 0, enc_prefix(model_seq(stack@)))
            },
            Err(e) => enc_prefix_error(model_seq(stack@), old(buf)@.len() as int) == Some(e),
        },
{
    proof { lemma_model_seq_index(stack@); }
    if buf.len() < 4 {
        return Err(RetainedError::BufferTooSmall);
    }
    let len = stack.len();
    if len > MAX_RETAINED_COLLECTION_LEN {
        return Err(RetainedError::CollectionTooLarge);
    }
    let ghost b0 = buf@;
    write_le_u32(buf, 0, len as u32);
    match encode_retained_items(stack, buf, 4) {
        Ok(n) => {
            proof {
                lemma_splice_twice(b0, 0, le_bytes_u32(len as u32), enc_items(model_seq(stack@)));
            }
            Ok(n)
        },
        Err(e) => Err(e),
    }
}

/// Decodes a whole retained stack, the count first, then that many values, and no byte more.
fn decode_prefix(bytes: &[u8]) -> (r: Result<Vec<StackValue>, RetainedError>)
    ensures
        match r {
            Ok(items) => dec_prefix(bytes@) == Ok::<Seq<Item>, RetainedError>(model_seq(items@)),
            Err(e) => dec_prefix(bytes@) == Err::<Seq<Item>, RetainedError>(e),
        },
{
    if bytes.len() < 4 {
        return Err(RetainedError::TruncatedLength);
    }
    let len = read_le_u32(bytes, 0) as usize;
    if len > MAX_RETAINED_COLLECTION_LEN {
        return Err(RetainedError::CollectionTooLarge);
    }
    let mut pos: usize = 4;
    let items = match decode_retained_items(bytes, &mut pos, len, 0) {
        Ok(items) => items,
        Err(e) => return Err(e),
    };
    if pos != bytes.len() {
        return Err(RetainedError::TrailingBytes);
    }
    Ok(items)
}

/// What the error says, in words.
pub open spec fn retained_error_text(e: RetainedError) -> Seq<char> {
    match e {
        RetainedError::BufferTooSmall => "retained prefix buffer too small"@,
        RetainedError::CollectionTooLarge => "collection length exceeds maximum"@,
        RetainedError::LengthExceedsU32 => "retained prefix length exceeds u32"@,
        RetainedError::TruncatedLength => "truncated retained prefix length"@,
        RetainedError::DepthExceeded => "decode depth exceeds maximum"@,
        RetainedError::TruncatedTag => "truncated retained prefix tag"@,
        RetainedError::Truncated => "truncated retained prefix"@,
        RetainedError::TruncatedBytes => "truncated retained prefix bytes"@,
        RetainedError::PointerOutOfRange => "pointer out of range"@,
        RetainedError::InvalidTag(t) => "invalid retained prefix tag 0x"@ + hex2(t),
        RetainedError::TrailingBytes => "retained prefix has trailing bytes"@,
    }
}

impl RetainedError {
    /// The message that reports this error.
    pub fn message(&self) -> (r: String)
        ensures
            r@ == retained_error_text(*self),
    {
        match self {
            RetainedError::BufferTooSmall => text("retained prefix buffer too small"),
            RetainedError::CollectionTooLarge => text("collection length exceeds maximum"),
            RetainedError::LengthExceedsU32 => text("retained prefix length exceeds u32"),
            RetainedError::TruncatedLength => text("truncated retained prefix length"),
            RetainedError::DepthExceeded => text("decode depth exceeds maximum"),
            RetainedError::TruncatedTag => text("truncated retained prefix tag"),
            RetainedError::Truncated => text("truncated retained prefix"),
            RetainedError::TruncatedBytes => text("truncated retained prefix bytes"),
            RetainedError::PointerOutOfRange => text("pointer out of range"),
            RetainedError::InvalidTag(t) => {
                let mut s = text("invalid retained prefix tag 0x");
                push_hex2(&mut s, *t);
                s
            },
            RetainedError::TrailingBytes => text("retained prefix has trailing bytes"),
        }
    }
}

/// Encodes `stack` at the start of `buf` in the retained format and answers the number of
/// bytes written; on failure, answers the message of the first error met. The bytes of `buf`
/// past the encoding are left as they were.
pub fn encode_retained_prefix_to_slice(stack: &[StackValue], buf: &mut Vec<u8>) -> (r: Result<usize, String>)
    ensures
        final(buf)@.len() == old(buf)@.len(),
        match r {
            Ok(n) => {
                &&& enc_prefix_error(model_seq(stack@), old(buf)@.len() as int) is None
                &&& n == enc_prefix(model_seq(stack@)).len()
                &&& final(buf)@ == splice(old(buf)@, 0, enc_prefix(model_seq(stack@)))
            },
            Err(msg) => {
                &&& enc_prefix_error(model_seq(stack@), old(buf)@.len() as int) is Some
                &&& msg@ == retained_error_text(enc_prefix_error(model_seq(stack@), old(buf)@.len() as int).unwrap())
            },
        },
{
    match encode_prefix(stack, buf) {
        Ok(n) => Ok(n),
        Err(e) => Err(e.message()),
    }
}

/// Decodes a retained stack from `bytes`, or answers the message of the first error met.
pub fn decode_retained_prefix(bytes: &[u8]) -> (r: Result<Vec<StackValue>, String>)
    ensures
        match r {
            Ok(items) => dec_prefix(bytes@) == Ok::<Seq<Item>, RetainedError>(model_seq(items@)),
            Err(msg) => dec_prefix(bytes@) is Err && msg@ == retained_error_text(dec_prefix(bytes@)->Err_0),
        },
{
    match decode_prefix(bytes) {
        Ok(items) => Ok(items),
        Err(e) => Err(e.message()),
    }
}

/// The values decoded one after the other from `pos` before the first that fails (all `n`
/// of them when none fails).
pub open spec fn dec_partial(b: Seq<u8>, pos: int, n: nat, depth: int) -> Seq<Item>
    decreases n,
{
    if n == 0 {
        Seq::empty()
    } else {
        match dec_value(b, pos, depth) {
            Err(_) => Seq::empty(),
            Ok((x, p)) => seq![x] + dec_partial(b, p, (n - 1) as nat, depth),
        }
    }
}

/// Decodes a retained stack from `bytes` into `stack`, replacing what it held. When the
/// count is missing or too large, `stack` is left as it was; otherwise it holds the values
/// decoded before the first failure (all of them when only trailing bytes are wrong).
pub fn decode_retained_prefix_into(bytes: &[u8], stack: &mut Vec<StackValue>) -> (r: Result<(), String>)
    ensures
        match r {
            Ok(()) => dec_prefix(bytes@) == Ok::<Seq<Item>, RetainedError>(model_seq(final(stack)@)),
            Err(msg) => {
                &&& dec_prefix(bytes@) is Err
                &&& msg@ == retained_error_text(dec_prefix(bytes@)->Err_0)
                &&& (bytes@.len() < 4 || le_u32_at(bytes@, 0) > MAX_RETAINED_COLLECTION_LEN) ==> final(stack)@ == old(stack)@
                &&& !(bytes@.len() < 4 || le_u32_at(bytes@, 0) > MAX_RETAINED_COLLECTION_LEN)
                    ==> model_seq(final(stack)@) == dec_partial(bytes@, 4, le_u32_at(bytes@, 0) as nat, 0)
            },
        },
{
    if bytes.len() < 4 {
        return Err(RetainedError::TruncatedLength.message());
    }
    let len = read_le_u32(bytes, 0) as usize;
    if len > MAX_RETAINED_COLLECTION_LEN {
        return Err(RetainedError::CollectionTooLarge.message());
    }
    stack.clear();
    let ghost n = len as nat;
    let mut pos: usize = 4;
    let mut i: usize = 0;
    proof {
        assert(model_seq(stack@) =~= Seq::<Item>::empty());
        assert(Seq::<Item>::empty() + dec_partial(bytes@, 4, n, 0) =~= dec_partial(bytes@, 4, n, 0));
        match dec_items(bytes@, 4, n, 0) {
            Ok((xs, q)) => { assert(Seq::<Item>::empty() + xs =~= xs); },
            Err(_) => {},
        }
    }
    while i < len
        invariant
            i <= len,
            n == len,
            bytes@.len() >= 4,
            le_u32_at(bytes@, 0) == len,
            len <= MAX_RETAINED_COLLECTION_LEN,
            pos <= bytes@.len(),
            dec_items(bytes@, 4, n, 0) == match dec_items(bytes@, pos as int, (len - i) as nat, 0) {
                Ok((xs, q)) => Ok::<(Seq<Item>, int), RetainedError>((model_seq(stack@) + xs, q)),
                Err(e) => Err::<(Seq<Item>, int), RetainedError>(e),
            },
            dec_partial(bytes@, 4, n, 0) == model_seq(stack@) + dec_partial(bytes@, pos as int, (len - i) as nat, 0),
        decreases len - i,
    {
        let ghost pi = pos as int;
        let ghost before = stack@;
        match decode_retained_value(bytes, &mut pos, 0) {
            Ok(v) => {
                proof {
                    lemma_model_seq_push(before, v);
                    let rest = dec_items(bytes@, pos as int, (len - i - 1) as nat, 0);
                    match rest {
                        Ok((xs, q)) => {
                            assert(model_seq(before) + (seq![v.model()] + xs) =~= model_seq(before).push(v.model()) + xs);
                        },
                        Err(_) => {},
                    }
                    let part = dec_partial(bytes@, pos as int, (len - i - 1) as nat, 0);
                    assert(model_seq(before) + (seq![v.model()] + part) =~= model_seq(before).push(v.model()) + part);
                }
                stack.push(v);
                i += 1;
            },
            Err(e) => {
                proof {
                    assert(dec_items(bytes@, pi, (len - i) as nat, 0) == Err::<(Seq<Item>, int), RetainedError>(e));
                    assert(dec_partial(bytes@, pi, (len - i) as nat, 0) =~= Seq::<Item>::empty());
                    assert(model_seq(stack@) + Seq::<Item>::empty() =~= model_seq(stack@));
                }
                return Err(e.message());
            },
        }
    }
    proof {
        assert(model_seq(stack@) + Seq::<Item>::empty() =~= model_seq(stack@));
    }
    if pos != bytes.len() {
        return Err(RetainedError::TrailingBytes.message());
    }
    Ok(())
}

// ---------------------------------------------------------------------------
// Decoding what was encoded

/// A value that the decoder reads back at nesting level `depth`: no deeper than the decoder
/// accepts, byte strings whose length fits in a `u32`, and collections of at most
/// `MAX_RETAINED_COLLECTION_LEN` entries.
pub open spec fn retainable(v: Item, depth: int) -> bool
    decreases v, 0nat,
{
    &&& depth <= MAX_RETAINED_DECODE_DEPTH
    &&& match v {
        Item::BigInteger(b) | Item::ByteString(b) | Item::Buffer(_, b) => b.len() <= u32::MAX,
        Item::Array(_, items) | Item::Struct(_, items) =>
            items.len() <= MAX_RETAINED_COLLECTION_LEN && retainable_seq(items, depth + 1),
        Item::Dictionary(_, entries) =>
            entries.len() <= MAX_RETAINED_COLLECTION_LEN && retainable_pairs(entries, depth + 1),
        _ => true,
    }
}

/// Every value of `s` is retainable at level `depth`.
pub open spec fn retainable_seq(s: Seq<Item>, depth: int) -> bool
    decreases s, 1nat,
{
    s.len() == 0 || (retainable(s[0], depth) && retainable_seq(s.subrange(1, s.len() as int), depth))
}

/// Every key and value of `s` is retainable at level `depth`.
pub open spec fn retainable_pairs(s: Seq<(Item, Item)>, depth: int) -> bool
    decreases s, 1nat,
{
    s.len() == 0 || (retainable(s[0].0, depth) && retainable(s[0].1, depth)
        && retainable_pairs(s.subrange(1, s.len() as int), depth))
}

proof fn lemma_split(b: Seq<u8>, p: int, x: Seq<u8>, y: Seq<u8>)
    requires
        0 <= p,
        p + x.len() + y.len() <= b.len(),
        b.subrange(p, p + x.len() + y.len()) == x + y,
    ensures
        b.subrange(p, p + x.len()) == x,
        b.subrange(p + x.len(), p + x.len() + y.len()) == y,
{
    assert(b.subrange(p, p + x.len()) =~= (x + y).subrange(0, x.len() as int));
    assert(b.subrange(p + x.len(), p + x.len() + y.len()) =~= (x + y).subrange(x.len() as int, (x.len() + y.len()) as int));
    assert((x + y).subrange(0, x.len() as int) =~= x);
    assert((x + y).subrange(x.len() as int, (x.len() + y.len()) as int) =~= y);
}

proof fn lemma_head(b: Seq<u8>, p: int, t: u8, y: Seq<u8>)
    requires
        0 <= p,
        p + 1 + y.len() <= b.len(),
        b.subrange(p, p + 1 + y.len()) == seq![t] + y,
    ensures
        b[p] == t,
        b.subrange(p + 1, p + 1 + y.len()) == y,
{
    assert(b[p] == b.subrange(p, p + 1 + y.len())[0]);
    lemma_split(b, p, seq![t], y);
}

proof fn lemma_dec_enc_bytes(b: Seq<u8>, p: int, data: Seq<u8>)
    requires
        0 <= p,
        data.len() <= u32::MAX,
        p + 4 + data.len() <= b.len(),
        b.subrange(p, p + 4 + data.len()) == le_bytes_u32(data.len() as u32) + data,
    ensures
        dec_bytes(b, p) == Ok::<(Seq<u8>, int), RetainedError>((data, p + 4 + data.len())),
{
    lemma_split(b, p, le_bytes_u32(data.len() as u32), data);
    lemma_u32_round_trip(data.len() as u32, b, p);
}

#[verifier::spinoff_prover]
#[verifier::rlimit(40)]
proof fn lemma_dec_enc_item(v: Item, b: Seq<u8>, p: int, depth: int)
    requires
        0 <= p,
        0 <= depth,
        p + enc_item(v).len() <= b.len(),
        b.subrange(p, p + enc_item(v).len()) == enc_item(v),
        retainable(v, depth),
    ensures
        dec_value(b, p, depth) == Ok::<(Item, int), RetainedError>((v, p + enc_item(v).len())),
    decreases v, 0nat,
{
    match v {
        Item::Integer(x) => {
            lemma_head(b, p, RETAINED_TAG_INTEGER, le_bytes_u64(x as u64));
            lemma_u64_round_trip(x as u64, b, p + 1);
            assert((x as u64) as i64 == x) by (bit_vector);
        },
        Item::BigInteger(data) => {
            let y = le_bytes_u32(data.len() as u32) + data;
            assert(enc_item(v) =~= seq![RETAINED_TAG_BIGINTEGER] + y);
            lemma_head(b, p, RETAINED_TAG_BIGINTEGER, y);
            lemma_dec_enc_bytes(b, p + 1, data);
        },
        Item::ByteString(data) => {
            let y = le_bytes_u32(data.len() as u32) + data;
            assert(enc_item(v) =~= seq![RETAINED_TAG_BYTESTRING] + y);
            lemma_head(b, p, RETAINED_TAG_BYTESTRING, y);
            lemma_dec_enc_bytes(b, p + 1, data);
        },
        Item::Boolean(x) => {
            assert(enc_item(v) =~= seq![RETAINED_TAG_BOOLEAN] + seq![bool_byte(x)]);
            lemma_head(b, p, RETAINED_TAG_BOOLEAN, seq![bool_byte(x)]);
            assert(b[p + 1] == b.subrange(p + 1, p + 2)[0]);
        },
        Item::Pointer(q) => {
            lemma_head(b, p, RETAINED_TAG_POINTER, le_bytes_u64(q as u64));
            lemma_u64_round_trip(q as u64, b, p + 1);
        },
        Item::Array(id, items) | Item::Struct(id, items) => {
            let t = if v is Array { RETAINED_TAG_ARRAY } else { RETAINED_TAG_STRUCT };
            let n = items.len();
            let y = le_bytes_u64(id) + le_bytes_u32(n as u32) + enc_items(items);
            assert(enc_item(v) =~= seq![t] + y);
            lemma_head(b, p, t, y);
            lemma_split(b, p + 1, le_bytes_u64(id) + le_bytes_u32(n as u32), enc_items(items));
            lemma_split(b, p + 1, le_bytes_u64(id), le_bytes_u32(n as u32));
            lemma_u64_round_trip(id, b, p + 1);
            lemma_u32_round_trip(n as u32, b, p + 9);
            lemma_dec_enc_items(items, b, p + 13, depth + 1);
        },
        Item::Dictionary(id, entries) => {
            let n = entries.len();
            let y = le_bytes_u64(id) + le_bytes_u32(n as u32) + enc_pairs(entries);
            assert(enc_item(v) =~= seq![RETAINED_TAG_MAP] + y);
            lemma_head(b, p, RETAINED_TAG_MAP, y);
            lemma_split(b, p + 1, le_bytes_u64(id) + le_bytes_u32(n as u32), enc_pairs(entries));
            lemma_split(b, p + 1, le_bytes_u64(id), le_bytes_u32(n as u32));
            lemma_u64_round_trip(id, b, p + 1);
            lemma_u32_round_trip(n as u32, b, p + 9);
            lemma_dec_enc_pairs(entries, b, p + 13, depth + 1);
        },
        Item::Buffer(id, data) => {
            let y = le_bytes_u64(id) + (le_bytes_u32(data.len() as u32) + data);
            assert(enc_item(v) =~= seq![RETAINED_TAG_BUFFER] + y);
            lemma_head(b, p, RETAINED_TAG_BUFFER, y);
            lemma_split(b, p + 1, le_bytes_u64(id), le_bytes_u32(data.len() as u32) + data);
            lemma_u64_round_trip(id, b, p + 1);
            lemma_dec_enc_bytes(b, p + 9, data);
        },
        Item::Interop(h) => {
            lemma_head(b, p, RETAINED_TAG_INTEROP, le_bytes_u64(h));
            lemma_u64_round_trip(h, b, p + 1);
        },
        Item::Iterator(h) => {
            lemma_head(b, p, RETAINED_TAG_ITERATOR, le_bytes_u64(h));
            lemma_u64_round_trip(h, b, p + 1);
        },
        Item::Null => {
            assert(b[p] == b.subrange(p, p + 1)[0]);
        },
    }
}

proof fn lemma_dec_enc_items(s: Seq<Item>, b: Seq<u8>, p: int, depth: int)
    requires
        0 <= p,
        0 <= depth,
        p + enc_items(s).len() <= b.len(),
        b.subrange(p, p + enc_items(s).len()) == enc_items(s),
        retainable_seq(s, depth),
    ensures
        dec_items(b, p, s.len(), depth) == Ok::<(Seq<Item>, int), RetainedError>((s, p + enc_items(s).len())),
    decreases s, 1nat,
{
    if s.len() == 0 {
        assert(Seq::<Item>::empty() =~= s);
    } else {
        let rest = s.subrange(1, s.len() as int);
        lemma_split(b, p, enc_item(s[0]), enc_items(rest));
        lemma_dec_enc_item(s[0], b, p, depth);
        lemma_dec_enc_items(rest, b, p + enc_item(s[0]).len(), depth);
        assert(seq![s[0]] + rest =~= s);
    }
}

proof fn lemma_dec_enc_pairs(s: Seq<(Item, Item)>, b: Seq<u8>, p: int, depth: int)
    requires
        0 <= p,
        0 <= depth,
        p + enc_pairs(s).len() <= b.len(),
        b.subrange(p, p + enc_pairs(s).len()) == enc_pairs(s),
        retainable_pairs(s, depth),
    ensures
        dec_pairs(b, p, s.len(), depth) == Ok::<(Seq<(Item, Item)>, int), RetainedError>((s, p + enc_pairs(s).len())),
    decreases s, 1nat,
{
    if s.len() == 0 {
        assert(Seq::<(Item, Item)>::empty() =~= s);
    } else {
        let rest = s.subrange(1, s.len() as int);
        lemma_split(b, p, enc_item(s[0].0) + enc_item(s[0].1), enc_pairs(rest));
        lemma_split(b, p, enc_item(s[0].0), enc_item(s[0].1));
        lemma_dec_enc_item(s[0].0, b, p, depth);
        lemma_dec_enc_item(s[0].1, b, p + enc_item(s[0].0).len(), depth);
        lemma_dec_enc_pairs(rest, b, p + enc_item(s[0].0).len() + enc_item(s[0].1).len(), depth);
        assert(seq![(s[0].0, s[0].1)] + rest =~= s);
    }
}

/// Decoding what the encoder writes gives the stack back: for every stack of at most
/// `MAX_RETAINED_COLLECTION_LEN` retainable values, `dec_prefix(enc_prefix(s)) == Ok(s)`.
pub proof fn law_retained_prefix_round_trip(s: Seq<Item>)
    requires
        s.len() <= MAX_RETAINED_COLLECTION_LEN,
        retainable_seq(s, 0),
    ensures
        dec_prefix(enc_prefix(s)) == Ok::<Seq<Item>, RetainedError>(s),
{
    let b = enc_prefix(s);
    let h = le_bytes_u32(s.len() as u32);
    assert(b.subrange(0, b.len() as int) =~= b);
    lemma_split(b, 0, h, enc_items(s));
    lemma_u32_round_trip(s.len() as u32, b, 0);
    lemma_dec_enc_items(s, b, 4, 0);
}

/// Bytes after an encoded stack are refused: for every stack of at most
/// `MAX_RETAINED_COLLECTION_LEN` retainable values and every non-empty `extra`,
/// `dec_prefix(enc_prefix(s) + extra)` is the trailing-bytes error.
pub proof fn law_retained_prefix_refuses_trailing_bytes(s: Seq<Item>, extra: Seq<u8>)
    requires
        s.len() <= MAX_RETAINED_COLLECTION_LEN,
        retainable_seq(s, 0),
        extra.len() > 0,
    ensures
        dec_prefix(enc_prefix(s) + extra) == Err::<Seq<Item>, RetainedError>(RetainedError::TrailingBytes),
{
    let e = enc_prefix(s);
    let b = e + extra;
    let h = le_bytes_u32(s.len() as u32);
    assert(b.subrange(0, e.len() as int) =~= e);
    lemma_split(b, 0, h, enc_items(s));
    lemma_u32_round_trip(s.len() as u32, b, 0);
    lemma_dec_enc_items(s, b, 4, 0);
}

/// Whether `v`, read at nesting level `depth`, nests no deeper than the decoder accepts.
pub open spec fn nesting_within(v: Item, depth: int) -> bool
    decreases v, 0nat,
{
    &&& depth <= MAX_RETAINED_DECODE_DEPTH
    &&& match v {
        Item::Array(_, items) | Item::Struct(_, items) => nesting_within_seq(items, depth + 1),
        Item::Dictionary(_, entries) => nesting_within_pairs(entries, depth + 1),
        _ => true,
    }
}

/// Every value of `s` nests no deeper than the decoder accepts from level `depth`.
pub open spec fn nesting_within_seq(s: Seq<Item>, depth: int) -> bool
    decreases s, 1nat,
{
    s.len() == 0 || (nesting_within(s[0], depth) && nesting_within_seq(s.subrange(1, s.len() as int), depth))
}

/// Every key and value of `s` nests no deeper than the decoder accepts from level `depth`.
pub open spec fn nesting_within_pairs(s: Seq<(Item, Item)>, depth: int) -> bool
    decreases s, 1nat,
{
    s.len() == 0 || (nesting_within(s[0].0, depth) && nesting_within(s[0].1, depth)
        && nesting_within_pairs(s.subrange(1, s.len() as int), depth))
}

proof fn lemma_encodable_is_retainable(v: Item, room: int, depth: int)
    requires
        enc_error(v, room) is None,
        nesting_within(v, depth),
    ensures
        retainable(v, depth),
    decreases v, 0nat,
{
    match v {
        Item::Array(_, items) | Item::Struct(_, items) => lemma_encodable_seq_is_retainable(items, room - 13, depth + 1),
        Item::Dictionary(_, entries) => lemma_encodable_pairs_is_retainable(entries, room - 13, depth + 1),
        _ => {},
    }
}

proof fn lemma_encodable_seq_is_retainable(s: Seq<Item>, room: int, depth: int)
    requires
        items_error(s, room) is None,
        nesting_within_seq(s, depth),
    ensures
        retainable_seq(s, depth),
    decreases s, 1nat,
{
    if s.len() > 0 {
        lemma_encodable_is_retainable(s[0], room, depth);
        lemma_encodable_seq_is_retainable(s.subrange(1, s.len() as int), room - enc_item(s[0]).len(), depth);
    }
}

proof fn lemma_encodable_pairs_is_retainable(s: Seq<(Item, Item)>, room: int, depth: int)
    requires
        pairs_error(s, room) is None,
        nesting_within_pairs(s, depth),
    ensures
        retainable_pairs(s, depth),
    decreases s, 1nat,
{
    if s.len() > 0 {
        lemma_encodable_is_retainable(s[0].0, room, depth);
        lemma_encodable_is_retainable(s[0].1, room - enc_item(s[0].0).len(), depth);
        lemma_encodable_pairs_is_retainable(s.subrange(1, s.len() as int),
            room - enc_item(s[0].0).len() - enc_item(s[0].1).len(), depth);
    }
}

/// What the encoder wrote, the decoder reads back, and nothing more: for every stack `s`
/// that `encode_retained_prefix_to_slice` encodes into a buffer of `cap` bytes (so that
/// `enc_prefix_error(s, cap)` is `None`) and that nests no deeper than the decoder accepts,
/// `dec_prefix(enc_prefix(s)) == Ok(s)`, and any non-empty `extra` after it is refused as
/// trailing bytes.
pub proof fn law_encoded_stack_decodes(s: Seq<Item>, cap: int, extra: Seq<u8>)
    requires
        enc_prefix_error(s, cap) is None,
        nesting_within_seq(s, 0),
    ensures
        dec_prefix(enc_prefix(s)) == Ok::<Seq<Item>, RetainedError>(s),
        extra.len() > 0 ==> dec_prefix(enc_prefix(s) + extra) == Err::<Seq<Item>, RetainedError>(RetainedError::TrailingBytes),
{
    lemma_encodable_seq_is_retainable(s, cap - 4, 0);
    law_retained_prefix_round_trip(s);
    if extra.len() > 0 {
        law_retained_prefix_refuses_trailing_bytes(s, extra);
    }
}

} // verus!
