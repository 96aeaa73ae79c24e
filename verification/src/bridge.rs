use vstd::prelude::*;
use crate::retained::{le_u32_at, le_bytes_u32};
use crate::storage::{BuiltinStorage, bytes_to_vec, bytes_opt};
use crate::interop::{STORAGE_GET_CONTEXT, STORAGE_GET_READ_ONLY_CONTEXT, STORAGE_AS_READ_ONLY, STORAGE_GET, STORAGE_LOCAL_GET,
    STORAGE_PUT, STORAGE_LOCAL_PUT, STORAGE_DELETE, STORAGE_LOCAL_DELETE, STORAGE_FIND, STORAGE_LOCAL_FIND};

verus! {

broadcast use vstd::std_specs::vec::group_vec_axioms;

// ---------------------------------------------------------------------------
// Reading a stack encoded for a syscall
//
// The encoding: a four-byte little-endian count, then that many items. An item is a tag
// byte and a payload: eight bytes for integers, pointers, interop handles and iterators
// (tags 0x01, 0x0B, 0x08, 0x09); a four-byte length and that many bytes for byte strings,
// big integers and buffers (0x03, 0x02, 0x0C); one byte for a boolean (0x04); nothing for
// null (0x0A); a four-byte count and that many items for arrays and structs (0x05, 0x06);
// a four-byte count and that many key/value item pairs for maps (0x07).

/// Tags whose payload is eight bytes.
pub open spec fn is_fixed8_tag(t: u8) -> bool {
    t == 0x01 || t == 0x0B || t == 0x08 || t == 0x09
}

/// Tags whose payload is a length-prefixed byte string.
pub open spec fn is_bytes_tag(t: u8) -> bool {
    t == 0x03 || t == 0x02 || t == 0x0C
}

/// The bytes of `b` from `off` on, or none when `off` is outside `b`.
pub open spec fn room(b: Seq<u8>, off: int) -> nat {
    if 0 <= off && off < b.len() { (b.len() - off) as nat } else { 0 }
}

/// The position just past the item that starts at `off`, or `None` when `b` holds no whole
/// item there. A fixed-size payload is not checked against the end of `b`.
pub open spec fn skip_item(b: Seq<u8>, off: int) -> Option<int>
    decreases room(b, off), 0nat,
{
    if off < 0 || off >= b.len() {
        None
    } else {
        let t = b[off];
        let p = off + 1;
        if is_fixed8_tag(t) {
            Some(p + 8)
        } else if is_bytes_tag(t) {
            if b.len() - p < 4 {
                None
            } else if p + 4 + le_u32_at(b, p) > b.len() {
                None
            } else {
                Some(p + 4 + le_u32_at(b, p))
            }
        } else if t == 0x04 {
            Some(p + 1)
        } else if t == 0x0A {
            Some(p)
        } else if t == 0x05 || t == 0x06 || t == 0x07 {
            if b.len() - p < 4 {
                None
            } else {
                skip_items(b, p + 4, if t == 0x07 { (2 * le_u32_at(b, p)) as nat } else { le_u32_at(b, p) as nat })
            }
        } else {
            None
        }
    }
}

/// The position just past `n` items that follow one another from `off`.
pub open spec fn skip_items(b: Seq<u8>, off: int, n: nat) -> Option<int>
    decreases room(b, off), 1nat, n,
{
    if n == 0 {
        Some(off)
    } else if off < 0 || off >= b.len() {
        None
    } else {
        match skip_item(b, off) {
            None => None,
            Some(o) => if o <= off { None } else { skip_items(b, o, (n - 1) as nat) },
        }
    }
}

/// The byte strings among the `n` top-level items from `off`, in order, or `None` when the
/// items are not whole.
pub open spec fn top_strings(b: Seq<u8>, off: int, n: nat) -> Option<Seq<Seq<u8>>>
    decreases n,
{
    if n == 0 {
        Some(Seq::empty())
    } else {
        match skip_item(b, off) {
            None => None,
            Some(o) => match top_strings(b, o, (n - 1) as nat) {
                None => None,
                Some(rest) => Some(if is_bytes_tag(b[off]) { seq![b.subrange(off + 5, o)] + rest } else { rest }),
            },
        }
    }
}

/// The top-level byte strings of an encoded stack, in order.
pub open spec fn stack_strings(b: Seq<u8>) -> Option<Seq<Seq<u8>>> {
    if b.len() < 4 { None } else { top_strings(b, 4, le_u32_at(b, 0) as nat) }
}

/// The last top-level byte string of an encoded stack.
pub open spec fn last_string(b: Seq<u8>) -> Option<Seq<u8>> {
    match stack_strings(b) {
        Some(s) => if s.len() > 0 { Some(s.last()) } else { None },
        None => None,
    }
}

/// The last two top-level byte strings of an encoded stack, in order.
pub open spec fn last_two_strings(b: Seq<u8>) -> Option<(Seq<u8>, Seq<u8>)> {
    match stack_strings(b) {
        Some(s) => if s.len() >= 2 { Some((s[s.len() - 2], s[s.len() - 1])) } else { None },
        None => None,
    }
}

/// The byte at `offset` and the position after it.
pub fn read_u8(raw: &[u8], offset: usize) -> (r: Option<(u8, usize)>)
    ensures
        match r {
            Some((t, next)) => offset < raw@.len() && t == raw@[offset as int] && next == offset + 1,
            None => offset >= raw@.len(),
        },
{
    if offset < raw.len() {
        Some((raw[offset], offset + 1))
    } else {
        None
    }
}

/// The little-endian `u32` at `offset`.
pub fn read_u32(raw: &[u8], offset: usize) -> (r: Option<u32>)
    ensures
        match r {
            Some(v) => raw@.len() >= 4 && offset <= raw@.len() - 4 && v == le_u32_at(raw@, offset as int),
            None => raw@.len() < 4 || offset > raw@.len() - 4,
        },
{
    if raw.len() < 4 || offset > raw.len() - 4 {
        None
    } else {
        Some((raw[offset] as u32) | ((raw[offset + 1] as u32) << 8u32) | ((raw[offset + 2] as u32) << 16u32)
            | ((raw[offset + 3] as u32) << 24u32))
    }
}

/// Moves past the item at `offset`.
pub fn skip_value(raw: &[u8], offset: usize) -> (r: Option<usize>)
    requires
        raw@.len() <= isize::MAX,
    ensures
        match r {
            Some(n) => skip_item(raw@, offset as int) == Some(n as int) && n > offset,
            None => skip_item(raw@, offset as int) is None,
        },
    decreases room(raw@, offset as int), 0nat,
{
    let (tag, next) = match read_u8(raw, offset) {
        Some(v) => v,
        None => return None,
    };
    if tag == 0x01 || tag == 0x0B || tag == 0x08 || tag == 0x09 {
        Some(next + 8)
    } else if tag == 0x03 || tag == 0x02 || tag == 0x0C {
        let len = match read_u32(raw, next) {
            Some(v) => v as usize,
            None => return None,
        };
        let start = next + 4;
        let end = match start.checked_add(len) {
            Some(v) => v,
            None => return None,
        };
        if end <= raw.len() {
            Some(end)
        } else {
            None
        }
    } else if tag == 0x04 {
        Some(next + 1)
    } else if tag == 0x0A {
        Some(next)
    } else if tag == 0x05 || tag == 0x06 || tag == 0x07 {
        let len = match read_u32(raw, next) {
            Some(v) => v,
            None => return None,
        };
        skip_many(raw, next + 4, len, tag == 0x07)
    } else {
        None
    }
}

/// Moves past `count` items from `offset`, or `count` key/value pairs when `pairs` holds.
fn skip_many(raw: &[u8], offset: usize, count: u32, pairs: bool) -> (r: Option<usize>)
    requires
        raw@.len() <= isize::MAX,
        1 <= offset <= raw@.len(),
    ensures
        ({
            let n: nat = if pairs { (2 * count) as nat } else { count as nat };
            match r {
                Some(e) => skip_items(raw@, offset as int, n) == Some(e as int) && e >= offset,
                None => skip_items(raw@, offset as int, n) is None,
            }
        }),
    decreases room(raw@, offset as int), 1nat,
{
    let ghost total: nat = if pairs { (2 * count) as nat } else { count as nat };
    let ghost start = offset as int;
    let mut next = offset;
    let mut i: u32 = 0;
    while i < count
        invariant
            raw@.len() <= isize::MAX,
            1 <= start <= next,
            start == offset,
            i <= count,
            total == (if pairs { (2 * count) as nat } else { count as nat }),
            skip_items(raw@, start, total) == skip_items(raw@, next as int,
                if pairs { (2 * (count - i)) as nat } else { (count - i) as nat }),
            i > 0 ==> next > start,
        decreases count - i,
    {
        if next >= raw.len() {
            return None;
        }
        let ghost before = next as int;
        let n1 = match skip_value(raw, next) {
            Some(v) => v,
            None => return None,
        };
        if pairs {
            if n1 >= raw.len() {
                let ghost left: nat = (2 * (count - i) - 1) as nat;
                assert(skip_items(raw@, n1 as int, left) is None);
                return None;
            }
            let n2 = match skip_value(raw, n1) {
                Some(v) => v,
                None => return None,
            };
            proof {
                let left: nat = (2 * (count - i)) as nat;
                assert(skip_items(raw@, before, left) == skip_items(raw@, n1 as int, (left - 1) as nat));
                assert(skip_items(raw@, n1 as int, (left - 1) as nat) == skip_items(raw@, n2 as int, (left - 2) as nat));
            }
            next = n2;
        } else {
            next = n1;
        }
        i += 1;
    }
    Some(next)
}

/// The last top-level byte string of an encoded stack, if it holds one.
pub fn extract_last_bytestring(raw_stack: &[u8]) -> (r: Option<&[u8]>)
    requires
        raw_stack@.len() <= isize::MAX,
    ensures
        bytes_opt(r) == last_string(raw_stack@),
{
    let count = match read_u32(raw_stack, 0) {
        Some(v) => v,
        None => return None,
    };
    let mut offset: usize = 4;
    let mut last: Option<&[u8]> = None;
    let ghost mut seen: Seq<Seq<u8>> = Seq::empty();
    let mut i: u32 = 0;
    while i < count
        invariant
            raw_stack@.len() <= isize::MAX,
            raw_stack@.len() >= 4,
            count == le_u32_at(raw_stack@, 0),
            i <= count,
            stack_strings(raw_stack@) == match top_strings(raw_stack@, offset as int, (count - i) as nat) {
                Some(rest) => Some(seen + rest),
                None => None,
            },
            bytes_opt(last) == (if seen.len() > 0 { Some(seen.last()) } else { None::<Seq<u8>> }),
        decreases count - i,
    {
        let ghost off = offset as int;
        let (tag, next) = match read_u8(raw_stack, offset) {
            Some(v) => v,
            None => return None,
        };
        let end = match skip_value(raw_stack, offset) {
            Some(v) => v,
            None => return None,
        };
        if tag == 0x03 || tag == 0x02 || tag == 0x0C {
            last = Some(vstd::slice::slice_subrange(raw_stack, next + 4, end));
            proof {
                let item = raw_stack@.subrange(off + 5, end as int);
                match top_strings(raw_stack@, end as int, (count - i - 1) as nat) {
                    Some(rest) => {
                        assert(seen + (seq![item] + rest) =~= seen.push(item) + rest);
                    },
                    None => {},
                }
                seen = seen.push(item);
            }
        }
        offset = end;
        i += 1;
    }
    proof {
        assert(seen + Seq::<Seq<u8>>::empty() =~= seen);
    }
    last
}

/// The last two top-level byte strings of an encoded stack, in order, if it holds two.
pub fn extract_last_two_bytestrings(raw_stack: &[u8]) -> (r: Option<(Vec<u8>, Vec<u8>)>)
    requires
        raw_stack@.len() <= isize::MAX,
    ensures
        match r {
            Some((a, b)) => last_two_strings(raw_stack@) == Some((a@, b@)),
            None => last_two_strings(raw_stack@) is None,
        },
{
    let count = match read_u32(raw_stack, 0) {
        Some(v) => v,
        None => return None,
    };
    let mut offset: usize = 4;
    let mut previous: Option<Vec<u8>> = None;
    let mut latest: Option<Vec<u8>> = None;
    let ghost mut seen: Seq<Seq<u8>> = Seq::empty();
    let mut i: u32 = 0;
    while i < count
        invariant
            raw_stack@.len() <= isize::MAX,
            raw_stack@.len() >= 4,
            count == le_u32_at(raw_stack@, 0),
            i <= count,
            stack_strings(raw_stack@) == match top_strings(raw_stack@, offset as int, (count - i) as nat) {
                Some(rest) => Some(seen + rest),
                None => None,
            },
            latest is Some <==> seen.len() >= 1,
            previous is Some <==> seen.len() >= 2,
            latest matches Some(v) ==> v@ == seen[seen.len() - 1],
            previous matches Some(v) ==> v@ == seen[seen.len() - 2],
        decreases count - i,
    {
        let ghost off = offset as int;
        let (tag, next) = match read_u8(raw_stack, offset) {
            Some(v) => v,
            None => return None,
        };
        let end = match skip_value(raw_stack, offset) {
            Some(v) => v,
            None => return None,
        };
        if tag == 0x03 || tag == 0x02 || tag == 0x0C {
            let item = bytes_to_vec(vstd::slice::slice_subrange(raw_stack, next + 4, end));
            proof {
                let it = raw_stack@.subrange(off + 5, end as int);
                match top_strings(raw_stack@, end as int, (count - i - 1) as nat) {
                    Some(rest) => {
                        assert(seen + (seq![it] + rest) =~= seen.push(it) + rest);
                    },
                    None => {},
                }
                seen = seen.push(it);
            }
            previous = latest;
            latest = Some(item);
        }
        offset = end;
        i += 1;
    }
    proof {
        assert(seen + Seq::<Seq<u8>>::empty() =~= seen);
    }
    match (previous, latest) {
        (Some(a), Some(b)) => Some((a, b)),
        _ => None,
    }
}


// ---------------------------------------------------------------------------
// The storage syscalls served from the built-in storage cache

/// The answer of a storage syscall served by the built-in cache.
#[derive(Debug, PartialEq)]
pub enum BuiltinResponse {
    /// The call left nothing on the stack.
    OkEmpty,
    /// The call left `Null` on the stack.
    OkNull,
    /// The call left the integer 1 on the stack (a storage context handle).
    OkInt1,
    /// The call left this byte string on the stack.
    OkByteString(Vec<u8>),
}

/// The mathematical value of a storage answer.
pub enum ResponseView {
    OkEmpty,
    OkNull,
    OkInt1,
    OkByteString(Seq<u8>),
}

impl View for BuiltinResponse {
    type V = ResponseView;

    open spec fn view(&self) -> ResponseView {
        match self {
            BuiltinResponse::OkEmpty => ResponseView::OkEmpty,
            BuiltinResponse::OkNull => ResponseView::OkNull,
            BuiltinResponse::OkInt1 => ResponseView::OkInt1,
            BuiltinResponse::OkByteString(b) => ResponseView::OkByteString(b@),
        }
    }
}

/// The encoded form of the answers that do not depend on the call.
pub open spec fn fixed_encoding(r: ResponseView) -> Option<Seq<u8>> {
    match r {
        ResponseView::OkEmpty => Some(seq![2u8]),
        ResponseView::OkNull => Some(seq![5u8]),
        ResponseView::OkInt1 => Some(seq![3u8, 1u8, 0u8, 0u8, 0u8, 0u8, 0u8, 0u8, 0u8]),
        ResponseView::OkByteString(_) => None,
    }
}

impl BuiltinResponse {
    /// The bytes handed back to the guest for an answer that does not depend on the call;
    /// `None` for a byte string, which the callback codec encodes.
    pub fn fixed_bytes(&self) -> (r: Option<Vec<u8>>)
        ensures
            match r {
                Some(b) => fixed_encoding(self@) == Some(b@),
                None => fixed_encoding(self@) is None,
            },
    {
        match self {
            BuiltinResponse::OkEmpty => Some(vec![2u8]),
            BuiltinResponse::OkNull => Some(vec![5u8]),
            BuiltinResponse::OkInt1 => Some(vec![3u8, 1u8, 0u8, 0u8, 0u8, 0u8, 0u8, 0u8, 0u8]),
            BuiltinResponse::OkByteString(_) => None,
        }
    }
}

/// The services that hand out a storage context.
pub open spec fn is_context_api(api: u32) -> bool {
    api == STORAGE_GET_CONTEXT || api == STORAGE_GET_READ_ONLY_CONTEXT || api == STORAGE_AS_READ_ONLY
}

/// The services that read a value.
pub open spec fn is_get_api(api: u32) -> bool {
    api == STORAGE_GET || api == STORAGE_LOCAL_GET
}

/// The services that write a value.
pub open spec fn is_put_api(api: u32) -> bool {
    api == STORAGE_PUT || api == STORAGE_LOCAL_PUT
}

/// The services that delete a value.
pub open spec fn is_delete_api(api: u32) -> bool {
    api == STORAGE_DELETE || api == STORAGE_LOCAL_DELETE
}

/// The services that search storage.
pub open spec fn is_find_api(api: u32) -> bool {
    api == STORAGE_FIND || api == STORAGE_LOCAL_FIND
}

/// Serves a storage syscall from the built-in cache, the key taken as the last top-level byte
/// string of the encoded stack and, for a write, the value as the byte string after the key.
/// Answers `None` for a call that is not a storage syscall, or whose stack lacks the byte
/// strings it needs; the cache is then unchanged. A search always finds nothing.
pub fn try_handle_builtin_storage_syscall(api: u32, raw_stack: &[u8], storage: &mut BuiltinStorage) -> (r: Option<BuiltinResponse>)
    requires
        raw_stack@.len() <= isize::MAX,
        old(storage).wf(),
    ensures
        final(storage).wf(),
        is_context_api(api) ==> r == Some(BuiltinResponse::OkInt1) && *final(storage) == *old(storage),
        is_get_api(api) ==> match last_string(raw_stack@) {
            None => r is None && *final(storage) == *old(storage),
            Some(k) => {
                &&& r matches Some(resp) && resp@ == match old(storage).read(k) {
                    Some(v) => ResponseView::OkByteString(v),
                    None => ResponseView::OkNull,
                }
                &&& final(storage)@ == old(storage)@
                &&& final(storage).hot_view() == old(storage).promoted_hot(k)
            },
        },
        is_put_api(api) ==> match last_two_strings(raw_stack@) {
            None => r is None && *final(storage) == *old(storage),
            Some((k, v)) => {
                &&& r == Some(BuiltinResponse::OkEmpty)
                &&& final(storage)@ == old(storage)@.insert(k, v)
                &&& final(storage).hot_view() == old(storage).refreshed_hot(k, v)
            },
        },
        is_delete_api(api) ==> {
            &&& r == Some(BuiltinResponse::OkEmpty)
            &&& match last_string(raw_stack@) {
                None => *final(storage) == *old(storage),
                Some(k) => {
                    &&& final(storage)@ == old(storage)@.remove(k)
                    &&& final(storage).hot_view() == (if old(storage).hot_view() is Some
                        && old(storage).hot_view().unwrap().0 == k {
                        None
                    } else {
                        old(storage).hot_view()
                    })
                },
            }
        },
        is_find_api(api) ==> r == Some(BuiltinResponse::OkNull) && *final(storage) == *old(storage),
        !is_context_api(api) && !is_get_api(api) && !is_put_api(api) && !is_delete_api(api) && !is_find_api(api)
            ==> r is None && *final(storage) == *old(storage),
{
    if api == STORAGE_GET_CONTEXT || api == STORAGE_GET_READ_ONLY_CONTEXT || api == STORAGE_AS_READ_ONLY {
        return Some(BuiltinResponse::OkInt1);
    }
    if api == STORAGE_GET || api == STORAGE_LOCAL_GET {
        let key = match extract_last_bytestring(raw_stack) {
            Some(k) => k,
            None => return None,
        };
        return Some(
            match storage.get_promoting(key) {
                Some(value) => BuiltinResponse::OkByteString(bytes_to_vec(value)),
                None => BuiltinResponse::OkNull,
            },
        );
    }
    if api == STORAGE_PUT || api == STORAGE_LOCAL_PUT {
        let (key, value) = match extract_last_two_bytestrings(raw_stack) {
            Some(kv) => kv,
            None => return None,
        };
        storage.insert(key.as_slice(), value.as_slice());
        return Some(BuiltinResponse::OkEmpty);
    }
    if api == STORAGE_DELETE || api == STORAGE_LOCAL_DELETE {
        match extract_last_bytestring(raw_stack) {
            Some(key) => storage.remove(key),
            None => {},
        }
        return Some(BuiltinResponse::OkEmpty);
    }
    if api == STORAGE_FIND || api == STORAGE_LOCAL_FIND {
        return Some(BuiltinResponse::OkNull);
    }
    None
}


// ---------------------------------------------------------------------------
// The storage imports that a guest calls directly

/// The first `len` bytes of the little-endian encoding of `word`.
pub open spec fn word_prefix(word: u32, len: int) -> Seq<u8> {
    le_bytes_u32(word).subrange(0, len)
}

fn word_bytes(word: u32, len: u32) -> (r: Vec<u8>)
    requires
        len <= 4,
    ensures
        r@ == word_prefix(word, len as int),
{
    let all: Vec<u8> = vec![(word & 0xff) as u8, ((word >> 8u32) & 0xff) as u8, ((word >> 16u32) & 0xff) as u8,
        ((word >> 24u32) & 0xff) as u8];
    let mut out: Vec<u8> = Vec::new();
    let mut i: usize = 0;
    while i < len as usize
        invariant
            len <= 4,
            all@ == le_bytes_u32(word),
            i <= len,
            out@ == le_bytes_u32(word).subrange(0, i as int),
        decreases len - i,
    {
        out.push(all[i]);
        i += 1;
        assert(out@ =~= le_bytes_u32(word).subrange(0, i as int));
    }
    assert(all@ =~= le_bytes_u32(word));
    out
}

/// The code a storage read answers with when nothing is found.
pub const STORAGE_MISSING: u32 = 0xffff_ffff;
/// The code a storage read answers with when the value does not fit the guest's buffer.
pub const STORAGE_TOO_LARGE: u32 = 0xffff_fffe;

/// Reads `key` for a guest whose buffer holds `value_cap` bytes: answers the value's length
/// and the bytes to copy out, `STORAGE_TOO_LARGE` when it does not fit, `STORAGE_MISSING`
/// when the key is absent. The read promotes as `get_promoting` does.
pub fn host_storage_get(storage: &mut BuiltinStorage, key: &[u8], value_cap: u32) -> (r: (u32, Option<Vec<u8>>))
    requires
        old(storage).wf(),
    ensures
        final(storage).wf(),
        final(storage)@ == old(storage)@,
        final(storage).hot_view() == old(storage).promoted_hot(key@),
        match old(storage).read(key@) {
            None => r.0 == STORAGE_MISSING && r.1 is None,
            Some(v) => if v.len() > value_cap {
                r.0 == STORAGE_TOO_LARGE && r.1 is None
            } else {
                r.0 == v.len() && (r.1 matches Some(out) && out@ == v)
            },
        },
{
    match storage.get_promoting(key) {
        None => (STORAGE_MISSING, None),
        Some(value) => {
            if value.len() > value_cap as usize {
                (STORAGE_TOO_LARGE, None)
            } else {
                (value.len() as u32, Some(bytes_to_vec(value)))
            }
        },
    }
}

/// Answers 1 when `key` is held and 0 otherwise; the lookup promotes as `get_promoting` does.
pub fn host_storage_contains(storage: &mut BuiltinStorage, key: &[u8]) -> (r: u32)
    requires
        old(storage).wf(),
    ensures
        final(storage).wf(),
        final(storage)@ == old(storage)@,
        final(storage).hot_view() == old(storage).promoted_hot(key@),
        r == (if old(storage).read(key@) is Some { 1u32 } else { 0u32 }),
{
    match storage.get_promoting(key) {
        Some(_) => 1,
        None => 0,
    }
}

/// Like `host_storage_contains` for a key of at most four bytes passed in a word; a longer
/// key answers 0 and leaves the cache as it was.
pub fn host_storage_contains_small32(storage: &mut BuiltinStorage, key_word: u32, key_len: u32) -> (r: u32)
    requires
        old(storage).wf(),
    ensures
        final(storage).wf(),
        key_len > 4 ==> r == 0 && *final(storage) == *old(storage),
        key_len <= 4 ==> {
            let k = word_prefix(key_word, key_len as int);
            &&& final(storage)@ == old(storage)@
            &&& final(storage).hot_view() == old(storage).promoted_hot(k)
            &&& r == (if old(storage).read(k) is Some { 1u32 } else { 0u32 })
        },
{
    if key_len > 4 {
        return 0;
    }
    let key = word_bytes(key_word, key_len);
    host_storage_contains(storage, key.as_slice())
}

/// Writes `value` under `key` and answers 1.
pub fn host_storage_put(storage: &mut BuiltinStorage, key: &[u8], value: &[u8]) -> (r: u32)
    requires
        old(storage).wf(),
    ensures
        final(storage).wf(),
        final(storage)@ == old(storage)@.insert(key@, value@),
        final(storage).hot_view() == old(storage).refreshed_hot(key@, value@),
        r == 1,
{
    storage.insert(key, value);
    1
}

/// Writes a key and a value of at most four bytes each, passed in words, into the small tier;
/// answers 1 when a small or inline slot had room for them (`has_room`). A longer key or
/// value answers 0 and leaves the cache as it was.
pub fn host_storage_put_and_contains_small32(storage: &mut BuiltinStorage, key_word: u32, key_len: u32, value_word: u32, value_len: u32) -> (r: u32)
    requires
        old(storage).wf(),
    ensures
        final(storage).wf(),
        (key_len > 4 || value_len > 4) ==> r == 0 && *final(storage) == *old(storage),
        (key_len <= 4 && value_len <= 4) ==> {
            let k = word_prefix(key_word, key_len as int);
            let v = word_prefix(value_word, value_len as int);
            &&& final(storage).hot_view() == old(storage).refreshed_hot(k, v)
            &&& (r == 1 <==> old(storage).has_room(k, v))
            &&& r == 1 ==> final(storage)@ == old(storage)@.insert(k, v)
            &&& r == 0 ==> final(storage)@ == (if old(storage).in_heap(k) { old(storage)@ } else { old(storage)@.remove(k) })
            &&& r <= 1
        },
{
    if key_len > 4 || value_len > 4 {
        return 0;
    }
    let key = word_bytes(key_word, key_len);
    let value = word_bytes(value_word, value_len);
    if storage.put_small_inline(key.as_slice(), value.as_slice()) {
        1
    } else {
        0
    }
}

} // verus!
