use vstd::prelude::*;
use vstd::pervasive::VecAdditionalExecFns;
use crate::abi::{AbiStackValue, AbiItem, HostCallbackResult, ExecutionResult, VmState, abi_model_seq, abi_model_pairs, lemma_abi_model_seq_index,
    lemma_abi_model_pairs_index, lemma_abi_model_seq_push, lemma_abi_model_pairs_push};
use crate::text::{text, push_decimal, decimal, push_hex8, hex8};

verus! {

broadcast use vstd::std_specs::vec::group_vec_axioms;

// ---------------------------------------------------------------------------
// Stack items as the .NET adapter exchanges them
//
// An item is a kind, an integer payload, a byte payload and child items. Across the C
// boundary the bytes and the children share one pointer and one length; here they are held
// apart.

/// Kind of an integer (payload: `integer_value`).
pub const NATIVE_KIND_INTEGER: u32 = 0;
/// Kind of a byte string (payload: the bytes).
pub const NATIVE_KIND_BYTE_STRING: u32 = 1;
/// Kind of null.
pub const NATIVE_KIND_NULL: u32 = 2;
/// Kind of a boolean (payload: `integer_value`, 0 or 1).
pub const NATIVE_KIND_BOOLEAN: u32 = 3;
/// Kind of an array (payload: the children).
pub const NATIVE_KIND_ARRAY: u32 = 4;
/// Kind of a big integer (payload: the bytes).
pub const NATIVE_KIND_BIG_INTEGER: u32 = 5;
/// Kind of an iterator handle (payload: `integer_value`).
pub const NATIVE_KIND_ITERATOR: u32 = 6;
/// Kind of a struct (payload: the children).
pub const NATIVE_KIND_STRUCT: u32 = 7;
/// Kind of a map (payload: keys and values, alternating).
pub const NATIVE_KIND_MAP: u32 = 8;
/// Kind of an interop handle (payload: `integer_value`).
pub const NATIVE_KIND_INTEROP: u32 = 9;
/// Kind of a pointer (payload: `integer_value`).
pub const NATIVE_KIND_POINTER: u32 = 10;

/// A stack item as the .NET adapter exchanges it.
#[derive(Debug)]
pub struct NativeStackItem {
    /// Which payload is valid (the `NATIVE_KIND_*` constants).
    pub kind: u32,
    /// Integer, boolean, handle or pointer payload.
    pub integer_value: i64,
    /// Byte payload of a byte string or big integer.
    pub bytes: Vec<u8>,
    /// Children of an array or struct; keys and values of a map, alternating.
    pub items: Vec<NativeStackItem>,
}

/// The mathematical value of an exchanged item.
pub struct NItem {
    pub kind: u32,
    pub integer_value: i64,
    pub bytes: Seq<u8>,
    pub items: Seq<NItem>,
}

impl NativeStackItem {
    /// The item with its bytes and children as sequences.
    pub open spec fn model(self) -> NItem
        decreases self, 0nat,
    {
        NItem {
            kind: self.kind,
            integer_value: self.integer_value,
            bytes: self.bytes@,
            items: native_model_seq(self.items@),
        }
    }
}

/// The models of a sequence of exchanged items.
pub open spec fn native_model_seq(s: Seq<NativeStackItem>) -> Seq<NItem>
    decreases s, 1nat,
{
    if s.len() == 0 {
        Seq::empty()
    } else {
        native_model_seq(s.subrange(0, s.len() - 1)).push(s[s.len() - 1].model())
    }
}

proof fn lemma_native_model_seq_push(s: Seq<NativeStackItem>, x: NativeStackItem)
    ensures
        native_model_seq(s.push(x)) == native_model_seq(s).push(x.model()),
{
    assert(s.push(x).subrange(0, s.len() as int) =~= s);
}

proof fn lemma_native_model_seq_index(s: Seq<NativeStackItem>)
    ensures
        native_model_seq(s).len() == s.len(),
        forall|i: int| 0 <= i < s.len() ==> #[trigger] native_model_seq(s)[i] == s[i].model(),
    decreases s.len(),
{
    if s.len() > 0 {
        lemma_native_model_seq_index(s.subrange(0, s.len() - 1));
    }
}

/// An item with no payload but the integer.
pub open spec fn scalar(kind: u32, v: i64) -> NItem {
    NItem { kind, integer_value: v, bytes: Seq::empty(), items: Seq::empty() }
}

/// How an item is handed to the adapter.
pub open spec fn ser(a: AbiItem) -> NItem
    decreases a, 0nat,
{
    match a {
        AbiItem::Integer(v) => scalar(NATIVE_KIND_INTEGER, v),
        AbiItem::BigInteger(b) => NItem { kind: NATIVE_KIND_BIG_INTEGER, integer_value: 0, bytes: b, items: Seq::empty() },
        AbiItem::Iterator(h) => scalar(NATIVE_KIND_ITERATOR, h as i64),
        AbiItem::Interop(h) => scalar(NATIVE_KIND_INTEROP, h as i64),
        AbiItem::ByteString(b) => NItem { kind: NATIVE_KIND_BYTE_STRING, integer_value: 0, bytes: b, items: Seq::empty() },
        AbiItem::Boolean(b) => scalar(NATIVE_KIND_BOOLEAN, if b { 1 } else { 0 }),
        AbiItem::Array(s) => NItem { kind: NATIVE_KIND_ARRAY, integer_value: 0, bytes: Seq::empty(), items: ser_seq(s) },
        AbiItem::Struct(s) => NItem { kind: NATIVE_KIND_STRUCT, integer_value: 0, bytes: Seq::empty(), items: ser_seq(s) },
        AbiItem::Dictionary(e) => NItem { kind: NATIVE_KIND_MAP, integer_value: 0, bytes: Seq::empty(), items: ser_pairs(e) },
        AbiItem::Null => scalar(NATIVE_KIND_NULL, 0),
        AbiItem::Pointer(v) => scalar(NATIVE_KIND_POINTER, v),
    }
}

/// How a sequence of items is handed to the adapter.
pub open spec fn ser_seq(s: Seq<AbiItem>) -> Seq<NItem>
    decreases s, 1nat,
{
    if s.len() == 0 {
        Seq::empty()
    } else {
        ser_seq(s.subrange(0, s.len() - 1)).push(ser(s[s.len() - 1]))
    }
}

/// How map entries are handed to the adapter: key, value, key, value, ...
pub open spec fn ser_pairs(s: Seq<(AbiItem, AbiItem)>) -> Seq<NItem>
    decreases s, 1nat,
{
    if s.len() == 0 {
        Seq::empty()
    } else {
        ser_pairs(s.subrange(0, s.len() - 1)).push(ser(s[s.len() - 1].0)).push(ser(s[s.len() - 1].1))
    }
}

/// The words of the error for an unknown kind.
pub open spec fn unknown_kind_text(kind: u32) -> Seq<char> {
    "unsupported native stack item kind "@ + decimal(kind as u64)
}

/// The words of the error for a map with an odd number of keys and values.
pub open spec fn odd_map_text() -> Seq<char> {
    "map stack item contains an odd number of entries"@
}

/// Keys and values taken two by two.
pub open spec fn pair_up(s: Seq<AbiItem>) -> Seq<(AbiItem, AbiItem)>
    decreases s.len(),
{
    if s.len() < 2 {
        Seq::empty()
    } else {
        pair_up(s.subrange(0, s.len() - 2)).push((s[s.len() - 2], s[s.len() - 1]))
    }
}

/// What the adapter's item reads back as.
pub open spec fn copy_of(n: NItem) -> Result<AbiItem, Seq<char>>
    decreases n, 0nat,
{
    if n.kind == NATIVE_KIND_INTEGER {
        Ok(AbiItem::Integer(n.integer_value))
    } else if n.kind == NATIVE_KIND_BIG_INTEGER {
        Ok(AbiItem::BigInteger(n.bytes))
    } else if n.kind == NATIVE_KIND_INTEROP {
        Ok(AbiItem::Interop(n.integer_value as u64))
    } else if n.kind == NATIVE_KIND_ITERATOR {
        Ok(AbiItem::Iterator(n.integer_value as u64))
    } else if n.kind == NATIVE_KIND_BYTE_STRING {
        Ok(AbiItem::ByteString(n.bytes))
    } else if n.kind == NATIVE_KIND_BOOLEAN {
        Ok(AbiItem::Boolean(n.integer_value != 0))
    } else if n.kind == NATIVE_KIND_ARRAY || n.kind == NATIVE_KIND_STRUCT || n.kind == NATIVE_KIND_MAP {
        match copy_seq(n.items) {
            Err(e) => Err(e),
            Ok(xs) => if n.kind == NATIVE_KIND_ARRAY {
                Ok(AbiItem::Array(xs))
            } else if n.kind == NATIVE_KIND_STRUCT {
                Ok(AbiItem::Struct(xs))
            } else if xs.len() % 2 != 0 {
                Err(odd_map_text())
            } else {
                Ok(AbiItem::Dictionary(pair_up(xs)))
            },
        }
    } else if n.kind == NATIVE_KIND_NULL {
        Ok(AbiItem::Null)
    } else if n.kind == NATIVE_KIND_POINTER {
        Ok(AbiItem::Pointer(n.integer_value))
    } else {
        Err(unknown_kind_text(n.kind))
    }
}

/// What a sequence of the adapter's items reads back as; the first failure, in order, wins.
pub open spec fn copy_seq(s: Seq<NItem>) -> Result<Seq<AbiItem>, Seq<char>>
    decreases s, 1nat,
{
    if s.len() == 0 {
        Ok(Seq::empty())
    } else {
        match copy_seq(s.subrange(0, s.len() - 1)) {
            Err(e) => Err(e),
            Ok(xs) => match copy_of(s[s.len() - 1]) {
                Err(e) => Err(e),
                Ok(x) => Ok(xs.push(x)),
            },
        }
    }
}

fn serialize_item(value: &AbiStackValue) -> (r: NativeStackItem)
    ensures
        r.model() == ser(value.model()),
    decreases value, 0nat,
{
    match value {
        AbiStackValue::Integer(v) => NativeStackItem { kind: NATIVE_KIND_INTEGER, integer_value: *v, bytes: Vec::new(), items: Vec::new() },
        AbiStackValue::BigInteger(b) => NativeStackItem { kind: NATIVE_KIND_BIG_INTEGER, integer_value: 0, bytes: b.clone(), items: Vec::new() },
        AbiStackValue::Iterator(h) => NativeStackItem { kind: NATIVE_KIND_ITERATOR, integer_value: *h as i64, bytes: Vec::new(), items: Vec::new() },
        AbiStackValue::Interop(h) => NativeStackItem { kind: NATIVE_KIND_INTEROP, integer_value: *h as i64, bytes: Vec::new(), items: Vec::new() },
        AbiStackValue::ByteString(b) => NativeStackItem { kind: NATIVE_KIND_BYTE_STRING, integer_value: 0, bytes: b.clone(), items: Vec::new() },
        AbiStackValue::Boolean(b) => NativeStackItem { kind: NATIVE_KIND_BOOLEAN, integer_value: if *b { 1 } else { 0 }, bytes: Vec::new(), items: Vec::new() },
        AbiStackValue::Array(items) => NativeStackItem { kind: NATIVE_KIND_ARRAY, integer_value: 0, bytes: Vec::new(), items: serialize_vec(items) },
        AbiStackValue::Struct(items) => NativeStackItem { kind: NATIVE_KIND_STRUCT, integer_value: 0, bytes: Vec::new(), items: serialize_vec(items) },
        AbiStackValue::Dictionary(entries) => NativeStackItem { kind: NATIVE_KIND_MAP, integer_value: 0, bytes: Vec::new(), items: serialize_entries(entries) },
        AbiStackValue::Null => NativeStackItem { kind: NATIVE_KIND_NULL, integer_value: 0, bytes: Vec::new(), items: Vec::new() },
        AbiStackValue::Pointer(v) => NativeStackItem { kind: NATIVE_KIND_POINTER, integer_value: *v, bytes: Vec::new(), items: Vec::new() },
    }
}

fn serialize_vec(items: &Vec<AbiStackValue>) -> (r: Vec<NativeStackItem>)
    ensures
        native_model_seq(r@) == ser_seq(abi_model_seq(items@)),
    decreases items, 1nat,
{
    let mut out: Vec<NativeStackItem> = Vec::with_capacity(items.len());
    let mut i: usize = 0;
    proof {
        assert(native_model_seq(out@) =~= Seq::<NItem>::empty());
        assert(items@.subrange(0, 0) =~= Seq::<AbiStackValue>::empty());
    }
    while i < items.len()
        invariant
            i <= items@.len(),
            native_model_seq(out@) == ser_seq(abi_model_seq(items@.subrange(0, i as int))),
        decreases items.len() - i,
    {
        proof { assert(decreases_to!(items => items@[i as int])); }
        let ghost before = out@;
        let n = serialize_item(&items[i]);
        out.push(n);
        proof {
            lemma_native_model_seq_push(before, n);
            let pre = items@.subrange(0, i + 1);
            assert(pre.subrange(0, i as int) =~= items@.subrange(0, i as int));
            lemma_abi_model_seq_push(items@.subrange(0, i as int), items@[i as int]);
            assert(pre =~= items@.subrange(0, i as int).push(items@[i as int]));
            let m = abi_model_seq(pre);
            assert(m.subrange(0, m.len() - 1) =~= abi_model_seq(items@.subrange(0, i as int)));
        }
        i += 1;
    }
    proof { assert(items@.subrange(0, items@.len() as int) =~= items@); }
    out
}

fn serialize_entries(entries: &Vec<(AbiStackValue, AbiStackValue)>) -> (r: Vec<NativeStackItem>)
    ensures
        native_model_seq(r@) == ser_pairs(abi_model_pairs(entries@)),
    decreases entries, 1nat,
{
    let mut out: Vec<NativeStackItem> = Vec::with_capacity(entries.len());
    let mut i: usize = 0;
    proof {
        assert(native_model_seq(out@) =~= Seq::<NItem>::empty());
        assert(entries@.subrange(0, 0) =~= Seq::<(AbiStackValue, AbiStackValue)>::empty());
    }
    while i < entries.len()
        invariant
            i <= entries@.len(),
            native_model_seq(out@) == ser_pairs(abi_model_pairs(entries@.subrange(0, i as int))),
        decreases entries.len() - i,
    {
        proof {
            assert(decreases_to!(entries => entries@[i as int]));
            assert(decreases_to!(entries@[i as int] => entries@[i as int].0));
            assert(decreases_to!(entries@[i as int] => entries@[i as int].1));
        }
        let ghost before = out@;
        let k = serialize_item(&entries[i].0);
        out.push(k);
        let ghost mid = out@;
        let v = serialize_item(&entries[i].1);
        out.push(v);
        proof {
            lemma_native_model_seq_push(before, k);
            lemma_native_model_seq_push(mid, v);
            let pre = entries@.subrange(0, i + 1);
            assert(pre.subrange(0, i as int) =~= entries@.subrange(0, i as int));
            lemma_abi_model_pairs_push(entries@.subrange(0, i as int), entries@[i as int]);
            assert(pre =~= entries@.subrange(0, i as int).push(entries@[i as int]));
            let m = abi_model_pairs(pre);
            assert(m.subrange(0, m.len() - 1) =~= abi_model_pairs(entries@.subrange(0, i as int)));
        }
        i += 1;
    }
    proof { assert(entries@.subrange(0, entries@.len() as int) =~= entries@); }
    out
}

/// The stack as the adapter receives it: one item per stack item, children nested.
pub fn serialize_stack_items(stack: &[AbiStackValue]) -> (r: Vec<NativeStackItem>)
    ensures
        native_model_seq(r@) == ser_seq(abi_model_seq(stack@)),
{
    let mut out: Vec<NativeStackItem> = Vec::with_capacity(stack.len());
    let mut i: usize = 0;
    proof {
        assert(native_model_seq(out@) =~= Seq::<NItem>::empty());
        assert(stack@.subrange(0, 0) =~= Seq::<AbiStackValue>::empty());
    }
    while i < stack.len()
        invariant
            i <= stack@.len(),
            native_model_seq(out@) == ser_seq(abi_model_seq(stack@.subrange(0, i as int))),
        decreases stack.len() - i,
    {
        let ghost before = out@;
        let n = serialize_item(&stack[i]);
        out.push(n);
        proof {
            lemma_native_model_seq_push(before, n);
            let pre = stack@.subrange(0, i + 1);
            assert(pre.subrange(0, i as int) =~= stack@.subrange(0, i as int));
            lemma_abi_model_seq_push(stack@.subrange(0, i as int), stack@[i as int]);
            assert(pre =~= stack@.subrange(0, i as int).push(stack@[i as int]));
            let m = abi_model_seq(pre);
            assert(m.subrange(0, m.len() - 1) =~= abi_model_seq(stack@.subrange(0, i as int)));
        }
        i += 1;
    }
    proof { assert(stack@.subrange(0, stack@.len() as int) =~= stack@); }
    out
}


proof fn lemma_copy_seq_prefix_err(s: Seq<NItem>, k: int, e: Seq<char>)
    requires
        0 <= k <= s.len(),
        copy_seq(s.subrange(0, k)) == Err::<Seq<AbiItem>, Seq<char>>(e),
    ensures
        copy_seq(s) == Err::<Seq<AbiItem>, Seq<char>>(e),
    decreases s.len() - k,
{
    if k < s.len() {
        let t = s.subrange(0, k + 1);
        assert(t.subrange(0, k) =~= s.subrange(0, k));
        lemma_copy_seq_prefix_err(s, k + 1, e);
    } else {
        assert(s.subrange(0, k) =~= s);
    }
}

fn copy_item(item: &NativeStackItem) -> (r: Result<AbiStackValue, String>)
    ensures
        match r {
            Ok(v) => copy_of(item.model()) == Ok::<AbiItem, Seq<char>>(v.model()),
            Err(m) => copy_of(item.model()) == Err::<AbiItem, Seq<char>>(m@),
        },
    decreases item, 0nat,
{
    let kind = item.kind;
    if kind == NATIVE_KIND_INTEGER {
        Ok(AbiStackValue::Integer(item.integer_value))
    } else if kind == NATIVE_KIND_BIG_INTEGER {
        Ok(AbiStackValue::BigInteger(item.bytes.clone()))
    } else if kind == NATIVE_KIND_INTEROP {
        Ok(AbiStackValue::Interop(item.integer_value as u64))
    } else if kind == NATIVE_KIND_ITERATOR {
        Ok(AbiStackValue::Iterator(item.integer_value as u64))
    } else if kind == NATIVE_KIND_BYTE_STRING {
        Ok(AbiStackValue::ByteString(item.bytes.clone()))
    } else if kind == NATIVE_KIND_BOOLEAN {
        Ok(AbiStackValue::Boolean(item.integer_value != 0))
    } else if kind == NATIVE_KIND_ARRAY || kind == NATIVE_KIND_STRUCT || kind == NATIVE_KIND_MAP {
        let children = match copy_vec(&item.items) {
            Ok(v) => v,
            Err(e) => return Err(e),
        };
        proof { lemma_abi_model_seq_index(children@); }
        if kind == NATIVE_KIND_ARRAY {
            Ok(AbiStackValue::Array(children))
        } else if kind == NATIVE_KIND_STRUCT {
            Ok(AbiStackValue::Struct(children))
        } else {
            if children.len() % 2 != 0 {
                return Err(text("map stack item contains an odd number of entries"));
            }
            Ok(AbiStackValue::Dictionary(pair_items(children)))
        }
    } else if kind == NATIVE_KIND_NULL {
        Ok(AbiStackValue::Null)
    } else if kind == NATIVE_KIND_POINTER {
        Ok(AbiStackValue::Pointer(item.integer_value))
    } else {
        let mut s = text("unsupported native stack item kind ");
        push_decimal(&mut s, kind as u64);
        Err(s)
    }
}

fn pair_items(flat: Vec<AbiStackValue>) -> (r: Vec<(AbiStackValue, AbiStackValue)>)
    requires
        flat@.len() % 2 == 0,
    ensures
        abi_model_pairs(r@) == pair_up(abi_model_seq(flat@)),
{
    let ghost orig = flat@;
    let ghost m = abi_model_seq(orig);
    proof {
        lemma_abi_model_seq_index(orig);
        assert(m.subrange(0, 0) =~= Seq::<AbiItem>::empty());
        assert(abi_model_pairs(Seq::<(AbiStackValue, AbiStackValue)>::empty()) =~= Seq::<(AbiItem, AbiItem)>::empty());
    }
    let mut flat = flat;
    let half = flat.len() / 2;
    let mut pairs: Vec<(AbiStackValue, AbiStackValue)> = Vec::with_capacity(half);
    let mut k: usize = 0;
    while k < half
        invariant
            orig.len() % 2 == 0,
            half == orig.len() / 2,
            half * 2 == orig.len(),
            orig.len() <= usize::MAX,
            m == abi_model_seq(orig),
            m.len() == orig.len(),
            forall|j: int| 0 <= j < orig.len() ==> #[trigger] m[j] == orig[j].model(),
            flat@.len() == orig.len(),
            k <= half,
            forall|j: int| 2 * k <= j < orig.len() ==> #[trigger] flat@[j] == orig[j],
            abi_model_pairs(pairs@) == pair_up(m.subrange(0, 2 * k as int)),
        decreases half - k,
    {
        let mut a = AbiStackValue::Null;
        flat.set_and_swap(2 * k, &mut a);
        let mut b = AbiStackValue::Null;
        flat.set_and_swap(2 * k + 1, &mut b);
        let ghost before = pairs@;
        pairs.push((a, b));
        proof {
            lemma_abi_model_pairs_push(before, (a, b));
            let t = m.subrange(0, 2 * k + 2);
            assert(t.subrange(0, t.len() - 2) =~= m.subrange(0, 2 * k as int));
        }
        k += 1;
    }
    proof {
        assert(m.subrange(0, 2 * half as int) =~= m);
    }
    pairs
}

fn copy_vec(items: &Vec<NativeStackItem>) -> (r: Result<Vec<AbiStackValue>, String>)
    ensures
        match r {
            Ok(v) => copy_seq(native_model_seq(items@)) == Ok::<Seq<AbiItem>, Seq<char>>(abi_model_seq(v@)),
            Err(m) => copy_seq(native_model_seq(items@)) == Err::<Seq<AbiItem>, Seq<char>>(m@),
        },
    decreases items, 1nat,
{
    let ghost m = native_model_seq(items@);
    proof {
        lemma_native_model_seq_index(items@);
        assert(m.subrange(0, 0) =~= Seq::<NItem>::empty());
        assert(abi_model_seq(Seq::<AbiStackValue>::empty()) =~= Seq::<AbiItem>::empty());
    }
    let mut out: Vec<AbiStackValue> = Vec::with_capacity(items.len());
    let mut i: usize = 0;
    while i < items.len()
        invariant
            i <= items@.len(),
            m == native_model_seq(items@),
            m.len() == items@.len(),
            forall|j: int| 0 <= j < items@.len() ==> #[trigger] m[j] == items@[j].model(),
            copy_seq(m.subrange(0, i as int)) == Ok::<Seq<AbiItem>, Seq<char>>(abi_model_seq(out@)),
        decreases items.len() - i,
    {
        proof { assert(decreases_to!(items => items@[i as int])); }
        proof {
            let t = m.subrange(0, i + 1);
            assert(t.subrange(0, i as int) =~= m.subrange(0, i as int));
        }
        let x = match copy_item(&items[i]) {
            Ok(v) => v,
            Err(e) => {
                proof { lemma_copy_seq_prefix_err(m, i + 1, e@); }
                return Err(e);
            },
        };
        let ghost before = out@;
        out.push(x);
        proof { lemma_abi_model_seq_push(before, x); }
        i += 1;
    }
    proof { assert(m.subrange(0, m.len() as int) =~= m); }
    Ok(out)
}

/// Reads the adapter's items back as stack items; refuses an unknown kind or a map with an
/// odd number of keys and values, the first such item in order deciding the error.
pub fn copy_native_stack_items(items: &[NativeStackItem]) -> (r: Result<Vec<AbiStackValue>, String>)
    ensures
        match r {
            Ok(v) => copy_seq(native_model_seq(items@)) == Ok::<Seq<AbiItem>, Seq<char>>(abi_model_seq(v@)),
            Err(m) => copy_seq(native_model_seq(items@)) == Err::<Seq<AbiItem>, Seq<char>>(m@),
        },
{
    let ghost m = native_model_seq(items@);
    proof {
        lemma_native_model_seq_index(items@);
        assert(m.subrange(0, 0) =~= Seq::<NItem>::empty());
        assert(abi_model_seq(Seq::<AbiStackValue>::empty()) =~= Seq::<AbiItem>::empty());
    }
    let mut out: Vec<AbiStackValue> = Vec::with_capacity(items.len());
    let mut i: usize = 0;
    while i < items.len()
        invariant
            i <= items@.len(),
            m == native_model_seq(items@),
            m.len() == items@.len(),
            forall|j: int| 0 <= j < items@.len() ==> #[trigger] m[j] == items@[j].model(),
            copy_seq(m.subrange(0, i as int)) == Ok::<Seq<AbiItem>, Seq<char>>(abi_model_seq(out@)),
        decreases items.len() - i,
    {
        proof {
            let t = m.subrange(0, i + 1);
            assert(t.subrange(0, i as int) =~= m.subrange(0, i as int));
        }
        let x = match copy_item(&items[i]) {
            Ok(v) => v,
            Err(e) => {
                proof { lemma_copy_seq_prefix_err(m, i + 1, e@); }
                return Err(e);
            },
        };
        let ghost before = out@;
        out.push(x);
        proof { lemma_abi_model_seq_push(before, x); }
        i += 1;
    }
    proof { assert(m.subrange(0, m.len() as int) =~= m); }
    Ok(out)
}

// ---------------------------------------------------------------------------
// Reading back what was handed over

/// Keys and values of map entries, alternating.
pub open spec fn flatten(e: Seq<(AbiItem, AbiItem)>) -> Seq<AbiItem>
    decreases e.len(),
{
    if e.len() == 0 {
        Seq::empty()
    } else {
        flatten(e.subrange(0, e.len() - 1)).push(e[e.len() - 1].0).push(e[e.len() - 1].1)
    }
}

proof fn lemma_pair_up_flatten(e: Seq<(AbiItem, AbiItem)>)
    ensures
        flatten(e).len() == 2 * e.len(),
        pair_up(flatten(e)) == e,
    decreases e.len(),
{
    if e.len() > 0 {
        let d = e.subrange(0, e.len() - 1);
        lemma_pair_up_flatten(d);
        let f = flatten(e);
        assert(f.subrange(0, f.len() - 2) =~= flatten(d));
        assert(pair_up(f) =~= e);
    } else {
        assert(pair_up(flatten(e)) =~= e);
    }
}

proof fn lemma_copy_ser(a: AbiItem)
    ensures
        copy_of(ser(a)) == Ok::<AbiItem, Seq<char>>(a),
    decreases a, 0nat,
{
    match a {
        AbiItem::Iterator(h) => {
            assert((h as i64) as u64 == h) by (bit_vector);
        },
        AbiItem::Interop(h) => {
            assert((h as i64) as u64 == h) by (bit_vector);
        },
        AbiItem::Array(s) => lemma_copy_ser_seq(s),
        AbiItem::Struct(s) => lemma_copy_ser_seq(s),
        AbiItem::Dictionary(e) => {
            lemma_copy_ser_pairs(e);
            lemma_pair_up_flatten(e);
        },
        _ => {},
    }
}

proof fn lemma_copy_ser_seq(s: Seq<AbiItem>)
    ensures
        copy_seq(ser_seq(s)) == Ok::<Seq<AbiItem>, Seq<char>>(s),
    decreases s, 1nat,
{
    if s.len() == 0 {
        assert(ser_seq(s) =~= Seq::<NItem>::empty());
        assert(s =~= Seq::<AbiItem>::empty());
    } else {
        let d = s.subrange(0, s.len() - 1);
        lemma_copy_ser_seq(d);
        lemma_copy_ser(s[s.len() - 1]);
        let t = ser_seq(s);
        assert(t.subrange(0, t.len() - 1) =~= ser_seq(d));
        assert(d.push(s[s.len() - 1]) =~= s);
    }
}

proof fn lemma_copy_ser_pairs(e: Seq<(AbiItem, AbiItem)>)
    ensures
        copy_seq(ser_pairs(e)) == Ok::<Seq<AbiItem>, Seq<char>>(flatten(e)),
    decreases e, 1nat,
{
    if e.len() == 0 {
        assert(ser_pairs(e) =~= Seq::<NItem>::empty());
    } else {
        let d = e.subrange(0, e.len() - 1);
        let last = e[e.len() - 1];
        lemma_copy_ser_pairs(d);
        lemma_copy_ser(last.0);
        lemma_copy_ser(last.1);
        let t = ser_pairs(e);
        let u = ser_pairs(d).push(ser(last.0));
        assert(t =~= u.push(ser(last.1)));
        assert(t.subrange(0, t.len() - 1) =~= u);
        assert(u.subrange(0, u.len() - 1) =~= ser_pairs(d));
        assert(copy_seq(u) == Ok::<Seq<AbiItem>, Seq<char>>(flatten(d).push(last.0)));
        assert(copy_seq(t) == Ok::<Seq<AbiItem>, Seq<char>>(flatten(d).push(last.0).push(last.1)));
    }
}

/// What is handed to the adapter reads back as what was handed: for every stack `s`,
/// `copy_seq(ser_seq(s)) == Ok(s)`.
pub proof fn law_native_round_trip(s: Seq<AbiItem>)
    ensures
        copy_seq(ser_seq(s)) == Ok::<Seq<AbiItem>, Seq<char>>(s),
{
    lemma_copy_ser_seq(s);
}


// ---------------------------------------------------------------------------
// Results exchanged with the adapter

/// The adapter's answer to a syscall: a replacement stack, or an error message.
#[derive(Debug)]
pub struct NativeHostResult {
    /// The stack the adapter leaves.
    pub stack: Vec<NativeStackItem>,
    /// The adapter's error message, when it failed.
    pub error: Option<String>,
}

/// Reads the adapter's answer to a syscall: its error message when it reports one, else its
/// stack read back as stack items.
pub fn copy_native_host_result(result: &NativeHostResult) -> (r: Result<HostCallbackResult, String>)
    ensures
        match result.error {
            Some(m) => r matches Err(e) && e@ == m@,
            None => match r {
                Ok(res) => copy_seq(native_model_seq(result.stack@)) == Ok::<Seq<AbiItem>, Seq<char>>(abi_model_seq(res.stack@)),
                Err(e) => copy_seq(native_model_seq(result.stack@)) == Err::<Seq<AbiItem>, Seq<char>>(e@),
            },
        },
{
    match &result.error {
        Some(message) => Err(message.clone()),
        None => match copy_native_stack_items(result.stack.as_slice()) {
            Ok(stack) => Ok(HostCallbackResult { stack }),
            Err(e) => Err(e),
        },
    }
}

/// What a syscall answered through the adapter gives: an error naming the syscall when the
/// adapter could not be called, else the adapter's answer read back.
pub fn settle_host_callback(invoked: bool, api: u32, result: &NativeHostResult) -> (r: Result<HostCallbackResult, String>)
    ensures
        !invoked ==> (r matches Err(e) && e@ == "host callback invocation failed for syscall 0x"@ + hex8(api)),
        invoked && result.error is Some ==> (r matches Err(e) && e@ == result.error.unwrap()@),
        invoked && result.error is None ==> match r {
            Ok(res) => copy_seq(native_model_seq(result.stack@)) == Ok::<Seq<AbiItem>, Seq<char>>(abi_model_seq(res.stack@)),
            Err(e) => copy_seq(native_model_seq(result.stack@)) == Err::<Seq<AbiItem>, Seq<char>>(e@),
        },
{
    if !invoked {
        let mut s = text("host callback invocation failed for syscall 0x");
        push_hex8(&mut s, api);
        return Err(s);
    }
    copy_native_host_result(result)
}

/// The state code of a halted execution.
pub const VM_STATE_HALT: u32 = 0;
/// The state code of a faulted execution.
pub const VM_STATE_FAULT: u32 = 1;

/// The result of an execution as the adapter receives it.
#[derive(Debug)]
pub struct NativeExecutionResult {
    /// Fee consumed, in pico units.
    pub fee_consumed_pico: i64,
    /// `VM_STATE_HALT` or `VM_STATE_FAULT`.
    pub state: u32,
    /// The evaluation stack left behind.
    pub stack: Vec<NativeStackItem>,
    /// The error message, when the execution failed.
    pub error: Option<String>,
}

/// The result of an execution that yields one integer, as the adapter receives it.
#[derive(Debug)]
pub struct NativeIntegerExecutionResult {
    /// Fee consumed, in pico units.
    pub fee_consumed_pico: i64,
    /// `VM_STATE_HALT` or `VM_STATE_FAULT`.
    pub state: u32,
    /// The integer result.
    pub value: i64,
    /// The error message, when the execution failed.
    pub error: Option<String>,
}

/// The state code of a VM state.
pub open spec fn state_code(state: VmState) -> u32 {
    match state {
        VmState::Halt => VM_STATE_HALT,
        VmState::Fault => VM_STATE_FAULT,
    }
}

/// The adapter's form of a finished execution, with the fee given.
pub fn write_ok_result(result: &ExecutionResult, fee_consumed_pico: i64) -> (r: NativeExecutionResult)
    ensures
        r.fee_consumed_pico == fee_consumed_pico,
        r.state == state_code(result.state),
        native_model_seq(r.stack@) == ser_seq(abi_model_seq(result.stack@)),
        r.error is None,
{
    NativeExecutionResult {
        fee_consumed_pico,
        state: match result.state {
            VmState::Halt => VM_STATE_HALT,
            VmState::Fault => VM_STATE_FAULT,
        },
        stack: serialize_stack_items(result.stack.as_slice()),
        error: None,
    }
}

/// The adapter's form of a failed execution: a fault with the error and no stack.
pub fn write_err_result(error: String, fee_consumed_pico: i64) -> (r: NativeExecutionResult)
    ensures
        r.fee_consumed_pico == fee_consumed_pico,
        r.state == VM_STATE_FAULT,
        r.stack@.len() == 0,
        r.error == Some(error),
{
    NativeExecutionResult { fee_consumed_pico, state: VM_STATE_FAULT, stack: Vec::new(), error: Some(error) }
}

} // verus!
