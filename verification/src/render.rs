use vstd::prelude::*;
use vstd::string::StringExecFns;
use crate::stack_value::{StackValue, Item, model_seq, model_pairs, lemma_model_seq_index, lemma_model_pairs_index};
use crate::text::{push_char, push_decimal, decimal};

verus! {

// ---------------------------------------------------------------------------
// The debug text of a stack item: the variant's name, then its fields in brackets, as the
// interpreter's messages show it (`Integer(-5)`, `ByteString([1, 2])`,
// `Map(3, [(Integer(1), Null)])`, `Null`).

/// The decimal text of a signed integer: a minus sign, then the digits of its magnitude.
pub open spec fn signed_decimal(x: i64) -> Seq<char> {
    if x < 0 { seq!['-'] + decimal((-(x as int)) as u64) } else { decimal(x as u64) }
}

/// The decimal values of `b`, separated by `", "`.
pub open spec fn byte_list(b: Seq<u8>) -> Seq<char>
    decreases b.len(),
{
    if b.len() == 0 {
        Seq::empty()
    } else if b.len() == 1 {
        decimal(b[0] as u64)
    } else {
        byte_list(b.subrange(0, b.len() - 1)) + ", "@ + decimal(b[b.len() - 1] as u64)
    }
}

/// A byte list in square brackets.
pub open spec fn debug_bytes(b: Seq<u8>) -> Seq<char> {
    "["@ + byte_list(b) + "]"@
}

/// The debug text of a stack item with this model.
pub open spec fn debug_text_of(v: Item) -> Seq<char>
    decreases v, 0nat,
{
    match v {
        Item::Integer(x) => "Integer("@ + signed_decimal(x) + ")"@,
        Item::BigInteger(b) => "BigInteger("@ + debug_bytes(b) + ")"@,
        Item::ByteString(b) => "ByteString("@ + debug_bytes(b) + ")"@,
        Item::Boolean(b) => "Boolean("@ + (if b { "true"@ } else { "false"@ }) + ")"@,
        Item::Pointer(p) => "Pointer("@ + decimal(p as u64) + ")"@,
        Item::Array(id, items) => "Array("@ + decimal(id) + ", ["@ + item_list(items) + "])"@,
        Item::Struct(id, items) => "Struct("@ + decimal(id) + ", ["@ + item_list(items) + "])"@,
        Item::Dictionary(id, entries) => "Map("@ + decimal(id) + ", ["@ + entry_list(entries) + "])"@,
        Item::Buffer(id, b) => "Buffer("@ + decimal(id) + ", "@ + debug_bytes(b) + ")"@,
        Item::Interop(h) => "Interop("@ + decimal(h) + ")"@,
        Item::Iterator(h) => "Iterator("@ + decimal(h) + ")"@,
        Item::Null => "Null"@,
    }
}

/// The debug texts of the items of `s`, separated by `", "`.
pub open spec fn item_list(s: Seq<Item>) -> Seq<char>
    decreases s, 1nat,
{
    if s.len() == 0 {
        Seq::empty()
    } else if s.len() == 1 {
        debug_text_of(s[0])
    } else {
        item_list(s.subrange(0, s.len() - 1)) + ", "@ + debug_text_of(s[s.len() - 1])
    }
}

/// One entry as `(key, value)`.
pub open spec fn entry_text(k: Item, v: Item) -> Seq<char> {
    "("@ + debug_text_of(k) + ", "@ + debug_text_of(v) + ")"@
}

/// The entries of `s`, each as `(key, value)`, separated by `", "`.
pub open spec fn entry_list(s: Seq<(Item, Item)>) -> Seq<char>
    decreases s, 1nat,
{
    if s.len() == 0 {
        Seq::empty()
    } else if s.len() == 1 {
        "("@ + debug_text_of(s[0].0) + ", "@ + debug_text_of(s[0].1) + ")"@
    } else {
        let last = s[s.len() - 1];
        entry_list(s.subrange(0, s.len() - 1)) + ", "@ + ("("@ + debug_text_of(last.0) + ", "@
            + debug_text_of(last.1) + ")"@)
    }
}

fn push_signed(s: &mut String, x: i64)
    ensures
        final(s)@ == old(s)@ + signed_decimal(x),
{
    if x < 0 {
        push_char(s, '-');
        let m: u64 = if x == i64::MIN { 9_223_372_036_854_775_808u64 } else { (-x) as u64 };
        push_decimal(s, m);
    } else {
        push_decimal(s, x as u64);
    }
    assert(s@ =~= old(s)@ + signed_decimal(x));
}

fn push_bytes(s: &mut String, b: &Vec<u8>)
    ensures
        final(s)@ == old(s)@ + debug_bytes(b@),
{
    let ghost start = s@;
    s.append("[");
    let mut i: usize = 0;
    proof {
        assert(b@.subrange(0, 0) =~= Seq::<u8>::empty());
        assert(s@ =~= start + "["@ + byte_list(b@.subrange(0, 0)));
    }
    while i < b.len()
        invariant
            i <= b@.len(),
            s@ == start + "["@ + byte_list(b@.subrange(0, i as int)),
        decreases b.len() - i,
    {
        let ghost pre = s@;
        let ghost sub = b@.subrange(0, i + 1);
        assert(sub.subrange(0, sub.len() - 1) =~= b@.subrange(0, i as int));
        if i > 0 {
            s.append(", ");
        }
        push_decimal(s, b[i] as u64);
        proof {
            if i == 0 {
                assert(b@.subrange(0, 0) =~= Seq::<u8>::empty());
                assert(s@ =~= pre + byte_list(sub));
            } else {
                assert(s@ =~= pre + ", "@ + decimal(b@[i as int] as u64));
            }
        }
        i += 1;
    }
    assert(b@.subrange(0, b@.len() as int) =~= b@);
    s.append("]");
    assert(s@ =~= old(s)@ + debug_bytes(b@));
}

/// Appends the debug text of `value` to `s`.
pub fn push_debug(s: &mut String, value: &StackValue)
    ensures
        final(s)@ == old(s)@ + debug_text_of(value.model()),
    decreases value, 0nat,
{
    let ghost start = s@;
    match value {
        StackValue::Integer(x) => {
            s.append("Integer(");
            push_signed(s, *x);
            s.append(")");
        },
        StackValue::BigInteger(b) => {
            s.append("BigInteger(");
            push_bytes(s, b);
            s.append(")");
        },
        StackValue::ByteString(b) => {
            s.append("ByteString(");
            push_bytes(s, b);
            s.append(")");
        },
        StackValue::Boolean(b) => {
            s.append("Boolean(");
            if *b {
                s.append("true");
            } else {
                s.append("false");
            }
            s.append(")");
        },
        StackValue::Pointer(p) => {
            s.append("Pointer(");
            push_decimal(s, *p as u64);
            s.append(")");
        },
        StackValue::Array(id, items) => {
            s.append("Array(");
            push_decimal(s, *id);
            s.append(", [");
            push_items(s, items);
            s.append("])");
        },
        StackValue::Struct(id, items) => {
            s.append("Struct(");
            push_decimal(s, *id);
            s.append(", [");
            push_items(s, items);
            s.append("])");
        },
        StackValue::Dictionary(id, entries) => {
            s.append("Map(");
            push_decimal(s, *id);
            s.append(", [");
            push_entries(s, entries);
            s.append("])");
        },
        StackValue::Buffer(id, b) => {
            s.append("Buffer(");
            push_decimal(s, *id);
            s.append(", ");
            push_bytes(s, b);
            s.append(")");
        },
        StackValue::Interop(h) => {
            s.append("Interop(");
            push_decimal(s, *h);
            s.append(")");
        },
        StackValue::Iterator(h) => {
            s.append("Iterator(");
            push_decimal(s, *h);
            s.append(")");
        },
        StackValue::Null => {
            s.append("Null");
        },
    }
    assert(s@ =~= start + debug_text_of(value.model()));
}

fn push_items(s: &mut String, items: &Vec<StackValue>)
    ensures
        final(s)@ == old(s)@ + item_list(model_seq(items@)),
    decreases items, 1nat,
{
    let ghost start = s@;
    let ghost m = model_seq(items@);
    proof {
        lemma_model_seq_index(items@);
        assert(m.subrange(0, 0) =~= Seq::<Item>::empty());
        assert(s@ =~= start + item_list(m.subrange(0, 0)));
    }
    let mut i: usize = 0;
    while i < items.len()
        invariant
            i <= items@.len(),
            m == model_seq(items@),
            m.len() == items@.len(),
            forall|j: int| 0 <= j < items@.len() ==> #[trigger] m[j] == items@[j].model(),
            s@ == start + item_list(m.subrange(0, i as int)),
        decreases items.len() - i,
    {
        proof { assert(decreases_to!(items => items@[i as int])); }
        let ghost pre = s@;
        let ghost sub = m.subrange(0, i + 1);
        assert(sub.subrange(0, sub.len() - 1) =~= m.subrange(0, i as int));
        assert(sub[sub.len() - 1] == items@[i as int].model());
        if i > 0 {
            s.append(", ");
        }
        push_debug(s, &items[i]);
        proof {
            if i == 0 {
                assert(m.subrange(0, 0) =~= Seq::<Item>::empty());
                assert(s@ =~= pre + item_list(sub));
            } else {
                assert(s@ =~= pre + ", "@ + debug_text_of(items@[i as int].model()));
            }
        }
        i += 1;
    }
    assert(m.subrange(0, m.len() as int) =~= m);
}

fn push_entries(s: &mut String, entries: &Vec<(StackValue, StackValue)>)
    ensures
        final(s)@ == old(s)@ + entry_list(model_pairs(entries@)),
    decreases entries, 1nat,
{
    let ghost start = s@;
    let ghost m = model_pairs(entries@);
    proof {
        lemma_model_pairs_index(entries@);
        assert(m.subrange(0, 0) =~= Seq::<(Item, Item)>::empty());
        assert(s@ =~= start + entry_list(m.subrange(0, 0)));
    }
    let mut i: usize = 0;
    while i < entries.len()
        invariant
            i <= entries@.len(),
            m == model_pairs(entries@),
            m.len() == entries@.len(),
            forall|j: int| 0 <= j < entries@.len() ==> #[trigger] m[j] == (entries@[j].0.model(), entries@[j].1.model()),
            s@ == start + entry_list(m.subrange(0, i as int)),
        decreases entries.len() - i,
    {
        proof {
            assert(decreases_to!(entries => entries@[i as int]));
            assert(decreases_to!(entries@[i as int] => entries@[i as int].0));
            assert(decreases_to!(entries@[i as int] => entries@[i as int].1));
        }
        let ghost pre = s@;
        let ghost sub = m.subrange(0, i + 1);
        assert(sub.subrange(0, sub.len() - 1) =~= m.subrange(0, i as int));
        assert(sub[sub.len() - 1] == (entries@[i as int].0.model(), entries@[i as int].1.model()));
        if i > 0 {
            s.append(", ");
        }
        let ghost mid = s@;
        s.append("(");
        push_debug(s, &entries[i].0);
        s.append(", ");
        push_debug(s, &entries[i].1);
        s.append(")");
        proof {
            assert(s@ =~= mid + entry_text(entries@[i as int].0.model(), entries@[i as int].1.model()));
            if i == 0 {
                assert(m.subrange(0, 0) =~= Seq::<(Item, Item)>::empty());
                assert(s@ =~= pre + entry_list(sub));
            } else {
                assert(s@ =~= pre + ", "@ + entry_text(entries@[i as int].0.model(), entries@[i as int].1.model()));
            }
        }
        i += 1;
    }
    assert(m.subrange(0, m.len() as int) =~= m);
}

/// The debug text of `value`.
pub fn debug_text(value: &StackValue) -> (r: String)
    ensures
        r@ == debug_text_of(value.model()),
{
    let mut s = String::new();
    push_debug(&mut s, value);
    assert(s@ =~= debug_text_of(value.model()));
    s
}

} // verus!
