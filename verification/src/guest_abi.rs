use vstd::prelude::*;
use crate::stack_value::{StackValue, Item, model_seq, model_pairs, lemma_model_seq_index, lemma_model_pairs_index,
    lemma_model_seq_push, lemma_model_pairs_push};
use crate::compound::{CompoundIds, renumber, renumber_seq, renumber_pairs, erase_ids, erase_seq, erase_pairs,
    lemma_renumber_grows, lemma_renumber_seq_grows, lemma_renumber_pairs_grows};

verus! {

broadcast use vstd::std_specs::vec::group_vec_axioms;

// ---------------------------------------------------------------------------
// Values as the guest hands them to a syscall: no identities, buffers kept apart

/// A stack item as the guest exchanges it with a syscall handler: compound items carry no
/// identity.
#[derive(Debug, PartialEq)]
pub enum GuestAbiValue {
    Integer(i64),
    BigInteger(Vec<u8>),
    ByteString(Vec<u8>),
    Boolean(bool),
    Pointer(i64),
    Array(Vec<GuestAbiValue>),
    Struct(Vec<GuestAbiValue>),
    Dictionary(Vec<(GuestAbiValue, GuestAbiValue)>),
    Buffer(Vec<u8>),
    Interop(u64),
    Iterator(u64),
    Null,
}

/// The mathematical value of an exchanged item.
pub enum GuestAbiItem {
    Integer(i64),
    BigInteger(Seq<u8>),
    ByteString(Seq<u8>),
    Boolean(bool),
    Pointer(i64),
    Array(Seq<GuestAbiItem>),
    Struct(Seq<GuestAbiItem>),
    Dictionary(Seq<(GuestAbiItem, GuestAbiItem)>),
    Buffer(Seq<u8>),
    Interop(u64),
    Iterator(u64),
    Null,
}

impl GuestAbiValue {
    /// The item with byte vectors as sequences and children as sequences of child models.
    pub open spec fn model(self) -> GuestAbiItem
        decreases self, 0nat,
    {
        match self {
            GuestAbiValue::Integer(v) => GuestAbiItem::Integer(v),
            GuestAbiValue::BigInteger(b) => GuestAbiItem::BigInteger(b@),
            GuestAbiValue::ByteString(b) => GuestAbiItem::ByteString(b@),
            GuestAbiValue::Boolean(b) => GuestAbiItem::Boolean(b),
            GuestAbiValue::Pointer(p) => GuestAbiItem::Pointer(p),
            GuestAbiValue::Array(items) => GuestAbiItem::Array(guest_model_seq(items@)),
            GuestAbiValue::Struct(items) => GuestAbiItem::Struct(guest_model_seq(items@)),
            GuestAbiValue::Dictionary(entries) => GuestAbiItem::Dictionary(guest_model_pairs(entries@)),
            GuestAbiValue::Buffer(b) => GuestAbiItem::Buffer(b@),
            GuestAbiValue::Interop(h) => GuestAbiItem::Interop(h),
            GuestAbiValue::Iterator(h) => GuestAbiItem::Iterator(h),
            GuestAbiValue::Null => GuestAbiItem::Null,
        }
    }
}

/// The models of a sequence of items.
pub open spec fn guest_model_seq(s: Seq<GuestAbiValue>) -> Seq<GuestAbiItem>
    decreases s, 1nat,
{
    if s.len() == 0 {
        Seq::empty()
    } else {
        guest_model_seq(s.subrange(0, s.len() - 1)).push(s[s.len() - 1].model())
    }
}

/// The models of a sequence of key/value entries.
pub open spec fn guest_model_pairs(s: Seq<(GuestAbiValue, GuestAbiValue)>) -> Seq<(GuestAbiItem, GuestAbiItem)>
    decreases s, 1nat,
{
    if s.len() == 0 {
        Seq::empty()
    } else {
        guest_model_pairs(s.subrange(0, s.len() - 1)).push((s[s.len() - 1].0.model(), s[s.len() - 1].1.model()))
    }
}

proof fn lemma_guest_model_seq_index(s: Seq<GuestAbiValue>)
    ensures
        guest_model_seq(s).len() == s.len(),
        forall|i: int| 0 <= i < s.len() ==> #[trigger] guest_model_seq(s)[i] == s[i].model(),
    decreases s.len(),
{
    if s.len() > 0 {
        lemma_guest_model_seq_index(s.subrange(0, s.len() - 1));
    }
}

proof fn lemma_guest_model_pairs_index(s: Seq<(GuestAbiValue, GuestAbiValue)>)
    ensures
        guest_model_pairs(s).len() == s.len(),
        forall|i: int| 0 <= i < s.len() ==> #[trigger] guest_model_pairs(s)[i] == (s[i].0.model(), s[i].1.model()),
    decreases s.len(),
{
    if s.len() > 0 {
        lemma_guest_model_pairs_index(s.subrange(0, s.len() - 1));
    }
}

// ---------------------------------------------------------------------------
// Handing items out and taking them back

/// What the guest hands out for a stack item: the same item without identities.
pub open spec fn export_of(v: Item) -> GuestAbiItem
    decreases v, 0nat,
{
    match v {
        Item::Integer(x) => GuestAbiItem::Integer(x),
        Item::BigInteger(b) => GuestAbiItem::BigInteger(b),
        Item::ByteString(b) => GuestAbiItem::ByteString(b),
        Item::Boolean(b) => GuestAbiItem::Boolean(b),
        Item::Pointer(p) => GuestAbiItem::Pointer(p as i64),
        Item::Array(_, items) => GuestAbiItem::Array(export_seq(items)),
        Item::Struct(_, items) => GuestAbiItem::Struct(export_seq(items)),
        Item::Dictionary(_, entries) => GuestAbiItem::Dictionary(export_pairs(entries)),
        Item::Buffer(_, b) => GuestAbiItem::Buffer(b),
        Item::Interop(h) => GuestAbiItem::Interop(h),
        Item::Iterator(h) => GuestAbiItem::Iterator(h),
        Item::Null => GuestAbiItem::Null,
    }
}

/// `export_of` applied to each item of `s`.
pub open spec fn export_seq(s: Seq<Item>) -> Seq<GuestAbiItem>
    decreases s, 1nat,
{
    if s.len() == 0 { Seq::empty() } else { seq![export_of(s[0])] + export_seq(s.subrange(1, s.len() as int)) }
}

/// `export_of` applied to each key and value of `s`.
pub open spec fn export_pairs(s: Seq<(Item, Item)>) -> Seq<(GuestAbiItem, GuestAbiItem)>
    decreases s, 1nat,
{
    if s.len() == 0 {
        Seq::empty()
    } else {
        seq![(export_of(s[0].0), export_of(s[0].1))] + export_pairs(s.subrange(1, s.len() as int))
    }
}

/// An exchanged item as a stack item whose identities are all zero; taking it back gives
/// it fresh identities (`renumber`).
pub open spec fn lift(a: GuestAbiItem) -> Item
    decreases a, 0nat,
{
    match a {
        GuestAbiItem::Integer(x) => Item::Integer(x),
        GuestAbiItem::BigInteger(b) => Item::BigInteger(b),
        GuestAbiItem::ByteString(b) => Item::ByteString(b),
        GuestAbiItem::Boolean(b) => Item::Boolean(b),
        GuestAbiItem::Pointer(p) => Item::Pointer(p as usize),
        GuestAbiItem::Array(items) => Item::Array(0, lift_seq(items)),
        GuestAbiItem::Struct(items) => Item::Struct(0, lift_seq(items)),
        GuestAbiItem::Dictionary(entries) => Item::Dictionary(0, lift_pairs(entries)),
        GuestAbiItem::Buffer(b) => Item::Buffer(0, b),
        GuestAbiItem::Interop(h) => Item::Interop(h),
        GuestAbiItem::Iterator(h) => Item::Iterator(h),
        GuestAbiItem::Null => Item::Null,
    }
}

/// `lift` applied to each item of `s`.
pub open spec fn lift_seq(s: Seq<GuestAbiItem>) -> Seq<Item>
    decreases s, 1nat,
{
    if s.len() == 0 { Seq::empty() } else { seq![lift(s[0])] + lift_seq(s.subrange(1, s.len() as int)) }
}

/// `lift` applied to each key and value of `s`.
pub open spec fn lift_pairs(s: Seq<(GuestAbiItem, GuestAbiItem)>) -> Seq<(Item, Item)>
    decreases s, 1nat,
{
    if s.len() == 0 {
        Seq::empty()
    } else {
        seq![(lift(s[0].0), lift(s[0].1))] + lift_pairs(s.subrange(1, s.len() as int))
    }
}

proof fn lemma_export_seq_index(s: Seq<Item>)
    ensures
        export_seq(s).len() == s.len(),
        forall|i: int| 0 <= i < s.len() ==> #[trigger] export_seq(s)[i] == export_of(s[i]),
    decreases s.len(),
{
    if s.len() > 0 {
        let rest = s.subrange(1, s.len() as int);
        lemma_export_seq_index(rest);
        assert forall|i: int| 0 <= i < s.len() implies #[trigger] export_seq(s)[i] == export_of(s[i]) by {
            if i > 0 {
                assert(export_seq(s)[i] == export_seq(rest)[i - 1]);
                assert(rest[i - 1] == s[i]);
            }
        }
    }
}

proof fn lemma_export_pairs_index(s: Seq<(Item, Item)>)
    ensures
        export_pairs(s).len() == s.len(),
        forall|i: int| 0 <= i < s.len() ==> #[trigger] export_pairs(s)[i] == (export_of(s[i].0), export_of(s[i].1)),
    decreases s.len(),
{
    if s.len() > 0 {
        let rest = s.subrange(1, s.len() as int);
        lemma_export_pairs_index(rest);
        assert forall|i: int| 0 <= i < s.len() implies #[trigger] export_pairs(s)[i] == (export_of(s[i].0), export_of(s[i].1)) by {
            if i > 0 {
                assert(export_pairs(s)[i] == export_pairs(rest)[i - 1]);
                assert(rest[i - 1] == s[i]);
            }
        }
    }
}

proof fn lemma_lift_seq_index(s: Seq<GuestAbiItem>)
    ensures
        lift_seq(s).len() == s.len(),
        forall|i: int| 0 <= i < s.len() ==> #[trigger] lift_seq(s)[i] == lift(s[i]),
    decreases s.len(),
{
    if s.len() > 0 {
        let rest = s.subrange(1, s.len() as int);
        lemma_lift_seq_index(rest);
        assert forall|i: int| 0 <= i < s.len() implies #[trigger] lift_seq(s)[i] == lift(s[i]) by {
            if i > 0 {
                assert(lift_seq(s)[i] == lift_seq(rest)[i - 1]);
                assert(rest[i - 1] == s[i]);
            }
        }
    }
}

proof fn lemma_lift_pairs_index(s: Seq<(GuestAbiItem, GuestAbiItem)>)
    ensures
        lift_pairs(s).len() == s.len(),
        forall|i: int| 0 <= i < s.len() ==> #[trigger] lift_pairs(s)[i] == (lift(s[i].0), lift(s[i].1)),
    decreases s.len(),
{
    if s.len() > 0 {
        let rest = s.subrange(1, s.len() as int);
        lemma_lift_pairs_index(rest);
        assert forall|i: int| 0 <= i < s.len() implies #[trigger] lift_pairs(s)[i] == (lift(s[i].0), lift(s[i].1)) by {
            if i > 0 {
                assert(lift_pairs(s)[i] == lift_pairs(rest)[i - 1]);
                assert(rest[i - 1] == s[i]);
            }
        }
    }
}

/// The exchanged form of a stack item.
pub fn to_abi_value(value: &StackValue) -> (r: GuestAbiValue)
    ensures
        r.model() == export_of(value.model()),
    decreases value, 0nat,
{
    match value {
        StackValue::Integer(v) => GuestAbiValue::Integer(*v),
        StackValue::BigInteger(b) => GuestAbiValue::BigInteger(b.clone()),
        StackValue::ByteString(b) => GuestAbiValue::ByteString(b.clone()),
        StackValue::Boolean(b) => GuestAbiValue::Boolean(*b),
        StackValue::Pointer(p) => GuestAbiValue::Pointer(*p as i64),
        StackValue::Array(_, items) => GuestAbiValue::Array(export_items(items)),
        StackValue::Struct(_, items) => GuestAbiValue::Struct(export_items(items)),
        StackValue::Dictionary(_, entries) => GuestAbiValue::Dictionary(export_entries(entries)),
        StackValue::Buffer(_, b) => GuestAbiValue::Buffer(b.clone()),
        StackValue::Interop(h) => GuestAbiValue::Interop(*h),
        StackValue::Iterator(h) => GuestAbiValue::Iterator(*h),
        StackValue::Null => GuestAbiValue::Null,
    }
}

fn export_items(items: &Vec<StackValue>) -> (r: Vec<GuestAbiValue>)
    ensures
        guest_model_seq(r@) == export_seq(model_seq(items@)),
    decreases items, 1nat,
{
    let mut out: Vec<GuestAbiValue> = Vec::with_capacity(items.len());
    let mut i: usize = 0;
    while i < items.len()
        invariant
            i <= items@.len(),
            out@.len() == i,
            forall|j: int| 0 <= j < i ==> #[trigger] out@[j].model() == export_of(items@[j].model()),
        decreases items.len() - i,
    {
        proof { assert(decreases_to!(items => items@[i as int])); }
        let x = to_abi_value(&items[i]);
        out.push(x);
        i += 1;
    }
    proof {
        lemma_guest_model_seq_index(out@);
        lemma_model_seq_index(items@);
        lemma_export_seq_index(model_seq(items@));
        assert(guest_model_seq(out@) =~= export_seq(model_seq(items@)));
    }
    out
}

fn export_entries(entries: &Vec<(StackValue, StackValue)>) -> (r: Vec<(GuestAbiValue, GuestAbiValue)>)
    ensures
        guest_model_pairs(r@) == export_pairs(model_pairs(entries@)),
    decreases entries, 1nat,
{
    let mut out: Vec<(GuestAbiValue, GuestAbiValue)> = Vec::with_capacity(entries.len());
    let mut i: usize = 0;
    while i < entries.len()
        invariant
            i <= entries@.len(),
            out@.len() == i,
            forall|j: int| 0 <= j < i ==> (#[trigger] out@[j]).0.model() == export_of(entries@[j].0.model())
                && out@[j].1.model() == export_of(entries@[j].1.model()),
        decreases entries.len() - i,
    {
        proof {
            assert(decreases_to!(entries => entries@[i as int]));
            assert(decreases_to!(entries@[i as int] => entries@[i as int].0));
            assert(decreases_to!(entries@[i as int] => entries@[i as int].1));
        }
        let k = to_abi_value(&entries[i].0);
        let v = to_abi_value(&entries[i].1);
        out.push((k, v));
        i += 1;
    }
    proof {
        lemma_guest_model_pairs_index(out@);
        lemma_model_pairs_index(entries@);
        lemma_export_pairs_index(model_pairs(entries@));
        assert(guest_model_pairs(out@) =~= export_pairs(model_pairs(entries@)));
    }
    out
}

/// The exchanged form of every stack item, in order.
pub fn to_abi_stack(stack: &[StackValue]) -> (r: Vec<GuestAbiValue>)
    ensures
        guest_model_seq(r@) == export_seq(model_seq(stack@)),
{
    let mut out: Vec<GuestAbiValue> = Vec::with_capacity(stack.len());
    let mut i: usize = 0;
    while i < stack.len()
        invariant
            i <= stack@.len(),
            out@.len() == i,
            forall|j: int| 0 <= j < i ==> #[trigger] out@[j].model() == export_of(stack@[j].model()),
        decreases stack.len() - i,
    {
        let x = to_abi_value(&stack[i]);
        out.push(x);
        i += 1;
    }
    proof {
        lemma_guest_model_seq_index(out@);
        lemma_model_seq_index(stack@);
        lemma_export_seq_index(model_seq(stack@));
        assert(guest_model_seq(out@) =~= export_seq(model_seq(stack@)));
    }
    out
}

impl CompoundIds {
    /// Takes back an item that a syscall handed over: its compound items, at any depth,
    /// become new items with fresh identities, children before their container.
    pub fn import_abi(&mut self, value: GuestAbiValue) -> (r: StackValue)
        requires
            renumber(lift(value.model()), old(self).next_id() as int).1 <= u64::MAX,
        ensures
            (r.model(), final(self).next_id() as int) == renumber(lift(value.model()), old(self).next_id() as int),
    {
        self.import_ref(&value)
    }

    fn import_ref(&mut self, value: &GuestAbiValue) -> (r: StackValue)
        requires
            renumber(lift(value.model()), old(self).next_id() as int).1 <= u64::MAX,
        ensures
            (r.model(), final(self).next_id() as int) == renumber(lift(value.model()), old(self).next_id() as int),
        decreases value, 0nat,
    {
        match value {
            GuestAbiValue::Integer(v) => StackValue::Integer(*v),
            GuestAbiValue::BigInteger(b) => StackValue::BigInteger(b.clone()),
            GuestAbiValue::ByteString(b) => StackValue::ByteString(b.clone()),
            GuestAbiValue::Boolean(b) => StackValue::Boolean(*b),
            GuestAbiValue::Pointer(p) => StackValue::Pointer(*p as usize),
            GuestAbiValue::Array(items) => {
                let imported = self.import_items(items);
                self.array(imported)
            },
            GuestAbiValue::Struct(items) => {
                let imported = self.import_items(items);
                self.struct_value(imported)
            },
            GuestAbiValue::Dictionary(entries) => {
                let imported = self.import_entries(entries);
                self.dictionary(imported)
            },
            GuestAbiValue::Buffer(b) => self.buffer(b.clone()),
            GuestAbiValue::Interop(h) => StackValue::Interop(*h),
            GuestAbiValue::Iterator(h) => StackValue::Iterator(*h),
            GuestAbiValue::Null => StackValue::Null,
        }
    }

    fn import_items(&mut self, items: &Vec<GuestAbiValue>) -> (r: Vec<StackValue>)
        requires
            renumber_seq(lift_seq(guest_model_seq(items@)), old(self).next_id() as int).1 < u64::MAX,
        ensures
            (model_seq(r@), final(self).next_id() as int) == renumber_seq(lift_seq(guest_model_seq(items@)), old(self).next_id() as int),
        decreases items, 1nat,
    {
        let ghost m = lift_seq(guest_model_seq(items@));
        let ghost start = self.next_id() as int;
        proof {
            lemma_guest_model_seq_index(items@);
            lemma_lift_seq_index(guest_model_seq(items@));
            assert(m.subrange(0, m.len() as int) =~= m);
            assert(model_seq(Seq::<StackValue>::empty()) =~= Seq::<Item>::empty());
        }
        let mut imported: Vec<StackValue> = Vec::with_capacity(items.len());
        let mut i: usize = 0;
        while i < items.len()
            invariant
                i <= items@.len(),
                m == lift_seq(guest_model_seq(items@)),
                m.len() == items@.len(),
                forall|j: int| 0 <= j < items@.len() ==> #[trigger] m[j] == lift(items@[j].model()),
                renumber_seq(m, start).1 < u64::MAX,
                renumber_seq(m, start) == ({
                    let rest = renumber_seq(m.subrange(i as int, m.len() as int), self.next_id() as int);
                    (model_seq(imported@) + rest.0, rest.1)
                }),
            decreases items.len() - i,
        {
            proof {
                assert(decreases_to!(items => items@[i as int]));
                let tail = m.subrange(i as int, m.len() as int);
                assert(tail[0] == m[i as int]);
                assert(tail.subrange(1, tail.len() as int) =~= m.subrange(i + 1, m.len() as int));
                let first = renumber(m[i as int], self.next_id() as int);
                lemma_renumber_seq_grows(m.subrange(i + 1, m.len() as int), first.1);
            }
            let ghost before = imported@;
            let c = self.import_ref(&items[i]);
            imported.push(c);
            proof {
                lemma_model_seq_push(before, c);
                let rest = renumber_seq(m.subrange(i + 1, m.len() as int), self.next_id() as int);
                assert(model_seq(before) + (seq![c.model()] + rest.0) =~= model_seq(before).push(c.model()) + rest.0);
            }
            i += 1;
        }
        proof {
            assert(model_seq(imported@) + Seq::<Item>::empty() =~= model_seq(imported@));
        }
        imported
    }

    fn import_entries(&mut self, entries: &Vec<(GuestAbiValue, GuestAbiValue)>) -> (r: Vec<(StackValue, StackValue)>)
        requires
            renumber_pairs(lift_pairs(guest_model_pairs(entries@)), old(self).next_id() as int).1 < u64::MAX,
        ensures
            (model_pairs(r@), final(self).next_id() as int) == renumber_pairs(lift_pairs(guest_model_pairs(entries@)), old(self).next_id() as int),
        decreases entries, 1nat,
    {
        let ghost m = lift_pairs(guest_model_pairs(entries@));
        let ghost start = self.next_id() as int;
        proof {
            lemma_guest_model_pairs_index(entries@);
            lemma_lift_pairs_index(guest_model_pairs(entries@));
            assert(m.subrange(0, m.len() as int) =~= m);
            assert(model_pairs(Seq::<(StackValue, StackValue)>::empty()) =~= Seq::<(Item, Item)>::empty());
        }
        let mut imported: Vec<(StackValue, StackValue)> = Vec::with_capacity(entries.len());
        let mut i: usize = 0;
        while i < entries.len()
            invariant
                i <= entries@.len(),
                m == lift_pairs(guest_model_pairs(entries@)),
                m.len() == entries@.len(),
                forall|j: int| 0 <= j < entries@.len() ==> #[trigger] m[j] == (lift(entries@[j].0.model()), lift(entries@[j].1.model())),
                renumber_pairs(m, start).1 < u64::MAX,
                renumber_pairs(m, start) == ({
                    let rest = renumber_pairs(m.subrange(i as int, m.len() as int), self.next_id() as int);
                    (model_pairs(imported@) + rest.0, rest.1)
                }),
            decreases entries.len() - i,
        {
            proof {
                assert(decreases_to!(entries => entries@[i as int]));
                assert(decreases_to!(entries@[i as int] => entries@[i as int].0));
                assert(decreases_to!(entries@[i as int] => entries@[i as int].1));
                let tail = m.subrange(i as int, m.len() as int);
                assert(tail[0] == m[i as int]);
                assert(tail.subrange(1, tail.len() as int) =~= m.subrange(i + 1, m.len() as int));
                let k = renumber(m[i as int].0, self.next_id() as int);
                let v = renumber(m[i as int].1, k.1);
                lemma_renumber_grows(m[i as int].1, k.1);
                lemma_renumber_pairs_grows(m.subrange(i + 1, m.len() as int), v.1);
            }
            let ghost before = imported@;
            let key = self.import_ref(&entries[i].0);
            let value = self.import_ref(&entries[i].1);
            imported.push((key, value));
            proof {
                lemma_model_pairs_push(before, (key, value));
                let rest = renumber_pairs(m.subrange(i + 1, m.len() as int), self.next_id() as int);
                assert(model_pairs(before) + (seq![(key.model(), value.model())] + rest.0)
                    =~= model_pairs(before).push((key.model(), value.model())) + rest.0);
            }
            i += 1;
        }
        proof {
            assert(model_pairs(imported@) + Seq::<(Item, Item)>::empty() =~= model_pairs(imported@));
        }
        imported
    }
}

/// Replaces the stack with the items a call handed back, each taken back with fresh
/// identities, in order.
pub fn apply_abi_stack(stack: &mut Vec<StackValue>, abi_stack: Vec<GuestAbiValue>, ids: &mut CompoundIds)
    requires
        renumber_seq(lift_seq(guest_model_seq(abi_stack@)), old(ids).next_id() as int).1 < u64::MAX,
    ensures
        (model_seq(final(stack)@), final(ids).next_id() as int)
            == renumber_seq(lift_seq(guest_model_seq(abi_stack@)), old(ids).next_id() as int),
{
    *stack = ids.import_items(&abi_stack);
}

// ---------------------------------------------------------------------------
// The stack around a syscall

/// The split of the stack for a syscall that takes `arg_count` arguments: how many items stay
/// below the arguments (all but the top `arg_count`, or none when the stack is shorter), and
/// the exchanged form of the arguments, bottom first.
pub fn syscall_arguments(stack: &[StackValue], arg_count: usize) -> (r: (usize, Vec<GuestAbiValue>))
    ensures
        r.0 == if arg_count < stack@.len() { stack@.len() - arg_count } else { 0 },
        guest_model_seq(r.1@) == export_seq(model_seq(stack@.subrange(r.0 as int, stack@.len() as int))),
{
    let count = if arg_count < stack.len() { arg_count } else { stack.len() };
    let keep = stack.len() - count;
    let mut args: Vec<GuestAbiValue> = Vec::with_capacity(count);
    let mut i: usize = keep;
    while i < stack.len()
        invariant
            keep <= i <= stack@.len(),
            args@.len() == i - keep,
            forall|j: int| 0 <= j < args@.len() ==> #[trigger] args@[j].model() == export_of(stack@[keep + j].model()),
        decreases stack.len() - i,
    {
        let x = to_abi_value(&stack[i]);
        args.push(x);
        i += 1;
    }
    proof {
        let top = stack@.subrange(keep as int, stack@.len() as int);
        lemma_guest_model_seq_index(args@);
        lemma_model_seq_index(top);
        lemma_export_seq_index(model_seq(top));
        assert(guest_model_seq(args@) =~= export_seq(model_seq(top)));
    }
    (keep, args)
}

/// After a syscall answered `results`: the stack keeps its first `keep` items and gets the
/// results on top, each taken back with fresh identities, in order.
pub fn complete_syscall(stack: &mut Vec<StackValue>, keep: usize, results: Vec<GuestAbiValue>, ids: &mut CompoundIds)
    requires
        keep <= old(stack)@.len(),
        renumber_seq(lift_seq(guest_model_seq(results@)), old(ids).next_id() as int).1 < u64::MAX,
    ensures
        ({
            let imported = renumber_seq(lift_seq(guest_model_seq(results@)), old(ids).next_id() as int);
            &&& model_seq(final(stack)@) == model_seq(old(stack)@.subrange(0, keep as int)) + imported.0
            &&& final(ids).next_id() == imported.1
        }),
{
    let ghost kept = stack@.subrange(0, keep as int);
    stack.truncate(keep);
    let mut imported = ids.import_items(&results);
    let ghost added = imported@;
    stack.append(&mut imported);
    proof {
        assert(stack@ =~= kept + added);
        lemma_model_seq_index(stack@);
        lemma_model_seq_index(kept);
        lemma_model_seq_index(added);
        assert(model_seq(stack@) =~= model_seq(kept) + model_seq(added));
    }
}

/// What a syscall leaves once its handler answered `outcome` for the arguments that
/// `syscall_arguments` split off above `keep`: on success the stack keeps its first `keep`
/// items and gets the results on top (as `complete_syscall`); on failure the stack and the
/// identities are untouched and the handler's error is returned.
pub fn finish_syscall(stack: &mut Vec<StackValue>, keep: usize, outcome: Result<Vec<GuestAbiValue>, String>, ids: &mut CompoundIds) -> (r: Result<(), String>)
    requires
        keep <= old(stack)@.len(),
        outcome matches Ok(results) ==> renumber_seq(lift_seq(guest_model_seq(results@)), old(ids).next_id() as int).1 < u64::MAX,
    ensures
        match outcome {
            Ok(results) => {
                let imported = renumber_seq(lift_seq(guest_model_seq(results@)), old(ids).next_id() as int);
                &&& r is Ok
                &&& model_seq(final(stack)@) == model_seq(old(stack)@.subrange(0, keep as int)) + imported.0
                &&& final(ids).next_id() == imported.1
            },
            Err(e) => {
                &&& r == Err::<(), String>(e)
                &&& final(stack)@ == old(stack)@
                &&& final(ids).next_id() == old(ids).next_id()
            },
        },
{
    match outcome {
        Ok(results) => {
            complete_syscall(stack, keep, results, ids);
            Ok(())
        },
        Err(e) => Err(e),
    }
}

// ---------------------------------------------------------------------------
// Handing out and taking back undo each other

/// Whether every pointer in `a` is a valid `usize`.
pub open spec fn pointers_fit_usize(a: GuestAbiItem) -> bool
    decreases a, 0nat,
{
    match a {
        GuestAbiItem::Pointer(p) => 0 <= p <= usize::MAX,
        GuestAbiItem::Array(items) | GuestAbiItem::Struct(items) => pointers_fit_usize_seq(items),
        GuestAbiItem::Dictionary(entries) => pointers_fit_usize_pairs(entries),
        _ => true,
    }
}

/// Whether every pointer in the items of `s` is a valid `usize`.
pub open spec fn pointers_fit_usize_seq(s: Seq<GuestAbiItem>) -> bool
    decreases s, 1nat,
{
    s.len() == 0 || (pointers_fit_usize(s[0]) && pointers_fit_usize_seq(s.subrange(1, s.len() as int)))
}

/// Whether every pointer in the keys and values of `s` is a valid `usize`.
pub open spec fn pointers_fit_usize_pairs(s: Seq<(GuestAbiItem, GuestAbiItem)>) -> bool
    decreases s, 1nat,
{
    s.len() == 0 || (pointers_fit_usize(s[0].0) && pointers_fit_usize(s[0].1)
        && pointers_fit_usize_pairs(s.subrange(1, s.len() as int)))
}

/// Whether every pointer in `v` is at most `i64::MAX`.
pub open spec fn pointers_fit_i64(v: Item) -> bool
    decreases v, 0nat,
{
    match v {
        Item::Pointer(p) => p <= i64::MAX,
        Item::Array(_, items) | Item::Struct(_, items) => pointers_fit_i64_seq(items),
        Item::Dictionary(_, entries) => pointers_fit_i64_pairs(entries),
        _ => true,
    }
}

/// Whether every pointer in the items of `s` is at most `i64::MAX`.
pub open spec fn pointers_fit_i64_seq(s: Seq<Item>) -> bool
    decreases s, 1nat,
{
    s.len() == 0 || (pointers_fit_i64(s[0]) && pointers_fit_i64_seq(s.subrange(1, s.len() as int)))
}

/// Whether every pointer in the keys and values of `s` is at most `i64::MAX`.
pub open spec fn pointers_fit_i64_pairs(s: Seq<(Item, Item)>) -> bool
    decreases s, 1nat,
{
    s.len() == 0 || (pointers_fit_i64(s[0].0) && pointers_fit_i64(s[0].1)
        && pointers_fit_i64_pairs(s.subrange(1, s.len() as int)))
}

proof fn lemma_export_ignores_renumbering(x: Item, n: int)
    ensures
        export_of(renumber(x, n).0) == export_of(x),
    decreases x, 0nat,
{
    match x {
        Item::Array(_, items) | Item::Struct(_, items) => lemma_export_seq_ignores_renumbering(items, n),
        Item::Dictionary(_, entries) => lemma_export_pairs_ignores_renumbering(entries, n),
        _ => {},
    }
}

proof fn lemma_export_seq_ignores_renumbering(s: Seq<Item>, n: int)
    ensures
        export_seq(renumber_seq(s, n).0) == export_seq(s),
    decreases s, 1nat,
{
    if s.len() > 0 {
        let first = renumber(s[0], n);
        let rest = s.subrange(1, s.len() as int);
        lemma_export_ignores_renumbering(s[0], n);
        lemma_export_seq_ignores_renumbering(rest, first.1);
        let out = renumber_seq(s, n).0;
        assert(out[0] == first.0);
        assert(out.subrange(1, out.len() as int) =~= renumber_seq(rest, first.1).0);
    }
}

proof fn lemma_export_pairs_ignores_renumbering(s: Seq<(Item, Item)>, n: int)
    ensures
        export_pairs(renumber_pairs(s, n).0) == export_pairs(s),
    decreases s, 1nat,
{
    if s.len() > 0 {
        let k = renumber(s[0].0, n);
        let v = renumber(s[0].1, k.1);
        let rest = s.subrange(1, s.len() as int);
        lemma_export_ignores_renumbering(s[0].0, n);
        lemma_export_ignores_renumbering(s[0].1, k.1);
        lemma_export_pairs_ignores_renumbering(rest, v.1);
        let out = renumber_pairs(s, n).0;
        assert(out[0] == (k.0, v.0));
        assert(out.subrange(1, out.len() as int) =~= renumber_pairs(rest, v.1).0);
    }
}

proof fn lemma_export_lift(a: GuestAbiItem)
    requires
        pointers_fit_usize(a),
    ensures
        export_of(lift(a)) == a,
    decreases a, 0nat,
{
    match a {
        GuestAbiItem::Array(items) | GuestAbiItem::Struct(items) => lemma_export_lift_seq(items),
        GuestAbiItem::Dictionary(entries) => lemma_export_lift_pairs(entries),
        _ => {},
    }
}

proof fn lemma_export_lift_seq(s: Seq<GuestAbiItem>)
    requires
        pointers_fit_usize_seq(s),
    ensures
        export_seq(lift_seq(s)) == s,
    decreases s, 1nat,
{
    if s.len() > 0 {
        let rest = s.subrange(1, s.len() as int);
        lemma_export_lift(s[0]);
        lemma_export_lift_seq(rest);
        let l = lift_seq(s);
        assert(l[0] == lift(s[0]));
        assert(l.subrange(1, l.len() as int) =~= lift_seq(rest));
        assert(seq![s[0]] + rest =~= s);
    }
}

proof fn lemma_export_lift_pairs(s: Seq<(GuestAbiItem, GuestAbiItem)>)
    requires
        pointers_fit_usize_pairs(s),
    ensures
        export_pairs(lift_pairs(s)) == s,
    decreases s, 1nat,
{
    if s.len() > 0 {
        let rest = s.subrange(1, s.len() as int);
        lemma_export_lift(s[0].0);
        lemma_export_lift(s[0].1);
        lemma_export_lift_pairs(rest);
        let l = lift_pairs(s);
        assert(l[0] == (lift(s[0].0), lift(s[0].1)));
        assert(l.subrange(1, l.len() as int) =~= lift_pairs(rest));
        assert(seq![s[0]] + rest =~= s);
    }
}

/// Taking back an item and handing it out again gives the same item: for every exchanged
/// item `a` whose pointers are valid `usize` values and every first identity `next`,
/// `export_of(renumber(lift(a), next).0) == a`.
pub proof fn law_import_export_round_trip(a: GuestAbiItem, next: int)
    requires
        pointers_fit_usize(a),
    ensures
        export_of(renumber(lift(a), next).0) == a,
{
    lemma_export_ignores_renumbering(lift(a), next);
    lemma_export_lift(a);
}

proof fn lemma_renumber_sees_content_only(x: Item, y: Item, n: int)
    requires
        erase_ids(x) == erase_ids(y),
    ensures
        renumber(x, n) == renumber(y, n),
    decreases x, 0nat,
{
    match (x, y) {
        (Item::Array(_, a), Item::Array(_, b)) => lemma_renumber_seq_sees_content_only(a, b, n),
        (Item::Struct(_, a), Item::Struct(_, b)) => lemma_renumber_seq_sees_content_only(a, b, n),
        (Item::Dictionary(_, a), Item::Dictionary(_, b)) => lemma_renumber_pairs_sees_content_only(a, b, n),
        _ => {},
    }
}

proof fn lemma_renumber_seq_sees_content_only(s: Seq<Item>, t: Seq<Item>, n: int)
    requires
        erase_seq(s) == erase_seq(t),
    ensures
        renumber_seq(s, n) == renumber_seq(t, n),
    decreases s, 1nat,
{
    lemma_erase_seq_len(s);
    lemma_erase_seq_len(t);
    if s.len() > 0 {
        let es = erase_seq(s);
        let et = erase_seq(t);
        assert(es[0] == erase_ids(s[0]));
        assert(et[0] == erase_ids(t[0]));
        assert(es.subrange(1, es.len() as int) =~= erase_seq(s.subrange(1, s.len() as int)));
        assert(et.subrange(1, et.len() as int) =~= erase_seq(t.subrange(1, t.len() as int)));
        lemma_renumber_sees_content_only(s[0], t[0], n);
        lemma_renumber_seq_sees_content_only(s.subrange(1, s.len() as int), t.subrange(1, t.len() as int),
            renumber(s[0], n).1);
    }
}

proof fn lemma_renumber_pairs_sees_content_only(s: Seq<(Item, Item)>, t: Seq<(Item, Item)>, n: int)
    requires
        erase_pairs(s) == erase_pairs(t),
    ensures
        renumber_pairs(s, n) == renumber_pairs(t, n),
    decreases s, 1nat,
{
    lemma_erase_pairs_len(s);
    lemma_erase_pairs_len(t);
    if s.len() > 0 {
        let es = erase_pairs(s);
        let et = erase_pairs(t);
        assert(es[0] == (erase_ids(s[0].0), erase_ids(s[0].1)));
        assert(et[0] == (erase_ids(t[0].0), erase_ids(t[0].1)));
        assert(es.subrange(1, es.len() as int) =~= erase_pairs(s.subrange(1, s.len() as int)));
        assert(et.subrange(1, et.len() as int) =~= erase_pairs(t.subrange(1, t.len() as int)));
        lemma_renumber_sees_content_only(s[0].0, t[0].0, n);
        let k = renumber(s[0].0, n);
        lemma_renumber_sees_content_only(s[0].1, t[0].1, k.1);
        lemma_renumber_pairs_sees_content_only(s.subrange(1, s.len() as int), t.subrange(1, t.len() as int),
            renumber(s[0].1, k.1).1);
    }
}

proof fn lemma_erase_seq_len(s: Seq<Item>)
    ensures
        erase_seq(s).len() == s.len(),
    decreases s.len(),
{
    if s.len() > 0 {
        lemma_erase_seq_len(s.subrange(1, s.len() as int));
    }
}

proof fn lemma_erase_pairs_len(s: Seq<(Item, Item)>)
    ensures
        erase_pairs(s).len() == s.len(),
    decreases s.len(),
{
    if s.len() > 0 {
        lemma_erase_pairs_len(s.subrange(1, s.len() as int));
    }
}

proof fn lemma_lift_export_content(v: Item)
    requires
        pointers_fit_i64(v),
    ensures
        erase_ids(lift(export_of(v))) == erase_ids(v),
    decreases v, 0nat,
{
    match v {
        Item::Array(_, items) | Item::Struct(_, items) => lemma_lift_export_content_seq(items),
        Item::Dictionary(_, entries) => lemma_lift_export_content_pairs(entries),
        _ => {},
    }
}

proof fn lemma_lift_export_content_seq(s: Seq<Item>)
    requires
        pointers_fit_i64_seq(s),
    ensures
        erase_seq(lift_seq(export_seq(s))) == erase_seq(s),
    decreases s, 1nat,
{
    if s.len() > 0 {
        let rest = s.subrange(1, s.len() as int);
        lemma_lift_export_content(s[0]);
        lemma_lift_export_content_seq(rest);
        let e = export_seq(s);
        assert(e[0] == export_of(s[0]));
        assert(e.subrange(1, e.len() as int) =~= export_seq(rest));
        let l = lift_seq(e);
        assert(l[0] == lift(e[0]));
        assert(l.subrange(1, l.len() as int) =~= lift_seq(e.subrange(1, e.len() as int)));
    }
}

proof fn lemma_lift_export_content_pairs(s: Seq<(Item, Item)>)
    requires
        pointers_fit_i64_pairs(s),
    ensures
        erase_pairs(lift_pairs(export_pairs(s))) == erase_pairs(s),
    decreases s, 1nat,
{
    if s.len() > 0 {
        let rest = s.subrange(1, s.len() as int);
        lemma_lift_export_content(s[0].0);
        lemma_lift_export_content(s[0].1);
        lemma_lift_export_content_pairs(rest);
        let e = export_pairs(s);
        assert(e[0] == (export_of(s[0].0), export_of(s[0].1)));
        assert(e.subrange(1, e.len() as int) =~= export_pairs(rest));
        let l = lift_pairs(e);
        assert(l[0] == (lift(e[0].0), lift(e[0].1)));
        assert(l.subrange(1, l.len() as int) =~= lift_pairs(e.subrange(1, e.len() as int)));
    }
}

/// Handing an item out and taking it back is a deep copy: for every stack item `v` whose
/// pointers are at most `i64::MAX` and every first identity `next`,
/// `renumber(lift(export_of(v)), next) == renumber(v, next)`, which `deep_clone` computes.
pub proof fn law_export_import_is_deep_clone(v: Item, next: int)
    requires
        pointers_fit_i64(v),
    ensures
        renumber(lift(export_of(v)), next) == renumber(v, next),
{
    lemma_lift_export_content(v);
    lemma_renumber_sees_content_only(lift(export_of(v)), v, next);
}

} // verus!
