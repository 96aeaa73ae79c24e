use vstd::prelude::*;
use vstd::pervasive::VecAdditionalExecFns;
use crate::stack_value::{StackValue, Item, model_seq, model_pairs, lemma_model_seq_index, lemma_model_pairs_index,
    lemma_model_seq_push, lemma_model_pairs_push};

verus! {

broadcast use vstd::std_specs::vec::group_vec_axioms;

// ---------------------------------------------------------------------------
// Identities of compound items

/// The identity of an array, struct, map or buffer.
pub open spec fn compound_id_of(v: Item) -> Option<u64> {
    match v {
        Item::Array(id, _) | Item::Struct(id, _) | Item::Dictionary(id, _) | Item::Buffer(id, _) => Some(id),
        _ => None,
    }
}

/// The identity of a compound item.
pub fn compound_id(value: &StackValue) -> (r: Option<u64>)
    ensures
        r == compound_id_of(value.model()),
{
    match value {
        StackValue::Array(id, _) | StackValue::Struct(id, _) | StackValue::Dictionary(id, _)
        | StackValue::Buffer(id, _) => Some(*id),
        _ => None,
    }
}

/// Whether `v` is, or holds at any depth, a compound item with identity `target`.
pub open spec fn contains_id(v: Item, target: u64) -> bool
    decreases v, 0nat,
{
    compound_id_of(v) == Some(target) || match v {
        Item::Array(_, items) | Item::Struct(_, items) => contains_id_seq(items, target),
        Item::Dictionary(_, entries) => contains_id_pairs(entries, target),
        _ => false,
    }
}

/// Whether some item of `s` contains `target`.
pub open spec fn contains_id_seq(s: Seq<Item>, target: u64) -> bool
    decreases s, 1nat,
{
    s.len() > 0 && (contains_id(s[0], target) || contains_id_seq(s.subrange(1, s.len() as int), target))
}

/// Whether some key or value of `s` contains `target`.
pub open spec fn contains_id_pairs(s: Seq<(Item, Item)>, target: u64) -> bool
    decreases s, 1nat,
{
    s.len() > 0 && (contains_id(s[0].0, target) || contains_id(s[0].1, target)
        || contains_id_pairs(s.subrange(1, s.len() as int), target))
}


/// Whether `value` is, or holds at any depth, the compound item `target_id`.
pub fn contains_compound_id(value: &StackValue, target_id: u64) -> (r: bool)
    ensures
        r == contains_id(value.model(), target_id),
    decreases value, 0nat,
{
    if compound_id(value) == Some(target_id) {
        return true;
    }
    match value {
        StackValue::Array(_, items) => items_contain_id(items, target_id),
        StackValue::Struct(_, items) => items_contain_id(items, target_id),
        StackValue::Dictionary(_, entries) => entries_contain_id(entries, target_id),
        _ => false,
    }
}

fn items_contain_id(items: &Vec<StackValue>, target_id: u64) -> (r: bool)
    ensures
        r == contains_id_seq(model_seq(items@), target_id),
    decreases items, 1nat,
{
    let ghost m = model_seq(items@);
    proof {
        lemma_model_seq_index(items@);
        assert(m.subrange(0, m.len() as int) =~= m);
    }
    let mut i: usize = 0;
    while i < items.len()
        invariant
            i <= items@.len(),
            m == model_seq(items@),
            m.len() == items@.len(),
            forall|j: int| 0 <= j < items@.len() ==> #[trigger] m[j] == items@[j].model(),
            contains_id_seq(m, target_id) == contains_id_seq(m.subrange(i as int, m.len() as int), target_id),
        decreases items.len() - i,
    {
        proof {
            assert(decreases_to!(items => items@[i as int]));
            assert(m.subrange(i as int, m.len() as int)[0] == m[i as int]);
            assert(m.subrange(i as int, m.len() as int).subrange(1, m.len() - i) =~= m.subrange(i + 1, m.len() as int));
        }
        if contains_compound_id(&items[i], target_id) {
            return true;
        }
        i += 1;
    }
    proof {
        assert(m.subrange(m.len() as int, m.len() as int) =~= Seq::<Item>::empty());
    }
    false
}

fn entries_contain_id(entries: &Vec<(StackValue, StackValue)>, target_id: u64) -> (r: bool)
    ensures
        r == contains_id_pairs(model_pairs(entries@), target_id),
    decreases entries, 1nat,
{
    let ghost m = model_pairs(entries@);
    proof {
        lemma_model_pairs_index(entries@);
        assert(m.subrange(0, m.len() as int) =~= m);
    }
    let mut i: usize = 0;
    while i < entries.len()
        invariant
            i <= entries@.len(),
            m == model_pairs(entries@),
            m.len() == entries@.len(),
            forall|j: int| 0 <= j < entries@.len() ==> #[trigger] m[j] == (entries@[j].0.model(), entries@[j].1.model()),
            contains_id_pairs(m, target_id) == contains_id_pairs(m.subrange(i as int, m.len() as int), target_id),
        decreases entries.len() - i,
    {
        proof {
            assert(decreases_to!(entries => entries@[i as int]));
            assert(m.subrange(i as int, m.len() as int)[0] == m[i as int]);
            assert(m.subrange(i as int, m.len() as int).subrange(1, m.len() - i) =~= m.subrange(i + 1, m.len() as int));
        }
        if contains_compound_id(&entries[i].0, target_id) || contains_compound_id(&entries[i].1, target_id) {
            return true;
        }
        i += 1;
    }
    proof {
        assert(m.subrange(m.len() as int, m.len() as int) =~= Seq::<(Item, Item)>::empty());
    }
    false
}

/// The positions of the items of `s`, among the first `n`, that contain `target`, in order.
pub open spec fn affected_prefix(s: Seq<Item>, target: u64, n: nat) -> Seq<usize>
    decreases n,
{
    if n == 0 {
        Seq::empty()
    } else {
        let before = affected_prefix(s, target, (n - 1) as nat);
        if contains_id(s[n - 1], target) { before.push((n - 1) as usize) } else { before }
    }
}

/// The positions of the stack items that contain the compound item `target_id`, in order.
pub fn find_affected_indices(target_id: u64, stack: &[StackValue]) -> (r: Vec<usize>)
    ensures
        r@ == affected_prefix(model_seq(stack@), target_id, stack@.len()),
{
    proof { lemma_model_seq_index(stack@); }
    let mut indices: Vec<usize> = Vec::new();
    let mut i: usize = 0;
    while i < stack.len()
        invariant
            i <= stack@.len(),
            model_seq(stack@).len() == stack@.len(),
            forall|j: int| 0 <= j < stack@.len() ==> #[trigger] model_seq(stack@)[j] == stack@[j].model(),
            indices@ == affected_prefix(model_seq(stack@), target_id, i as nat),
        decreases stack.len() - i,
    {
        if contains_compound_id(&stack[i], target_id) {
            indices.push(i);
        }
        i += 1;
    }
    indices
}


// ---------------------------------------------------------------------------
// Propagating an update to every alias

/// `v` with every compound item that has the identity of `u` replaced by `u`, at any depth;
/// an item replaced is not looked into.
pub open spec fn alias(v: Item, u: Item) -> Item
    decreases v, 0nat,
{
    if compound_id_of(v) is Some && compound_id_of(v) == compound_id_of(u) {
        u
    } else {
        match v {
            Item::Array(id, items) => Item::Array(id, alias_seq(items, u)),
            Item::Struct(id, items) => Item::Struct(id, alias_seq(items, u)),
            Item::Dictionary(id, entries) => Item::Dictionary(id, alias_pairs(entries, u)),
            _ => v,
        }
    }
}

/// `alias` applied to each item of `s`.
pub open spec fn alias_seq(s: Seq<Item>, u: Item) -> Seq<Item>
    decreases s, 1nat,
{
    if s.len() == 0 {
        s
    } else {
        seq![alias(s[0], u)] + alias_seq(s.subrange(1, s.len() as int), u)
    }
}

/// `alias` applied to each key and value of `s`.
pub open spec fn alias_pairs(s: Seq<(Item, Item)>, u: Item) -> Seq<(Item, Item)>
    decreases s, 1nat,
{
    if s.len() == 0 {
        s
    } else {
        seq![(alias(s[0].0, u), alias(s[0].1, u))] + alias_pairs(s.subrange(1, s.len() as int), u)
    }
}

proof fn lemma_alias_seq_index(s: Seq<Item>, u: Item)
    ensures
        alias_seq(s, u).len() == s.len(),
        forall|i: int| 0 <= i < s.len() ==> #[trigger] alias_seq(s, u)[i] == alias(s[i], u),
    decreases s.len(),
{
    if s.len() > 0 {
        let rest = s.subrange(1, s.len() as int);
        lemma_alias_seq_index(rest, u);
        assert forall|i: int| 0 <= i < s.len() implies #[trigger] alias_seq(s, u)[i] == alias(s[i], u) by {
            if i > 0 {
                assert(rest[i - 1] == s[i]);
            }
        }
    }
}

proof fn lemma_alias_pairs_index(s: Seq<(Item, Item)>, u: Item)
    ensures
        alias_pairs(s, u).len() == s.len(),
        forall|i: int| 0 <= i < s.len() ==> #[trigger] alias_pairs(s, u)[i] == (alias(s[i].0, u), alias(s[i].1, u)),
    decreases s.len(),
{
    if s.len() > 0 {
        let rest = s.subrange(1, s.len() as int);
        lemma_alias_pairs_index(rest, u);
        assert forall|i: int| 0 <= i < s.len() implies #[trigger] alias_pairs(s, u)[i] == (alias(s[i].0, u), alias(s[i].1, u)) by {
            if i > 0 {
                assert(rest[i - 1] == s[i]);
            }
        }
    }
}

/// Propagating the same update twice gives what propagating it once gives:
/// `alias(alias(v, u), u) == alias(v, u)`.
pub proof fn law_alias_idempotent(v: Item, u: Item)
    ensures
        alias(alias(v, u), u) == alias(v, u),
    decreases v, 0nat,
{
    if compound_id_of(v) is Some && compound_id_of(v) == compound_id_of(u) {
    } else {
        match v {
            Item::Array(id, items) => lemma_alias_seq_idempotent(items, u),
            Item::Struct(id, items) => lemma_alias_seq_idempotent(items, u),
            Item::Dictionary(id, entries) => lemma_alias_pairs_idempotent(entries, u),
            _ => {},
        }
    }
}

proof fn lemma_alias_seq_idempotent(s: Seq<Item>, u: Item)
    ensures
        alias_seq(alias_seq(s, u), u) == alias_seq(s, u),
    decreases s, 1nat,
{
    lemma_alias_seq_index(s, u);
    lemma_alias_seq_index(alias_seq(s, u), u);
    assert forall|i: int| 0 <= i < s.len() implies #[trigger] alias_seq(alias_seq(s, u), u)[i] == alias_seq(s, u)[i] by {
        law_alias_idempotent(s[i], u);
    }
    assert(alias_seq(alias_seq(s, u), u) =~= alias_seq(s, u));
}

proof fn lemma_alias_pairs_idempotent(s: Seq<(Item, Item)>, u: Item)
    ensures
        alias_pairs(alias_pairs(s, u), u) == alias_pairs(s, u),
    decreases s, 1nat,
{
    lemma_alias_pairs_index(s, u);
    lemma_alias_pairs_index(alias_pairs(s, u), u);
    assert forall|i: int| 0 <= i < s.len() implies #[trigger] alias_pairs(alias_pairs(s, u), u)[i] == alias_pairs(s, u)[i] by {
        law_alias_idempotent(s[i].0, u);
        law_alias_idempotent(s[i].1, u);
    }
    assert(alias_pairs(alias_pairs(s, u), u) =~= alias_pairs(s, u));
}

/// Replaces, in `target` and at any depth, every compound item that has the identity of
/// `updated` with a copy of `updated`.
pub fn replace_alias(target: &mut StackValue, updated: &StackValue)
    ensures
        final(target).model() == alias(old(target).model(), updated.model()),
    decreases *old(target), 0nat,
{
    let target_id = compound_id(target);
    if target_id.is_some() && target_id == compound_id(updated) {
        *target = updated.clone();
        return;
    }
    match target {
        StackValue::Array(_, items) => alias_items(items, updated),
        StackValue::Struct(_, items) => alias_items(items, updated),
        StackValue::Dictionary(_, entries) => alias_entries(entries, updated),
        _ => {},
    }
}

fn alias_items(items: &mut Vec<StackValue>, updated: &StackValue)
    ensures
        model_seq(final(items)@) == alias_seq(model_seq(old(items)@), updated.model()),
    decreases *old(items), 1nat,
{
    let ghost orig = items@;
    let ghost u = updated.model();
    let n = items.len();
    let mut i: usize = 0;
    while i < n
        invariant
            orig == old(items)@,
            u == updated.model(),
            n == orig.len(),
            items@.len() == n,
            i <= n,
            forall|j: int| 0 <= j < i ==> #[trigger] items@[j].model() == alias(orig[j].model(), u),
            forall|j: int| i <= j < n ==> #[trigger] items@[j] == orig[j],
        decreases n - i,
    {
        let mut item = StackValue::Null;
        items.set_and_swap(i, &mut item);
        proof {
            assert(item == orig[i as int]);
            assert(decreases_to!(*old(items) => old(items)@));
            assert(decreases_to!(old(items)@ => orig[i as int]));
        }
        replace_alias(&mut item, updated);
        items.set_and_swap(i, &mut item);
        i += 1;
    }
    proof {
        lemma_model_seq_index(orig);
        lemma_model_seq_index(items@);
        lemma_alias_seq_index(model_seq(orig), u);
        assert(model_seq(items@) =~= alias_seq(model_seq(orig), u));
    }
}

fn alias_entries(entries: &mut Vec<(StackValue, StackValue)>, updated: &StackValue)
    ensures
        model_pairs(final(entries)@) == alias_pairs(model_pairs(old(entries)@), updated.model()),
    decreases *old(entries), 1nat,
{
    let ghost orig = entries@;
    let ghost u = updated.model();
    let n = entries.len();
    let mut i: usize = 0;
    while i < n
        invariant
            orig == old(entries)@,
            u == updated.model(),
            n == orig.len(),
            entries@.len() == n,
            i <= n,
            forall|j: int| 0 <= j < i ==> #[trigger] entries@[j].0.model() == alias(orig[j].0.model(), u)
                && entries@[j].1.model() == alias(orig[j].1.model(), u),
            forall|j: int| i <= j < n ==> #[trigger] entries@[j] == orig[j],
        decreases n - i,
    {
        let mut entry = (StackValue::Null, StackValue::Null);
        entries.set_and_swap(i, &mut entry);
        proof {
            assert(entry == orig[i as int]);
            assert(decreases_to!(*old(entries) => old(entries)@));
            assert(decreases_to!(old(entries)@ => orig[i as int]));
            assert(decreases_to!(orig[i as int] => orig[i as int].0));
            assert(decreases_to!(orig[i as int] => orig[i as int].1));
        }
        let (mut key, mut value) = entry;
        replace_alias(&mut key, updated);
        replace_alias(&mut value, updated);
        let mut done = (key, value);
        entries.set_and_swap(i, &mut done);
        i += 1;
    }
    proof {
        lemma_model_pairs_index(orig);
        lemma_model_pairs_index(entries@);
        lemma_alias_pairs_index(model_pairs(orig), u);
        assert(model_pairs(entries@) =~= alias_pairs(model_pairs(orig), u));
    }
}

/// Whether position `p` of the stack is among those to update: every position when no list
/// is given, else those the list names.
pub open spec fn selected(affected: Option<Seq<usize>>, p: int) -> bool {
    match affected {
        None => true,
        Some(idx) => named_before(idx, idx.len() as int, p),
    }
}

/// Whether one of the first `k` positions of `idx` is `p`.
pub open spec fn named_before(idx: Seq<usize>, k: int, p: int) -> bool {
    exists|j: int| 0 <= j < k && idx[j] == p
}

fn alias_all(values: &mut Vec<StackValue>, updated: &StackValue)
    ensures
        final(values)@.len() == old(values)@.len(),
        forall|p: int| 0 <= p < old(values)@.len() ==> #[trigger] final(values)@[p].model()
            == alias(old(values)@[p].model(), updated.model()),
{
    let ghost orig = values@;
    let n = values.len();
    let mut i: usize = 0;
    while i < n
        invariant
            orig == old(values)@,
            n == orig.len(),
            values@.len() == n,
            i <= n,
            forall|j: int| 0 <= j < i ==> #[trigger] values@[j].model() == alias(orig[j].model(), updated.model()),
            forall|j: int| i <= j < n ==> #[trigger] values@[j] == orig[j],
        decreases n - i,
    {
        let mut item = StackValue::Null;
        values.set_and_swap(i, &mut item);
        replace_alias(&mut item, updated);
        values.set_and_swap(i, &mut item);
        i += 1;
    }
}

/// After a compound item changed, refreshes every alias of it: in the stack items that
/// `affected_stack_indices` names (every stack item when it is `None`; none when it names
/// none; positions past the stack are skipped), and in every local and static field.
pub fn propagate_update(updated: &StackValue, stack: &mut Vec<StackValue>, locals: &mut Vec<StackValue>, static_fields: &mut Vec<StackValue>, affected_stack_indices: Option<&[usize]>)
    ensures
        final(stack)@.len() == old(stack)@.len(),
        forall|p: int| 0 <= p < old(stack)@.len() ==> #[trigger] final(stack)@[p].model() == if selected(
            match affected_stack_indices { Some(idx) => Some(idx@), None => None },
            p,
        ) {
            alias(old(stack)@[p].model(), updated.model())
        } else {
            old(stack)@[p].model()
        },
        final(locals)@.len() == old(locals)@.len(),
        forall|p: int| 0 <= p < old(locals)@.len() ==> #[trigger] final(locals)@[p].model()
            == alias(old(locals)@[p].model(), updated.model()),
        final(static_fields)@.len() == old(static_fields)@.len(),
        forall|p: int| 0 <= p < old(static_fields)@.len() ==> #[trigger] final(static_fields)@[p].model()
            == alias(old(static_fields)@[p].model(), updated.model()),
{
    let ghost u = updated.model();
    match affected_stack_indices {
        Some(indices) => {
            let ghost orig = stack@;
            let n = stack.len();
            let mut k: usize = 0;
            while k < indices.len()
                invariant
                    orig == old(stack)@,
                    u == updated.model(),
                    n == orig.len(),
                    stack@.len() == n,
                    k <= indices@.len(),
                    forall|p: int| 0 <= p < n ==> #[trigger] stack@[p].model() == if named_before(indices@, k as int, p) {
                        alias(orig[p].model(), u)
                    } else {
                        orig[p].model()
                    },
                decreases indices.len() - k,
            {
                let idx = indices[k];
                if idx < n {
                    let mut item = StackValue::Null;
                    stack.set_and_swap(idx, &mut item);
                    let ghost before = item.model();
                    replace_alias(&mut item, updated);
                    stack.set_and_swap(idx, &mut item);
                    proof {
                        law_alias_idempotent(orig[idx as int].model(), u);
                    }
                }
                proof {
                    assert forall|p: int| 0 <= p < n implies #[trigger] stack@[p].model() == if named_before(indices@, k + 1, p) {
                        alias(orig[p].model(), u)
                    } else {
                        orig[p].model()
                    } by {
                        if p == indices@[k as int] {
                            assert(named_before(indices@, k + 1, p));
                        } else {
                            if named_before(indices@, k + 1, p) {
                                let k2 = choose|k2: int| 0 <= k2 < k + 1 && indices@[k2] == p;
                                assert(k2 < k);
                                assert(named_before(indices@, k as int, p));
                            }
                        }
                    }
                }
                k += 1;
            }
            proof {
                assert forall|p: int| 0 <= p < n implies #[trigger] stack@[p].model() == if selected(Some(indices@), p) {
                    alias(orig[p].model(), u)
                } else {
                    orig[p].model()
                } by {

                }
            }
        },
        None => {
            alias_all(stack, updated);
        },
    }
    alias_all(locals, updated);
    alias_all(static_fields, updated);
}


// ---------------------------------------------------------------------------
// Handing out identities

/// `v` with fresh identities for all its compound items, handed out from `next` on, children
/// before their parent and left to right (keys before values); with the next free identity.
pub open spec fn renumber(v: Item, next: int) -> (Item, int)
    decreases v, 0nat,
{
    match v {
        Item::Array(_, items) => {
            let r = renumber_seq(items, next);
            (Item::Array(r.1 as u64, r.0), r.1 + 1)
        },
        Item::Struct(_, items) => {
            let r = renumber_seq(items, next);
            (Item::Struct(r.1 as u64, r.0), r.1 + 1)
        },
        Item::Dictionary(_, entries) => {
            let r = renumber_pairs(entries, next);
            (Item::Dictionary(r.1 as u64, r.0), r.1 + 1)
        },
        Item::Buffer(_, b) => (Item::Buffer(next as u64, b), next + 1),
        _ => (v, next),
    }
}

/// The items of `s` renumbered one after the other from `next` on.
pub open spec fn renumber_seq(s: Seq<Item>, next: int) -> (Seq<Item>, int)
    decreases s, 1nat,
{
    if s.len() == 0 {
        (s, next)
    } else {
        let first = renumber(s[0], next);
        let rest = renumber_seq(s.subrange(1, s.len() as int), first.1);
        (seq![first.0] + rest.0, rest.1)
    }
}

/// The entries of `s` renumbered one after the other, key before value, from `next` on.
pub open spec fn renumber_pairs(s: Seq<(Item, Item)>, next: int) -> (Seq<(Item, Item)>, int)
    decreases s, 1nat,
{
    if s.len() == 0 {
        (s, next)
    } else {
        let k = renumber(s[0].0, next);
        let v = renumber(s[0].1, k.1);
        let rest = renumber_pairs(s.subrange(1, s.len() as int), v.1);
        (seq![(k.0, v.0)] + rest.0, rest.1)
    }
}

pub(crate) proof fn lemma_renumber_grows(v: Item, next: int)
    ensures
        renumber(v, next).1 >= next,
    decreases v, 0nat,
{
    match v {
        Item::Array(_, items) | Item::Struct(_, items) => lemma_renumber_seq_grows(items, next),
        Item::Dictionary(_, entries) => lemma_renumber_pairs_grows(entries, next),
        _ => {},
    }
}

pub(crate) proof fn lemma_renumber_seq_grows(s: Seq<Item>, next: int)
    ensures
        renumber_seq(s, next).1 >= next,
    decreases s, 1nat,
{
    if s.len() > 0 {
        lemma_renumber_grows(s[0], next);
        lemma_renumber_seq_grows(s.subrange(1, s.len() as int), renumber(s[0], next).1);
    }
}

pub(crate) proof fn lemma_renumber_pairs_grows(s: Seq<(Item, Item)>, next: int)
    ensures
        renumber_pairs(s, next).1 >= next,
    decreases s, 1nat,
{
    if s.len() > 0 {
        let k = renumber(s[0].0, next);
        lemma_renumber_grows(s[0].0, next);
        lemma_renumber_grows(s[0].1, k.1);
        lemma_renumber_pairs_grows(s.subrange(1, s.len() as int), renumber(s[0].1, k.1).1);
    }
}

/// Hands out the identities of compound items, in increasing order.
pub struct CompoundIds {
    next: u64,
}

impl CompoundIds {
    /// The identity that the next compound item gets.
    pub closed spec fn next_id(self) -> u64 {
        self.next
    }

    /// A source whose first identity is 0.
    pub fn new() -> (r: CompoundIds)
        ensures
            r.next_id() == 0,
    {
        CompoundIds { next: 0 }
    }

    fn take_id(&mut self) -> (id: u64)
        requires
            old(self).next_id() < u64::MAX,
        ensures
            id == old(self).next_id(),
            final(self).next_id() == old(self).next_id() + 1,
    {
        let id = self.next;
        self.next = self.next + 1;
        id
    }

    /// A new array holding `items`.
    pub fn array(&mut self, items: Vec<StackValue>) -> (r: StackValue)
        requires
            old(self).next_id() < u64::MAX,
        ensures
            r.model() == Item::Array(old(self).next_id(), model_seq(items@)),
            final(self).next_id() == old(self).next_id() + 1,
    {
        StackValue::Array(self.take_id(), items)
    }

    /// A new struct holding `items`.
    pub fn struct_value(&mut self, items: Vec<StackValue>) -> (r: StackValue)
        requires
            old(self).next_id() < u64::MAX,
        ensures
            r.model() == Item::Struct(old(self).next_id(), model_seq(items@)),
            final(self).next_id() == old(self).next_id() + 1,
    {
        StackValue::Struct(self.take_id(), items)
    }

    /// A new map holding `items`.
    pub fn dictionary(&mut self, items: Vec<(StackValue, StackValue)>) -> (r: StackValue)
        requires
            old(self).next_id() < u64::MAX,
        ensures
            r.model() == Item::Dictionary(old(self).next_id(), model_pairs(items@)),
            final(self).next_id() == old(self).next_id() + 1,
    {
        StackValue::Dictionary(self.take_id(), items)
    }

    /// A new buffer holding `bytes`.
    pub fn buffer(&mut self, bytes: Vec<u8>) -> (r: StackValue)
        requires
            old(self).next_id() < u64::MAX,
        ensures
            r.model() == Item::Buffer(old(self).next_id(), bytes@),
            final(self).next_id() == old(self).next_id() + 1,
    {
        StackValue::Buffer(self.take_id(), bytes)
    }

    /// A copy of `value` whose compound items, at any depth, are new items with fresh
    /// identities.
    pub fn deep_clone(&mut self, value: &StackValue) -> (r: StackValue)
        requires
            renumber(value.model(), old(self).next_id() as int).1 <= u64::MAX,
        ensures
            (r.model(), final(self).next_id() as int) == renumber(value.model(), old(self).next_id() as int),
        decreases value, 0nat,
    {
        match value {
            StackValue::Integer(v) => StackValue::Integer(*v),
            StackValue::BigInteger(b) => StackValue::BigInteger(b.clone()),
            StackValue::ByteString(b) => StackValue::ByteString(b.clone()),
            StackValue::Boolean(b) => StackValue::Boolean(*b),
            StackValue::Pointer(p) => StackValue::Pointer(*p),
            StackValue::Array(_, items) => {
                let cloned = self.clone_items(items);
                self.array(cloned)
            },
            StackValue::Struct(_, items) => {
                let cloned = self.clone_items(items);
                self.struct_value(cloned)
            },
            StackValue::Dictionary(_, entries) => {
                let cloned = self.clone_entries(entries);
                self.dictionary(cloned)
            },
            StackValue::Buffer(_, bytes) => self.buffer(bytes.clone()),
            StackValue::Interop(h) => StackValue::Interop(*h),
            StackValue::Iterator(h) => StackValue::Iterator(*h),
            StackValue::Null => StackValue::Null,
        }
    }

    fn clone_items(&mut self, items: &Vec<StackValue>) -> (r: Vec<StackValue>)
        requires
            renumber_seq(model_seq(items@), old(self).next_id() as int).1 < u64::MAX,
        ensures
            (model_seq(r@), final(self).next_id() as int) == renumber_seq(model_seq(items@), old(self).next_id() as int),
        decreases items, 1nat,
    {
        let ghost m = model_seq(items@);
        let ghost start = self.next as int;
        proof {
            lemma_model_seq_index(items@);
            assert(m.subrange(0, m.len() as int) =~= m);
            assert(model_seq(Seq::<StackValue>::empty()) =~= Seq::<Item>::empty());
        }
        let mut cloned: Vec<StackValue> = Vec::with_capacity(items.len());
        let mut i: usize = 0;
        while i < items.len()
            invariant
                i <= items@.len(),
                m == model_seq(items@),
                m.len() == items@.len(),
                forall|j: int| 0 <= j < items@.len() ==> #[trigger] m[j] == items@[j].model(),
                renumber_seq(m, start).1 < u64::MAX,
                renumber_seq(m, start) == ({
                    let rest = renumber_seq(m.subrange(i as int, m.len() as int), self.next_id() as int);
                    (model_seq(cloned@) + rest.0, rest.1)
                }),
            decreases items.len() - i,
        {
            proof {
                assert(decreases_to!(items => items@[i as int]));
                let tail = m.subrange(i as int, m.len() as int);
                assert(tail[0] == m[i as int]);
                assert(tail.subrange(1, tail.len() as int) =~= m.subrange(i + 1, m.len() as int));
                let first = renumber(m[i as int], self.next_id() as int);
                lemma_renumber_seq_grows(m.subrange(i + 1, m.len() as int), first.1);
            }
            let ghost before = cloned@;
            let c = self.deep_clone(&items[i]);
            cloned.push(c);
            proof {
                lemma_model_seq_push(before, c);
                let rest = renumber_seq(m.subrange(i + 1, m.len() as int), self.next_id() as int);
                assert(model_seq(before) + (seq![c.model()] + rest.0) =~= model_seq(before).push(c.model()) + rest.0);
            }
            i += 1;
        }
        proof {
            assert(model_seq(cloned@) + Seq::<Item>::empty() =~= model_seq(cloned@));
        }
        cloned
    }

    fn clone_entries(&mut self, entries: &Vec<(StackValue, StackValue)>) -> (r: Vec<(StackValue, StackValue)>)
        requires
            renumber_pairs(model_pairs(entries@), old(self).next_id() as int).1 < u64::MAX,
        ensures
            (model_pairs(r@), final(self).next_id() as int) == renumber_pairs(model_pairs(entries@), old(self).next_id() as int),
        decreases entries, 1nat,
    {
        let ghost m = model_pairs(entries@);
        let ghost start = self.next as int;
        proof {
            lemma_model_pairs_index(entries@);
            assert(m.subrange(0, m.len() as int) =~= m);
            assert(model_pairs(Seq::<(StackValue, StackValue)>::empty()) =~= Seq::<(Item, Item)>::empty());
        }
        let mut cloned: Vec<(StackValue, StackValue)> = Vec::with_capacity(entries.len());
        let mut i: usize = 0;
        while i < entries.len()
            invariant
                i <= entries@.len(),
                m == model_pairs(entries@),
                m.len() == entries@.len(),
                forall|j: int| 0 <= j < entries@.len() ==> #[trigger] m[j] == (entries@[j].0.model(), entries@[j].1.model()),
                renumber_pairs(m, start).1 < u64::MAX,
                renumber_pairs(m, start) == ({
                    let rest = renumber_pairs(m.subrange(i as int, m.len() as int), self.next_id() as int);
                    (model_pairs(cloned@) + rest.0, rest.1)
                }),
            decreases entries.len() - i,
        {
            proof {
                assert(decreases_to!(entries => entries@[i as int]));
                assert(decreases_to!(entries@[i as int] => entries@[i as int].0));
                assert(decreases_to!(entries@[i as int] => entries@[i as int].1));
                let tail = m.subrange(i as int, m.len() as int);
                assert(tail[0] == m[i as int]);
                assert(tail.subrange(1, tail.len() as int) =~= m.subrange(i + 1, m.len() as int));
                let k = renumber(m[i as int].0, self.next_id() as int);
                let v = renumber(m[i as int].1, k.1);
                lemma_renumber_grows(m[i as int].1, k.1);
                lemma_renumber_pairs_grows(m.subrange(i + 1, m.len() as int), v.1);
            }
            let ghost before = cloned@;
            let key = self.deep_clone(&entries[i].0);
            let value = self.deep_clone(&entries[i].1);
            cloned.push((key, value));
            proof {
                lemma_model_pairs_push(before, (key, value));
                let rest = renumber_pairs(m.subrange(i + 1, m.len() as int), self.next_id() as int);
                assert(model_pairs(before) + (seq![(key.model(), value.model())] + rest.0)
                    =~= model_pairs(before).push((key.model(), value.model())) + rest.0);
            }
            i += 1;
        }
        proof {
            assert(model_pairs(cloned@) + Seq::<(Item, Item)>::empty() =~= model_pairs(cloned@));
        }
        cloned
    }

    /// The value to store for `value`: a deep copy of a struct, which has value semantics,
    /// and a plain copy of anything else.
    pub fn clone_struct_for_storage(&mut self, value: &StackValue) -> (r: StackValue)
        requires
            value.model() is Struct ==> renumber(value.model(), old(self).next_id() as int).1 <= u64::MAX,
        ensures
            value.model() is Struct ==> (r.model(), final(self).next_id() as int) == renumber(value.model(), old(self).next_id() as int),
            !(value.model() is Struct) ==> r.model() == value.model() && final(self).next_id() == old(self).next_id(),
    {
        match value {
            StackValue::Struct(_, _) => self.deep_clone(value),
            _ => value.clone(),
        }
    }
}


/// `v` with every identity set to zero: what it holds, whatever identities it carries.
pub open spec fn erase_ids(v: Item) -> Item
    decreases v, 0nat,
{
    match v {
        Item::Array(_, items) => Item::Array(0, erase_seq(items)),
        Item::Struct(_, items) => Item::Struct(0, erase_seq(items)),
        Item::Dictionary(_, entries) => Item::Dictionary(0, erase_pairs(entries)),
        Item::Buffer(_, b) => Item::Buffer(0, b),
        _ => v,
    }
}

/// `erase_ids` applied to each item of `s`.
pub open spec fn erase_seq(s: Seq<Item>) -> Seq<Item>
    decreases s, 1nat,
{
    if s.len() == 0 { s } else { seq![erase_ids(s[0])] + erase_seq(s.subrange(1, s.len() as int)) }
}

/// `erase_ids` applied to each key and value of `s`.
pub open spec fn erase_pairs(s: Seq<(Item, Item)>) -> Seq<(Item, Item)>
    decreases s, 1nat,
{
    if s.len() == 0 {
        s
    } else {
        seq![(erase_ids(s[0].0), erase_ids(s[0].1))] + erase_pairs(s.subrange(1, s.len() as int))
    }
}

/// A deep copy holds what the original holds: for every item `v` and first identity `next`,
/// `erase_ids(renumber(v, next).0) == erase_ids(v)`.
pub proof fn law_deep_clone_keeps_content(v: Item, next: int)
    ensures
        erase_ids(renumber(v, next).0) == erase_ids(v),
    decreases v, 0nat,
{
    match v {
        Item::Array(_, items) | Item::Struct(_, items) => lemma_renumber_seq_keeps_content(items, next),
        Item::Dictionary(_, entries) => lemma_renumber_pairs_keeps_content(entries, next),
        _ => {},
    }
}

proof fn lemma_renumber_seq_keeps_content(s: Seq<Item>, next: int)
    ensures
        erase_seq(renumber_seq(s, next).0) == erase_seq(s),
    decreases s, 1nat,
{
    if s.len() > 0 {
        let first = renumber(s[0], next);
        let rest = s.subrange(1, s.len() as int);
        law_deep_clone_keeps_content(s[0], next);
        lemma_renumber_seq_keeps_content(rest, first.1);
        let out = renumber_seq(s, next).0;
        assert(out[0] == first.0);
        assert(out.subrange(1, out.len() as int) =~= renumber_seq(rest, first.1).0);
    }
}

proof fn lemma_renumber_pairs_keeps_content(s: Seq<(Item, Item)>, next: int)
    ensures
        erase_pairs(renumber_pairs(s, next).0) == erase_pairs(s),
    decreases s, 1nat,
{
    if s.len() > 0 {
        let k = renumber(s[0].0, next);
        let v = renumber(s[0].1, k.1);
        let rest = s.subrange(1, s.len() as int);
        law_deep_clone_keeps_content(s[0].0, next);
        law_deep_clone_keeps_content(s[0].1, k.1);
        lemma_renumber_pairs_keeps_content(rest, v.1);
        let out = renumber_pairs(s, next).0;
        assert(out[0] == (k.0, v.0));
        assert(out.subrange(1, out.len() as int) =~= renumber_pairs(rest, v.1).0);
    }
}

} // verus!
