use vstd::prelude::*;

verus! {

#[derive(Debug, PartialEq)]
pub enum StackValue {
    Integer(i64),
    BigInteger(Vec<u8>),
    ByteString(Vec<u8>),
    Boolean(bool),
    Pointer(usize),
    Array(u64, Vec<StackValue>),
    Struct(u64, Vec<StackValue>),
    Dictionary(u64, Vec<(StackValue, StackValue)>),
    Buffer(u64, Vec<u8>),
    Interop(u64),
    Iterator(u64),
    Null,
}

pub enum Item {
    Integer(i64),
    BigInteger(Seq<u8>),
    ByteString(Seq<u8>),
    Boolean(bool),
    Pointer(usize),
    Array(u64, Seq<Item>),
    Struct(u64, Seq<Item>),
    Dictionary(u64, Seq<(Item, Item)>),
    Buffer(u64, Seq<u8>),
    Interop(u64),
    Iterator(u64),
    Null,
}

impl StackValue {
    /// The mathematical value of a stack item: byte vectors become sequences,
    /// child vectors become sequences of child models.
    pub open spec fn model(self) -> Item
        decreases self, 0nat,
    {
        match self {
            StackValue::Integer(v) => Item::Integer(v),
            StackValue::BigInteger(b) => Item::BigInteger(b@),
            StackValue::ByteString(b) => Item::ByteString(b@),
            StackValue::Boolean(b) => Item::Boolean(b),
            StackValue::Pointer(p) => Item::Pointer(p),
            StackValue::Array(id, items) => Item::Array(id, model_seq(items@)),
            StackValue::Struct(id, items) => Item::Struct(id, model_seq(items@)),
            StackValue::Dictionary(id, entries) => Item::Dictionary(id, model_pairs(entries@)),
            StackValue::Buffer(id, b) => Item::Buffer(id, b@),
            StackValue::Interop(h) => Item::Interop(h),
            StackValue::Iterator(h) => Item::Iterator(h),
            StackValue::Null => Item::Null,
        }
    }
}

pub open spec fn model_seq(s: Seq<StackValue>) -> Seq<Item>
    decreases s, 1nat,
{
    if s.len() == 0 {
        Seq::empty()
    } else {
        model_seq(s.subrange(0, s.len() - 1)).push(s[s.len() - 1].model())
    }
}

pub open spec fn model_pairs(s: Seq<(StackValue, StackValue)>) -> Seq<(Item, Item)>
    decreases s, 1nat,
{
    if s.len() == 0 {
        Seq::empty()
    } else {
        model_pairs(s.subrange(0, s.len() - 1)).push((s[s.len() - 1].0.model(), s[s.len() - 1].1.model()))
    }
}

/// `model_seq` maps each element to its model, position by position.
pub proof fn lemma_model_seq_index(s: Seq<StackValue>)
    ensures
        model_seq(s).len() == s.len(),
        forall|i: int| 0 <= i < s.len() ==> #[trigger] model_seq(s)[i] == s[i].model(),
    decreases s.len(),
{
    if s.len() > 0 {
        lemma_model_seq_index(s.subrange(0, s.len() - 1));
    }
}

/// `model_pairs` maps each entry to the pair of models of its key and value.
pub proof fn lemma_model_pairs_index(s: Seq<(StackValue, StackValue)>)
    ensures
        model_pairs(s).len() == s.len(),
        forall|i: int| 0 <= i < s.len() ==> #[trigger] model_pairs(s)[i] == (s[i].0.model(), s[i].1.model()),
    decreases s.len(),
{
    if s.len() > 0 {
        lemma_model_pairs_index(s.subrange(0, s.len() - 1));
    }
}

/// Two sequences whose elements have equal models have equal models.
pub proof fn lemma_model_seq_ext(a: Seq<StackValue>, b: Seq<StackValue>)
    requires
        a.len() == b.len(),
        forall|i: int| 0 <= i < a.len() ==> #[trigger] a[i].model() == b[i].model(),
    ensures
        model_seq(a) == model_seq(b),
{
    lemma_model_seq_index(a);
    lemma_model_seq_index(b);
    assert(model_seq(a) =~= model_seq(b));
}

/// Two entry sequences whose keys and values have equal models have equal models.
pub proof fn lemma_model_pairs_ext(a: Seq<(StackValue, StackValue)>, b: Seq<(StackValue, StackValue)>)
    requires
        a.len() == b.len(),
        forall|i: int| 0 <= i < a.len() ==> #[trigger] a[i].0.model() == b[i].0.model() && a[i].1.model() == b[i].1.model(),
    ensures
        model_pairs(a) == model_pairs(b),
{
    lemma_model_pairs_index(a);
    lemma_model_pairs_index(b);
    assert(model_pairs(a) =~= model_pairs(b));
}

/// Pushing an item pushes its model.
pub proof fn lemma_model_seq_push(s: Seq<StackValue>, x: StackValue)
    ensures
        model_seq(s.push(x)) == model_seq(s).push(x.model()),
{
    assert(s.push(x).subrange(0, s.len() as int) =~= s);
}

/// Pushing an entry pushes the models of its key and value.
pub proof fn lemma_model_pairs_push(s: Seq<(StackValue, StackValue)>, x: (StackValue, StackValue))
    ensures
        model_pairs(s.push(x)) == model_pairs(s).push((x.0.model(), x.1.model())),
{
    assert(s.push(x).subrange(0, s.len() as int) =~= s);
}

impl StackValue {
    pub fn duplicate(&self) -> (r: StackValue)
        ensures r.model() == self.model(),
        decreases self,
    {
        match self {
            StackValue::Integer(v) => StackValue::Integer(*v),
            StackValue::BigInteger(b) => StackValue::BigInteger(b.clone()),
            StackValue::ByteString(b) => StackValue::ByteString(b.clone()),
            StackValue::Boolean(b) => StackValue::Boolean(*b),
            StackValue::Pointer(p) => StackValue::Pointer(*p),
            StackValue::Array(id, items) => StackValue::Array(*id, duplicate_items(items)),
            StackValue::Struct(id, items) => StackValue::Struct(*id, duplicate_items(items)),
            StackValue::Dictionary(id, entries) => StackValue::Dictionary(*id, duplicate_entries(entries)),
            StackValue::Buffer(id, b) => StackValue::Buffer(*id, b.clone()),
            StackValue::Interop(h) => StackValue::Interop(*h),
            StackValue::Iterator(h) => StackValue::Iterator(*h),
            StackValue::Null => StackValue::Null,
        }
    }
}

pub fn duplicate_items(items: &Vec<StackValue>) -> (r: Vec<StackValue>)
    ensures model_seq(r@) == model_seq(items@),
    decreases items,
{
    let mut out: Vec<StackValue> = Vec::with_capacity(items.len());
    let mut i: usize = 0;
    while i < items.len()
        invariant
            i <= items.len(),
            out@.len() == i,
            forall|j: int| 0 <= j < i ==> #[trigger] out@[j].model() == items@[j].model(),
        decreases items.len() - i,
    {
        proof { assert(decreases_to!(items => items@[i as int])); }
        let d = items[i].duplicate();
        out.push(d);
        i += 1;
    }
    proof { lemma_model_seq_ext(out@, items@); }
    out
}

pub fn duplicate_entries(items: &Vec<(StackValue, StackValue)>) -> (r: Vec<(StackValue, StackValue)>)
    ensures model_pairs(r@) == model_pairs(items@),
    decreases items,
{
    let mut out: Vec<(StackValue, StackValue)> = Vec::with_capacity(items.len());
    let mut i: usize = 0;
    while i < items.len()
        invariant
            i <= items.len(),
            out@.len() == i,
            forall|j: int| 0 <= j < i ==> (#[trigger] out@[j]).0.model() == items@[j].0.model()
                && out@[j].1.model() == items@[j].1.model(),
        decreases items.len() - i,
    {
        proof { assert(decreases_to!(items => items@[i as int])); }
        let k = items[i].0.duplicate();
        let v = items[i].1.duplicate();
        out.push((k, v));
        i += 1;
    }
    proof { lemma_model_pairs_ext(out@, items@); }
    out
}

impl Clone for StackValue {
    fn clone(&self) -> (r: Self)
        ensures r.model() == self.model(),
    {
        self.duplicate()
    }
}

} // verus!
