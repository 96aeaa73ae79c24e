use vstd::prelude::*;

verus! {

/// A stack item as the host and the guest exchange it: compound items carry no identity.
#[derive(Debug, PartialEq)]
pub enum AbiStackValue {
    Integer(i64),
    BigInteger(Vec<u8>),
    ByteString(Vec<u8>),
    Boolean(bool),
    Pointer(i64),
    Array(Vec<AbiStackValue>),
    Struct(Vec<AbiStackValue>),
    Dictionary(Vec<(AbiStackValue, AbiStackValue)>),
    Interop(u64),
    Iterator(u64),
    Null,
}

/// The mathematical value of an exchanged stack item.
pub enum AbiItem {
    Integer(i64),
    BigInteger(Seq<u8>),
    ByteString(Seq<u8>),
    Boolean(bool),
    Pointer(i64),
    Array(Seq<AbiItem>),
    Struct(Seq<AbiItem>),
    Dictionary(Seq<(AbiItem, AbiItem)>),
    Interop(u64),
    Iterator(u64),
    Null,
}

impl AbiStackValue {
    /// The item with byte vectors as sequences and children as sequences of child models.
    pub open spec fn model(self) -> AbiItem
        decreases self, 0nat,
    {
        match self {
            AbiStackValue::Integer(v) => AbiItem::Integer(v),
            AbiStackValue::BigInteger(b) => AbiItem::BigInteger(b@),
            AbiStackValue::ByteString(b) => AbiItem::ByteString(b@),
            AbiStackValue::Boolean(b) => AbiItem::Boolean(b),
            AbiStackValue::Pointer(p) => AbiItem::Pointer(p),
            AbiStackValue::Array(items) => AbiItem::Array(abi_model_seq(items@)),
            AbiStackValue::Struct(items) => AbiItem::Struct(abi_model_seq(items@)),
            AbiStackValue::Dictionary(entries) => AbiItem::Dictionary(abi_model_pairs(entries@)),
            AbiStackValue::Interop(h) => AbiItem::Interop(h),
            AbiStackValue::Iterator(h) => AbiItem::Iterator(h),
            AbiStackValue::Null => AbiItem::Null,
        }
    }
}

/// The models of a sequence of items.
pub open spec fn abi_model_seq(s: Seq<AbiStackValue>) -> Seq<AbiItem>
    decreases s, 1nat,
{
    if s.len() == 0 {
        Seq::empty()
    } else {
        abi_model_seq(s.subrange(0, s.len() - 1)).push(s[s.len() - 1].model())
    }
}

/// The models of a sequence of key/value entries.
pub open spec fn abi_model_pairs(s: Seq<(AbiStackValue, AbiStackValue)>) -> Seq<(AbiItem, AbiItem)>
    decreases s, 1nat,
{
    if s.len() == 0 {
        Seq::empty()
    } else {
        abi_model_pairs(s.subrange(0, s.len() - 1)).push((s[s.len() - 1].0.model(), s[s.len() - 1].1.model()))
    }
}

/// `abi_model_seq` maps each element to its model, position by position.
pub proof fn lemma_abi_model_seq_index(s: Seq<AbiStackValue>)
    ensures
        abi_model_seq(s).len() == s.len(),
        forall|i: int| 0 <= i < s.len() ==> #[trigger] abi_model_seq(s)[i] == s[i].model(),
    decreases s.len(),
{
    if s.len() > 0 {
        lemma_abi_model_seq_index(s.subrange(0, s.len() - 1));
    }
}

/// `abi_model_pairs` maps each entry to the models of its key and value.
pub proof fn lemma_abi_model_pairs_index(s: Seq<(AbiStackValue, AbiStackValue)>)
    ensures
        abi_model_pairs(s).len() == s.len(),
        forall|i: int| 0 <= i < s.len() ==> #[trigger] abi_model_pairs(s)[i] == (s[i].0.model(), s[i].1.model()),
    decreases s.len(),
{
    if s.len() > 0 {
        lemma_abi_model_pairs_index(s.subrange(0, s.len() - 1));
    }
}

/// Pushing an item pushes its model.
pub proof fn lemma_abi_model_seq_push(s: Seq<AbiStackValue>, x: AbiStackValue)
    ensures
        abi_model_seq(s.push(x)) == abi_model_seq(s).push(x.model()),
{
    assert(s.push(x).subrange(0, s.len() as int) =~= s);
}

/// Pushing an entry pushes the models of its key and value.
pub proof fn lemma_abi_model_pairs_push(s: Seq<(AbiStackValue, AbiStackValue)>, x: (AbiStackValue, AbiStackValue))
    ensures
        abi_model_pairs(s.push(x)) == abi_model_pairs(s).push((x.0.model(), x.1.model())),
{
    assert(s.push(x).subrange(0, s.len() as int) =~= s);
}

impl AbiStackValue {
    /// A copy of the item, children copied at every depth.
    pub fn duplicate(&self) -> (r: AbiStackValue)
        ensures
            r.model() == self.model(),
        decreases self, 0nat,
    {
        match self {
            AbiStackValue::Integer(v) => AbiStackValue::Integer(*v),
            AbiStackValue::BigInteger(b) => AbiStackValue::BigInteger(b.clone()),
            AbiStackValue::ByteString(b) => AbiStackValue::ByteString(b.clone()),
            AbiStackValue::Boolean(b) => AbiStackValue::Boolean(*b),
            AbiStackValue::Pointer(p) => AbiStackValue::Pointer(*p),
            AbiStackValue::Array(items) => AbiStackValue::Array(duplicate_abi_items(items)),
            AbiStackValue::Struct(items) => AbiStackValue::Struct(duplicate_abi_items(items)),
            AbiStackValue::Dictionary(entries) => AbiStackValue::Dictionary(duplicate_abi_entries(entries)),
            AbiStackValue::Interop(h) => AbiStackValue::Interop(*h),
            AbiStackValue::Iterator(h) => AbiStackValue::Iterator(*h),
            AbiStackValue::Null => AbiStackValue::Null,
        }
    }
}

/// Copies of the items, in order.
pub fn duplicate_abi_items(items: &Vec<AbiStackValue>) -> (r: Vec<AbiStackValue>)
    ensures
        abi_model_seq(r@) == abi_model_seq(items@),
    decreases items, 1nat,
{
    let mut out: Vec<AbiStackValue> = Vec::with_capacity(items.len());
    let mut i: usize = 0;
    while i < items.len()
        invariant
            i <= items.len(),
            out@.len() == i,
            forall|j: int| 0 <= j < i ==> #[trigger] out@[j].model() == items@[j].model(),
        decreases items.len() - i,
    {
        proof { assert(decreases_to!(items => items@[i as int])); }
        let d = items[i].duplicate();
        out.push(d);
        i += 1;
    }
    proof {
        lemma_abi_model_seq_index(out@);
        lemma_abi_model_seq_index(items@);
        assert(abi_model_seq(out@) =~= abi_model_seq(items@));
    }
    out
}

/// Copies of the entries, in order.
pub fn duplicate_abi_entries(items: &Vec<(AbiStackValue, AbiStackValue)>) -> (r: Vec<(AbiStackValue, AbiStackValue)>)
    ensures
        abi_model_pairs(r@) == abi_model_pairs(items@),
    decreases items, 1nat,
{
    let mut out: Vec<(AbiStackValue, AbiStackValue)> = Vec::with_capacity(items.len());
    let mut i: usize = 0;
    while i < items.len()
        invariant
            i <= items.len(),
            out@.len() == i,
            forall|j: int| 0 <= j < i ==> (#[trigger] out@[j]).0.model() == items@[j].0.model()
                && out@[j].1.model() == items@[j].1.model(),
        decreases items.len() - i,
    {
        proof {
            assert(decreases_to!(items => items@[i as int]));
            assert(decreases_to!(items@[i as int] => items@[i as int].0));
            assert(decreases_to!(items@[i as int] => items@[i as int].1));
        }
        let k = items[i].0.duplicate();
        let v = items[i].1.duplicate();
        out.push((k, v));
        i += 1;
    }
    proof {
        lemma_abi_model_pairs_index(out@);
        lemma_abi_model_pairs_index(items@);
        assert(abi_model_pairs(out@) =~= abi_model_pairs(items@));
    }
    out
}

/// What a syscall handler answers: the items it leaves on the stack.
#[derive(Debug)]
pub struct HostCallbackResult {
    pub stack: Vec<AbiStackValue>,
}

/// How an execution ended.
#[derive(Debug, Clone, Copy, PartialEq, Eq, Structural)]
pub enum VmState {
    Halt,
    Fault,
}

/// The outcome of running a script.
#[derive(Debug)]
pub struct ExecutionResult {
    /// Fee consumed, in pico units.
    pub fee_consumed_pico: i64,
    /// How the execution ended.
    pub state: VmState,
    /// The evaluation stack left behind.
    pub stack: Vec<AbiStackValue>,
    /// Why it faulted, when it did.
    pub fault_message: Option<String>,
    /// The script offset of the fault, when known.
    pub fault_ip: Option<u32>,
    /// The encoded locals of the faulting frame, when captured.
    pub fault_locals: Option<Vec<u8>>,
}

} // verus!
