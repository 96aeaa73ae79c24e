use vstd::prelude::*;

verus! {

/// Largest key held by an inline slot.
pub const INLINE_KEY_CAP: usize = 32;
/// Largest value held by an inline slot.
pub const INLINE_VALUE_CAP: usize = 128;
/// Number of inline slots.
pub const INLINE_ENTRY_SLOTS: usize = 8;
/// Largest key held by a small slot.
pub const SMALL_KEY_CAP: usize = 4;
/// Largest value held by a small slot.
pub const SMALL_VALUE_CAP: usize = 4;
/// Number of small slots.
pub const SMALL_ENTRY_SLOTS: usize = 8;

/// Compares two byte slices element by element.
pub fn bytes_equal(a: &[u8], b: &[u8]) -> (r: bool)
    ensures
        r == (a@ == b@),
{
    if a.len() != b.len() {
        return false;
    }
    let mut i: usize = 0;
    while i < a.len()
        invariant
            a@.len() == b@.len(),
            i <= a@.len(),
            forall|j: int| 0 <= j < i ==> a@[j] == b@[j],
        decreases a.len() - i,
    {
        if a[i] != b[i] {
            return false;
        }
        i += 1;
    }
    assert(a@ =~= b@);
    true
}

/// Copies a byte slice into a new vector.
pub fn bytes_to_vec(a: &[u8]) -> (r: Vec<u8>)
    ensures
        r@ == a@,
{
    let mut out: Vec<u8> = Vec::with_capacity(a.len());
    let mut i: usize = 0;
    while i < a.len()
        invariant
            i <= a@.len(),
            out@ == a@.subrange(0, i as int),
        decreases a.len() - i,
    {
        out.push(a[i]);
        i += 1;
        assert(out@ =~= a@.subrange(0, i as int));
    }
    assert(a@.subrange(0, a@.len() as int) =~= a@);
    out
}

/// A key/value pair held by the storage cache.
pub struct StorageEntry {
    key: Vec<u8>,
    value: Vec<u8>,
}

impl StorageEntry {
    /// The entry's key.
    pub closed spec fn key_view(self) -> Seq<u8> {
        self.key@
    }

    /// The entry's value.
    pub closed spec fn value_view(self) -> Seq<u8> {
        self.value@
    }

    /// Builds an entry when the key and the value fit the given capacities.
    pub fn new(key: &[u8], value: &[u8], key_cap: usize, value_cap: usize) -> (r: Option<StorageEntry>)
        ensures
            r is Some <==> (key@.len() <= key_cap && value@.len() <= value_cap),
            r matches Some(e) ==> e.key_view() == key@ && e.value_view() == value@,
    {
        if key.len() > key_cap || value.len() > value_cap {
            return None;
        }
        Some(StorageEntry { key: bytes_to_vec(key), value: bytes_to_vec(value) })
    }

    /// Builds an entry for a small slot (key and value of at most four bytes).
    pub fn new_small(key: &[u8], value: &[u8]) -> (r: Option<StorageEntry>)
        ensures
            r is Some <==> (key@.len() <= SMALL_KEY_CAP && value@.len() <= SMALL_VALUE_CAP),
            r matches Some(e) ==> e.key_view() == key@ && e.value_view() == value@,
    {
        StorageEntry::new(key, value, SMALL_KEY_CAP, SMALL_VALUE_CAP)
    }

    /// Builds an entry for an inline slot (key of at most 32, value of at most 128 bytes).
    pub fn new_inline(key: &[u8], value: &[u8]) -> (r: Option<StorageEntry>)
        ensures
            r is Some <==> (key@.len() <= INLINE_KEY_CAP && value@.len() <= INLINE_VALUE_CAP),
            r matches Some(e) ==> e.key_view() == key@ && e.value_view() == value@,
    {
        StorageEntry::new(key, value, INLINE_KEY_CAP, INLINE_VALUE_CAP)
    }

    /// The entry's key bytes.
    pub fn key(&self) -> (r: &[u8])
        ensures
            r@ == self.key_view(),
    {
        self.key.as_slice()
    }

    /// The entry's value bytes.
    pub fn value(&self) -> (r: &[u8])
        ensures
            r@ == self.value_view(),
    {
        self.value.as_slice()
    }

    /// Whether the entry's key equals `key`.
    pub fn matches(&self, key: &[u8]) -> (r: bool)
        ensures
            r == (self.key_view() == key@),
    {
        bytes_equal(self.key.as_slice(), key)
    }

    /// Replaces the value when it fits `value_cap`; otherwise leaves the entry unchanged.
    pub fn overwrite_value(&mut self, value: &[u8], value_cap: usize) -> (r: bool)
        ensures
            r == (value@.len() <= value_cap),
            final(self).key_view() == old(self).key_view(),
            final(self).value_view() == (if r { value@ } else { old(self).value_view() }),
            !r ==> *final(self) == *old(self),
    {
        if value.len() > value_cap {
            return false;
        }
        self.value = bytes_to_vec(value);
        true
    }
}

/// Whether a slot holds an entry with key `k`.
pub open spec fn slot_holds(slot: Option<StorageEntry>, k: Seq<u8>) -> bool {
    slot matches Some(e) && e.key_view() == k
}

/// A fixed number of slots, each empty or holding one entry within the table's capacities.
struct SlotTable {
    slots: Vec<Option<StorageEntry>>,
    key_cap: usize,
    value_cap: usize,
}

impl SlotTable {
    /// Capacities respected and no key held twice.
    spec fn wf(self) -> bool {
        &&& forall|i: int| 0 <= i < self.slots@.len() ==> (#[trigger] self.slots@[i] matches Some(e)
            ==> e.key_view().len() <= self.key_cap && e.value_view().len() <= self.value_cap)
        &&& forall|i: int, j: int| 0 <= i < self.slots@.len() && 0 <= j < self.slots@.len() && i != j
            && (#[trigger] self.slots@[i]) is Some && (#[trigger] self.slots@[j]) is Some
            ==> self.slots@[i]->0.key_view() != self.slots@[j]->0.key_view()
    }

    spec fn slot_count(self) -> nat {
        self.slots@.len()
    }

    spec fn key_capacity(self) -> nat {
        self.key_cap as nat
    }

    spec fn value_capacity(self) -> nat {
        self.value_cap as nat
    }

    /// Whether some slot holds key `k`.
    spec fn has(self, k: Seq<u8>) -> bool {
        exists|i: int| 0 <= i < self.slots@.len() && slot_holds(self.slots@[i], k)
    }

    closed spec fn index_of(self, k: Seq<u8>) -> int {
        choose|i: int| 0 <= i < self.slots@.len() && slot_holds(self.slots@[i], k)
    }

    closed spec fn value_of(self, k: Seq<u8>) -> Seq<u8> {
        self.slots@[self.index_of(k)]->0.value_view()
    }

    /// The keys and values held by the table.
    spec fn map(self) -> Map<Seq<u8>, Seq<u8>> {
        Map::new(|k: Seq<u8>| self.has(k), |k: Seq<u8>| self.value_of(k))
    }

    /// Whether some slot is empty.
    spec fn has_free_slot(self) -> bool {
        exists|i: int| 0 <= i < self.slots@.len() && self.slots@[i] is None
    }

    proof fn lemma_at(self, i: int)
        requires
            self.wf(),
            0 <= i < self.slots@.len(),
            self.slots@[i] is Some,
        ensures
            self.has(self.slots@[i]->0.key_view()),
            self.index_of(self.slots@[i]->0.key_view()) == i,
            self.map().contains_key(self.slots@[i]->0.key_view()),
            self.map()[self.slots@[i]->0.key_view()] == self.slots@[i]->0.value_view(),
    {
        let k = self.slots@[i]->0.key_view();
        assert(slot_holds(self.slots@[i], k));
        let j = self.index_of(k);
        assert(slot_holds(self.slots@[j], k));
        if j != i {
            assert(self.slots@[i] is Some && self.slots@[j] is Some);
        }
    }

    /// An empty table with `count` slots.
    fn new(count: usize, key_cap: usize, value_cap: usize) -> (r: SlotTable)
        ensures
            r.wf(),
            r.slot_count() == count,
            r.key_capacity() == key_cap,
            r.value_capacity() == value_cap,
            r.map() == Map::<Seq<u8>, Seq<u8>>::empty(),
            count > 0 ==> r.has_free_slot(),
    {
        let mut slots: Vec<Option<StorageEntry>> = Vec::with_capacity(count);
        let mut i: usize = 0;
        while i < count
            invariant
                i <= count,
                slots@.len() == i,
                forall|j: int| 0 <= j < i ==> slots@[j] is None,
            decreases count - i,
        {
            slots.push(None);
            i += 1;
        }
        let r = SlotTable { slots, key_cap, value_cap };
        assert(r.map() =~= Map::<Seq<u8>, Seq<u8>>::empty());
        if count > 0 {
            assert(r.slots@[0] is None);
        }
        r
    }

    /// Index of the slot holding `key`.
    fn find(&self, key: &[u8]) -> (r: Option<usize>)
        requires
            self.wf(),
        ensures
            r matches Some(i) ==> i < self.slot_count() && slot_holds(self.slots@[i as int], key@),
            r is None <==> !self.has(key@),
    {
        let mut i: usize = 0;
        while i < self.slots.len()
            invariant
                i <= self.slots@.len(),
                forall|j: int| 0 <= j < i ==> !slot_holds(#[trigger] self.slots@[j], key@),
            decreases self.slots.len() - i,
        {
            match &self.slots[i] {
                Some(e) => {
                    if e.matches(key) {
                        return Some(i);
                    }
                },
                None => {},
            }
            i += 1;
        }
        None
    }

    /// Index of an empty slot.
    fn find_free(&self) -> (r: Option<usize>)
        ensures
            r matches Some(i) ==> i < self.slot_count() && self.slots@[i as int] is None,
            r is None <==> !self.has_free_slot(),
    {
        let mut i: usize = 0;
        while i < self.slots.len()
            invariant
                i <= self.slots@.len(),
                forall|j: int| 0 <= j < i ==> (#[trigger] self.slots@[j]) is Some,
            decreases self.slots.len() - i,
        {
            if self.slots[i].is_none() {
                return Some(i);
            }
            i += 1;
        }
        None
    }

    /// The value held for `key`.
    fn get(&self, key: &[u8]) -> (r: Option<&[u8]>)
        requires
            self.wf(),
        ensures
            r is Some <==> self.map().contains_key(key@),
            r matches Some(v) ==> v@ == self.map()[key@],
    {
        match self.find(key) {
            Some(i) => {
                proof { self.lemma_at(i as int); }
                match &self.slots[i] {
                    Some(e) => Some(e.value()),
                    None => None,
                }
            },
            None => None,
        }
    }

    /// Empties slot `i`.
    fn clear_at(&mut self, i: usize)
        requires
            old(self).wf(),
            i < old(self).slot_count(),
            old(self).slots@[i as int] is Some,
        ensures
            final(self).wf(),
            final(self).slot_count() == old(self).slot_count(),
            final(self).key_capacity() == old(self).key_capacity(),
            final(self).value_capacity() == old(self).value_capacity(),
            final(self).has_free_slot(),
            final(self).map() == old(self).map().remove(old(self).slots@[i as int]->0.key_view()),
    {
        let ghost old_self = *self;
        let ghost k = old_self.slots@[i as int]->0.key_view();
        proof { old_self.lemma_at(i as int); }
        self.slots.set(i, None);
        let ghost new_self = *self;
        assert(new_self.slots@[i as int] is None);
        assert forall|k2: Seq<u8>| #[trigger] new_self.has(k2) <==> old_self.has(k2) && k2 != k by {
            if new_self.has(k2) {
                let j = choose|j: int| 0 <= j < new_self.slots@.len() && slot_holds(new_self.slots@[j], k2);
                assert(j != i);
                assert(slot_holds(old_self.slots@[j], k2));
                if k2 == k {
                    assert(old_self.slots@[j] is Some && old_self.slots@[i as int] is Some);
                }
            }
            if old_self.has(k2) && k2 != k {
                let j = old_self.index_of(k2);
                assert(slot_holds(old_self.slots@[j], k2));
                assert(j != i);
                assert(slot_holds(new_self.slots@[j], k2));
            }
        }
        assert forall|k2: Seq<u8>| new_self.has(k2) implies #[trigger] new_self.value_of(k2) == old_self.value_of(k2) by {
            let j = new_self.index_of(k2);
            assert(slot_holds(new_self.slots@[j], k2));
            assert(j != i);
            assert(new_self.slots@[j] == old_self.slots@[j]);
            old_self.lemma_at(j);
        }
        assert(new_self.map() =~= old_self.map().remove(k));
    }

    /// Places `e` in slot `i`, which is empty or already holds the same key.
    fn put_at(&mut self, i: usize, e: StorageEntry)
        requires
            old(self).wf(),
            i < old(self).slot_count(),
            e.key_view().len() <= old(self).key_capacity(),
            e.value_view().len() <= old(self).value_capacity(),
            old(self).slots@[i as int] is None ==> !old(self).has(e.key_view()),
            old(self).slots@[i as int] is Some ==> slot_holds(old(self).slots@[i as int], e.key_view()),
        ensures
            final(self).wf(),
            final(self).slot_count() == old(self).slot_count(),
            final(self).key_capacity() == old(self).key_capacity(),
            final(self).value_capacity() == old(self).value_capacity(),
            final(self).map() == old(self).map().insert(e.key_view(), e.value_view()),
    {
        let ghost old_self = *self;
        let ghost k = e.key_view();
        let ghost v = e.value_view();
        self.slots.set(i, Some(e));
        let ghost new_self = *self;
        assert forall|a: int, b: int| 0 <= a < new_self.slots@.len() && 0 <= b < new_self.slots@.len() && a != b
            && (#[trigger] new_self.slots@[a]) is Some && (#[trigger] new_self.slots@[b]) is Some
            implies new_self.slots@[a]->0.key_view() != new_self.slots@[b]->0.key_view() by {
            if a == i {
                assert(old_self.slots@[b] is Some);
                if new_self.slots@[b]->0.key_view() == k {
                    assert(slot_holds(old_self.slots@[b], k));
                    if old_self.slots@[i as int] is Some {
                        assert(old_self.slots@[i as int] is Some && old_self.slots@[b] is Some);
                    }
                }
            } else if b == i {
                assert(old_self.slots@[a] is Some);
                if new_self.slots@[a]->0.key_view() == k {
                    assert(slot_holds(old_self.slots@[a], k));
                    if old_self.slots@[i as int] is Some {
                        assert(old_self.slots@[i as int] is Some && old_self.slots@[a] is Some);
                    }
                }
            } else {
                assert(old_self.slots@[a] is Some && old_self.slots@[b] is Some);
            }
        }
        assert(new_self.wf());
        proof { new_self.lemma_at(i as int); }
        assert forall|k2: Seq<u8>| k2 != k implies (#[trigger] new_self.has(k2) <==> old_self.has(k2)) by {
            if new_self.has(k2) {
                let j = choose|j: int| 0 <= j < new_self.slots@.len() && slot_holds(new_self.slots@[j], k2);
                assert(j != i);
                assert(slot_holds(old_self.slots@[j], k2));
            }
            if old_self.has(k2) {
                let j = old_self.index_of(k2);
                assert(slot_holds(old_self.slots@[j], k2));
                assert(j != i);
                assert(slot_holds(new_self.slots@[j], k2));
            }
        }
        assert forall|k2: Seq<u8>| k2 != k && new_self.has(k2) implies #[trigger] new_self.value_of(k2) == old_self.value_of(k2) by {
            let j = new_self.index_of(k2);
            assert(slot_holds(new_self.slots@[j], k2));
            assert(j != i);
            old_self.lemma_at(j);
        }
        assert(new_self.map() =~= old_self.map().insert(k, v));
    }

    /// Empties the slot holding `key`, if any; reports whether one did.
    fn remove_key(&mut self, key: &[u8]) -> (r: bool)
        requires
            old(self).wf(),
        ensures
            final(self).wf(),
            final(self).slot_count() == old(self).slot_count(),
            final(self).key_capacity() == old(self).key_capacity(),
            final(self).value_capacity() == old(self).value_capacity(),
            r == old(self).has(key@),
            final(self).map() == old(self).map().remove(key@),
            r ==> final(self).has_free_slot(),
            !r ==> final(self).slots@ == old(self).slots@,
    {
        match self.find(key) {
            Some(i) => {
                self.clear_at(i);
                true
            },
            None => {
                assert(self.map() =~= self.map().remove(key@));
                false
            },
        }
    }
}


impl SlotTable {
    /// Replaces the value held in slot `i` when it fits the table; otherwise leaves the table unchanged.
    fn overwrite_at(&mut self, i: usize, value: &[u8]) -> (r: bool)
        requires
            old(self).wf(),
            i < old(self).slot_count(),
            old(self).slots@[i as int] is Some,
        ensures
            final(self).wf(),
            final(self).slot_count() == old(self).slot_count(),
            final(self).key_capacity() == old(self).key_capacity(),
            final(self).value_capacity() == old(self).value_capacity(),
            r == (value@.len() <= old(self).value_capacity()),
            r ==> final(self).map() == old(self).map().insert(old(self).slots@[i as int]->0.key_view(), value@),
            !r ==> final(self).slots@ == old(self).slots@,
    {
        let ghost old_self = *self;
        let ghost k = old_self.slots@[i as int]->0.key_view();
        let mut taken: Option<StorageEntry> = None;
        self.slots.set_and_swap(i, &mut taken);
        match taken {
            Some(mut e) => {
                let ok = e.overwrite_value(value, self.value_cap);
                if ok {
                    proof {
                        assert(self.slots@[i as int] is None);
                        assert(self.slots@ == old_self.slots@.update(i as int, None));
                    }
                    let ghost mid = *self;
                    proof {
                        assert forall|a: int, b: int| 0 <= a < mid.slots@.len() && 0 <= b < mid.slots@.len() && a != b
                            && (#[trigger] mid.slots@[a]) is Some && (#[trigger] mid.slots@[b]) is Some
                            implies mid.slots@[a]->0.key_view() != mid.slots@[b]->0.key_view() by {
                            assert(old_self.slots@[a] is Some && old_self.slots@[b] is Some);
                        }
                        assert(mid.wf());
                        assert forall|k2: Seq<u8>| mid.has(k2) implies k2 != k by {
                            let j = choose|j: int| 0 <= j < mid.slots@.len() && slot_holds(mid.slots@[j], k2);
                            assert(j != i);
                            assert(old_self.slots@[j] is Some && old_self.slots@[i as int] is Some);
                        }
                        old_self.lemma_at(i as int);
                        assert forall|k2: Seq<u8>| k2 != k implies (#[trigger] mid.has(k2) <==> old_self.has(k2)) by {
                            if old_self.has(k2) {
                                let j = old_self.index_of(k2);
                                assert(slot_holds(old_self.slots@[j], k2));
                                assert(j != i);
                                assert(slot_holds(mid.slots@[j], k2));
                            }
                            if mid.has(k2) {
                                let j = choose|j: int| 0 <= j < mid.slots@.len() && slot_holds(mid.slots@[j], k2);
                                assert(slot_holds(old_self.slots@[j], k2));
                            }
                        }
                        assert forall|k2: Seq<u8>| mid.has(k2) implies #[trigger] mid.value_of(k2) == old_self.value_of(k2) by {
                            let j = mid.index_of(k2);
                            assert(slot_holds(mid.slots@[j], k2));
                            old_self.lemma_at(j);
                        }
                        assert(mid.map() =~= old_self.map().remove(k));
                    }
                    self.put_at(i, e);
                    proof {
                        assert(old_self.map().remove(k).insert(k, value@) =~= old_self.map().insert(k, value@));
                    }
                    true
                } else {
                    self.slots.set(i, Some(e));
                    proof {
                        assert(self.slots@ =~= old_self.slots@);
                    }
                    false
                }
            },
            None => {
                proof { assert(false); }
                false
            },
        }
    }
}

/// Unbounded storage for entries that do not fit a slot; no key is held twice.
struct HeapTable {
    entries: Vec<StorageEntry>,
}

impl HeapTable {
    spec fn wf(self) -> bool {
        forall|i: int, j: int| 0 <= i < self.entries@.len() && 0 <= j < self.entries@.len() && i != j
            ==> (#[trigger] self.entries@[i]).key_view() != (#[trigger] self.entries@[j]).key_view()
    }

    spec fn has(self, k: Seq<u8>) -> bool {
        exists|i: int| 0 <= i < self.entries@.len() && (#[trigger] self.entries@[i]).key_view() == k
    }

    spec fn index_of(self, k: Seq<u8>) -> int {
        choose|i: int| 0 <= i < self.entries@.len() && (#[trigger] self.entries@[i]).key_view() == k
    }

    spec fn map(self) -> Map<Seq<u8>, Seq<u8>> {
        Map::new(|k: Seq<u8>| self.has(k), |k: Seq<u8>| self.entries@[self.index_of(k)].value_view())
    }

    proof fn lemma_at(self, i: int)
        requires
            self.wf(),
            0 <= i < self.entries@.len(),
        ensures
            self.has(self.entries@[i].key_view()),
            self.index_of(self.entries@[i].key_view()) == i,
            self.map().contains_key(self.entries@[i].key_view()),
            self.map()[self.entries@[i].key_view()] == self.entries@[i].value_view(),
    {
        let k = self.entries@[i].key_view();
        assert(self.entries@[i].key_view() == k);
        let j = self.index_of(k);
        assert(self.entries@[j].key_view() == k);
    }

    fn new() -> (r: HeapTable)
        ensures
            r.wf(),
            r.map() == Map::<Seq<u8>, Seq<u8>>::empty(),
    {
        let r = HeapTable { entries: Vec::new() };
        assert(r.map() =~= Map::<Seq<u8>, Seq<u8>>::empty());
        r
    }

    fn find(&self, key: &[u8]) -> (r: Option<usize>)
        requires
            self.wf(),
        ensures
            r matches Some(i) ==> i < self.entries@.len() && self.entries@[i as int].key_view() == key@,
            r is None <==> !self.has(key@),
    {
        let mut i: usize = 0;
        while i < self.entries.len()
            invariant
                i <= self.entries@.len(),
                forall|j: int| 0 <= j < i ==> (#[trigger] self.entries@[j]).key_view() != key@,
            decreases self.entries.len() - i,
        {
            if self.entries[i].matches(key) {
                return Some(i);
            }
            i += 1;
        }
        None
    }

    fn get(&self, key: &[u8]) -> (r: Option<&[u8]>)
        requires
            self.wf(),
        ensures
            r is Some <==> self.map().contains_key(key@),
            r matches Some(v) ==> v@ == self.map()[key@],
    {
        match self.find(key) {
            Some(i) => {
                proof { self.lemma_at(i as int); }
                Some(self.entries[i].value())
            },
            None => None,
        }
    }

    fn remove(&mut self, key: &[u8])
        requires
            old(self).wf(),
        ensures
            final(self).wf(),
            final(self).map() == old(self).map().remove(key@),
    {
        match self.find(key) {
            Some(i) => {
                let ghost old_self = *self;
                proof { old_self.lemma_at(i as int); }
                let _removed = self.entries.remove(i);
                let ghost new_self = *self;
                assert(new_self.entries@ == old_self.entries@.remove(i as int));
                assert forall|a: int, b: int| 0 <= a < new_self.entries@.len() && 0 <= b < new_self.entries@.len() && a != b
                    implies (#[trigger] new_self.entries@[a]).key_view() != (#[trigger] new_self.entries@[b]).key_view() by {
                    let oa = if a < i { a } else { a + 1 };
                    let ob = if b < i { b } else { b + 1 };
                    assert(new_self.entries@[a] == old_self.entries@[oa]);
                    assert(new_self.entries@[b] == old_self.entries@[ob]);
                    assert(old_self.entries@[oa].key_view() != old_self.entries@[ob].key_view());
                }
                assert forall|k2: Seq<u8>| #[trigger] new_self.has(k2) <==> old_self.has(k2) && k2 != key@ by {
                    if new_self.has(k2) {
                        let j = choose|j: int| 0 <= j < new_self.entries@.len() && (#[trigger] new_self.entries@[j]).key_view() == k2;
                        let oj = if j < i { j } else { j + 1 };
                        assert(new_self.entries@[j] == old_self.entries@[oj]);
                        assert(old_self.entries@[oj].key_view() == k2);
                        if k2 == key@ {
                            assert(old_self.entries@[i as int].key_view() == k2);
                        }
                    }
                    if old_self.has(k2) && k2 != key@ {
                        let oj = old_self.index_of(k2);
                        assert(old_self.entries@[oj].key_view() == k2);
                        assert(oj != i);
                        let j = if oj < i { oj } else { oj - 1 };
                        assert(new_self.entries@[j] == old_self.entries@[oj]);
                        assert(new_self.entries@[j].key_view() == k2);
                    }
                }
                assert forall|k2: Seq<u8>| new_self.has(k2) implies
                    new_self.entries@[new_self.index_of(k2)].value_view() == #[trigger] old_self.map()[k2] by {
                    let j = new_self.index_of(k2);
                    assert(new_self.entries@[j].key_view() == k2);
                    let oj = if j < i { j } else { j + 1 };
                    assert(new_self.entries@[j] == old_self.entries@[oj]);
                    old_self.lemma_at(oj);
                }
                assert(new_self.map() =~= old_self.map().remove(key@));
            },
            None => {
                assert(self.map() =~= self.map().remove(key@));
            },
        }
    }

    fn insert(&mut self, key: &[u8], value: &[u8])
        requires
            old(self).wf(),
        ensures
            final(self).wf(),
            final(self).map() == old(self).map().insert(key@, value@),
    {
        let ghost old_self = *self;
        let entry = StorageEntry { key: bytes_to_vec(key), value: bytes_to_vec(value) };
        match self.find(key) {
            Some(i) => {
                self.entries.set(i, entry);
                let ghost new_self = *self;
                assert forall|a: int, b: int| 0 <= a < new_self.entries@.len() && 0 <= b < new_self.entries@.len() && a != b
                    implies (#[trigger] new_self.entries@[a]).key_view() != (#[trigger] new_self.entries@[b]).key_view() by {
                    assert(old_self.entries@[a].key_view() != old_self.entries@[b].key_view());
                }
                proof { new_self.lemma_at(i as int); }
                assert forall|k2: Seq<u8>| k2 != key@ implies (#[trigger] new_self.has(k2) <==> old_self.has(k2)) by {
                    if new_self.has(k2) {
                        let j = choose|j: int| 0 <= j < new_self.entries@.len() && (#[trigger] new_self.entries@[j]).key_view() == k2;
                        assert(j != i);
                        assert(old_self.entries@[j].key_view() == k2);
                    }
                    if old_self.has(k2) {
                        let j = old_self.index_of(k2);
                        assert(old_self.entries@[j].key_view() == k2);
                        assert(j != i);
                        assert(new_self.entries@[j].key_view() == k2);
                    }
                }
                assert forall|k2: Seq<u8>| k2 != key@ && new_self.has(k2) implies
                    new_self.entries@[new_self.index_of(k2)].value_view() == #[trigger] old_self.map()[k2] by {
                    let j = new_self.index_of(k2);
                    assert(new_self.entries@[j].key_view() == k2);
                    assert(j != i);
                    old_self.lemma_at(j);
                }
                assert(new_self.map() =~= old_self.map().insert(key@, value@));
            },
            None => {
                self.entries.push(entry);
                let ghost new_self = *self;
                let ghost n = old_self.entries@.len() as int;
                assert forall|a: int, b: int| 0 <= a < new_self.entries@.len() && 0 <= b < new_self.entries@.len() && a != b
                    implies (#[trigger] new_self.entries@[a]).key_view() != (#[trigger] new_self.entries@[b]).key_view() by {
                    if a == n {
                        assert(old_self.entries@[b].key_view() != key@);
                    } else if b == n {
                        assert(old_self.entries@[a].key_view() != key@);
                    } else {
                        assert(old_self.entries@[a].key_view() != old_self.entries@[b].key_view());
                    }
                }
                proof { new_self.lemma_at(n); }
                assert forall|k2: Seq<u8>| k2 != key@ implies (#[trigger] new_self.has(k2) <==> old_self.has(k2)) by {
                    if new_self.has(k2) {
                        let j = choose|j: int| 0 <= j < new_self.entries@.len() && (#[trigger] new_self.entries@[j]).key_view() == k2;
                        assert(j != n);
                        assert(old_self.entries@[j].key_view() == k2);
                    }
                    if old_self.has(k2) {
                        let j = old_self.index_of(k2);
                        assert(old_self.entries@[j].key_view() == k2);
                        assert(new_self.entries@[j].key_view() == k2);
                    }
                }
                assert forall|k2: Seq<u8>| k2 != key@ && new_self.has(k2) implies
                    new_self.entries@[new_self.index_of(k2)].value_view() == #[trigger] old_self.map()[k2] by {
                    let j = new_self.index_of(k2);
                    assert(new_self.entries@[j].key_view() == k2);
                    assert(j != n);
                    old_self.lemma_at(j);
                }
                assert(new_self.map() =~= old_self.map().insert(key@, value@));
            },
        }
    }
}

/// The bytes a lookup returned, as a sequence.
pub open spec fn bytes_opt(r: Option<&[u8]>) -> Option<Seq<u8>> {
    match r {
        Some(v) => Some(v@),
        None => None,
    }
}

/// Whether a key/value pair fits a small slot.
pub open spec fn fits_small(k: Seq<u8>, v: Seq<u8>) -> bool {
    k.len() <= SMALL_KEY_CAP && v.len() <= SMALL_VALUE_CAP
}

/// Whether a key/value pair fits an inline slot.
pub open spec fn fits_inline(k: Seq<u8>, v: Seq<u8>) -> bool {
    k.len() <= INLINE_KEY_CAP && v.len() <= INLINE_VALUE_CAP
}

/// The in-process storage cache serving the built-in storage syscalls.
///
/// Entries live in exactly one of three tiers: eight small slots (keys and values of at most
/// four bytes), eight inline slots (keys of at most 32, values of at most 128 bytes), and an
/// unbounded heap. A lookup tries the tiers in that order. Beside the tiers, `hot_small`
/// remembers the most recently written or promoted small entry and answers lookups first.
pub struct BuiltinStorage {
    hot_small: Option<StorageEntry>,
    small: SlotTable,
    inline: SlotTable,
    heap: HeapTable,
}

impl View for BuiltinStorage {
    type V = Map<Seq<u8>, Seq<u8>>;

    /// The keys and values held by the tiers.
    closed spec fn view(&self) -> Map<Seq<u8>, Seq<u8>> {
        self.heap.map().union_prefer_right(self.inline.map()).union_prefer_right(self.small.map())
    }
}

impl BuiltinStorage {
    /// Tier shapes and capacities hold, no key is held twice, and the remembered entry is small.
    pub closed spec fn wf(self) -> bool {
        &&& self.small.wf()
        &&& self.small.slot_count() == SMALL_ENTRY_SLOTS
        &&& self.small.key_capacity() == SMALL_KEY_CAP
        &&& self.small.value_capacity() == SMALL_VALUE_CAP
        &&& self.inline.wf()
        &&& self.inline.slot_count() == INLINE_ENTRY_SLOTS
        &&& self.inline.key_capacity() == INLINE_KEY_CAP
        &&& self.inline.value_capacity() == INLINE_VALUE_CAP
        &&& self.heap.wf()
        &&& forall|k: Seq<u8>| !(#[trigger] self.small.map().contains_key(k) && self.inline.map().contains_key(k))
        &&& forall|k: Seq<u8>| !(#[trigger] self.small.map().contains_key(k) && self.heap.map().contains_key(k))
        &&& forall|k: Seq<u8>| !(#[trigger] self.inline.map().contains_key(k) && self.heap.map().contains_key(k))
        &&& (self.hot_small matches Some(e) ==> fits_small(e.key_view(), e.value_view()))
    }

    /// Whether the heap tier holds `k`.
    pub closed spec fn in_heap(self, k: Seq<u8>) -> bool {
        self.heap.map().contains_key(k)
    }

    /// Whether a slot can take `v` under `k`: the pair fits a small slot and the small slots
    /// hold `k` or have a free slot, or it fits an inline slot and the inline slots hold `k` or
    /// have a free slot.
    pub closed spec fn has_room(self, k: Seq<u8>, v: Seq<u8>) -> bool {
        ||| fits_small(k, v) && (self.small.map().contains_key(k) || self.small.has_free_slot())
        ||| fits_inline(k, v) && (self.inline.map().contains_key(k) || self.inline.has_free_slot())
    }

    /// The remembered small entry, as a key/value pair.
    pub closed spec fn hot_view(self) -> Option<(Seq<u8>, Seq<u8>)> {
        match self.hot_small {
            Some(e) => Some((e.key_view(), e.value_view())),
            None => None,
        }
    }

    /// What a lookup of `k` answers: the remembered entry when its key is `k`, else the tiers.
    pub open spec fn read(self, k: Seq<u8>) -> Option<Seq<u8>> {
        if self.hot_view() is Some && self.hot_view().unwrap().0 == k {
            Some(self.hot_view().unwrap().1)
        } else if self@.contains_key(k) {
            Some(self@[k])
        } else {
            None
        }
    }

    /// The remembered entry agrees with the tiers.
    pub open spec fn hot_coherent(self) -> bool {
        self.hot_view() matches Some(h) ==> self@.contains_key(h.0) && self@[h.0] == h.1
    }

    /// The remembered entry after a promoting lookup of `k`: a hit in the tiers whose key and
    /// value fit a small slot becomes the remembered entry.
    pub open spec fn promoted_hot(self, k: Seq<u8>) -> Option<(Seq<u8>, Seq<u8>)> {
        if self.hot_view() is Some && self.hot_view().unwrap().0 == k {
            self.hot_view()
        } else if self@.contains_key(k) && fits_small(k, self@[k]) {
            Some((k, self@[k]))
        } else {
            self.hot_view()
        }
    }

    /// The remembered entry after a write of `v` under `k`.
    pub open spec fn refreshed_hot(self, k: Seq<u8>, v: Seq<u8>) -> Option<(Seq<u8>, Seq<u8>)> {
        if fits_small(k, v) {
            Some((k, v))
        } else if self.hot_view() is Some && self.hot_view().unwrap().0 == k {
            None
        } else {
            self.hot_view()
        }
    }

    /// An empty storage cache.
    pub fn new() -> (r: BuiltinStorage)
        ensures
            r.wf(),
            r@ == Map::<Seq<u8>, Seq<u8>>::empty(),
            r.hot_view() is None,
    {
        let r = BuiltinStorage {
            hot_small: None,
            small: SlotTable::new(SMALL_ENTRY_SLOTS, SMALL_KEY_CAP, SMALL_VALUE_CAP),
            inline: SlotTable::new(INLINE_ENTRY_SLOTS, INLINE_KEY_CAP, INLINE_VALUE_CAP),
            heap: HeapTable::new(),
        };
        assert(r@ =~= Map::<Seq<u8>, Seq<u8>>::empty());
        r
    }

    /// The remembered small entry.
    pub fn hot_small(&self) -> (r: Option<&StorageEntry>)
        ensures
            r matches Some(e) ==> self.hot_view() == Some((e.key_view(), e.value_view())),
            r is None <==> self.hot_view() is None,
    {
        match &self.hot_small {
            Some(e) => Some(e),
            None => None,
        }
    }

    /// Forgets the remembered small entry.
    pub fn clear_hot_small(&mut self)
        requires
            old(self).wf(),
        ensures
            final(self).wf(),
            final(self)@ == old(self)@,
            final(self).hot_view() is None,
    {
        self.hot_small = None;
    }

    /// Looks up `key` without changing the cache.
    pub fn get(&self, key: &[u8]) -> (r: Option<&[u8]>)
        requires
            self.wf(),
        ensures
            bytes_opt(r) == self.read(key@),
    {
        match &self.hot_small {
            Some(entry) => {
                if entry.matches(key) {
                    return Some(entry.value());
                }
            },
            None => {},
        }
        match self.small.get(key) {
            Some(v) => {
                return Some(v);
            },
            None => {},
        }
        match self.inline.get(key) {
            Some(v) => {
                return Some(v);
            },
            None => {},
        }
        self.heap.get(key)
    }
}

impl BuiltinStorage {
    fn refresh_hot_small(&mut self, key: &[u8], value: &[u8])
        requires
            old(self).wf(),
        ensures
            final(self).wf(),
            final(self).small == old(self).small,
            final(self).inline == old(self).inline,
            final(self).heap == old(self).heap,
            final(self).hot_view() == old(self).refreshed_hot(key@, value@),
    {
        match StorageEntry::new_small(key, value) {
            Some(entry) => {
                self.hot_small = Some(entry);
            },
            None => {
                let hit = match &self.hot_small {
                    Some(entry) => entry.matches(key),
                    None => false,
                };
                if hit {
                    self.hot_small = None;
                }
            },
        }
    }

    fn find_small_index(&self, key: &[u8]) -> (r: Option<usize>)
        requires
            self.wf(),
        ensures
            r matches Some(i) ==> i < self.small.slot_count() && slot_holds(self.small.slots@[i as int], key@),
            r is None <==> !self.small.map().contains_key(key@),
    {
        self.small.find(key)
    }

    fn find_inline_index(&self, key: &[u8]) -> (r: Option<usize>)
        requires
            self.wf(),
        ensures
            r matches Some(i) ==> i < self.inline.slot_count() && slot_holds(self.inline.slots@[i as int], key@),
            r is None <==> !self.inline.map().contains_key(key@),
    {
        self.inline.find(key)
    }

    fn remove_from_inline_only(&mut self, key: &[u8])
        requires
            old(self).inline.wf(),
        ensures
            final(self).inline.wf(),
            final(self).inline.slot_count() == old(self).inline.slot_count(),
            final(self).inline.key_capacity() == old(self).inline.key_capacity(),
            final(self).inline.value_capacity() == old(self).inline.value_capacity(),
            final(self).small == old(self).small,
            final(self).heap == old(self).heap,
            final(self).hot_small == old(self).hot_small,
            final(self).inline.map() == old(self).inline.map().remove(key@),
    {
        let _ = self.inline.remove_key(key);
    }

    /// Looks up `key`; a hit whose key and value fit a small slot becomes the remembered entry.
    pub fn get_promoting(&mut self, key: &[u8]) -> (r: Option<&[u8]>)
        requires
            old(self).wf(),
        ensures
            final(self).wf(),
            bytes_opt(r) == old(self).read(key@),
            final(self)@ == old(self)@,
            final(self).hot_view() == old(self).promoted_hot(key@),
    {
        let hot_hit = match &self.hot_small {
            Some(entry) => entry.matches(key),
            None => false,
        };
        if hot_hit {
            return match &self.hot_small {
                Some(entry) => Some(entry.value()),
                None => None,
            };
        }
        match self.find_small_index(key) {
            Some(index) => {
                proof { self.small.lemma_at(index as int); }
                let promoted = match &self.small.slots[index] {
                    Some(entry) => StorageEntry::new_small(entry.key(), entry.value()),
                    None => None,
                };
                self.hot_small = promoted;
                return match &self.hot_small {
                    Some(entry) => Some(entry.value()),
                    None => None,
                };
            },
            None => {},
        }
        match self.find_inline_index(key) {
            Some(index) => {
                proof { self.inline.lemma_at(index as int); }
                let promoted = match &self.inline.slots[index] {
                    Some(entry) => StorageEntry::new_small(entry.key(), entry.value()),
                    None => None,
                };
                if promoted.is_some() {
                    self.hot_small = promoted;
                    return match &self.hot_small {
                        Some(entry) => Some(entry.value()),
                        None => None,
                    };
                }
                return match &self.inline.slots[index] {
                    Some(entry) => Some(entry.value()),
                    None => None,
                };
            },
            None => {},
        }
        let promoted = match self.heap.get(key) {
            Some(value) => StorageEntry::new_small(key, value),
            None => None,
        };
        if promoted.is_some() {
            self.hot_small = promoted;
            return match &self.hot_small {
                Some(entry) => Some(entry.value()),
                None => None,
            };
        }
        self.heap.get(key)
    }
}

impl BuiltinStorage {
    /// Stores `value` under `key`, in the first tier that can hold it.
    pub fn insert(&mut self, key: &[u8], value: &[u8])
        requires
            old(self).wf(),
        ensures
            final(self).wf(),
            final(self)@ == old(self)@.insert(key@, value@),
            final(self).hot_view() == old(self).refreshed_hot(key@, value@),
            old(self).hot_coherent() ==> final(self).hot_coherent(),
    {
        let ghost k = key@;
        let ghost v = value@;
        let ghost s0 = *self;
        self.refresh_hot_small(key, value);

        match self.find_small_index(key) {
            Some(index) => {
                proof {
                    assert(self.small.slots@[index as int] is Some);
                    assert(k.len() <= SMALL_KEY_CAP);
                    self.small.lemma_at(index as int);
                }
                if self.small.overwrite_at(index, value) {
                    self.remove_from_inline_only(key);
                    self.heap.remove(key);
                    assert(self@ =~= s0@.insert(k, v));
                    return;
                }
                proof {
                    let ghost t = *self;
                    assert(t.small.map() =~= s0.small.map());
                }
                self.small.clear_at(index);
            },
            None => {},
        }
        let ghost s1 = *self;
        assert(s1.wf());
        assert(!s1.small.map().contains_key(k));
        assert(s1@ =~= s0@.remove(k) || s1@ =~= s0@);

        match StorageEntry::new_small(key, value) {
            Some(entry) => {
                match self.small.find_free() {
                    Some(slot) => {
                        self.small.put_at(slot, entry);
                        let ghost s2 = *self;
                        let _ = self.inline.remove_key(key);
                        self.heap.remove(key);
                        assert(self@ =~= s0@.insert(k, v));
                        return;
                    },
                    None => {},
                }
            },
            None => {},
        }

        let ghost s2 = *self;
        assert(s2.inline == s0.inline);
        assert(fits_small(k, v) ==> !s0.small.has_free_slot());
        match self.find_inline_index(key) {
            Some(index) => {
                proof {
                    assert(self.inline.slots@[index as int] is Some);
                    assert(k.len() <= INLINE_KEY_CAP);
                    self.inline.lemma_at(index as int);
                }
                if self.inline.overwrite_at(index, value) {
                    self.heap.remove(key);
                    assert(self@ =~= s0@.insert(k, v));
                    return;
                }
                proof {
                    let ghost t = *self;
                    assert(t.inline.map() =~= s1.inline.map());
                }
                self.inline.clear_at(index);
            },
            None => {},
        }
        let ghost s3 = *self;
        assert(s3.wf());

        match StorageEntry::new_inline(key, value) {
            Some(entry) => {
                match self.inline.find_free() {
                    Some(slot) => {
                        self.inline.put_at(slot, entry);
                        self.heap.remove(key);
                        assert(self@ =~= s0@.insert(k, v));
                        return;
                    },
                    None => {},
                }
            },
            None => {},
        }

        self.heap.insert(key, value);
        assert(self@ =~= s0@.insert(k, v));
    }
}

impl BuiltinStorage {
    /// Stores `value` under `key` in a small or an inline slot; reports whether it found room.
    ///
    /// When it finds none, the key is no longer held by a slot: it stays only if the heap holds it.
    pub fn put_small_inline(&mut self, key: &[u8], value: &[u8]) -> (r: bool)
        requires
            old(self).wf(),
        ensures
            final(self).wf(),
            final(self).hot_view() == old(self).refreshed_hot(key@, value@),
            r == old(self).has_room(key@, value@),
            r ==> final(self)@ == old(self)@.insert(key@, value@),
            r && old(self).hot_coherent() ==> final(self).hot_coherent(),
            !r ==> final(self)@ == (if old(self).in_heap(key@) { old(self)@ } else { old(self)@.remove(key@) }),
    {
        let ghost k = key@;
        let ghost v = value@;
        let ghost s0 = *self;
        self.refresh_hot_small(key, value);

        match self.find_small_index(key) {
            Some(index) => {
                proof {
                    assert(self.small.slots@[index as int] is Some);
                    assert(k.len() <= SMALL_KEY_CAP);
                    self.small.lemma_at(index as int);
                }
                if self.small.overwrite_at(index, value) {
                    self.remove_from_inline_only(key);
                    self.heap.remove(key);
                    assert(self@ =~= s0@.insert(k, v));
                    return true;
                }
                proof {
                    let ghost t = *self;
                    assert(t.small.map() =~= s0.small.map());
                }
                self.small.clear_at(index);
            },
            None => {},
        }
        let ghost s1 = *self;
        assert(s1.wf());

        match StorageEntry::new_small(key, value) {
            Some(entry) => {
                match self.small.find_free() {
                    Some(slot) => {
                        self.small.put_at(slot, entry);
                        let _ = self.inline.remove_key(key);
                        self.heap.remove(key);
                        assert(self@ =~= s0@.insert(k, v));
                        return true;
                    },
                    None => {},
                }
            },
            None => {},
        }

        let ghost s2 = *self;
        assert(s2.inline == s0.inline);
        assert(fits_small(k, v) ==> !s0.small.has_free_slot());
        match self.find_inline_index(key) {
            Some(index) => {
                proof {
                    assert(self.inline.slots@[index as int] is Some);
                    assert(k.len() <= INLINE_KEY_CAP);
                    self.inline.lemma_at(index as int);
                }
                if self.inline.overwrite_at(index, value) {
                    self.heap.remove(key);
                    assert(self@ =~= s0@.insert(k, v));
                    return true;
                }
                proof {
                    let ghost t = *self;
                    assert(t.inline.map() =~= s1.inline.map());
                }
                self.inline.clear_at(index);
            },
            None => {},
        }
        let ghost s3 = *self;
        assert(s3.wf());

        match StorageEntry::new_inline(key, value) {
            Some(entry) => {
                match self.inline.find_free() {
                    Some(slot) => {
                        self.inline.put_at(slot, entry);
                        self.heap.remove(key);
                        assert(self@ =~= s0@.insert(k, v));
                        return true;
                    },
                    None => {},
                }
            },
            None => {},
        }
        proof {
            if s0.heap.map().contains_key(k) {
                assert(self@ =~= s0@);
            } else {
                assert(self@ =~= s0@.remove(k));
            }
            assert(fits_inline(k, v) ==> !s0.inline.has_free_slot());
        }
        false
    }

    /// Removes `key` from the cache.
    pub fn remove(&mut self, key: &[u8])
        requires
            old(self).wf(),
        ensures
            final(self).wf(),
            final(self)@ == old(self)@.remove(key@),
            final(self).hot_view() == (if old(self).hot_view() is Some && old(self).hot_view().unwrap().0 == key@ {
                None
            } else {
                old(self).hot_view()
            }),
            old(self).hot_coherent() ==> final(self).hot_coherent(),
    {
        let ghost s0 = *self;
        let hit = match &self.hot_small {
            Some(entry) => entry.matches(key),
            None => false,
        };
        if hit {
            self.hot_small = None;
        }
        if self.small.remove_key(key) {
            assert(s0.small.map().contains_key(key@));
            assert(!s0.inline.map().contains_key(key@) && !s0.heap.map().contains_key(key@));
            assert(self@ =~= s0@.remove(key@));
            return;
        }
        proof {
            let ghost t = *self;
            assert(t.small.map() =~= s0.small.map());
        }
        self.remove_from_inline_only(key);
        self.heap.remove(key);
        assert(self@ =~= s0@.remove(key@));
    }
}

/// While the remembered entry agrees with the tiers, a lookup answers exactly what the tiers hold.
pub proof fn law_coherent_read_is_view(s: BuiltinStorage, k: Seq<u8>)
    requires
        s.hot_coherent(),
    ensures
        s.read(k) == (if s@.contains_key(k) { Some(s@[k]) } else { None }),
{
}

/// A lookup after `insert(k, v)` answers `v`; while the remembered entry agreed with the tiers,
/// lookups of every other key answer what they answered before.
pub proof fn law_read_after_insert(before: BuiltinStorage, after: BuiltinStorage, k: Seq<u8>, v: Seq<u8>, other: Seq<u8>)
    requires
        after@ == before@.insert(k, v),
        after.hot_view() == before.refreshed_hot(k, v),
    ensures
        after.read(k) == Some(v),
        before.hot_coherent() && other != k ==> after.read(other) == before.read(other),
{
}

/// A lookup after `remove(k)` finds nothing; while the remembered entry agreed with the tiers,
/// lookups of every other key answer what they answered before.
pub proof fn law_read_after_remove(before: BuiltinStorage, after: BuiltinStorage, k: Seq<u8>, other: Seq<u8>)
    requires
        after@ == before@.remove(k),
        after.hot_view() == (if before.hot_view() is Some && before.hot_view().unwrap().0 == k {
            None
        } else {
            before.hot_view()
        }),
    ensures
        after.read(k) is None,
        before.hot_coherent() && other != k ==> after.read(other) == before.read(other),
{
}

/// A promoting lookup answers what a plain lookup answers, and afterwards every lookup answers
/// what it answered before, while the remembered entry agreed with the tiers.
pub proof fn law_promotion_is_invisible(before: BuiltinStorage, after: BuiltinStorage, k: Seq<u8>, other: Seq<u8>)
    requires
        before.hot_coherent(),
        after@ == before@,
        after.hot_view() == before.promoted_hot(k),
    ensures
        after.hot_coherent(),
        after.read(other) == before.read(other),
{
}

} // verus!





