//! The store of records: a slab of slots whose identifiers are reused.

use vstd::prelude::*;
use slab::Slab;

verus! {

/// What the store keeps for one user: a placeholder without fields.
#[derive(Clone, Copy, Debug, PartialEq, Eq, Structural)]
pub struct Record {}

/// Why a store operation did nothing.
#[derive(Clone, Copy, Debug, PartialEq, Eq, Structural)]
pub enum StoreError {
    /// No live record has the identifier.
    TargetNotFound,
}

/// `slab::Slab`, whose inside stays hidden from the verifier.
#[verifier::external_type_specification]
#[verifier::external_body]
#[verifier::reject_recursive_types(T)]
pub struct ExSlab<T>(slab::Slab<T>);

/// The values that a slab holds, each under its key.
pub uninterp spec fn slab_records(slab: Slab<Record>) -> Map<usize, Record>;

/// The slab's stack of vacant slots: the keys that were freed and not taken
/// again, the one freed last in front.
pub uninterp spec fn slab_vacant(slab: Slab<Record>) -> Seq<usize>;

/// The number of slots that the slab has, held and vacant ones together.
pub uninterp spec fn slab_slots(slab: Slab<Record>) -> usize;

/// `Slab::new`: a slab without slots.
#[verifier::external_body]
fn slab_new() -> (slab: Slab<Record>)
    ensures
        forall|key: usize| !slab_records(slab).contains_key(key),
        slab_vacant(slab).len() == 0,
        slab_slots(slab) == 0,
{
    Slab::new()
}

/// `Slab::insert`: the value goes into the slot on top of the stack of
/// vacant slots, which leaves the stack; with no vacant slot, into a new slot
/// behind the others. The slot's key is returned and every other entry
/// stays. Like `Vec::push`, the call aborts only where memory for a further
/// slot cannot be had.
#[verifier::external_body]
fn slab_insert(slab: &mut Slab<Record>, record: Record) -> (key: usize)
    ensures
        slab_vacant(*old(slab)).len() > 0 ==> key == slab_vacant(*old(slab))[0],
        slab_vacant(*old(slab)).len() > 0 ==> slab_vacant(*final(slab)) == slab_vacant(
            *old(slab),
        ).drop_first(),
        slab_vacant(*old(slab)).len() > 0 ==> slab_slots(*final(slab)) == slab_slots(*old(slab)),
        slab_vacant(*old(slab)).len() == 0 ==> key == slab_slots(*old(slab)),
        slab_vacant(*old(slab)).len() == 0 ==> slab_vacant(*final(slab)).len() == 0,
        slab_vacant(*old(slab)).len() == 0 ==> slab_slots(*final(slab)) == slab_slots(*old(slab))
            + 1,
        slab_records(*final(slab)) == slab_records(*old(slab)).insert(key, record),
{
    slab.insert(record)
}

/// `Slab::contains`: whether a value is held under the key.
#[verifier::external_body]
fn slab_contains(slab: &Slab<Record>, key: usize) -> (held: bool)
    ensures
        held == slab_records(*slab).contains_key(key),
{
    slab.contains(key)
}

/// `Slab::get`: the value under the key, if one is held.
#[verifier::external_body]
fn slab_get(slab: &Slab<Record>, key: usize) -> (found: Option<&Record>)
    ensures
        found == (if slab_records(*slab).contains_key(key) {
            Some(&slab_records(*slab)[key])
        } else {
            None
        }),
{
    slab.get(key)
}

/// `IndexMut` of `Slab`, which panics on a key that holds nothing: the value
/// under a held key is overwritten; everything else stays.
#[verifier::external_body]
fn slab_set(slab: &mut Slab<Record>, key: usize, record: Record)
    requires
        slab_records(*old(slab)).contains_key(key),
    ensures
        slab_records(*final(slab)) == slab_records(*old(slab)).insert(key, record),
        slab_vacant(*final(slab)) == slab_vacant(*old(slab)),
        slab_slots(*final(slab)) == slab_slots(*old(slab)),
{
    slab[key] = record;
}

/// `Slab::remove`, which panics on a key that holds nothing: the value under
/// a held key leaves the slab and is returned, the other entries stay, and
/// the slot goes on top of the stack of vacant slots.
#[verifier::external_body]
fn slab_remove(slab: &mut Slab<Record>, key: usize) -> (record: Record)
    requires
        slab_records(*old(slab)).contains_key(key),
    ensures
        record == slab_records(*old(slab))[key],
        slab_records(*final(slab)) == slab_records(*old(slab)).remove(key),
        slab_vacant(*final(slab)) == seq![key] + slab_vacant(*old(slab)),
        slab_slots(*final(slab)) == slab_slots(*old(slab)),
{
    slab.remove(key)
}

/// `Slab::iter`, keys only: the held keys, each once, in ascending order.
#[verifier::external_body]
fn slab_keys(slab: &Slab<Record>) -> (keys: Vec<usize>)
    ensures
        forall|i: int, j: int| 0 <= i < j < keys@.len() ==> keys@[i] < keys@[j],
        forall|key: usize| keys@.contains(key) <==> slab_records(*slab).contains_key(key),
{
    slab.iter().map(|(key, _)| key).collect()
}

/// The store as contracts see it: slots that hold a record or are vacant.
pub struct StoreState {
    /// The live records, each under its identifier.
    pub records: Map<usize, Record>,
    /// The freed identifiers that were not assigned again, the one freed
    /// last in front.
    pub free: Seq<usize>,
    /// The number of slots, live and freed ones together.
    pub slots: usize,
}

impl Record {
    /// The text that stands for a record.
    pub open spec fn rendered(self) -> Seq<u8> {
        seq![123u8, 125u8]
    }

    /// The record as text: an empty pair of braces.
    pub fn render(&self) -> (text: Vec<u8>)
        ensures
            text@ == self.rendered(),
    {
        let mut text: Vec<u8> = Vec::new();
        text.push(123);
        text.push(125);
        proof {
            assert(text@ =~= self.rendered());
        }
        text
    }
}

impl StoreState {
    /// Every slot below `slots` is live or stands once in `free`, never
    /// both, and no identifier from `slots` on is either.
    pub open spec fn wf(self) -> bool {
        &&& forall|id: usize| self.is_live(id) ==> id < self.slots
        &&& forall|i: int| 0 <= i < self.free.len() ==> (#[trigger] self.free[i]) < self.slots
        &&& forall|i: int| 0 <= i < self.free.len() ==> !self.is_live(#[trigger] self.free[i])
        &&& forall|i: int, j: int| 0 <= i < j < self.free.len() ==> self.free[i] != self.free[j]
        &&& forall|id: usize| id < self.slots ==> self.is_live(id) || self.free.contains(id)
    }

    /// The store without slots.
    pub open spec fn empty() -> StoreState {
        StoreState { records: Map::empty(), free: Seq::empty(), slots: 0 }
    }

    /// Whether a record lives under `id`.
    pub open spec fn is_live(self, id: usize) -> bool {
        self.records.contains_key(id)
    }

    /// What `get` answers for `id`.
    pub open spec fn lookup(self, id: usize) -> Result<Record, StoreError> {
        if self.is_live(id) {
            Ok(self.records[id])
        } else {
            Err(StoreError::TargetNotFound)
        }
    }

    /// Whether a further slot can be counted.
    pub open spec fn has_room(self) -> bool {
        self.free.len() > 0 || self.slots < usize::MAX
    }

    /// Whether `id` is the lowest identifier without a live record.
    pub open spec fn is_lowest_vacant(self, id: usize) -> bool {
        &&& !self.is_live(id)
        &&& forall|below: usize| below < id ==> self.is_live(below)
    }

    /// The identifier that the next `create` assigns: the lowest freed slot,
    /// or with no freed slot a new one behind the others.
    pub open spec fn next_id(self) -> usize {
        choose|id: usize| self.is_lowest_vacant(id)
    }

    /// The store once `record` was created, under `next_id()`.
    pub open spec fn created(self, record: Record) -> StoreState {
        let id = self.next_id();
        StoreState {
            records: self.records.insert(id, record),
            free: if self.free.contains(id) {
                self.free.remove(self.free.index_of(id))
            } else {
                self.free
            },
            slots: if id < self.slots {
                self.slots
            } else {
                (self.slots + 1) as usize
            },
        }
    }

    /// The store once the live record under `id` was overwritten.
    pub open spec fn replaced(self, id: usize, record: Record) -> StoreState {
        StoreState { records: self.records.insert(id, record), free: self.free, slots: self.slots }
    }

    /// The store once the live record under `id` was deleted and its slot
    /// freed.
    pub open spec fn deleted(self, id: usize) -> StoreState {
        StoreState {
            records: self.records.remove(id),
            free: seq![id] + self.free,
            slots: self.slots,
        }
    }

    /// `ids` lists the live identifiers: each once, in ascending order.
    pub open spec fn lists(self, ids: Seq<usize>) -> bool {
        &&& forall|i: int, j: int| 0 <= i < j < ids.len() ==> ids[i] < ids[j]
        &&& forall|id: usize| ids.contains(id) <==> self.is_live(id)
    }

    /// The live identifiers in ascending order.
    pub open spec fn listing(self) -> Seq<usize> {
        choose|ids: Seq<usize>| self.lists(ids)
    }

    /// Only one sequence lists the live identifiers.
    pub proof fn lemma_lists_unique(self, a: Seq<usize>, b: Seq<usize>)
        requires
            self.lists(a),
            self.lists(b),
        ensures
            a == b,
        decreases a.len(),
    {
        if a.len() == 0 {
            if b.len() > 0 {
                assert(b.contains(b[0]));
                assert(a.contains(b[0]));
            }
            assert(a =~= b);
        } else {
            assert(a.contains(a.last()));
            assert(b.contains(a.last()));
            assert(b.len() > 0);
            assert(b.contains(b.last()));
            assert(a.contains(b.last()));
            let top = a.last();
            let i = choose|i: int| 0 <= i < b.len() && b[i] == top;
            let j = choose|j: int| 0 <= j < a.len() && a[j] == b.last();
            assert(b.last() == top);
            let rest = StoreState { records: self.records.remove(top), free: self.free, slots: self.slots };
            assert forall|id: usize| a.drop_last().contains(id) <==> rest.is_live(id) by {
                if a.drop_last().contains(id) {
                    let k = choose|k: int| 0 <= k < a.len() - 1 && a.drop_last()[k] == id;
                    assert(a[k] == id);
                    assert(a.contains(id));
                }
                if rest.is_live(id) {
                    assert(a.contains(id));
                    let k = choose|k: int| 0 <= k < a.len() && a[k] == id;
                    assert(a.drop_last()[k] == id);
                }
            }
            assert forall|id: usize| b.drop_last().contains(id) <==> rest.is_live(id) by {
                if b.drop_last().contains(id) {
                    let k = choose|k: int| 0 <= k < b.len() - 1 && b.drop_last()[k] == id;
                    assert(b[k] == id);
                    assert(b.contains(id));
                }
                if rest.is_live(id) {
                    assert(b.contains(id));
                    let k = choose|k: int| 0 <= k < b.len() && b[k] == id;
                    assert(b.drop_last()[k] == id);
                }
            }
            rest.lemma_lists_unique(a.drop_last(), b.drop_last());
            assert(a =~= a.drop_last().push(top));
            assert(b =~= b.drop_last().push(top));
        }
    }

    proof fn lemma_vacant_from(self, start: usize) -> (id: usize)
        requires
            self.wf(),
            start <= self.slots,
            forall|below: usize| below < start ==> self.is_live(below),
        ensures
            self.is_lowest_vacant(id),
            id <= self.slots,
        decreases self.slots - start,
    {
        if self.is_live(start) {
            self.lemma_vacant_from((start + 1) as usize)
        } else {
            start
        }
    }

    /// A well-formed store has one lowest vacant identifier: a freed slot,
    /// or with none freed the slot behind the others.
    pub proof fn lemma_next_id(self)
        requires
            self.wf(),
        ensures
            self.is_lowest_vacant(self.next_id()),
            forall|id: usize| self.is_lowest_vacant(id) ==> id == self.next_id(),
            self.next_id() <= self.slots,
            self.next_id() < self.slots <==> self.free.contains(self.next_id()),
            self.free.len() > 0 ==> self.next_id() < self.slots,
    {
        let found = self.lemma_vacant_from(0);
        let next = self.next_id();
        assert(self.is_lowest_vacant(next));
        assert(next == found);
        if next < self.slots {
            assert(self.is_live(next) || self.free.contains(next));
        }
        if self.free.contains(next) {
            let i = self.free.index_of(next);
            assert(self.free[i] < self.slots);
        }
        if self.free.len() > 0 {
            assert(!self.is_live(self.free[0]));
            assert(self.free[0] < self.slots);
        }
    }

    /// A well-formed store stays so through a creation.
    pub proof fn lemma_created_wf(self, record: Record)
        requires
            self.wf(),
            self.has_room(),
        ensures
            self.created(record).wf(),
            !self.is_live(self.next_id()),
    {
        self.lemma_next_id();
        let id = self.next_id();
        let after = self.created(record);
        assert forall|k: usize| after.is_live(k) implies k < after.slots by {
            if k != id {
                assert(self.is_live(k));
            }
        }
        if id < self.slots {
            let m = self.free.index_of(id);
            assert(self.free[m] == id);
            assert(after.free =~= self.free.remove(m));
            assert forall|i: int| 0 <= i < after.free.len() implies after.free[i] == self.free[if i
                < m {
                i
            } else {
                i + 1
            }] by {}
            assert forall|i: int| 0 <= i < after.free.len() implies !after.is_live(
                #[trigger] after.free[i],
            ) && after.free[i] < after.slots by {
                let t = if i < m {
                    i
                } else {
                    i + 1
                };
                assert(after.free[i] == self.free[t]);
                assert(self.free[t] != self.free[m]);
            }
            assert forall|i: int, j: int| 0 <= i < j < after.free.len() implies after.free[i]
                != after.free[j] by {
                let ti = if i < m {
                    i
                } else {
                    i + 1
                };
                let tj = if j < m {
                    j
                } else {
                    j + 1
                };
                assert(after.free[i] == self.free[ti]);
                assert(after.free[j] == self.free[tj]);
            }
            assert forall|k: usize| k < after.slots implies after.is_live(k)
                || after.free.contains(k) by {
                if !after.is_live(k) {
                    assert(!self.is_live(k));
                    assert(self.free.contains(k));
                    let t = self.free.index_of(k);
                    assert(self.free[t] == k);
                    if t < m {
                        assert(after.free[t] == k);
                    } else {
                        assert(after.free[t - 1] == k);
                    }
                }
            }
        } else {
            assert(after.free == self.free);
            assert forall|k: usize| k < after.slots implies after.is_live(k)
                || after.free.contains(k) by {
                if k < self.slots {
                    assert(self.is_live(k) || self.free.contains(k));
                }
            }
        }
    }

    /// A well-formed store stays so through a deletion.
    pub proof fn lemma_deleted_wf(self, id: usize)
        requires
            self.wf(),
            self.is_live(id),
        ensures
            self.deleted(id).wf(),
    {
        let after = self.deleted(id);
        assert forall|i: int| 0 <= i < after.free.len() implies !after.is_live(
            #[trigger] after.free[i],
        ) && after.free[i] < after.slots by {
            if i > 0 {
                assert(after.free[i] == self.free[i - 1]);
            }
        }
        assert forall|i: int, j: int| 0 <= i < j < after.free.len() implies after.free[i]
            != after.free[j] by {
            assert(after.free[j] == self.free[j - 1]);
            if i > 0 {
                assert(after.free[i] == self.free[i - 1]);
            }
        }
        assert forall|k: usize| k < after.slots implies after.is_live(k) || after.free.contains(
            k,
        ) by {
            if k == id {
                assert(after.free[0] == id);
            } else if !self.is_live(k) {
                assert(self.free.contains(k));
                let i = choose|i: int| 0 <= i < self.free.len() && self.free[i] == k;
                assert(after.free[i + 1] == k);
            }
        }
        assert forall|k: usize| after.is_live(k) implies k < after.slots by {
            assert(self.is_live(k));
        }
    }

    /// A well-formed store stays so where a live record is overwritten.
    pub proof fn lemma_replaced_wf(self, id: usize, record: Record)
        requires
            self.wf(),
            self.is_live(id),
        ensures
            self.replaced(id, record).wf(),
    {
        let after = self.replaced(id, record);
        assert forall|k: usize| after.is_live(k) <==> self.is_live(k) by {}
        assert forall|k: usize| k < after.slots implies after.is_live(k) || after.free.contains(
            k,
        ) by {
            assert(self.is_live(k) || self.free.contains(k));
        }
    }
}

/// The records with `record` under each of `keys` as well.
spec fn with_taken(records: Map<usize, Record>, keys: Seq<usize>, record: Record) -> Map<
    usize,
    Record,
>
    decreases keys.len(),
{
    if keys.len() == 0 {
        records
    } else {
        with_taken(records, keys.drop_last(), record).insert(keys.last(), record)
    }
}

proof fn lemma_taken_keys(records: Map<usize, Record>, keys: Seq<usize>, record: Record, key: usize)
    requires
        !records.contains_key(key),
        !keys.contains(key),
    ensures
        !with_taken(records, keys, record).contains_key(key),
    decreases keys.len(),
{
    if keys.len() > 0 {
        assert(keys.last() == keys[keys.len() - 1]);
        assert forall|i: int| 0 <= i < keys.len() - 1 implies keys.drop_last()[i] != key by {
            assert(keys[i] != key);
        }
        lemma_taken_keys(records, keys.drop_last(), record, key);
    }
}

/// Records under identifiers that are reused once freed.
pub struct Store {
    slots: Slab<Record>,
}

impl View for Store {
    type V = StoreState;

    closed spec fn view(&self) -> StoreState {
        StoreState {
            records: slab_records(self.slots),
            free: slab_vacant(self.slots),
            slots: slab_slots(self.slots),
        }
    }
}

impl Store {
    /// Whether the store's slots are in order.
    pub open spec fn wf(&self) -> bool {
        self@.wf()
    }

    /// An empty store, whose first identifier is 0.
    pub fn new() -> (store: Store)
        ensures
            store.wf(),
            store@ == StoreState::empty(),
    {
        let store = Store { slots: slab_new() };
        proof {
            assert(store@.records =~= Map::<usize, Record>::empty());
            assert(store@.free =~= Seq::<usize>::empty());
        }
        store
    }

    /// The lowest identifier without a live record.
    pub fn lowest_vacant(&self) -> (id: usize)
        requires
            self.wf(),
        ensures
            self@.is_lowest_vacant(id),
            id == self@.next_id(),
    {
        let mut id: usize = 0;
        while slab_contains(&self.slots, id)
            invariant
                self.wf(),
                forall|below: usize| below < id ==> self@.is_live(below),
            decreases self@.slots - id,
        {
            assert(self@.is_live(id));
            id += 1;
        }
        proof {
            assert(!self@.is_live(id));
            assert(self@.is_lowest_vacant(id));
            self@.lemma_next_id();
        }
        id
    }

    /// Stores `record` under the lowest identifier without a live record and
    /// returns that identifier. The slab hands out the slot freed last, so
    /// the slots freed after the lowest one are taken for a moment and
    /// released again in their order.
    pub fn create(&mut self, record: Record) -> (id: usize)
        requires
            old(self).wf(),
        ensures
            final(self).wf(),
            old(self)@.is_lowest_vacant(id),
            id == old(self)@.next_id(),
            final(self)@ == old(self)@.created(record),
    {
        let ghost before = self@;
        proof {
            before.lemma_next_id();
        }
        let id = self.lowest_vacant();
        let mut taken: Vec<usize> = Vec::new();
        let mut key = slab_insert(&mut self.slots, record);
        proof {
            assert(taken@ =~= before.free.take(0));
            if before.free.len() > 0 {
                assert(before.free.drop_first() =~= before.free.skip(1));
            }
        }
        while key != id
            invariant
                before.wf(),
                before.is_lowest_vacant(id),
                id == before.next_id(),
                id <= before.slots,
                id < before.slots ==> before.free.contains(id),
                taken@.len() <= before.free.len(),
                taken@ == before.free.take(taken@.len() as int),
                forall|t: int| 0 <= t < taken@.len() ==> before.free[t] != id,
                self@.records == with_taken(before.records, taken@, record).insert(key, record),
                taken@.len() < before.free.len() ==> key == before.free[taken@.len() as int]
                    && self@.free == before.free.skip((taken@.len() + 1) as int) && self@.slots
                    == before.slots,
                taken@.len() == before.free.len() ==> key == before.slots && self@.free.len() == 0
                    && self@.slots == before.slots + 1,
            decreases before.free.len() - taken@.len(),
        {
            let ghost m = taken@.len() as int;
            proof {
                if m == before.free.len() {
                    let t = before.free.index_of(id);
                    assert(before.free[t] == id);
                    assert(false);
                }
            }
            taken.push(key);
            key = slab_insert(&mut self.slots, record);
            proof {
                assert(taken@ =~= before.free.take(m + 1));
                assert(taken@.drop_last() =~= before.free.take(m));
                assert(taken@.last() == before.free[m]);
                if m + 1 < before.free.len() {
                    assert(before.free.skip(m + 1)[0] == before.free[m + 1]);
                    assert(before.free.skip(m + 1).drop_first() =~= before.free.skip(m + 2));
                }
            }
        }
        let ghost m = taken@.len() as int;
        let ghost rest = self@.free;
        let ghost slots_after = self@.slots;
        proof {
            assert(before.free.subrange(m, m) + rest =~= rest);
        }
        while taken.len() > 0
            invariant
                before.wf(),
                m <= before.free.len(),
                taken@.len() <= m,
                taken@ == before.free.take(taken@.len() as int),
                forall|t: int| 0 <= t < m ==> before.free[t] != id,
                self@.records == with_taken(before.records, taken@, record).insert(id, record),
                self@.free == before.free.subrange(taken@.len() as int, m) + rest,
                self@.slots == slots_after,
            decreases taken@.len(),
        {
            let ghost i = taken@.len() as int;
            let ghost held = taken@;
            let released = taken.pop().unwrap();
            proof {
                assert(released == before.free[i - 1]);
                assert(held.last() == released);
                assert(held.drop_last() =~= taken@);
                assert(taken@ =~= before.free.take(i - 1));
            }
            let _ = slab_remove(&mut self.slots, released);
            proof {
                assert(!before.is_live(before.free[i - 1]));
                assert forall|t: int| 0 <= t < taken@.len() implies taken@[t] != released by {
                    assert(taken@[t] == before.free[t]);
                }
                lemma_taken_keys(before.records, taken@, record, released);
                assert(self@.records =~= with_taken(before.records, taken@, record).insert(
                    id,
                    record,
                ));
                assert(self@.free =~= before.free.subrange(i - 1, m) + rest);
            }
        }
        proof {
            assert(taken@.len() == 0);
            assert(before.free.subrange(0, m) =~= before.free.take(m));
            if m < before.free.len() {
                assert(before.free[m] == id);
                let at = before.free.index_of(id);
                assert(before.free[at] == id);
                assert(at == m);
                assert(self@.free =~= before.free.remove(m));
                assert(before.free[m] < before.slots);
            } else {
                assert(self@.free =~= before.free);
                if before.free.contains(id) {
                    let at = before.free.index_of(id);
                    assert(before.free[at] < before.slots);
                }
            }
            before.lemma_created_wf(record);
        }
        id
    }

    /// Whether a record lives under `id`.
    pub fn contains(&self, id: usize) -> (live: bool)
        ensures
            live == self@.is_live(id),
    {
        slab_contains(&self.slots, id)
    }

    /// The record under `id`.
    pub fn get(&self, id: usize) -> (found: Result<Record, StoreError>)
        ensures
            found == self@.lookup(id),
    {
        match slab_get(&self.slots, id) {
            Some(record) => Ok(*record),
            None => Err(StoreError::TargetNotFound),
        }
    }

    /// Overwrites the record under `id`, if one lives there.
    pub fn replace(&mut self, id: usize, record: Record) -> (done: Result<(), StoreError>)
        requires
            old(self).wf(),
        ensures
            final(self).wf(),
            done == (if old(self)@.is_live(id) {
                Ok::<(), StoreError>(())
            } else {
                Err(StoreError::TargetNotFound)
            }),
            final(self)@ == (if old(self)@.is_live(id) {
                old(self)@.replaced(id, record)
            } else {
                old(self)@
            }),
    {
        if slab_contains(&self.slots, id) {
            slab_set(&mut self.slots, id, record);
            proof {
                old(self)@.lemma_replaced_wf(id, record);
            }
            Ok(())
        } else {
            Err(StoreError::TargetNotFound)
        }
    }

    /// Deletes the record under `id`, if one lives there, and frees the slot.
    pub fn delete(&mut self, id: usize) -> (done: Result<(), StoreError>)
        requires
            old(self).wf(),
        ensures
            final(self).wf(),
            done == (if old(self)@.is_live(id) {
                Ok::<(), StoreError>(())
            } else {
                Err(StoreError::TargetNotFound)
            }),
            final(self)@ == (if old(self)@.is_live(id) {
                old(self)@.deleted(id)
            } else {
                old(self)@
            }),
    {
        if slab_contains(&self.slots, id) {
            let _ = slab_remove(&mut self.slots, id);
            proof {
                old(self)@.lemma_deleted_wf(id);
            }
            Ok(())
        } else {
            Err(StoreError::TargetNotFound)
        }
    }

    /// The live identifiers in ascending order.
    pub fn list_ids(&self) -> (ids: Vec<usize>)
        ensures
            ids@ == self@.listing(),
            self@.lists(ids@),
            ids@.no_duplicates(),
            ids@.to_set() == self@.records.dom(),
    {
        let ids = slab_keys(&self.slots);
        proof {
            assert(self@.lists(ids@));
            self@.lemma_lists_unique(ids@, self@.listing());
            assert(ids@.to_set() =~= self@.records.dom());
        }
        ids
    }
}

} // verus!
