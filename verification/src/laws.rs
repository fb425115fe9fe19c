//! What holds of the store through every sequence of operations.

use vstd::prelude::*;
use crate::store::{Record, StoreError, StoreState};

verus! {

/// A record that was just created is found under the identifier it was
/// given, and every record that lived before is found as before.
pub proof fn law_created_record_is_found(store: StoreState, record: Record)
    requires
        store.wf(),
    ensures
        store.created(record).lookup(store.next_id()) == Ok::<Record, StoreError>(record),
        forall|id: usize|
            store.is_live(id) ==> store.created(record).lookup(id) == store.lookup(id),
{
    store.lemma_next_id();
}

/// A record that was just deleted is not found, and every other record is
/// found as before.
pub proof fn law_deleted_record_is_gone(store: StoreState, id: usize)
    ensures
        store.deleted(id).lookup(id) == Err::<Record, StoreError>(StoreError::TargetNotFound),
        forall|other: usize| other != id ==> store.deleted(id).lookup(other) == store.lookup(other),
{
}

/// The identifier that a creation assigns belongs to no live record: it is
/// the lowest identifier without one.
pub proof fn law_created_id_was_vacant(store: StoreState)
    requires
        store.wf(),
    ensures
        !store.is_live(store.next_id()),
        forall|id: usize| id < store.next_id() ==> store.is_live(id),
{
    store.lemma_next_id();
}

/// A creation after a deletion may be given the identifier that was freed,
/// and is given it where every lower identifier has a record; it is never
/// given the identifier of a record that still lives.
pub proof fn law_freed_id_is_reused(store: StoreState, id: usize, record: Record)
    requires
        store.wf(),
        store.is_live(id),
    ensures
        store.deleted(id).next_id() <= id,
        !store.deleted(id).is_live(store.deleted(id).next_id()),
        !store.is_live(store.deleted(id).next_id()) || store.deleted(id).next_id() == id,
        (forall|below: usize| below < id ==> store.is_live(below)) ==> store.deleted(id).next_id()
            == id,
{
    store.lemma_deleted_wf(id);
    store.deleted(id).lemma_next_id();
    let next = store.deleted(id).next_id();
    if next > id {
        assert(store.deleted(id).is_live(id));
    }
    if forall|below: usize| below < id ==> store.is_live(below) {
        if next < id {
            assert(store.is_live(next));
        }
    }
}

/// The live identifiers are those that were created and not deleted since:
/// a creation adds its identifier, a deletion takes its own away, and
/// overwriting changes none.
pub proof fn law_live_ids_follow_operations(store: StoreState, id: usize, record: Record)
    requires
        store.wf(),
    ensures
        store.created(record).records.dom() == store.records.dom().insert(store.next_id()),
        store.deleted(id).records.dom() == store.records.dom().remove(id),
        store.is_live(id) ==> store.replaced(id, record).records.dom() == store.records.dom(),
{
    assert(store.created(record).records.dom() =~= store.records.dom().insert(store.next_id()));
    assert(store.deleted(id).records.dom() =~= store.records.dom().remove(id));
    if store.is_live(id) {
        assert(store.replaced(id, record).records.dom() =~= store.records.dom());
    }
}

/// A listing holds every live identifier once and nothing else, and a store
/// has one listing only.
pub proof fn law_listing_is_exact(store: StoreState, ids: Seq<usize>)
    requires
        store.lists(ids),
    ensures
        ids.no_duplicates(),
        ids.to_set() == store.records.dom(),
        ids == store.listing(),
{
    assert(ids.to_set() =~= store.records.dom());
    store.lemma_lists_unique(ids, store.listing());
}

/// The store after one creation for each of `records`, in their order.
pub open spec fn after_creates(store: StoreState, records: Seq<Record>) -> StoreState
    decreases records.len(),
{
    if records.len() == 0 {
        store
    } else {
        after_creates(store, records.drop_last()).created(records.last())
    }
}

/// The identifier that the creation of `records[k]` is given in such a run.
pub open spec fn created_id(store: StoreState, records: Seq<Record>, k: int) -> usize {
    after_creates(store, records.take(k)).next_id()
}

proof fn lemma_run_of_creates(store: StoreState, records: Seq<Record>)
    requires
        store.wf(),
        store.slots + records.len() <= usize::MAX,
    ensures
        after_creates(store, records).wf(),
        after_creates(store, records).slots <= store.slots + records.len(),
        forall|k: int|
            0 <= k < records.len() ==> after_creates(store, records).is_live(
                #[trigger] created_id(store, records, k),
            ),
    decreases records.len(),
{
    if records.len() > 0 {
        let head = records.drop_last();
        let before = after_creates(store, head);
        lemma_run_of_creates(store, head);
        before.lemma_created_wf(records.last());
        assert forall|k: int| 0 <= k < records.len() implies after_creates(
            store,
            records,
        ).is_live(#[trigger] created_id(store, records, k)) by {
            if k < head.len() {
                assert(records.take(k) =~= head.take(k));
                assert(before.is_live(created_id(store, head, k)));
            } else {
                assert(records.take(k) =~= head);
            }
        }
    }
}

/// Creations that come one after another, in whatever order they were
/// admitted, are given identifiers that all differ.
pub proof fn law_creates_yield_distinct_ids(
    store: StoreState,
    records: Seq<Record>,
    i: int,
    j: int,
)
    requires
        store.wf(),
        store.slots + records.len() <= usize::MAX,
        0 <= i < j < records.len(),
    ensures
        created_id(store, records, i) != created_id(store, records, j),
{
    let head = records.take(j);
    lemma_run_of_creates(store, head);
    assert(head.take(i) =~= records.take(i));
    assert(after_creates(store, head).is_live(created_id(store, head, i)));
    after_creates(store, head).lemma_created_wf(records[j]);
}

} // verus!
