use vstd::prelude::*;

use crate::models::QueueElementForQueue;
use vstd::relations::injective_on;
use vstd::set_lib::{
    lemma_int_range, lemma_len_subset, lemma_map_size, lemma_map_size_bound, lemma_subset_equality,
    set_int_range,
};

use crate::repo::{batch_fits, holds_position, insert_outcome, listed, swapped, StoreModel};

verus! {

/// Density: the rows listed for a queue carry exactly the positions
/// `1..=n`, where `n` is the number of elements, and no position twice.
/// Every store operation keeps the store well formed, and
/// `get_elements_for_queue` lists rows this way in every well-formed state,
/// so this holds after any sequence of insertions and removals.
pub proof fn positions_are_dense(store: StoreModel, k: (i64, i64), rows: Seq<QueueElementForQueue>)
    requires
        listed(rows, store.elements_of(k)),
    ensures
        rows.len() == store.elements_of(k).len(),
        Set::new(|p: int| exists|i: int| 0 <= i < rows.len() && (#[trigger] rows[i]).queue_place == p)
            == Set::new(|p: int| 1 <= p <= rows.len()),
        forall|i: int, j: int|
            0 <= i < rows.len() && 0 <= j < rows.len() && i != j ==> (#[trigger] rows[i]).queue_place
                != (#[trigger] rows[j]).queue_place,
{
    let held = Set::new(|p: int| exists|i: int| 0 <= i < rows.len() && (#[trigger] rows[i]).queue_place == p);
    let range = Set::new(|p: int| 1 <= p <= rows.len());
    assert forall|p: int| held.contains(p) <==> range.contains(p) by {
        if 1 <= p <= rows.len() {
            assert(rows[p - 1].queue_place == p);
        }
    }
    assert(held =~= range);
}

/// Inserting `name` at position `p` of a queue of `n` elements
/// (`1 <= p <= n + 1`) succeeds, puts `name` at `p`, keeps every element
/// before `p` in place, and moves the element at each position `q >= p` to
/// `q + 1`. Positions are `i32`, so a queue that already holds `i32::MAX`
/// elements takes no more and is left out.
pub proof fn insert_shifts_later_elements(
    before: StoreModel,
    k: (i64, i64),
    name: Seq<char>,
    p: i32,
    rows_before: Seq<QueueElementForQueue>,
    rows_after: Seq<QueueElementForQueue>,
)
    requires
        before.queues.contains_key(k),
        before.elements_of(k).len() < i32::MAX,
        1 <= p <= before.elements_of(k).len() + 1,
        listed(rows_before, before.elements_of(k)),
        listed(rows_after, insert_outcome(before, k, name, Some(p))->Ok_0.elements_of(k)),
    ensures
        insert_outcome(before, k, name, Some(p)) is Ok,
        rows_after.len() == rows_before.len() + 1,
        rows_after[p - 1].element_name@ == name,
        rows_after[p - 1].queue_place == p,
        forall|i: int|
            0 <= i < p - 1 ==> (#[trigger] rows_after[i]).element_name@ == rows_before[i].element_name@
                && rows_after[i].queue_place == rows_before[i].queue_place,
        forall|i: int|
            p - 1 <= i < rows_before.len() ==> (#[trigger] rows_after[i + 1]).element_name@
                == rows_before[i].element_name@ && rows_after[i + 1].queue_place
                == rows_before[i].queue_place + 1,
{
    let after = insert_outcome(before, k, name, Some(p))->Ok_0;
    assert(after.elements_of(k) == before.elements_of(k).insert(p - 1, name));
}

/// Removing position `p` of a queue of `n` elements (`1 <= p <= n`) leaves
/// `n - 1` elements: those before `p` stay in place, those after `p` move
/// down by one, and the name reported is the one that was at `p`.
pub proof fn remove_shifts_later_elements(
    before: StoreModel,
    after: StoreModel,
    k: (i64, i64),
    p: int,
    removed: Seq<char>,
    rows_before: Seq<QueueElementForQueue>,
    rows_after: Seq<QueueElementForQueue>,
)
    requires
        before.queues.contains_key(k),
        1 <= p <= before.elements_of(k).len(),
        removed == before.elements_of(k)[p - 1],
        after == before.with_elements(k, before.elements_of(k).remove(p - 1)),
        listed(rows_before, before.elements_of(k)),
        listed(rows_after, after.elements_of(k)),
    ensures
        rows_after.len() == rows_before.len() - 1,
        rows_before[p - 1].element_name@ == removed,
        forall|i: int|
            0 <= i < p - 1 ==> (#[trigger] rows_after[i]).element_name@ == rows_before[i].element_name@
                && rows_after[i].queue_place == rows_before[i].queue_place,
        forall|i: int|
            p <= i < rows_before.len() ==> (#[trigger] rows_after[i - 1]).element_name@
                == rows_before[i].element_name@ && rows_after[i - 1].queue_place
                == rows_before[i].queue_place - 1,
{
    assert(after.elements_of(k) == before.elements_of(k).remove(p - 1));
}

/// Swapping positions `a` and `b` twice restores the store exactly, and a
/// swap never changes the size of the queue.
pub proof fn swap_twice_restores(before: StoreModel, middle: StoreModel, after: StoreModel, k: (i64, i64), a: int, b: int)
    requires
        before.queues.contains_key(k),
        1 <= a <= before.elements_of(k).len(),
        1 <= b <= before.elements_of(k).len(),
        middle == before.with_elements(k, swapped(before.elements_of(k), a - 1, b - 1)),
        after == middle.with_elements(k, swapped(middle.elements_of(k), a - 1, b - 1)),
    ensures
        middle.elements_of(k).len() == before.elements_of(k).len(),
        after == before,
{
    let names = before.elements_of(k);
    assert(middle.elements_of(k) == swapped(names, a - 1, b - 1));
    assert(swapped(swapped(names, a - 1, b - 1), a - 1, b - 1) =~= names);
    assert(after.queues[k] == before.queues[k]);
    assert(after.queues =~= before.queues);
}

/// A batch that fits after `n` elements holds no position twice: the fit
/// check that `insert_filled_queue` makes refuses every batch with a
/// duplicate position.
pub proof fn fitting_batch_has_distinct_positions(batch: Seq<QueueElementForQueue>, n: int)
    requires
        batch_fits(batch, n),
    ensures
        forall|i: int, j: int|
            0 <= i < batch.len() && 0 <= j < batch.len() && i != j ==> (#[trigger] batch[i]).queue_place
                != (#[trigger] batch[j]).queue_place,
{
    let len = batch.len() as int;
    let place = |i: int| batch[i].queue_place as int;
    let indices = set_int_range(0, len);
    let held = indices.map(place);
    let wanted = set_int_range(n + 1, n + len + 1);
    lemma_int_range(0, len);
    lemma_int_range(n + 1, n + len + 1);
    assert forall|p: int| wanted.contains(p) implies held.contains(p) by {
        assert(holds_position(batch, p));
        let j = choose|j: int| 0 <= j < batch.len() && (#[trigger] batch[j]).queue_place == p;
        assert(indices.contains(j) && place(j) == p);
    }
    lemma_map_size_bound(indices, held, place);
    lemma_len_subset(wanted, held);
    assert forall|i: int, j: int|
        0 <= i < batch.len() && 0 <= j < batch.len() && i != j implies (#[trigger] batch[i]).queue_place
        != (#[trigger] batch[j]).queue_place by {
        if batch[i].queue_place == batch[j].queue_place {
            let fewer = indices.remove(j);
            assert forall|p: int| held.contains(p) implies fewer.map(place).contains(p) by {
                let k = choose|k: int| indices.contains(k) && place(k) == p;
                if k == j {
                    assert(fewer.contains(i) && place(i) == p);
                } else {
                    assert(fewer.contains(k));
                }
            }
            assert(fewer.map(place) =~= held);
            lemma_map_size_bound(fewer, held, place);
        }
    }
}

/// A batch whose positions are distinct and all lie in `n + 1 ..= n + len`
/// fits after `n` elements: with the previous law, a batch fits exactly when
/// its positions are distinct and in that range.
pub proof fn distinct_batch_in_range_fits(batch: Seq<QueueElementForQueue>, n: int)
    requires
        forall|i: int| 0 <= i < batch.len() ==> n < (#[trigger] batch[i]).queue_place <= n + batch.len(),
        forall|i: int, j: int|
            0 <= i < batch.len() && 0 <= j < batch.len() && i != j ==> (#[trigger] batch[i]).queue_place
                != (#[trigger] batch[j]).queue_place,
    ensures
        batch_fits(batch, n),
{
    let len = batch.len() as int;
    let place = |i: int| batch[i].queue_place as int;
    let indices = set_int_range(0, len);
    let held = indices.map(place);
    let wanted = set_int_range(n + 1, n + len + 1);
    lemma_int_range(0, len);
    lemma_int_range(n + 1, n + len + 1);
    assert(injective_on(place, indices));
    lemma_map_size(indices, held, place);
    assert forall|p: int| held.contains(p) implies wanted.contains(p) by {
        let k = choose|k: int| indices.contains(k) && place(k) == p;
        assert(n < batch[k].queue_place <= n + len);
    }
    lemma_subset_equality(held, wanted);
    assert forall|p: int| n < p <= n + batch.len() implies #[trigger] holds_position(batch, p) by {
        assert(wanted.contains(p));
        let k = choose|k: int| indices.contains(k) && place(k) == p;
        assert(0 <= k < batch.len() && batch[k].queue_place == p);
    }
}

} // verus!
