use rand::seq::SliceRandom;
use vstd::prelude::*;

use crate::models::QueueElementForQueue;
use crate::repo::{listed, names_view};

verus! {

/// The names of `rows`, in order.
pub open spec fn element_names(rows: Seq<QueueElementForQueue>) -> Seq<Seq<char>> {
    rows.map_values(|e: QueueElementForQueue| e.element_name@)
}

/// Relies on rand's `SliceRandom::shuffle`, drawing from `OsRng`: it only
/// exchanges items of the vector, so the names come back as a permutation of
/// those given.
#[verifier::external_body]
fn shuffle_names(names: &mut Vec<String>)
    ensures
        names_view(final(names)@).to_multiset() == names_view(old(names)@).to_multiset(),
{
    names.shuffle(&mut rand::rngs::OsRng);
}

/// Numbers `names` in their order, from position 1.
pub fn numbered(names: Vec<String>) -> (r: Vec<QueueElementForQueue>)
    requires
        names.len() <= i32::MAX,
    ensures
        listed(r@, names_view(names@)),
{
    let mut r: Vec<QueueElementForQueue> = Vec::new();
    let mut i: usize = 0;
    while i < names.len()
        invariant
            names.len() <= i32::MAX,
            i <= names.len(),
            r.len() == i,
            forall|j: int|
                0 <= j < i ==> (#[trigger] r@[j]).element_name@ == names@[j]@ && r@[j].queue_place
                    == j + 1,
        decreases names.len() - i,
    {
        r.push(QueueElementForQueue { element_name: names[i].clone(), queue_place: (i + 1) as i32 });
        i += 1;
    }
    r
}

/// The elements of `queue` in a random order, renumbered from position 1:
/// the same names, each as often as before.
pub fn shuffled_queue(queue: Vec<QueueElementForQueue>) -> (r: Vec<QueueElementForQueue>)
    requires
        queue.len() <= i32::MAX,
    ensures
        r.len() == queue.len(),
        element_names(r@).to_multiset() == element_names(queue@).to_multiset(),
        forall|i: int| 0 <= i < r.len() ==> (#[trigger] r@[i]).queue_place == i + 1,
{
    let mut names: Vec<String> = Vec::new();
    let mut i: usize = 0;
    while i < queue.len()
        invariant
            i <= queue.len(),
            names.len() == i,
            forall|j: int| 0 <= j < i ==> (#[trigger] names@[j]) == queue@[j].element_name,
        decreases queue.len() - i,
    {
        names.push(queue[i].element_name.clone());
        i += 1;
    }
    assert(names_view(names@) =~= element_names(queue@));
    let ghost before = names_view(names@);
    shuffle_names(&mut names);
    let ghost shuffled = names_view(names@);
    proof {
        vstd::seq_lib::to_multiset_len(before);
        vstd::seq_lib::to_multiset_len(shuffled);
    }
    let r = numbered(names);
    assert(element_names(r@) =~= shuffled);
    r
}

} // verus!
