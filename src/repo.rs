//! The queue store: chats, their queues, and the elements of each queue.
//!
//! Each queue keeps its element names in a vector in position order, so the
//! element at index `i` has position `i + 1`. Positions are therefore dense
//! and unique by construction, and a shift or an exchange is one change to
//! that vector: no intermediate state with a duplicate position exists, and
//! no sentinel position is needed. Every operation checks its inputs before
//! it changes anything, so a failed operation leaves the store as it was.

use vstd::prelude::*;

use crate::error::Error;
use crate::models::{Chat, Queue, QueueElement, QueueElementForQueue, QueueKey};

verus! {

/// What the store holds for one queue: its display name and the names of
/// its elements in position order (the element at index `i` has position
/// `i + 1`).
pub struct QueueState {
    pub name: Option<Seq<char>>,
    pub elements: Seq<Seq<char>>,
}

/// The abstract content of a store: the known chats, and every queue by its
/// key `(queue id, chat id)`.
pub struct StoreModel {
    pub chats: Set<i64>,
    pub queues: Map<(i64, i64), QueueState>,
}

impl StoreModel {
    /// The element names of a queue in position order; empty for a queue that
    /// does not exist.
    pub open spec fn elements_of(self, k: (i64, i64)) -> Seq<Seq<char>> {
        if self.queues.contains_key(k) {
            self.queues[k].elements
        } else {
            Seq::empty()
        }
    }

    /// The same store with the elements of queue `k` replaced by `names`.
    pub open spec fn with_elements(self, k: (i64, i64), names: Seq<Seq<char>>) -> StoreModel {
        StoreModel {
            chats: self.chats,
            queues: self.queues.insert(k, QueueState { name: self.queues[k].name, elements: names }),
        }
    }
}

/// An optional name as characters.
pub open spec fn name_view(n: Option<String>) -> Option<Seq<char>> {
    match n {
        Some(s) => Some(s@),
        None => None,
    }
}

/// Names as characters, in order.
pub open spec fn names_view(v: Seq<String>) -> Seq<Seq<char>> {
    v.map_values(|s: String| s@)
}

/// Some element of `batch` holds position `p`.
pub open spec fn holds_position(batch: Seq<QueueElementForQueue>, p: int) -> bool {
    exists|j: int| 0 <= j < batch.len() && (#[trigger] batch[j]).queue_place == p
}

/// Every position of `n + 1 ..= n + batch.len()` is held by an element of
/// `batch`. As there are as many elements as positions, this holds exactly
/// when the positions of `batch` are distinct and all in that range (proved
/// in `laws`).
pub open spec fn batch_fits(batch: Seq<QueueElementForQueue>, n: int) -> bool {
    forall|p: int| n < p <= n + batch.len() ==> #[trigger] holds_position(batch, p)
}

/// `name` is the name of the first element of `batch` at position `p`.
pub open spec fn named_at(batch: Seq<QueueElementForQueue>, p: int, name: Seq<char>) -> bool {
    exists|j: int|
        0 <= j < batch.len() && (#[trigger] batch[j]).queue_place == p && batch[j].element_name@ == name
            && forall|i: int| 0 <= i < j ==> (#[trigger] batch[i]).queue_place != p
}

/// `names` extends `prefix` with the elements of `batch` in position order.
pub open spec fn filled(prefix: Seq<Seq<char>>, batch: Seq<QueueElementForQueue>, names: Seq<Seq<char>>) -> bool {
    &&& names.len() == prefix.len() + batch.len()
    &&& names.subrange(0, prefix.len() as int) == prefix
    &&& forall|t: int| prefix.len() <= t < names.len() ==> named_at(batch, t + 1, #[trigger] names[t])
}

/// `names` with the entries at indices `a` and `b` exchanged.
pub open spec fn swapped(names: Seq<Seq<char>>, a: int, b: int) -> Seq<Seq<char>> {
    names.update(a, names[b]).update(b, names[a])
}

/// What inserting `name` before position `index` (at the end without one)
/// of queue `k` gives: the new store, or the error that leaves `s` as it is.
pub open spec fn insert_outcome(s: StoreModel, k: (i64, i64), name: Seq<char>, index: Option<i32>) -> Result<StoreModel, Error> {
    let names = s.elements_of(k);
    let p: int = match index {
        Some(p) => p as int,
        None => names.len() + 1 as int,
    };
    if !s.queues.contains_key(k) {
        Err(Error::NotFound)
    } else if names.len() >= i32::MAX {
        Err(Error::Invariant)
    } else if !(1 <= p <= names.len() + 1) {
        Err(Error::PositionNotFound { position: p as i32 })
    } else {
        Ok(s.with_elements(k, names.insert(p - 1, name)))
    }
}

/// `rows` lists `names` in order, numbered `1..=names.len()`.
pub open spec fn listed(rows: Seq<QueueElementForQueue>, names: Seq<Seq<char>>) -> bool {
    &&& rows.len() == names.len()
    &&& forall|i: int|
        0 <= i < rows.len() ==> (#[trigger] rows[i]).element_name@ == names[i]
            && rows[i].queue_place == i + 1
}

struct QueueEntry {
    queue: Queue,
    elements: Vec<String>,
}

spec fn entry_key(e: QueueEntry) -> (i64, i64) {
    (e.queue.id, e.queue.chat_id)
}

spec fn entry_state(e: QueueEntry) -> QueueState {
    QueueState { name: name_view(e.queue.qname), elements: names_view(e.elements@) }
}

spec fn keys_unique(s: Seq<QueueEntry>) -> bool {
    forall|i: int, j: int|
        0 <= i < s.len() && 0 <= j < s.len() && i != j ==> entry_key(#[trigger] s[i]) != entry_key(
            #[trigger] s[j],
        )
}

spec fn has_key(s: Seq<QueueEntry>, k: (i64, i64)) -> bool {
    exists|i: int| 0 <= i < s.len() && entry_key(#[trigger] s[i]) == k
}

spec fn queues_map(s: Seq<QueueEntry>) -> Map<(i64, i64), QueueState> {
    Map::new(
        |k: (i64, i64)| has_key(s, k),
        |k: (i64, i64)| entry_state(s[choose|i: int| 0 <= i < s.len() && entry_key(#[trigger] s[i]) == k]),
    )
}

spec fn chat_set(s: Seq<Chat>) -> Set<i64> {
    Set::new(|c: i64| exists|i: int| 0 <= i < s.len() && (#[trigger] s[i]).id == c)
}

proof fn lemma_map_at(s: Seq<QueueEntry>, i: int)
    requires
        keys_unique(s),
        0 <= i < s.len(),
    ensures
        queues_map(s).contains_key(entry_key(s[i])),
        queues_map(s)[entry_key(s[i])] == entry_state(s[i]),
{
    let k = entry_key(s[i]);
    assert(has_key(s, k));
    let j = choose|j: int| 0 <= j < s.len() && entry_key(#[trigger] s[j]) == k;
    assert(j == i);
}

proof fn lemma_map_update(s: Seq<QueueEntry>, i: int, e: QueueEntry)
    requires
        keys_unique(s),
        0 <= i < s.len(),
        entry_key(e) == entry_key(s[i]),
    ensures
        keys_unique(s.update(i, e)),
        queues_map(s.update(i, e)) == queues_map(s).insert(entry_key(e), entry_state(e)),
{
    let t = s.update(i, e);
    assert forall|a: int, b: int|
        0 <= a < t.len() && 0 <= b < t.len() && a != b implies entry_key(#[trigger] t[a])
        != entry_key(#[trigger] t[b]) by {
        assert(entry_key(t[a]) == entry_key(s[a]));
        assert(entry_key(t[b]) == entry_key(s[b]));
    }
    let m = queues_map(s).insert(entry_key(e), entry_state(e));
    assert forall|k: (i64, i64)| #[trigger] queues_map(t).contains_key(k) <==> m.contains_key(k) by {
        if has_key(t, k) {
            let j = choose|j: int| 0 <= j < t.len() && entry_key(#[trigger] t[j]) == k;
            assert(entry_key(s[j]) == k);
        }
        if has_key(s, k) {
            let j = choose|j: int| 0 <= j < s.len() && entry_key(#[trigger] s[j]) == k;
            assert(entry_key(t[j]) == k);
        }
    }
    assert forall|k: (i64, i64)| #[trigger] queues_map(t).contains_key(k) implies queues_map(t)[k]
        == m[k] by {
        let j = choose|j: int| 0 <= j < t.len() && entry_key(#[trigger] t[j]) == k;
        lemma_map_at(t, j);
        if j != i {
            lemma_map_at(s, j);
        }
    }
    assert(queues_map(t) =~= m);
}

proof fn lemma_map_push(s: Seq<QueueEntry>, e: QueueEntry)
    requires
        keys_unique(s),
        !has_key(s, entry_key(e)),
    ensures
        keys_unique(s.push(e)),
        queues_map(s.push(e)) == queues_map(s).insert(entry_key(e), entry_state(e)),
{
    let t = s.push(e);
    assert forall|a: int, b: int|
        0 <= a < t.len() && 0 <= b < t.len() && a != b implies entry_key(#[trigger] t[a])
        != entry_key(#[trigger] t[b]) by {
        if a < s.len() && b < s.len() {
            assert(t[a] == s[a] && t[b] == s[b]);
        } else if a < s.len() {
            assert(t[a] == s[a]);
        } else {
            assert(t[b] == s[b]);
        }
    }
    let m = queues_map(s).insert(entry_key(e), entry_state(e));
    assert forall|k: (i64, i64)| #[trigger] queues_map(t).contains_key(k) <==> m.contains_key(k) by {
        if has_key(t, k) {
            let j = choose|j: int| 0 <= j < t.len() && entry_key(#[trigger] t[j]) == k;
            if j < s.len() {
                assert(t[j] == s[j]);
            }
        }
        if has_key(s, k) {
            let j = choose|j: int| 0 <= j < s.len() && entry_key(#[trigger] s[j]) == k;
            assert(t[j] == s[j]);
        }
        if k == entry_key(e) {
            assert(t[s.len() as int] == e);
        }
    }
    assert forall|k: (i64, i64)| #[trigger] queues_map(t).contains_key(k) implies queues_map(t)[k]
        == m[k] by {
        let j = choose|j: int| 0 <= j < t.len() && entry_key(#[trigger] t[j]) == k;
        lemma_map_at(t, j);
        if j < s.len() {
            assert(t[j] == s[j]);
            lemma_map_at(s, j);
        }
    }
    assert(queues_map(t) =~= m);
}

spec fn wf_parts(chats: Seq<Chat>, entries: Seq<QueueEntry>) -> bool {
    &&& keys_unique(entries)
    &&& forall|i: int| 0 <= i < entries.len() ==> (#[trigger] entries[i]).elements.len() <= i32::MAX
    &&& forall|i: int| 0 <= i < entries.len() ==> chat_set(chats).contains((#[trigger] entries[i]).queue.chat_id)
}

/// Replacing the elements of one entry keeps the store well formed and
/// changes only that queue's elements in the view.
proof fn lemma_replace_elements(chats: Seq<Chat>, s: Seq<QueueEntry>, i: int, e: QueueEntry)
    requires
        wf_parts(chats, s),
        0 <= i < s.len(),
        e.queue == s[i].queue,
        e.elements.len() <= i32::MAX,
    ensures
        wf_parts(chats, s.update(i, e)),
        queues_map(s).contains_key(entry_key(e)),
        (StoreModel { chats: chat_set(chats), queues: queues_map(s.update(i, e)) }) == (StoreModel {
            chats: chat_set(chats),
            queues: queues_map(s),
        }).with_elements(entry_key(e), names_view(e.elements@)),
{
    lemma_map_at(s, i);
    lemma_map_update(s, i, e);
    let t = s.update(i, e);
    assert forall|j: int| 0 <= j < t.len() implies (#[trigger] t[j]).elements.len() <= i32::MAX
        && chat_set(chats).contains(t[j].queue.chat_id) by {
        if j != i {
            assert(t[j] == s[j]);
        }
    }
}

/// The queue store: chats, queues and their elements, kept in memory.
pub struct QueueRepository {
    chats: Vec<Chat>,
    entries: Vec<QueueEntry>,
}

impl View for QueueRepository {
    type V = StoreModel;

    closed spec fn view(&self) -> StoreModel {
        StoreModel { chats: chat_set(self.chats@), queues: queues_map(self.entries@) }
    }
}

impl QueueRepository {
    /// The store's internal invariant: queue keys are unique, every queue
    /// belongs to a known chat, and positions of every queue fit in `i32`.
    pub closed spec fn wf(&self) -> bool {
        wf_parts(self.chats@, self.entries@)
    }

    /// What every well-formed store shows through its view: each queue belongs
    /// to a known chat and holds at most `i32::MAX` elements.
    pub proof fn view_invariant(&self)
        requires
            self.wf(),
        ensures
            forall|k: (i64, i64)| #[trigger]
                self@.queues.contains_key(k) ==> self@.chats.contains(k.1)
                    && self@.queues[k].elements.len() <= i32::MAX,
    {
        assert forall|k: (i64, i64)| #[trigger] self@.queues.contains_key(k) implies self@.chats.contains(k.1)
            && self@.queues[k].elements.len() <= i32::MAX by {
            let j = choose|j: int| 0 <= j < self.entries.len() && entry_key(#[trigger] self.entries@[j]) == k;
            lemma_map_at(self.entries@, j);
        }
    }

    /// An empty store.
    pub fn new() -> (r: Self)
        ensures
            r.wf(),
            r@.chats == Set::<i64>::empty(),
            r@.queues == Map::<(i64, i64), QueueState>::empty(),
    {
        let r = QueueRepository { chats: Vec::new(), entries: Vec::new() };
        assert(r@.chats =~= Set::<i64>::empty());
        assert(r@.queues =~= Map::<(i64, i64), QueueState>::empty());
        r
    }

    fn find_entry(&self, key: QueueKey) -> (r: Option<usize>)
        requires
            self.wf(),
        ensures
            match r {
                Some(i) => i < self.entries.len() && entry_key(self.entries@[i as int]) == key@
                    && self@.queues.contains_key(key@)
                    && self@.queues[key@] == entry_state(self.entries@[i as int]),
                None => !self@.queues.contains_key(key@),
            },
    {
        let mut i: usize = 0;
        while i < self.entries.len()
            invariant
                self.wf(),
                i <= self.entries.len(),
                forall|j: int| 0 <= j < i ==> entry_key(#[trigger] self.entries@[j]) != key@,
            decreases self.entries.len() - i,
        {
            let e = &self.entries[i];
            if e.queue.id == key.id && e.queue.chat_id == key.chat_id {
                proof {
                    lemma_map_at(self.entries@, i as int);
                }
                return Some(i);
            }
            i += 1;
        }
        None
    }

    fn find_chat(&self, chat_id: i64) -> (r: bool)
        ensures
            r == self@.chats.contains(chat_id),
    {
        let mut i: usize = 0;
        while i < self.chats.len()
            invariant
                i <= self.chats.len(),
                forall|j: int| 0 <= j < i ==> (#[trigger] self.chats@[j]).id != chat_id,
            decreases self.chats.len() - i,
        {
            if self.chats[i].id == chat_id {
                return true;
            }
            i += 1;
        }
        false
    }
    /// Looks up a chat; `NotFound` when the store does not know it.
    pub fn get_chat(&self, chat_id: i64) -> (r: Result<Chat, Error>)
        ensures
            match r {
                Ok(c) => self@.chats.contains(chat_id) && c.id == chat_id,
                Err(e) => !self@.chats.contains(chat_id) && e == Error::NotFound,
            },
    {
        if self.find_chat(chat_id) {
            Ok(Chat { id: chat_id })
        } else {
            Err(Error::NotFound)
        }
    }

    /// Returns the chat, recording it first if the store does not know it yet.
    /// Calling it again with the same id changes nothing.
    pub fn get_or_create_chat(&mut self, chat_id: i64) -> (r: Chat)
        requires
            old(self).wf(),
        ensures
            final(self).wf(),
            r.id == chat_id,
            final(self)@.chats == old(self)@.chats.insert(chat_id),
            final(self)@.queues == old(self)@.queues,
    {
        match self.get_chat(chat_id) {
            Ok(c) => {
                assert(self@.chats.insert(chat_id) =~= self@.chats);
                c
            },
            Err(_) => {
                let ghost old_chats = self.chats@;
                self.chats.push(Chat { id: chat_id });
                proof {
                    let t = self.chats@;
                    assert(t[old_chats.len() as int].id == chat_id);
                    assert forall|c: i64| #[trigger] chat_set(t).contains(c) <==> chat_set(old_chats).insert(chat_id).contains(c) by {
                        if chat_set(old_chats).contains(c) {
                            let j = choose|j: int| 0 <= j < old_chats.len() && (#[trigger] old_chats[j]).id == c;
                            assert(t[j] == old_chats[j]);
                        }
                        if chat_set(t).contains(c) {
                            let j = choose|j: int| 0 <= j < t.len() && (#[trigger] t[j]).id == c;
                            if j < old_chats.len() {
                                assert(t[j] == old_chats[j]);
                            }
                        }
                    }
                    assert(chat_set(t) =~= chat_set(old_chats).insert(chat_id));
                }
                Chat { id: chat_id }
            },
        }
    }

    /// Looks a queue up by its key; `None` when there is no such queue.
    pub fn queue_exists(&self, queue: QueueKey) -> (r: Option<Queue>)
        requires
            self.wf(),
        ensures
            match r {
                Some(q) => self@.queues.contains_key(queue@) && q.key_view() == queue@
                    && name_view(q.qname) == self@.queues[queue@].name,
                None => !self@.queues.contains_key(queue@),
            },
    {
        match self.find_entry(queue) {
            Some(i) => Some(copy_queue(&self.entries[i].queue)),
            None => None,
        }
    }

    /// The elements of a queue in ascending position order, numbered
    /// `1..=n`; empty for an empty or absent queue.
    pub fn get_elements_for_queue(&self, queue: &QueueKey) -> (r: Vec<QueueElementForQueue>)
        requires
            self.wf(),
        ensures
            listed(r@, self@.elements_of(queue@)),
    {
        let mut r: Vec<QueueElementForQueue> = Vec::new();
        match self.find_entry(*queue) {
            None => r,
            Some(k) => {
                let names = &self.entries[k].elements;
                assert(names.len() <= i32::MAX);
                let mut i: usize = 0;
                while i < names.len()
                    invariant
                        names.len() <= i32::MAX,
                        i <= names.len(),
                        r.len() == i,
                        forall|j: int|
                            0 <= j < i ==> (#[trigger] r@[j]).element_name@ == names@[j]@
                                && r@[j].queue_place == j + 1,
                    decreases names.len() - i,
                {
                    r.push(QueueElementForQueue { element_name: names[i].clone(), queue_place: (i + 1) as i32 });
                    i += 1;
                }
                r
            },
        }
    }

    /// The queue of the chat with the greatest id, the most recent one;
    /// `None` when the chat has no queue.
    pub fn get_previous_queue_for_chat(&self, chat: &Chat) -> (r: Option<Queue>)
        requires
            self.wf(),
        ensures
            match r {
                Some(q) => q.chat_id == chat.id && self@.queues.contains_key(q.key_view())
                    && name_view(q.qname) == self@.queues[q.key_view()].name
                    && forall|k: (i64, i64)| #[trigger] self@.queues.contains_key(k) && k.1 == chat.id ==> k.0 <= q.id,
                None => forall|k: (i64, i64)| #[trigger] self@.queues.contains_key(k) ==> k.1 != chat.id,
            },
    {
        let mut best: Option<usize> = None;
        let mut i: usize = 0;
        while i < self.entries.len()
            invariant
                self.wf(),
                i <= self.entries.len(),
                match best {
                    Some(b) => b < i && self.entries@[b as int].queue.chat_id == chat.id
                        && forall|j: int| 0 <= j < i && (#[trigger] self.entries@[j]).queue.chat_id == chat.id
                            ==> self.entries@[j].queue.id <= self.entries@[b as int].queue.id,
                    None => forall|j: int| 0 <= j < i ==> (#[trigger] self.entries@[j]).queue.chat_id != chat.id,
                },
            decreases self.entries.len() - i,
        {
            let q = &self.entries[i].queue;
            if q.chat_id == chat.id {
                match best {
                    Some(b) => {
                        if q.id > self.entries[b].queue.id {
                            best = Some(i);
                        }
                    },
                    None => {
                        best = Some(i);
                    },
                }
            }
            i += 1;
        }
        match best {
            Some(b) => {
                proof {
                    lemma_map_at(self.entries@, b as int);
                    assert forall|k: (i64, i64)| #[trigger] self@.queues.contains_key(k) && k.1 == chat.id implies k.0 <= self.entries@[b as int].queue.id by {
                        let j = choose|j: int| 0 <= j < self.entries.len() && entry_key(#[trigger] self.entries@[j]) == k;
                    }
                }
                Some(copy_queue(&self.entries[b].queue))
            },
            None => {
                proof {
                    assert forall|k: (i64, i64)| #[trigger] self@.queues.contains_key(k) implies k.1 != chat.id by {
                        let j = choose|j: int| 0 <= j < self.entries.len() && entry_key(#[trigger] self.entries@[j]) == k;
                    }
                }
                None
            },
        }
    }

    /// Adds a new, empty queue. `NotFound` when its chat is unknown,
    /// `Conflict` when its key is already taken; the store is unchanged on
    /// failure.
    pub fn create_new_queue(&mut self, queue: Queue) -> (r: Result<Queue, Error>)
        requires
            old(self).wf(),
        ensures
            final(self).wf(),
            match r {
                Ok(q) => q == queue && old(self)@.chats.contains(queue.chat_id)
                    && !old(self)@.queues.contains_key(queue.key_view())
                    && final(self)@ == (StoreModel {
                        chats: old(self)@.chats,
                        queues: old(self)@.queues.insert(
                            queue.key_view(),
                            QueueState { name: name_view(queue.qname), elements: Seq::empty() },
                        ),
                    }),
                Err(e) => final(self)@ == old(self)@ && (if !old(self)@.chats.contains(queue.chat_id) {
                    e == Error::NotFound
                } else {
                    e == Error::Conflict && old(self)@.queues.contains_key(queue.key_view())
                }),
            },
    {
        if !self.find_chat(queue.chat_id) {
            return Err(Error::NotFound);
        }
        if self.find_entry(queue.key()).is_some() {
            return Err(Error::Conflict);
        }
        let result = copy_queue(&queue);
        let entry = QueueEntry { queue, elements: Vec::new() };
        let ghost old_entries = self.entries@;
        proof {
            assert(!has_key(old_entries, entry_key(entry)));
            lemma_map_push(old_entries, entry);
            assert(names_view(entry.elements@) =~= Seq::empty());
        }
        self.entries.push(entry);
        proof {
            assert forall|i: int| 0 <= i < self.entries.len() implies (#[trigger] self.entries@[i]).elements.len() <= i32::MAX
                && chat_set(self.chats@).contains(self.entries@[i].queue.chat_id) by {
                if i < old_entries.len() {
                    assert(self.entries@[i] == old_entries[i]);
                }
            }
        }
        Ok(result)
    }

    /// Inserts `name` before the element now at `index`, shifting it and
    /// every later element up by one; without `index` the element goes to
    /// the end (position 1 in an empty queue).
    ///
    /// Positions are kept as the order of the queue's element vector, so the
    /// shift is one insertion into that vector and no two elements ever share
    /// a position, not even for a moment. Fails with `NotFound` for an absent
    /// queue, `Invariant` when the queue already holds `i32::MAX` elements,
    /// and `PositionNotFound` for an `index` outside `1..=n + 1`; the store is
    /// unchanged on failure.
    pub fn insert_new_elem(&mut self, queue: &QueueKey, name: String, index: Option<i32>) -> (r: Result<(), Error>)
        requires
            old(self).wf(),
        ensures
            final(self).wf(),
            match insert_outcome(old(self)@, queue@, name@, index) {
                Ok(t) => r is Ok && final(self)@ == t,
                Err(e) => r == Err::<(), Error>(e) && final(self)@ == old(self)@,
            },
    {
        let k = match self.find_entry(*queue) {
            Some(k) => k,
            None => return Err(Error::NotFound),
        };
        let n = self.entries[k].elements.len();
        if n >= i32::MAX as usize {
            return Err(Error::Invariant);
        }
        let at: usize = match index {
            Some(p) => {
                if p < 1 || p as usize > n + 1 {
                    return Err(Error::PositionNotFound { position: p });
                }
                (p - 1) as usize
            },
            None => n,
        };
        let ghost old_entries = self.entries@;
        let entry = &mut self.entries[k];
        entry.elements.insert(at, name);
        proof {
            let e = self.entries@[k as int];
            assert(self.entries@ == old_entries.update(k as int, e));
            assert(names_view(e.elements@) =~= names_view(old_entries[k as int].elements@).insert(at as int, name@));
            lemma_replace_elements(self.chats@, old_entries, k as int, e);
        }
        Ok(())
    }

    /// Removes the element at `index` and shifts every later element down by
    /// one; returns the removed element's name. Fails with `PositionNotFound`
    /// when no element holds `index` (in particular for an absent queue), and
    /// the store is then unchanged.
    pub fn remove_elem(&mut self, queue: &QueueKey, index: i32) -> (r: Result<String, Error>)
        requires
            old(self).wf(),
        ensures
            final(self).wf(),
            ({
                let s = old(self)@;
                let names = s.elements_of(queue@);
                match r {
                    Ok(removed) => s.queues.contains_key(queue@) && 1 <= index <= names.len()
                        && removed@ == names[index - 1]
                        && final(self)@ == s.with_elements(queue@, names.remove(index - 1)),
                    Err(e) => final(self)@ == s && !(1 <= index <= names.len())
                        && e == Error::PositionNotFound { position: index },
                }
            }),
    {
        let k = match self.find_entry(*queue) {
            Some(k) => k,
            None => return Err(Error::PositionNotFound { position: index }),
        };
        let n = self.entries[k].elements.len();
        if index < 1 || index as usize > n {
            return Err(Error::PositionNotFound { position: index });
        }
        let at = (index - 1) as usize;
        let ghost old_entries = self.entries@;
        let entry = &mut self.entries[k];
        let removed = entry.elements.remove(at);
        proof {
            let e = self.entries@[k as int];
            assert(self.entries@ == old_entries.update(k as int, e));
            assert(names_view(e.elements@) =~= names_view(old_entries[k as int].elements@).remove(at as int));
            lemma_replace_elements(self.chats@, old_entries, k as int, e);
        }
        Ok(removed)
    }

    /// Exchanges the elements at `pos1` and `pos2`; the queue keeps its size
    /// and every other element keeps its position.
    ///
    /// Both positions are checked before anything changes: a missing `pos1`
    /// gives `PositionNotFound` for `pos1`, else a missing `pos2` gives it for
    /// `pos2`, and the store is then unchanged. As positions are the order of
    /// the element vector, the exchange needs no sentinel position and never
    /// lets two elements share a position.
    pub fn swap_positions_for_queue(&mut self, queue: &QueueKey, pos1: i32, pos2: i32) -> (r: Result<(), Error>)
        requires
            old(self).wf(),
        ensures
            final(self).wf(),
            ({
                let s = old(self)@;
                let names = s.elements_of(queue@);
                match r {
                    Ok(()) => s.queues.contains_key(queue@) && 1 <= pos1 <= names.len() && 1 <= pos2 <= names.len()
                        && final(self)@ == s.with_elements(queue@, swapped(names, pos1 - 1, pos2 - 1)),
                    Err(e) => final(self)@ == s && if !(1 <= pos1 <= names.len()) {
                        e == Error::PositionNotFound { position: pos1 }
                    } else {
                        !(1 <= pos2 <= names.len()) && e == Error::PositionNotFound { position: pos2 }
                    },
                }
            }),
    {
        let k = match self.find_entry(*queue) {
            Some(k) => k,
            None => return Err(Error::PositionNotFound { position: pos1 }),
        };
        let n = self.entries[k].elements.len();
        if pos1 < 1 || pos1 as usize > n {
            return Err(Error::PositionNotFound { position: pos1 });
        }
        if pos2 < 1 || pos2 as usize > n {
            return Err(Error::PositionNotFound { position: pos2 });
        }
        let a = (pos1 - 1) as usize;
        let b = (pos2 - 1) as usize;
        let ghost old_entries = self.entries@;
        let entry = &mut self.entries[k];
        let first = entry.elements[a].clone();
        let second = entry.elements[b].clone();
        entry.elements.set(a, second);
        entry.elements.set(b, first);
        proof {
            let e = self.entries@[k as int];
            assert(self.entries@ == old_entries.update(k as int, e));
            assert(names_view(e.elements@) =~= swapped(names_view(old_entries[k as int].elements@), a as int, b as int));
            lemma_replace_elements(self.chats@, old_entries, k as int, e);
        }
        Ok(())
    }

    /// Sets the display name of a queue and returns it; `NotFound` for an
    /// absent queue, with the store unchanged.
    pub fn set_queue_name(&mut self, queue: &QueueKey, new_name: String) -> (r: Result<String, Error>)
        requires
            old(self).wf(),
        ensures
            final(self).wf(),
            ({
                let s = old(self)@;
                match r {
                    Ok(name) => s.queues.contains_key(queue@) && name@ == new_name@
                        && final(self)@ == (StoreModel {
                            chats: s.chats,
                            queues: s.queues.insert(queue@, QueueState { name: Some(new_name@), elements: s.queues[queue@].elements }),
                        }),
                    Err(e) => final(self)@ == s && !s.queues.contains_key(queue@) && e == Error::NotFound,
                }
            }),
    {
        let k = match self.find_entry(*queue) {
            Some(k) => k,
            None => return Err(Error::NotFound),
        };
        let ghost old_entries = self.entries@;
        let result = new_name.clone();
        let entry = &mut self.entries[k];
        entry.queue.qname = Some(new_name);
        proof {
            let e = self.entries@[k as int];
            assert(self.entries@ == old_entries.update(k as int, e));
            lemma_map_at(old_entries, k as int);
            lemma_map_update(old_entries, k as int, e);
            let t = self.entries@;
            assert forall|j: int| 0 <= j < t.len() implies (#[trigger] t[j]).elements.len() <= i32::MAX
                && chat_set(self.chats@).contains(t[j].queue.chat_id) by {
                if j != k {
                    assert(t[j] == old_entries[j]);
                }
            }
        }
        Ok(result)
    }

    /// Adds a batch of elements to a queue at the positions they carry, and
    /// returns the rows as stored, in the batch's order.
    ///
    /// Positions are not renumbered: the batch must hold exactly the positions
    /// `n + 1 ..= n + len` after the queue's `n` current elements, so a batch
    /// whose positions collide or leave a gap is refused with `Conflict` as a
    /// whole. An absent queue gives `NotFound`. The store is unchanged on
    /// failure.
    pub fn insert_filled_queue(&mut self, queue: QueueKey, queue_elems: Vec<QueueElementForQueue>) -> (r: Result<Vec<QueueElement>, Error>)
        requires
            old(self).wf(),
        ensures
            final(self).wf(),
            ({
                let s = old(self)@;
                let names = s.elements_of(queue@);
                match r {
                    Ok(rows) => s.queues.contains_key(queue@) && batch_fits(queue_elems@, names.len() as int)
                        && rows.len() == queue_elems.len()
                        && (forall|i: int| 0 <= i < rows.len() ==> #[trigger] rows@[i] == (QueueElement {
                            element_name: queue_elems@[i].element_name,
                            queue_id: queue.id,
                            chat_id: queue.chat_id,
                            queue_place: queue_elems@[i].queue_place,
                        }))
                        && filled(names, queue_elems@, final(self)@.elements_of(queue@))
                        && final(self)@ == s.with_elements(queue@, final(self)@.elements_of(queue@)),
                    Err(e) => final(self)@ == s && if !s.queues.contains_key(queue@) {
                        e == Error::NotFound
                    } else {
                        !batch_fits(queue_elems@, names.len() as int) && e == Error::Conflict
                    },
                }
            }),
    {
        let k = match self.find_entry(queue) {
            Some(k) => k,
            None => return Err(Error::NotFound),
        };
        let n = self.entries[k].elements.len();
        let ghost prefix = names_view(self.entries@[k as int].elements@);
        let mut added: Vec<String> = Vec::new();
        let mut t: usize = 0;
        while t < queue_elems.len()
            invariant
                self.wf(),
                self.chats@ == old(self).chats@,
                self.entries@ == old(self).entries@,
                k < self.entries.len(),
                old(self)@.queues.contains_key(queue@),
                old(self)@.queues[queue@] == entry_state(self.entries@[k as int]),
                n == self.entries@[k as int].elements.len(),
                n + t <= i32::MAX,
                t <= queue_elems.len(),
                added.len() == t,
                forall|u: int| 0 <= u < t ==> named_at(queue_elems@, n + u + 1, (#[trigger] added@[u])@),
            decreases queue_elems.len() - t,
        {
            if t >= i32::MAX as usize - n {
                proof {
                    assert(!holds_position(queue_elems@, n + t + 1));
                    assert(!batch_fits(queue_elems@, n as int));
                }
                return Err(Error::Conflict);
            }
            let target = (n + t + 1) as i32;
            let mut j: usize = 0;
            while j < queue_elems.len() && queue_elems[j].queue_place != target
                invariant
                    j <= queue_elems.len(),
                    forall|i: int| 0 <= i < j ==> (#[trigger] queue_elems@[i]).queue_place != target,
                decreases queue_elems.len() - j,
            {
                j += 1;
            }
            if j == queue_elems.len() {
                proof {
                    assert(!holds_position(queue_elems@, n + t + 1));
                    assert(!batch_fits(queue_elems@, n as int));
                }
                return Err(Error::Conflict);
            }
            let name = queue_elems[j].element_name.clone();
            proof {
                assert(named_at(queue_elems@, n + t + 1, name@));
            }
            added.push(name);
            t += 1;
        }
        proof {
            assert forall|p: int| n < p <= n + queue_elems.len() implies #[trigger] holds_position(queue_elems@, p) by {
                assert(named_at(queue_elems@, n + (p - n - 1) + 1, added@[p - n - 1]@));
            }
        }
        let mut rows: Vec<QueueElement> = Vec::new();
        let mut i: usize = 0;
        while i < queue_elems.len()
            invariant
                self.wf(),
                self.chats@ == old(self).chats@,
                self.entries@ == old(self).entries@,
                n + queue_elems.len() <= i32::MAX,
                i <= queue_elems.len(),
                rows.len() == i,
                forall|u: int| 0 <= u < i ==> #[trigger] rows@[u] == (QueueElement {
                    element_name: queue_elems@[u].element_name,
                    queue_id: queue.id,
                    chat_id: queue.chat_id,
                    queue_place: queue_elems@[u].queue_place,
                }),
            decreases queue_elems.len() - i,
        {
            let e = &queue_elems[i];
            rows.push(QueueElement {
                element_name: e.element_name.clone(),
                queue_id: queue.id,
                chat_id: queue.chat_id,
                queue_place: e.queue_place,
            });
            i += 1;
        }
        let ghost old_entries = self.entries@;
        let ghost added_view = added@;
        let entry = &mut self.entries[k];
        entry.elements.append(&mut added);
        proof {
            let e = self.entries@[k as int];
            assert(self.entries@ == old_entries.update(k as int, e));
            let all = names_view(e.elements@);
            assert(all.subrange(0, n as int) =~= prefix);
            assert forall|u: int| n <= u < all.len() implies named_at(queue_elems@, u + 1, #[trigger] all[u]) by {
                assert(all[u] == added_view[u - n]@);
            }
            lemma_replace_elements(self.chats@, old_entries, k as int, e);
        }
        Ok(rows)
    }
}

fn copy_name(n: &Option<String>) -> (r: Option<String>)
    ensures
        r == *n,
{
    match n {
        Some(s) => Some(s.clone()),
        None => None,
    }
}

fn copy_queue(q: &Queue) -> (r: Queue)
    ensures
        r == *q,
{
    Queue { id: q.id, chat_id: q.chat_id, qname: copy_name(&q.qname) }
}

} // verus!
