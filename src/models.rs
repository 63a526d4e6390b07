use vstd::prelude::*;

verus! {

/// One conversation scope, identified by the messaging system.
#[derive(Clone, Copy, Debug, PartialEq, Eq, Structural)]
pub struct Chat {
    pub id: i64,
}

/// One ordered list inside a chat; `(id, chat_id)` identifies it.
#[derive(Clone, Debug)]
pub struct Queue {
    pub id: i64,
    pub chat_id: i64,
    pub qname: Option<String>,
}

/// The identity of a queue, without its mutable display name.
#[derive(Clone, Copy, Debug, PartialEq, Eq, Structural)]
pub struct QueueKey {
    pub id: i64,
    pub chat_id: i64,
}

/// A stored element row: its name, its owning queue and its 1-based position.
#[derive(Clone, Debug)]
pub struct QueueElement {
    pub element_name: String,
    pub queue_id: i64,
    pub chat_id: i64,
    pub queue_place: i32,
}

/// An element as seen from inside one queue: a name and a position.
#[derive(Clone, Debug)]
pub struct QueueElementForQueue {
    pub element_name: String,
    pub queue_place: i32,
}

impl View for QueueKey {
    type V = (i64, i64);

    /// The key as a pair `(queue id, chat id)`.
    open spec fn view(&self) -> (i64, i64) {
        (self.id, self.chat_id)
    }
}

impl Queue {
    /// The key of this queue as a pair `(queue id, chat id)`.
    pub open spec fn key_view(self) -> (i64, i64) {
        (self.id, self.chat_id)
    }

    /// The identity of this queue, without its name.
    pub fn key(&self) -> (r: QueueKey)
        ensures
            r.id == self.id,
            r.chat_id == self.chat_id,
    {
        QueueKey { id: self.id, chat_id: self.chat_id }
    }
}

impl QueueElement {
    /// Binds an element that has only a name and a position to a queue.
    pub fn from_parts(queue: QueueKey, element: QueueElementForQueue) -> (r: Self)
        ensures
            r.element_name == element.element_name,
            r.queue_id == queue.id,
            r.chat_id == queue.chat_id,
            r.queue_place == element.queue_place,
    {
        QueueElement {
            element_name: element.element_name,
            queue_id: queue.id,
            chat_id: queue.chat_id,
            queue_place: element.queue_place,
        }
    }
}

} // verus!
