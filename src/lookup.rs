use vstd::prelude::*;

use crate::models::{Chat, Queue, QueueKey};
use crate::repo::{name_view, QueueRepository, StoreModel};

verus! {

/// `k` is the key of the chat's most recent queue: the one with the greatest
/// id among the queues of chat `chat_id`.
pub open spec fn is_most_recent(v: StoreModel, chat_id: i64, k: (i64, i64)) -> bool {
    &&& v.queues.contains_key(k)
    &&& k.1 == chat_id
    &&& forall|j: (i64, i64)| #[trigger] v.queues.contains_key(j) && j.1 == chat_id ==> j.0 <= k.0
}

/// The chat has at least one queue.
pub open spec fn has_queue(v: StoreModel, chat_id: i64) -> bool {
    exists|j: (i64, i64)| #[trigger] v.queues.contains_key(j) && j.1 == chat_id
}

/// The message being replied to, if any, addresses a stored queue of the chat.
pub open spec fn reply_addresses(v: StoreModel, chat_id: i64, reply_to: Option<i64>) -> bool {
    match reply_to {
        Some(id) => v.queues.contains_key((id, chat_id)),
        None => false,
    }
}

/// `q` is a faithful copy of the stored queue it names.
pub open spec fn is_stored(v: StoreModel, q: Queue) -> bool {
    v.queues.contains_key(q.key_view()) && name_view(q.qname) == v.queues[q.key_view()].name
}

impl QueueRepository {
    /// The queue keyed by the message being replied to (`reply_to`, a message
    /// id) in this chat; `None` when there is no reply or no such queue.
    pub fn reply_queue(&self, chat: &Chat, reply_to: Option<i64>) -> (r: Option<Queue>)
        requires
            self.wf(),
        ensures
            match r {
                Some(q) => reply_addresses(self@, chat.id, reply_to) && is_stored(self@, q)
                    && reply_to == Some(q.id) && q.chat_id == chat.id,
                None => !reply_addresses(self@, chat.id, reply_to),
            },
    {
        match reply_to {
            Some(id) => self.queue_exists(QueueKey { id, chat_id: chat.id }),
            None => None,
        }
    }

    /// Resolves the queue that an action means when it names none: the queue
    /// of the replied-to message if it is stored, else the chat's most recent
    /// queue, else `None` (no queue available, which is not an error).
    pub fn resolve_queue(&self, chat: &Chat, reply_to: Option<i64>) -> (r: Option<Queue>)
        requires
            self.wf(),
        ensures
            match r {
                Some(q) => is_stored(self@, q) && q.chat_id == chat.id && if reply_addresses(self@, chat.id, reply_to) {
                    reply_to == Some(q.id)
                } else {
                    is_most_recent(self@, chat.id, q.key_view())
                },
                None => !reply_addresses(self@, chat.id, reply_to) && !has_queue(self@, chat.id),
            },
    {
        match self.reply_queue(chat, reply_to) {
            Some(q) => Some(q),
            None => {
                let r = self.get_previous_queue_for_chat(chat);
                proof {
                    if r is None && has_queue(self@, chat.id) {
                        let j = choose|j: (i64, i64)| #[trigger] self@.queues.contains_key(j) && j.1 == chat.id;
                    }
                }
                r
            },
        }
    }
}

} // verus!
