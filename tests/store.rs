use chat_queues::arrange::{numbered, shuffled_queue};
use chat_queues::{Chat, Error, Queue, QueueElement, QueueElementForQueue, QueueKey, QueueRepository};

fn listing(repo: &QueueRepository, key: &QueueKey) -> Vec<(String, i32)> {
    repo.get_elements_for_queue(key)
        .into_iter()
        .map(|e| (e.element_name, e.queue_place))
        .collect()
}

fn rows(items: &[(&str, i32)]) -> Vec<(String, i32)> {
    items.iter().map(|(n, p)| (n.to_string(), *p)).collect()
}

fn batch(names: &[&str]) -> Vec<QueueElementForQueue> {
    names
        .iter()
        .enumerate()
        .map(|(i, n)| QueueElementForQueue { element_name: n.to_string(), queue_place: i as i32 + 1 })
        .collect()
}

fn queue(id: i64, chat_id: i64, name: Option<&str>) -> Queue {
    Queue { id, chat_id, qname: name.map(|n| n.to_string()) }
}

/// A store with chat 7 and queue 1 filled with the given names.
fn filled_store(names: &[&str]) -> (QueueRepository, QueueKey) {
    let mut repo = QueueRepository::new();
    let chat = repo.get_or_create_chat(7);
    let q = repo.create_new_queue(queue(1, chat.id, None)).unwrap();
    repo.insert_filled_queue(q.key(), batch(names)).unwrap();
    (repo, q.key())
}

fn assert_dense(listed: &[(String, i32)]) {
    for (i, (_, p)) in listed.iter().enumerate() {
        assert_eq!(*p, i as i32 + 1);
    }
}

#[test]
fn end_to_end_scenario() {
    let mut repo = QueueRepository::new();
    let chat = repo.get_or_create_chat(42);
    let q = repo.create_new_queue(queue(1, chat.id, None)).unwrap();
    let key = q.key();
    repo.insert_filled_queue(key, batch(&["a", "b", "c"])).unwrap();
    assert_eq!(listing(&repo, &key), rows(&[("a", 1), ("b", 2), ("c", 3)]));
    repo.insert_new_elem(&key, "z".to_string(), Some(2)).unwrap();
    assert_eq!(listing(&repo, &key), rows(&[("a", 1), ("z", 2), ("b", 3), ("c", 4)]));
    assert_eq!(repo.remove_elem(&key, 1).unwrap(), "a");
    assert_eq!(listing(&repo, &key), rows(&[("z", 1), ("b", 2), ("c", 3)]));
    repo.swap_positions_for_queue(&key, 1, 3).unwrap();
    assert_eq!(listing(&repo, &key), rows(&[("c", 1), ("b", 2), ("z", 3)]));
}

#[test]
fn recency_resolution_picks_greatest_id() {
    let mut repo = QueueRepository::new();
    let chat = repo.get_or_create_chat(5);
    for id in [10, 20, 30] {
        repo.create_new_queue(queue(id, chat.id, None)).unwrap();
    }
    let other = repo.get_or_create_chat(6);
    repo.create_new_queue(queue(99, other.id, None)).unwrap();
    let prev = repo.get_previous_queue_for_chat(&chat).unwrap();
    assert_eq!(prev.id, 30);
    assert_eq!(prev.chat_id, 5);
}

#[test]
fn recency_without_queues_is_none() {
    let mut repo = QueueRepository::new();
    let chat = repo.get_or_create_chat(5);
    assert!(repo.get_previous_queue_for_chat(&chat).is_none());
}

#[test]
fn density_after_inserts_and_removes() {
    let mut repo = QueueRepository::new();
    let chat = repo.get_or_create_chat(1);
    let key = repo.create_new_queue(queue(3, chat.id, None)).unwrap().key();
    assert!(listing(&repo, &key).is_empty());
    repo.insert_new_elem(&key, "a".to_string(), None).unwrap();
    assert_eq!(listing(&repo, &key), rows(&[("a", 1)]));
    repo.insert_new_elem(&key, "b".to_string(), None).unwrap();
    repo.insert_new_elem(&key, "c".to_string(), Some(1)).unwrap();
    repo.insert_new_elem(&key, "d".to_string(), Some(4)).unwrap();
    assert_dense(&listing(&repo, &key));
    assert_eq!(listing(&repo, &key), rows(&[("c", 1), ("a", 2), ("b", 3), ("d", 4)]));
    repo.remove_elem(&key, 2).unwrap();
    assert_dense(&listing(&repo, &key));
    repo.remove_elem(&key, 3).unwrap();
    assert_dense(&listing(&repo, &key));
    assert_eq!(listing(&repo, &key), rows(&[("c", 1), ("b", 2)]));
    repo.remove_elem(&key, 1).unwrap();
    repo.remove_elem(&key, 1).unwrap();
    assert!(listing(&repo, &key).is_empty());
}

#[test]
fn insert_preserves_order() {
    let (mut repo, key) = filled_store(&["a", "b", "c", "d"]);
    repo.insert_new_elem(&key, "x".to_string(), Some(3)).unwrap();
    assert_eq!(listing(&repo, &key), rows(&[("a", 1), ("b", 2), ("x", 3), ("c", 4), ("d", 5)]));
}

#[test]
fn insert_at_end_position() {
    let (mut repo, key) = filled_store(&["a", "b"]);
    repo.insert_new_elem(&key, "x".to_string(), Some(3)).unwrap();
    assert_eq!(listing(&repo, &key), rows(&[("a", 1), ("b", 2), ("x", 3)]));
}

#[test]
fn insert_out_of_range_fails_and_keeps_state() {
    let (mut repo, key) = filled_store(&["a", "b"]);
    assert_eq!(
        repo.insert_new_elem(&key, "x".to_string(), Some(4)),
        Err(Error::PositionNotFound { position: 4 })
    );
    assert_eq!(
        repo.insert_new_elem(&key, "x".to_string(), Some(0)),
        Err(Error::PositionNotFound { position: 0 })
    );
    assert_eq!(listing(&repo, &key), rows(&[("a", 1), ("b", 2)]));
}

#[test]
fn insert_into_absent_queue_is_not_found() {
    let mut repo = QueueRepository::new();
    let key = QueueKey { id: 1, chat_id: 1 };
    assert_eq!(repo.insert_new_elem(&key, "x".to_string(), None), Err(Error::NotFound));
}

#[test]
fn remove_preserves_order() {
    let (mut repo, key) = filled_store(&["a", "b", "c", "d"]);
    assert_eq!(repo.remove_elem(&key, 2).unwrap(), "b");
    assert_eq!(listing(&repo, &key), rows(&[("a", 1), ("c", 2), ("d", 3)]));
}

#[test]
fn remove_missing_position_fails() {
    let (mut repo, key) = filled_store(&["a"]);
    assert_eq!(repo.remove_elem(&key, 2), Err(Error::PositionNotFound { position: 2 }));
    assert_eq!(repo.remove_elem(&key, 0), Err(Error::PositionNotFound { position: 0 }));
    assert_eq!(listing(&repo, &key), rows(&[("a", 1)]));
}

#[test]
fn swap_twice_restores_queue() {
    let (mut repo, key) = filled_store(&["a", "b", "c"]);
    let original = listing(&repo, &key);
    repo.swap_positions_for_queue(&key, 1, 3).unwrap();
    assert_eq!(listing(&repo, &key).len(), 3);
    assert_eq!(listing(&repo, &key), rows(&[("c", 1), ("b", 2), ("a", 3)]));
    repo.swap_positions_for_queue(&key, 1, 3).unwrap();
    assert_eq!(listing(&repo, &key), original);
}

#[test]
fn swap_missing_position_fails_without_change() {
    let (mut repo, key) = filled_store(&["a", "b", "c"]);
    assert_eq!(
        repo.swap_positions_for_queue(&key, 4, 1),
        Err(Error::PositionNotFound { position: 4 })
    );
    assert_eq!(
        repo.swap_positions_for_queue(&key, 2, 9),
        Err(Error::PositionNotFound { position: 9 })
    );
    assert_eq!(
        repo.swap_positions_for_queue(&key, 0, 9),
        Err(Error::PositionNotFound { position: 0 })
    );
    assert_eq!(listing(&repo, &key), rows(&[("a", 1), ("b", 2), ("c", 3)]));
}

#[test]
fn create_queue_conflict_and_unknown_chat() {
    let mut repo = QueueRepository::new();
    assert_eq!(repo.create_new_queue(queue(1, 9, None)).unwrap_err(), Error::NotFound);
    repo.get_or_create_chat(9);
    let q = repo.create_new_queue(queue(1, 9, Some("lunch"))).unwrap();
    assert_eq!(q.qname.as_deref(), Some("lunch"));
    assert_eq!(repo.create_new_queue(queue(1, 9, None)).unwrap_err(), Error::Conflict);
    repo.get_or_create_chat(10);
    assert!(repo.create_new_queue(queue(1, 10, None)).is_ok());
}

#[test]
fn chat_get_or_create_is_idempotent() {
    let mut repo = QueueRepository::new();
    assert_eq!(repo.get_chat(3), Err(Error::NotFound));
    assert_eq!(repo.get_or_create_chat(3), Chat { id: 3 });
    assert_eq!(repo.get_or_create_chat(3), Chat { id: 3 });
    assert_eq!(repo.get_chat(3), Ok(Chat { id: 3 }));
}

#[test]
fn filled_queue_rejects_duplicates_and_gaps() {
    let mut repo = QueueRepository::new();
    repo.get_or_create_chat(1);
    let key = repo.create_new_queue(queue(2, 1, None)).unwrap().key();
    let dup = vec![
        QueueElementForQueue { element_name: "a".to_string(), queue_place: 1 },
        QueueElementForQueue { element_name: "b".to_string(), queue_place: 1 },
    ];
    assert_eq!(repo.insert_filled_queue(key, dup).unwrap_err(), Error::Conflict);
    let gap = vec![
        QueueElementForQueue { element_name: "a".to_string(), queue_place: 1 },
        QueueElementForQueue { element_name: "b".to_string(), queue_place: 3 },
    ];
    assert_eq!(repo.insert_filled_queue(key, gap).unwrap_err(), Error::Conflict);
    assert!(listing(&repo, &key).is_empty());
    let missing = QueueKey { id: 8, chat_id: 1 };
    assert_eq!(repo.insert_filled_queue(missing, batch(&["a"])).unwrap_err(), Error::NotFound);
}

#[test]
fn filled_queue_orders_by_position() {
    let mut repo = QueueRepository::new();
    repo.get_or_create_chat(1);
    let key = repo.create_new_queue(queue(2, 1, None)).unwrap().key();
    let unordered = vec![
        QueueElementForQueue { element_name: "c".to_string(), queue_place: 3 },
        QueueElementForQueue { element_name: "a".to_string(), queue_place: 1 },
        QueueElementForQueue { element_name: "b".to_string(), queue_place: 2 },
    ];
    let stored: Vec<QueueElement> = repo.insert_filled_queue(key, unordered).unwrap();
    assert_eq!(stored.len(), 3);
    assert_eq!(stored[0].element_name, "c");
    assert_eq!(stored[0].queue_place, 3);
    assert_eq!(stored[0].queue_id, 2);
    assert_eq!(stored[0].chat_id, 1);
    assert_eq!(listing(&repo, &key), rows(&[("a", 1), ("b", 2), ("c", 3)]));
    repo.insert_filled_queue(key, vec![QueueElementForQueue { element_name: "d".to_string(), queue_place: 4 }])
        .unwrap();
    assert_eq!(listing(&repo, &key), rows(&[("a", 1), ("b", 2), ("c", 3), ("d", 4)]));
}

#[test]
fn rename_queue() {
    let (mut repo, key) = filled_store(&["a"]);
    assert_eq!(repo.set_queue_name(&key, "dinner".to_string()).unwrap(), "dinner");
    assert_eq!(repo.queue_exists(key).unwrap().qname.as_deref(), Some("dinner"));
    assert_eq!(listing(&repo, &key), rows(&[("a", 1)]));
    let missing = QueueKey { id: 50, chat_id: 7 };
    assert_eq!(repo.set_queue_name(&missing, "x".to_string()), Err(Error::NotFound));
}

#[test]
fn queue_lookup_by_key() {
    let (repo, key) = filled_store(&["a"]);
    let found = repo.queue_exists(key).unwrap();
    assert_eq!((found.id, found.chat_id), (1, 7));
    assert!(repo.queue_exists(QueueKey { id: 1, chat_id: 8 }).is_none());
    assert!(listing(&repo, &QueueKey { id: 2, chat_id: 7 }).is_empty());
}

#[test]
fn default_queue_resolution() {
    let mut repo = QueueRepository::new();
    let chat = repo.get_or_create_chat(4);
    assert!(repo.resolve_queue(&chat, None).is_none());
    assert!(repo.resolve_queue(&chat, Some(10)).is_none());
    repo.create_new_queue(queue(10, 4, None)).unwrap();
    repo.create_new_queue(queue(20, 4, None)).unwrap();
    assert_eq!(repo.resolve_queue(&chat, Some(10)).unwrap().id, 10);
    assert_eq!(repo.resolve_queue(&chat, Some(15)).unwrap().id, 20);
    assert_eq!(repo.resolve_queue(&chat, None).unwrap().id, 20);
    assert_eq!(repo.reply_queue(&chat, Some(10)).unwrap().id, 10);
    assert!(repo.reply_queue(&chat, Some(15)).is_none());
    assert!(repo.reply_queue(&chat, None).is_none());
}

#[test]
fn key_and_from_parts() {
    let q = queue(11, 12, Some("n"));
    let key = q.key();
    assert_eq!(key, QueueKey { id: 11, chat_id: 12 });
    let e = QueueElement::from_parts(key, QueueElementForQueue { element_name: "x".to_string(), queue_place: 5 });
    assert_eq!((e.element_name.as_str(), e.queue_id, e.chat_id, e.queue_place), ("x", 11, 12, 5));
}

#[test]
fn numbering_starts_at_one() {
    let r = numbered(vec!["p".to_string(), "q".to_string()]);
    let got: Vec<(String, i32)> = r.into_iter().map(|e| (e.element_name, e.queue_place)).collect();
    assert_eq!(got, rows(&[("p", 1), ("q", 2)]));
}

#[test]
fn shuffle_keeps_names_and_renumbers() {
    let input = vec![
        QueueElementForQueue { element_name: "a".to_string(), queue_place: 7 },
        QueueElementForQueue { element_name: "b".to_string(), queue_place: 3 },
        QueueElementForQueue { element_name: "b".to_string(), queue_place: 9 },
    ];
    let out = shuffled_queue(input);
    assert_eq!(out.len(), 3);
    let mut names: Vec<String> = out.iter().map(|e| e.element_name.clone()).collect();
    for (i, e) in out.iter().enumerate() {
        assert_eq!(e.queue_place, i as i32 + 1);
    }
    names.sort();
    assert_eq!(names, vec!["a", "b", "b"]);
}

#[test]
fn shuffle_reorders() {
    let names: Vec<&str> = vec!["a", "b", "c", "d", "e", "f", "g", "h", "i", "j"];
    let mut moved = false;
    for _ in 0..50 {
        let out = shuffled_queue(batch(&names));
        if out.iter().zip(names.iter()).any(|(e, n)| e.element_name != *n) {
            moved = true;
            break;
        }
    }
    assert!(moved);
}
