use chat_queues::commands::{
    accept_string_and_number, accept_string_opt, elements_from_text, format_queue, CommandError,
};
use chat_queues::QueueElementForQueue;

fn el(name: &str, place: i32) -> QueueElementForQueue {
    QueueElementForQueue { element_name: name.to_string(), queue_place: place }
}

#[test]
fn name_with_position() {
    assert_eq!(accept_string_and_number(" bob ^ 3 ".to_string()), Ok(("bob".to_string(), Some(3))));
    assert_eq!(accept_string_and_number("bob^-2".to_string()), Ok(("bob".to_string(), Some(-2))));
}

#[test]
fn name_without_position() {
    assert_eq!(accept_string_and_number("  alice smith ".to_string()), Ok(("alice smith".to_string(), None)));
}

#[test]
fn second_caret_ends_the_number() {
    assert_eq!(accept_string_and_number("a^2^5".to_string()), Ok(("a".to_string(), Some(2))));
}

#[test]
fn bad_position_is_refused() {
    assert_eq!(accept_string_and_number("bob ^ x".to_string()), Err(CommandError::InvalidNumber));
    assert_eq!(accept_string_and_number("bob ^".to_string()), Err(CommandError::InvalidNumber));
    assert_eq!(
        accept_string_and_number("bob ^ 99999999999".to_string()),
        Err(CommandError::InvalidNumber)
    );
}

#[test]
fn optional_argument() {
    assert_eq!(accept_string_opt("   ".to_string()), None);
    assert_eq!(accept_string_opt(String::new()), None);
    assert_eq!(accept_string_opt("  my queue ".to_string()), Some("my queue".to_string()));
    assert_eq!(accept_string_opt("q".to_string()), Some("q".to_string()));
}

#[test]
fn elements_from_lines_of_text() {
    let rows = elements_from_text("a\n  b \r\nc\n").unwrap();
    let got: Vec<(String, i32)> = rows.into_iter().map(|e| (e.element_name, e.queue_place)).collect();
    assert_eq!(
        got,
        vec![("a".to_string(), 1), ("b".to_string(), 2), ("c".to_string(), 3)]
    );
    assert!(elements_from_text("").unwrap().is_empty());
}

#[test]
fn queue_text_with_name() {
    let text = format_queue(Some("Lunch"), &[el("a", 1), el("b", 2)]);
    assert_eq!(text, "Lunch\n1) a\n2) b");
}

#[test]
fn queue_text_without_name() {
    assert_eq!(format_queue(None, &[el("x", 10), el("y", -5)]), "10) x\n-5) y");
    assert_eq!(format_queue(None, &[]), "");
    assert_eq!(format_queue(Some("Empty"), &[]), "Empty\n");
}
