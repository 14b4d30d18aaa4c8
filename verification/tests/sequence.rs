use lib::sequence::{activation_spans, notes_by_message, sequence_participants, ActivationEvent, ActivationSpan};

fn names(ids: &[&str]) -> Vec<String> {
    ids.iter().map(|s| s.to_string()).collect()
}

fn event(index: usize, participant: &str, activate: bool) -> ActivationEvent {
    ActivationEvent { index, participant: participant.to_string(), activate }
}

fn span(participant: &str, start: usize, end: Option<usize>, depth: usize) -> ActivationSpan {
    ActivationSpan { participant: participant.to_string(), start, end, depth }
}

#[test]
fn sequence_participants_keep_declared_order_then_add_other_nodes() {
    let declared = names(&["Bob", "Alice"]);
    let nodes = names(&["Alice", "Bob", "Carol"]);
    assert_eq!(sequence_participants(&declared, &nodes), names(&["Bob", "Alice", "Carol"]));
}

#[test]
fn sequence_participants_without_declarations_follow_the_nodes() {
    let nodes = names(&["A", "B"]);
    assert_eq!(sequence_participants(&Vec::new(), &nodes), names(&["A", "B"]));
}

#[test]
fn notes_go_before_their_message_or_after_the_last() {
    let slots = notes_by_message(&vec![1, 0, 5, 1, 2], 2);
    assert_eq!(slots, vec![vec![1], vec![0, 3], vec![2, 4]]);
}

#[test]
fn notes_without_messages_all_go_to_the_end() {
    assert_eq!(notes_by_message(&vec![0, 3], 0), vec![vec![0, 1]]);
}

#[test]
fn activation_bars_nest_and_close_innermost_first() {
    let events = vec![
        event(0, "A", true),
        event(1, "A", true),
        event(2, "A", false),
        event(3, "A", false),
    ];
    assert_eq!(
        activation_spans(&events),
        vec![span("A", 1, Some(2), 1), span("A", 0, Some(3), 0)]
    );
}

#[test]
fn activation_events_are_taken_by_message_index() {
    // the deactivation is listed first but comes at a later message
    let events = vec![event(4, "B", false), event(1, "B", true)];
    assert_eq!(activation_spans(&events), vec![span("B", 1, Some(4), 0)]);
}

#[test]
fn activation_bars_left_open_run_to_the_end() {
    let events = vec![
        event(0, "A", true),
        event(0, "B", true),
        event(1, "B", true),
        event(2, "C", false),
    ];
    assert_eq!(
        activation_spans(&events),
        vec![span("A", 0, None, 0), span("B", 0, None, 0), span("B", 1, None, 1)]
    );
}

#[test]
fn deactivation_without_open_bar_does_nothing() {
    let events = vec![event(0, "A", false), event(1, "A", true), event(2, "A", false)];
    assert_eq!(activation_spans(&events), vec![span("A", 1, Some(2), 0)]);
}
