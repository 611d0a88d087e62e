use mmdflux::sequence::compiler::compile;
use mmdflux::sequence::model::{
    ArrowHead, BlockDividerKind, BlockKind, LineStyle, NotePlacement, ParticipantKind, Sequence,
    SequenceEvent, SequenceStatement,
};

fn participant(id: &str) -> SequenceStatement {
    SequenceStatement::Participant { kind: ParticipantKind::Participant, id: id.to_string(), alias: None }
}

fn participant_as(id: &str, alias: &str) -> SequenceStatement {
    SequenceStatement::Participant {
        kind: ParticipantKind::Participant,
        id: id.to_string(),
        alias: Some(alias.to_string()),
    }
}

fn actor_as(id: &str, alias: &str) -> SequenceStatement {
    SequenceStatement::Participant { kind: ParticipantKind::Actor, id: id.to_string(), alias: Some(alias.to_string()) }
}

fn message_with(from: &str, to: &str, line_style: LineStyle, arrow_head: ArrowHead, text: &str) -> SequenceStatement {
    SequenceStatement::Message {
        from: from.to_string(),
        to: to.to_string(),
        line_style,
        arrow_head,
        text: text.to_string(),
        activate: None,
    }
}

/// `from->>to: text`
fn message(from: &str, to: &str, text: &str) -> SequenceStatement {
    message_with(from, to, LineStyle::Solid, ArrowHead::Filled, text)
}

fn note(placement: NotePlacement, participants: &[&str], text: &str) -> SequenceStatement {
    SequenceStatement::Note {
        placement,
        participants: participants.iter().map(|p| p.to_string()).collect(),
        text: text.to_string(),
    }
}

fn block(kind: BlockKind, label: &str) -> SequenceStatement {
    SequenceStatement::BlockStart { kind, label: label.to_string() }
}

fn divider(kind: BlockDividerKind, label: &str) -> SequenceStatement {
    SequenceStatement::BlockDivider { kind, label: label.to_string() }
}

fn compile_statements(statements: Vec<SequenceStatement>) -> Sequence {
    compile(&statements).unwrap()
}

fn compile_error_message(statements: Vec<SequenceStatement>) -> String {
    compile(&statements).unwrap_err().message()
}

#[test]
fn compile_empty_diagram() {
    let model = compile_statements(vec![]);
    assert!(model.participants.is_empty());
    assert!(model.events.is_empty());
    assert!(!model.autonumber);
}

#[test]
fn compile_participants_in_order() {
    let model = compile_statements(vec![participant("B"), participant("A")]);
    assert_eq!(model.participants.len(), 2);
    assert_eq!(model.participants[0].id, "B");
    assert_eq!(model.participants[1].id, "A");
}

#[test]
fn compile_participant_alias() {
    let model = compile_statements(vec![participant_as("A", "Alice")]);
    assert_eq!(model.participants[0].id, "A");
    assert_eq!(model.participants[0].label, "Alice");
}

#[test]
fn compile_actor_kind() {
    let model = compile_statements(vec![actor_as("B", "Bob")]);
    assert_eq!(model.participants[0].kind, ParticipantKind::Actor);
}

#[test]
fn compile_message_resolves_indices() {
    let model = compile_statements(vec![participant("A"), participant("B"), message("A", "B", "hi")]);
    assert_eq!(model.events.len(), 1);
    match &model.events[0] {
        SequenceEvent::Message { from, to, .. } => {
            assert_eq!(*from, 0);
            assert_eq!(*to, 1);
        }
        _ => panic!("expected message"),
    }
}

#[test]
fn compile_implicit_participants_from_messages() {
    let model = compile_statements(vec![message("A", "B", "hi")]);
    assert_eq!(model.participants.len(), 2);
    assert_eq!(model.participants[0].id, "A");
    assert_eq!(model.participants[1].id, "B");
}

#[test]
fn compile_explicit_before_implicit() {
    let model = compile_statements(vec![participant("B"), message("A", "B", "hi"), message("A", "C", "hello")]);
    assert_eq!(model.participants[0].id, "B");
    assert_eq!(model.participants[1].id, "A");
    assert_eq!(model.participants[2].id, "C");
}

#[test]
fn compile_self_message() {
    let model = compile_statements(vec![participant("A"), message("A", "A", "think")]);
    match &model.events[0] {
        SequenceEvent::Message { from, to, .. } => {
            assert_eq!(from, to);
        }
        _ => panic!("expected message"),
    }
}

#[test]
fn compile_note_resolves_participant() {
    let model = compile_statements(vec![participant("A"), note(NotePlacement::Over, &["A"], "done")]);
    assert_eq!(model.events.len(), 1);
    match &model.events[0] {
        SequenceEvent::Note { placement, participants, text } => {
            assert_eq!(*placement, NotePlacement::Over);
            assert_eq!(participants, &[0]);
            assert_eq!(text, "done");
        }
        _ => panic!("expected note"),
    }
}

#[test]
fn compile_note_unknown_participant_errors() {
    let statements = vec![note(NotePlacement::Over, &["X"], "oops")];
    let compile_result = compile(&statements);
    assert!(compile_result.is_err());
    let err = compile_result.unwrap_err().message();
    assert!(err.contains("unknown participant"));
}

#[test]
fn compile_autonumber() {
    let model = compile_statements(vec![
        SequenceStatement::Autonumber,
        participant("A"),
        participant("B"),
        message("A", "B", "first"),
        message("B", "A", "second"),
    ]);
    assert!(model.autonumber);
    match &model.events[0] {
        SequenceEvent::Message { number, .. } => assert_eq!(*number, Some(1)),
        _ => panic!("expected message"),
    }
    match &model.events[1] {
        SequenceEvent::Message { number, .. } => assert_eq!(*number, Some(2)),
        _ => panic!("expected message"),
    }
}

#[test]
fn compile_no_autonumber_no_numbers() {
    let model = compile_statements(vec![message("A", "B", "hi")]);
    assert!(!model.autonumber);
    match &model.events[0] {
        SequenceEvent::Message { number, .. } => assert_eq!(*number, None),
        _ => panic!("expected message"),
    }
}

#[test]
fn compile_line_style_mapping() {
    let model = compile_statements(vec![
        message("A", "B", "solid"),
        message_with("A", "B", LineStyle::Dashed, ArrowHead::Filled, "dashed"),
    ]);
    match &model.events[0] {
        SequenceEvent::Message { line_style, arrow_head, .. } => {
            assert_eq!(*line_style, LineStyle::Solid);
            assert_eq!(*arrow_head, ArrowHead::Filled);
        }
        _ => panic!("expected message"),
    }
    match &model.events[1] {
        SequenceEvent::Message { line_style, arrow_head, .. } => {
            assert_eq!(*line_style, LineStyle::Dashed);
            assert_eq!(*arrow_head, ArrowHead::Filled);
        }
        _ => panic!("expected message"),
    }
}

#[test]
fn compile_all_arrow_heads() {
    let model = compile_statements(vec![
        message_with("A", "B", LineStyle::Solid, ArrowHead::Filled, "filled"),
        message_with("A", "B", LineStyle::Solid, ArrowHead::Open, "open"),
        message_with("A", "B", LineStyle::Solid, ArrowHead::Cross, "cross"),
        message_with("A", "B", LineStyle::Solid, ArrowHead::Async, "async"),
    ]);
    let heads: Vec<_> = model
        .events
        .iter()
        .map(|e| match e {
            SequenceEvent::Message { arrow_head, .. } => *arrow_head,
            _ => panic!("expected message"),
        })
        .collect();
    assert_eq!(heads, vec![ArrowHead::Filled, ArrowHead::Open, ArrowHead::Cross, ArrowHead::Async]);
}

#[test]
fn compile_full_mvp() {
    let model = compile_statements(vec![
        SequenceStatement::Autonumber,
        participant_as("A", "Alice"),
        participant_as("B", "Bob"),
        message("A", "B", "hello"),
        message_with("B", "A", LineStyle::Dashed, ArrowHead::Filled, "hi back"),
        message("A", "A", "think"),
        note(NotePlacement::Over, &["A"], "done"),
    ]);
    assert_eq!(model.participants.len(), 2);
    assert_eq!(model.participants[0].label, "Alice");
    assert_eq!(model.participants[1].label, "Bob");
    assert_eq!(model.events.len(), 4);
    assert!(model.autonumber);
}

#[test]
fn compile_note_left_of() {
    let model = compile_statements(vec![
        participant("A"),
        participant("B"),
        note(NotePlacement::LeftOf, &["A"], "left"),
    ]);
    match &model.events[0] {
        SequenceEvent::Note { placement, participants, text } => {
            assert_eq!(*placement, NotePlacement::LeftOf);
            assert_eq!(participants, &[0]);
            assert_eq!(text, "left");
        }
        _ => panic!("expected note"),
    }
}

#[test]
fn compile_note_right_of() {
    let model = compile_statements(vec![
        participant("A"),
        participant("B"),
        note(NotePlacement::RightOf, &["B"], "right"),
    ]);
    match &model.events[0] {
        SequenceEvent::Note { placement, participants, text } => {
            assert_eq!(*placement, NotePlacement::RightOf);
            assert_eq!(participants, &[1]);
            assert_eq!(text, "right");
        }
        _ => panic!("expected note"),
    }
}

#[test]
fn compile_note_spanning() {
    let model = compile_statements(vec![
        participant("A"),
        participant("B"),
        note(NotePlacement::Over, &["A", "B"], "spanning"),
    ]);
    match &model.events[0] {
        SequenceEvent::Note { placement, participants, text } => {
            assert_eq!(*placement, NotePlacement::Over);
            assert_eq!(participants, &[0, 1]);
            assert_eq!(text, "spanning");
        }
        _ => panic!("expected note"),
    }
}

#[test]
fn compile_note_spanning_unknown_participant_errors() {
    let stmts = vec![participant("A"), note(NotePlacement::Over, &["A", "X"], "oops")];
    let result = compile(&stmts);
    assert!(result.is_err());
    let err = result.unwrap_err().message();
    assert!(err.contains("unknown participant"));
}

#[test]
fn compile_interaction_operators_preserve_event_order() {
    let model = compile_statements(vec![
        participant("A"),
        participant("B"),
        block(BlockKind::Alt, "available"),
        message("A", "B", "Request"),
        divider(BlockDividerKind::Else, "busy"),
        message("B", "A", "Retry later"),
        SequenceStatement::BlockEnd,
    ]);
    assert!(matches!(
        &model.events[0],
        SequenceEvent::BlockStart { kind: BlockKind::Alt, label } if label == "available"
    ));
    assert!(matches!(&model.events[1], SequenceEvent::Message { .. }));
    assert!(matches!(
        &model.events[2],
        SequenceEvent::BlockDivider { kind: BlockDividerKind::Else, label } if label == "busy"
    ));
    assert!(matches!(&model.events[3], SequenceEvent::Message { .. }));
    assert_eq!(model.events[4], SequenceEvent::BlockEnd);
}

#[test]
fn compile_else_outside_alt_errors() {
    let err = compile_error_message(vec![
        block(BlockKind::Loop, "retry"),
        divider(BlockDividerKind::Else, "nope"),
        SequenceStatement::BlockEnd,
    ]);
    assert!(err.contains("not valid inside `loop`"));
}

#[test]
fn compile_unmatched_end_errors() {
    let err = compile_error_message(vec![SequenceStatement::BlockEnd]);
    assert!(err.contains("without an open block"));
}

#[test]
fn compile_unclosed_block_errors() {
    let err = compile_error_message(vec![block(BlockKind::Alt, "available")]);
    assert!(err.contains("unclosed sequence block"));
}

#[test]
fn compile_par_and_preserve_event_order() {
    let model = compile_statements(vec![
        participant("Alice"),
        participant("Bob"),
        participant("Charlie"),
        block(BlockKind::Par, "Notifications"),
        message("Alice", "Bob", "Email"),
        divider(BlockDividerKind::And, ""),
        message("Alice", "Charlie", "SMS"),
        SequenceStatement::BlockEnd,
    ]);
    assert!(matches!(
        &model.events[0],
        SequenceEvent::BlockStart { kind: BlockKind::Par, label } if label == "Notifications"
    ));
    assert!(matches!(&model.events[1], SequenceEvent::Message { .. }));
    assert!(matches!(
        &model.events[2],
        SequenceEvent::BlockDivider { kind: BlockDividerKind::And, label } if label.is_empty()
    ));
    assert!(matches!(&model.events[3], SequenceEvent::Message { .. }));
    assert_eq!(model.events[4], SequenceEvent::BlockEnd);
}

#[test]
fn compile_critical_option_preserve_event_order() {
    let model = compile_statements(vec![
        participant("Alice"),
        participant("Bob"),
        block(BlockKind::Critical, "Establish connection"),
        message("Alice", "Bob", "Connect"),
        divider(BlockDividerKind::Option, "Timeout"),
        message("Alice", "Alice", "Retry"),
        SequenceStatement::BlockEnd,
    ]);
    assert!(matches!(
        &model.events[0],
        SequenceEvent::BlockStart { kind: BlockKind::Critical, label } if label == "Establish connection"
    ));
    assert!(matches!(&model.events[1], SequenceEvent::Message { .. }));
    assert!(matches!(
        &model.events[2],
        SequenceEvent::BlockDivider { kind: BlockDividerKind::Option, label } if label == "Timeout"
    ));
    assert!(matches!(&model.events[3], SequenceEvent::Message { .. }));
    assert_eq!(model.events[4], SequenceEvent::BlockEnd);
}

#[test]
fn compile_break_preserves_event_order() {
    let model = compile_statements(vec![
        participant("A"),
        participant("B"),
        block(BlockKind::Loop, "Retries"),
        message("A", "B", "Try"),
        block(BlockKind::Break, "Success"),
        message("B", "A", "Done"),
        SequenceStatement::BlockEnd,
        SequenceStatement::BlockEnd,
    ]);
    assert!(matches!(
        &model.events[2],
        SequenceEvent::BlockStart { kind: BlockKind::Break, label } if label == "Success"
    ));
    assert!(matches!(&model.events[3], SequenceEvent::Message { .. }));
    assert_eq!(model.events[4], SequenceEvent::BlockEnd);
    assert_eq!(model.events[5], SequenceEvent::BlockEnd);
}

#[test]
fn compile_and_outside_par_errors() {
    let err = compile_error_message(vec![
        block(BlockKind::Critical, "establish"),
        divider(BlockDividerKind::And, ""),
        SequenceStatement::BlockEnd,
    ]);
    assert!(err.contains("not valid inside `critical`"));
}

#[test]
fn compile_option_outside_critical_errors() {
    let err = compile_error_message(vec![
        block(BlockKind::Par, "notify"),
        divider(BlockDividerKind::Option, "fallback"),
        SequenceStatement::BlockEnd,
    ]);
    assert!(err.contains("not valid inside `par`"));
}
