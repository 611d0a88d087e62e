use std::collections::HashSet;

use mmdflux::sequence::compiler::compile;
use mmdflux::sequence::errors::CompileError;
use mmdflux::sequence::instance::SequenceInstance;
use mmdflux::sequence::model::{
    ArrowHead, BlockDividerKind, BlockKind, LineStyle, NotePlacement, ParticipantKind, SequenceEvent,
    SequenceStatement,
};
use mmdflux::text::usize_to_decimal;

fn message(from: &str, to: &str) -> SequenceStatement {
    SequenceStatement::Message {
        from: from.to_string(),
        to: to.to_string(),
        line_style: LineStyle::Solid,
        arrow_head: ArrowHead::Filled,
        text: String::new(),
        activate: None,
    }
}

fn note(placement: NotePlacement, participants: &[&str]) -> SequenceStatement {
    SequenceStatement::Note {
        placement,
        participants: participants.iter().map(|p| p.to_string()).collect(),
        text: "n".to_string(),
    }
}

#[test]
fn note_over_three_participants_is_rejected_with_count() {
    let stmts = vec![message("A", "B"), message("B", "C"), note(NotePlacement::Over, &["A", "B", "C"])];
    let err = compile(&stmts).unwrap_err();
    assert_eq!(err, CompileError::NoteParticipantCount { placement: NotePlacement::Over, count: 3 });
    assert_eq!(err.message(), "Note over supports at most 2 participants, got 3");
}

#[test]
fn note_left_of_two_participants_is_rejected_with_count() {
    let stmts = vec![message("A", "B"), note(NotePlacement::LeftOf, &["A", "B"])];
    let err = compile(&stmts).unwrap_err();
    assert_eq!(err, CompileError::NoteParticipantCount { placement: NotePlacement::LeftOf, count: 2 });
    assert_eq!(err.message(), "Note left/right of requires exactly 1 participant, got 2");
}

#[test]
fn unknown_participant_message_names_it() {
    let err = compile(&vec![note(NotePlacement::Over, &["X"])]).unwrap_err();
    assert_eq!(err, CompileError::UnknownParticipant { name: "X".to_string() });
    assert_eq!(err.message(), "Note references unknown participant: X");
}

#[test]
fn divider_without_block_is_rejected() {
    let stmts = vec![SequenceStatement::BlockDivider { kind: BlockDividerKind::Else, label: String::new() }];
    let err = compile(&stmts).unwrap_err();
    assert_eq!(err, CompileError::DividerWithoutBlock { divider: BlockDividerKind::Else });
    assert_eq!(err.message(), "encountered `else` without an open block");
}

#[test]
fn divider_not_valid_message_names_both_keywords() {
    let err = CompileError::DividerNotValid { divider: BlockDividerKind::Option, block: BlockKind::Par };
    assert_eq!(err.message(), "`option` is not valid inside `par` blocks");
}

#[test]
fn end_without_block_message() {
    let err = compile(&vec![SequenceStatement::BlockEnd]).unwrap_err();
    assert_eq!(err, CompileError::EndWithoutBlock);
    assert_eq!(err.message(), "encountered `end` without an open block");
}

#[test]
fn unclosed_blocks_are_listed_outermost_first() {
    let stmts = vec![
        SequenceStatement::BlockStart { kind: BlockKind::Loop, label: "l".to_string() },
        SequenceStatement::BlockStart { kind: BlockKind::Opt, label: "o".to_string() },
    ];
    let err = compile(&stmts).unwrap_err();
    assert_eq!(err, CompileError::UnclosedBlocks { blocks: vec![BlockKind::Loop, BlockKind::Opt] });
    assert_eq!(err.message(), "unclosed sequence block(s): loop, opt");
}

#[test]
fn dividers_are_valid_only_in_their_blocks() {
    for (block, divider) in [
        (BlockKind::Alt, BlockDividerKind::Else),
        (BlockKind::Par, BlockDividerKind::And),
        (BlockKind::Critical, BlockDividerKind::Option),
    ] {
        let stmts = vec![
            SequenceStatement::BlockStart { kind: block, label: String::new() },
            SequenceStatement::BlockDivider { kind: divider, label: String::new() },
            SequenceStatement::BlockEnd,
        ];
        assert!(compile(&stmts).is_ok());
    }
}

#[test]
fn compiled_model_has_distinct_ids_and_valid_references() {
    let stmts = vec![
        SequenceStatement::Participant { kind: ParticipantKind::Actor, id: "A".to_string(), alias: None },
        message("A", "B"),
        message("B", "C"),
        message("C", "A"),
        note(NotePlacement::Over, &["A", "C"]),
        SequenceStatement::Activate { participant: "D".to_string() },
    ];
    let model = compile(&stmts).unwrap();
    let ids: HashSet<_> = model.participants.iter().map(|p| p.id.clone()).collect();
    assert_eq!(ids.len(), model.participants.len());
    let n = model.participants.len();
    for event in &model.events {
        match event {
            SequenceEvent::Message { from, to, .. } => assert!(*from < n && *to < n),
            SequenceEvent::Note { participants, .. } => assert!(participants.iter().all(|p| *p < n)),
            SequenceEvent::ActivateStart { participant } | SequenceEvent::ActivateEnd { participant } => {
                assert!(*participant < n)
            }
            _ => {}
        }
    }
    assert_eq!(model.participants[3].id, "D");
}

#[test]
fn decimal_rendering() {
    assert_eq!(usize_to_decimal(0), "0");
    assert_eq!(usize_to_decimal(7), "7");
    assert_eq!(usize_to_decimal(10), "10");
    assert_eq!(usize_to_decimal(4096), "4096");
}

#[test]
fn block_keywords() {
    assert_eq!(BlockKind::Critical.keyword(), "critical");
    assert_eq!(BlockKind::Break.keyword(), "break");
    assert_eq!(BlockDividerKind::And.keyword(), "and");
}

#[test]
fn sequence_instance_new_is_the_unit_instance() {
    assert_eq!(SequenceInstance::new(), SequenceInstance);
}
