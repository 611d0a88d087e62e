//! Sequence diagram statements (the parsed input) and the compiled model.

use vstd::prelude::*;

verus! {

/// How a participant is drawn.
#[derive(Debug, Clone, Copy, PartialEq, Eq, Structural)]
pub enum ParticipantKind {
    Participant,
    Actor,
}

/// Line style of a message arrow.
#[derive(Debug, Clone, Copy, PartialEq, Eq, Structural)]
pub enum LineStyle {
    Solid,
    Dashed,
}

/// Head of a message arrow.
#[derive(Debug, Clone, Copy, PartialEq, Eq, Structural)]
pub enum ArrowHead {
    Filled,
    Open,
    Cross,
    Async,
}

/// Where a note is placed relative to its participants.
#[derive(Debug, Clone, Copy, PartialEq, Eq, Structural)]
pub enum NotePlacement {
    LeftOf,
    RightOf,
    Over,
}

/// `+` / `-` shorthand on a message.
#[derive(Debug, Clone, Copy, PartialEq, Eq, Structural)]
pub enum ActivationModifier {
    Activate,
    Deactivate,
}

/// Interaction operator that opens a block.
#[derive(Debug, Clone, Copy, PartialEq, Eq, Structural)]
pub enum BlockKind {
    Loop,
    Alt,
    Opt,
    Par,
    Critical,
    Break,
}

/// Divider keyword inside an open block.
#[derive(Debug, Clone, Copy, PartialEq, Eq, Structural)]
pub enum BlockDividerKind {
    Else,
    And,
    Option,
}

pub open spec fn spec_block_keyword(kind: BlockKind) -> Seq<char> {
    match kind {
        BlockKind::Loop => "loop"@,
        BlockKind::Alt => "alt"@,
        BlockKind::Opt => "opt"@,
        BlockKind::Par => "par"@,
        BlockKind::Critical => "critical"@,
        BlockKind::Break => "break"@,
    }
}

pub open spec fn spec_divider_keyword(kind: BlockDividerKind) -> Seq<char> {
    match kind {
        BlockDividerKind::Else => "else"@,
        BlockDividerKind::And => "and"@,
        BlockDividerKind::Option => "option"@,
    }
}

impl BlockKind {
    /// The Mermaid keyword that opens this block.
    pub fn keyword(&self) -> (r: &'static str)
        ensures
            r@ == spec_block_keyword(*self),
    {
        match self {
            BlockKind::Loop => "loop",
            BlockKind::Alt => "alt",
            BlockKind::Opt => "opt",
            BlockKind::Par => "par",
            BlockKind::Critical => "critical",
            BlockKind::Break => "break",
        }
    }
}

impl BlockDividerKind {
    /// The Mermaid keyword of this divider.
    pub fn keyword(&self) -> (r: &'static str)
        ensures
            r@ == spec_divider_keyword(*self),
    {
        match self {
            BlockDividerKind::Else => "else",
            BlockDividerKind::And => "and",
            BlockDividerKind::Option => "option",
        }
    }
}

/// One parsed sequence-diagram statement.
#[derive(Debug, Clone, PartialEq)]
pub enum SequenceStatement {
    Participant { kind: ParticipantKind, id: String, alias: Option<String> },
    Autonumber,
    Message {
        from: String,
        to: String,
        line_style: LineStyle,
        arrow_head: ArrowHead,
        text: String,
        activate: Option<ActivationModifier>,
    },
    Activate { participant: String },
    Deactivate { participant: String },
    Note { placement: NotePlacement, participants: Vec<String>, text: String },
    BlockStart { kind: BlockKind, label: String },
    BlockDivider { kind: BlockDividerKind, label: String },
    BlockEnd,
}

/// A participant of the compiled model.
#[derive(Debug, Clone, PartialEq)]
pub struct Participant {
    pub id: String,
    pub label: String,
    pub kind: ParticipantKind,
}

/// One event of the compiled model; participants are referred to by index.
#[derive(Debug, Clone, PartialEq)]
pub enum SequenceEvent {
    Message {
        from: usize,
        to: usize,
        line_style: LineStyle,
        arrow_head: ArrowHead,
        text: String,
        number: Option<usize>,
    },
    Note { placement: NotePlacement, participants: Vec<usize>, text: String },
    ActivateStart { participant: usize },
    ActivateEnd { participant: usize },
    BlockStart { kind: BlockKind, label: String },
    BlockDivider { kind: BlockDividerKind, label: String },
    BlockEnd,
}

/// Mathematical form of an event: note participants as a sequence.
pub enum SpecEvent {
    Message {
        from: nat,
        to: nat,
        line_style: LineStyle,
        arrow_head: ArrowHead,
        text: String,
        number: Option<nat>,
    },
    Note { placement: NotePlacement, participants: Seq<nat>, text: String },
    ActivateStart { participant: nat },
    ActivateEnd { participant: nat },
    BlockStart { kind: BlockKind, label: String },
    BlockDivider { kind: BlockDividerKind, label: String },
    BlockEnd,
}

impl View for SequenceEvent {
    type V = SpecEvent;

    open spec fn view(&self) -> SpecEvent {
        match self {
            SequenceEvent::Message { from, to, line_style, arrow_head, text, number } =>
                SpecEvent::Message {
                    from: *from as nat,
                    to: *to as nat,
                    line_style: *line_style,
                    arrow_head: *arrow_head,
                    text: *text,
                    number: match number {
                        Some(n) => Some(*n as nat),
                        None => None,
                    },
                },
            SequenceEvent::Note { placement, participants, text } => SpecEvent::Note {
                placement: *placement,
                participants: participants@.map_values(|i: usize| i as nat),
                text: *text,
            },
            SequenceEvent::ActivateStart { participant } => SpecEvent::ActivateStart {
                participant: *participant as nat,
            },
            SequenceEvent::ActivateEnd { participant } => SpecEvent::ActivateEnd {
                participant: *participant as nat,
            },
            SequenceEvent::BlockStart { kind, label } => SpecEvent::BlockStart {
                kind: *kind,
                label: *label,
            },
            SequenceEvent::BlockDivider { kind, label } => SpecEvent::BlockDivider {
                kind: *kind,
                label: *label,
            },
            SequenceEvent::BlockEnd => SpecEvent::BlockEnd,
        }
    }
}

/// A validated sequence diagram.
#[derive(Debug, Clone, PartialEq)]
pub struct Sequence {
    pub participants: Vec<Participant>,
    pub events: Vec<SequenceEvent>,
    pub autonumber: bool,
}

} // verus!
