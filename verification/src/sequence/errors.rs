//! Errors reported by the sequence compiler, and their messages.

use vstd::prelude::*;

use super::model::{
    spec_block_keyword, spec_divider_keyword, ActivationModifier, BlockDividerKind, BlockKind,
    NotePlacement, Participant, ParticipantKind, Sequence, SequenceEvent, SequenceStatement,
    SpecEvent,
};
use crate::text::{decimal, usize_to_decimal};

verus! {

/// Why a statement list does not compile.
#[derive(Debug, Clone, PartialEq)]
pub enum CompileError {
    /// A note has the wrong number of participants for its placement.
    NoteParticipantCount { placement: NotePlacement, count: usize },
    /// A note names a participant that was never declared or used.
    UnknownParticipant { name: String },
    /// A divider appears with no block open.
    DividerWithoutBlock { divider: BlockDividerKind },
    /// A divider is not allowed in the innermost open block.
    DividerNotValid { divider: BlockDividerKind, block: BlockKind },
    /// `end` appears with no block open.
    EndWithoutBlock,
    /// Blocks are still open at the end of the input (outermost first).
    UnclosedBlocks { blocks: Vec<BlockKind> },
}

/// Mathematical form of a compile error.
pub enum SpecCompileError {
    NoteParticipantCount { placement: NotePlacement, count: nat },
    UnknownParticipant { name: String },
    DividerWithoutBlock { divider: BlockDividerKind },
    DividerNotValid { divider: BlockDividerKind, block: BlockKind },
    EndWithoutBlock,
    UnclosedBlocks { blocks: Seq<BlockKind> },
}

impl View for CompileError {
    type V = SpecCompileError;

    open spec fn view(&self) -> SpecCompileError {
        match self {
            CompileError::NoteParticipantCount { placement, count } =>
                SpecCompileError::NoteParticipantCount {
                    placement: *placement,
                    count: *count as nat,
                },
            CompileError::UnknownParticipant { name } => SpecCompileError::UnknownParticipant {
                name: *name,
            },
            CompileError::DividerWithoutBlock { divider } => SpecCompileError::DividerWithoutBlock {
                divider: *divider,
            },
            CompileError::DividerNotValid { divider, block } => SpecCompileError::DividerNotValid {
                divider: *divider,
                block: *block,
            },
            CompileError::EndWithoutBlock => SpecCompileError::EndWithoutBlock,
            CompileError::UnclosedBlocks { blocks } => SpecCompileError::UnclosedBlocks {
                blocks: blocks@,
            },
        }
    }
}

/// Keywords of `blocks` joined by `", "`.
pub open spec fn joined_keywords(blocks: Seq<BlockKind>) -> Seq<char>
    decreases blocks.len(),
{
    if blocks.len() == 0 {
        Seq::empty()
    } else if blocks.len() == 1 {
        spec_block_keyword(blocks[0])
    } else {
        joined_keywords(blocks.drop_last()) + ", "@ + spec_block_keyword(blocks.last())
    }
}

/// The human-readable message of an error.
pub open spec fn spec_message(e: SpecCompileError) -> Seq<char> {
    match e {
        SpecCompileError::NoteParticipantCount { placement, count } => match placement {
            NotePlacement::Over => "Note over supports at most 2 participants, got "@ + decimal(
                count,
            ),
            _ => "Note left/right of requires exactly 1 participant, got "@ + decimal(count),
        },
        SpecCompileError::UnknownParticipant { name } => "Note references unknown participant: "@
            + name@,
        SpecCompileError::DividerWithoutBlock { divider } => "encountered `"@
            + spec_divider_keyword(divider) + "` without an open block"@,
        SpecCompileError::DividerNotValid { divider, block } => "`"@ + spec_divider_keyword(
            divider,
        ) + "` is not valid inside `"@ + spec_block_keyword(block) + "` blocks"@,
        SpecCompileError::EndWithoutBlock => "encountered `end` without an open block"@,
        SpecCompileError::UnclosedBlocks { blocks } => "unclosed sequence block(s): "@
            + joined_keywords(blocks),
    }
}

impl CompileError {
    /// The human-readable message of this error.
    pub fn message(&self) -> (r: String)
        ensures
            r@ == spec_message(self@),
    {
        match self {
            CompileError::NoteParticipantCount { placement, count } => {
                let head = match placement {
                    NotePlacement::Over => String::from_str(
                        "Note over supports at most 2 participants, got ",
                    ),
                    _ => String::from_str("Note left/right of requires exactly 1 participant, got "),
                };
                let digits = usize_to_decimal(*count);
                head.concat(digits.as_str())
            },
            CompileError::UnknownParticipant { name } => {
                String::from_str("Note references unknown participant: ").concat(name.as_str())
            },
            CompileError::DividerWithoutBlock { divider } => {
                String::from_str("encountered `").concat(divider.keyword()).concat(
                    "` without an open block",
                )
            },
            CompileError::DividerNotValid { divider, block } => {
                String::from_str("`").concat(divider.keyword()).concat(
                    "` is not valid inside `",
                ).concat(block.keyword()).concat("` blocks")
            },
            CompileError::EndWithoutBlock => String::from_str(
                "encountered `end` without an open block",
            ),
            CompileError::UnclosedBlocks { blocks } => {
                let mut out = String::from_str("unclosed sequence block(s): ");
                let ghost head = out@;
                let mut i: usize = 0;
                while i < blocks.len()
                    invariant
                        i <= blocks.len(),
                        head == "unclosed sequence block(s): "@,
                        out@ == head + joined_keywords(blocks@.take(i as int)),
                    decreases blocks.len() - i,
                {
                    if i > 0 {
                        out.append(", ");
                    }
                    out.append(blocks[i].keyword());
                    proof {
                        let t = blocks@.take(i as int + 1);
                        assert(t.drop_last() =~= blocks@.take(i as int));
                        if i == 0 {
                            assert(joined_keywords(blocks@.take(0)) =~= Seq::<char>::empty());
                        }
                    }
                    i = i + 1;
                }
                assert(blocks@.take(blocks.len() as int) =~= blocks@);
                out
            },
        }
    }
}

} // verus!
