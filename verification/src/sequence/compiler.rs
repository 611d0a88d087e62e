//! Sequence diagram compiler.
//!
//! Compiles parsed statements into a validated `Sequence`: participants are
//! ordered by first appearance (explicit declarations first, then implicit
//! ones from message and activation endpoints), references are resolved to
//! indices, autonumbering is applied and interaction blocks are checked.

use vstd::prelude::*;

use super::errors::{CompileError, SpecCompileError};
use super::model::{
    spec_block_keyword, spec_divider_keyword, ActivationModifier, BlockDividerKind, BlockKind,
    NotePlacement, Participant, ParticipantKind, Sequence, SequenceEvent, SequenceStatement,
    SpecEvent,
};

verus! {

// ---------------------------------------------------------------------------
// Specification
// ---------------------------------------------------------------------------

/// Index of the participant whose id is `id`, if any (the first such one).
pub open spec fn find_participant(ps: Seq<Participant>, id: Seq<char>) -> Option<nat>
    decreases ps.len(),
{
    if ps.len() == 0 {
        None
    } else {
        match find_participant(ps.drop_last(), id) {
            Some(i) => Some(i),
            None => if ps.last().id@ == id {
                Some((ps.len() - 1) as nat)
            } else {
                None
            },
        }
    }
}

/// Participant ids are pairwise distinct.
pub open spec fn distinct_ids(ps: Seq<Participant>) -> bool {
    forall|i: int, j: int| 0 <= i < j < ps.len() ==> ps[i].id@ != ps[j].id@
}

/// The participant created by an explicit declaration.
pub open spec fn declared_participant(
    kind: ParticipantKind,
    id: String,
    alias: Option<String>,
) -> Participant {
    Participant {
        id,
        label: match alias {
            Some(a) => a,
            None => id,
        },
        kind,
    }
}

/// The participant created implicitly by a reference.
pub open spec fn implicit_participant(id: String) -> Participant {
    Participant { id, label: id, kind: ParticipantKind::Participant }
}

/// First pass over the first `k` statements: explicit declarations, in order, once per id.
pub open spec fn declared_participants(stmts: Seq<SequenceStatement>, k: nat) -> Seq<Participant>
    decreases k,
{
    if k == 0 || k > stmts.len() {
        Seq::empty()
    } else {
        let prev = declared_participants(stmts, (k - 1) as nat);
        match stmts[k - 1] {
            SequenceStatement::Participant { kind, id, alias } => if find_participant(
                prev,
                id@,
            ) is Some {
                prev
            } else {
                prev.push(declared_participant(kind, id, alias))
            },
            _ => prev,
        }
    }
}

/// Autonumbering is on when any statement asks for it.
pub open spec fn has_autonumber(stmts: Seq<SequenceStatement>) -> bool {
    exists|i: int| 0 <= i < stmts.len() && stmts[i] is Autonumber
}

/// State of the second pass.
pub struct CompileState {
    pub participants: Seq<Participant>,
    pub events: Seq<SpecEvent>,
    pub messages: nat,
    pub blocks: Seq<BlockKind>,
}

/// Resolve `id`, appending an implicit participant when it is unknown.
pub open spec fn ensure_spec(ps: Seq<Participant>, id: String) -> (Seq<Participant>, nat) {
    match find_participant(ps, id@) {
        Some(i) => (ps, i),
        None => (ps.push(implicit_participant(id)), ps.len()),
    }
}

/// Resolve every name of a note, failing on the first unknown one.
pub open spec fn note_indices(ps: Seq<Participant>, names: Seq<String>) -> Result<
    Seq<nat>,
    String,
>
    decreases names.len(),
{
    if names.len() == 0 {
        Ok(Seq::empty())
    } else {
        match note_indices(ps, names.drop_last()) {
            Err(e) => Err(e),
            Ok(prefix) => match find_participant(ps, names.last()@) {
                Some(i) => Ok(prefix.push(i)),
                None => Err(names.last()),
            },
        }
    }
}

/// Whether a divider may stand in the innermost open block.
pub open spec fn divider_allowed(block: BlockKind, divider: BlockDividerKind) -> bool {
    ||| block == BlockKind::Alt && divider == BlockDividerKind::Else
    ||| block == BlockKind::Par && divider == BlockDividerKind::And
    ||| block == BlockKind::Critical && divider == BlockDividerKind::Option
}

/// Outcome of checking a divider against the open blocks.
pub open spec fn divider_check(blocks: Seq<BlockKind>, divider: BlockDividerKind) -> Result<
    (),
    SpecCompileError,
> {
    if blocks.len() == 0 {
        Err(SpecCompileError::DividerWithoutBlock { divider })
    } else if divider_allowed(blocks.last(), divider) {
        Ok(())
    } else {
        Err(SpecCompileError::DividerNotValid { divider, block: blocks.last() })
    }
}

pub open spec fn note_count_ok(placement: NotePlacement, count: nat) -> bool {
    match placement {
        NotePlacement::LeftOf | NotePlacement::RightOf => count == 1,
        NotePlacement::Over => count <= 2,
    }
}

/// One step of the second pass.
pub open spec fn compile_step(st: CompileState, stmt: SequenceStatement, auto: bool) -> Result<
    CompileState,
    SpecCompileError,
> {
    match stmt {
        SequenceStatement::Message { from, to, line_style, arrow_head, text, activate } => {
            let (ps1, f) = ensure_spec(st.participants, from);
            let (ps2, t) = ensure_spec(ps1, to);
            let n = st.messages + 1;
            let msg = SpecEvent::Message {
                from: f,
                to: t,
                line_style,
                arrow_head,
                text,
                number: if auto {
                    Some(n)
                } else {
                    None
                },
            };
            let evs = st.events.push(msg);
            let evs2 = match activate {
                Some(ActivationModifier::Activate) => evs.push(
                    SpecEvent::ActivateStart { participant: t },
                ),
                Some(ActivationModifier::Deactivate) => evs.push(
                    SpecEvent::ActivateEnd { participant: f },
                ),
                None => evs,
            };
            Ok(CompileState { participants: ps2, events: evs2, messages: n, blocks: st.blocks })
        },
        SequenceStatement::Activate { participant } => {
            let (ps, i) = ensure_spec(st.participants, participant);
            Ok(
                CompileState {
                    participants: ps,
                    events: st.events.push(SpecEvent::ActivateStart { participant: i }),
                    ..st
                },
            )
        },
        SequenceStatement::Deactivate { participant } => {
            let (ps, i) = ensure_spec(st.participants, participant);
            Ok(
                CompileState {
                    participants: ps,
                    events: st.events.push(SpecEvent::ActivateEnd { participant: i }),
                    ..st
                },
            )
        },
        SequenceStatement::Note { placement, participants, text } => {
            if !note_count_ok(placement, participants.len() as nat) {
                Err(
                    SpecCompileError::NoteParticipantCount {
                        placement,
                        count: participants.len() as nat,
                    },
                )
            } else {
                match note_indices(st.participants, participants@) {
                    Err(name) => Err(SpecCompileError::UnknownParticipant { name }),
                    Ok(idx) => Ok(
                        CompileState {
                            events: st.events.push(
                                SpecEvent::Note { placement, participants: idx, text },
                            ),
                            ..st
                        },
                    ),
                }
            }
        },
        SequenceStatement::Participant { .. } | SequenceStatement::Autonumber => Ok(st),
        SequenceStatement::BlockStart { kind, label } => Ok(
            CompileState {
                events: st.events.push(SpecEvent::BlockStart { kind, label }),
                blocks: st.blocks.push(kind),
                ..st
            },
        ),
        SequenceStatement::BlockDivider { kind, label } => match divider_check(st.blocks, kind) {
            Err(e) => Err(e),
            Ok(_) => Ok(
                CompileState {
                    events: st.events.push(SpecEvent::BlockDivider { kind, label }),
                    ..st
                },
            ),
        },
        SequenceStatement::BlockEnd => if st.blocks.len() == 0 {
            Err(SpecCompileError::EndWithoutBlock)
        } else {
            Ok(
                CompileState {
                    events: st.events.push(SpecEvent::BlockEnd),
                    blocks: st.blocks.drop_last(),
                    ..st
                },
            )
        },
    }
}

/// State after the second pass has processed the first `k` statements.
pub open spec fn compile_prefix(stmts: Seq<SequenceStatement>, k: nat) -> Result<
    CompileState,
    SpecCompileError,
>
    decreases k,
{
    if k == 0 || k > stmts.len() {
        Ok(
            CompileState {
                participants: declared_participants(stmts, stmts.len()),
                events: Seq::empty(),
                messages: 0,
                blocks: Seq::empty(),
            },
        )
    } else {
        match compile_prefix(stmts, (k - 1) as nat) {
            Err(e) => Err(e),
            Ok(st) => compile_step(st, stmts[k - 1], has_autonumber(stmts)),
        }
    }
}

/// What `compile` returns: participants, events and the autonumber flag, or the first error.
pub open spec fn compile_spec(stmts: Seq<SequenceStatement>) -> Result<
    (Seq<Participant>, Seq<SpecEvent>, bool),
    SpecCompileError,
> {
    match compile_prefix(stmts, stmts.len()) {
        Err(e) => Err(e),
        Ok(st) => if st.blocks.len() > 0 {
            Err(SpecCompileError::UnclosedBlocks { blocks: st.blocks })
        } else {
            Ok((st.participants, st.events, has_autonumber(stmts)))
        },
    }
}

// ---------------------------------------------------------------------------
// Lemmas
// ---------------------------------------------------------------------------

proof fn lemma_find_participant(ps: Seq<Participant>, id: Seq<char>)
    ensures
        match find_participant(ps, id) {
            Some(i) => i < ps.len() && ps[i as int].id@ == id,
            None => forall|j: int| 0 <= j < ps.len() ==> ps[j].id@ != id,
        },
    decreases ps.len(),
{
    if ps.len() > 0 {
        let d = ps.drop_last();
        lemma_find_participant(d, id);
        assert(forall|j: int| 0 <= j < d.len() ==> d[j] == ps[j]);
    }
}

proof fn lemma_find_push(ps: Seq<Participant>, p: Participant, id: Seq<char>)
    ensures
        find_participant(ps.push(p), id) == (match find_participant(ps, id) {
            Some(i) => Some(i),
            None => if p.id@ == id {
                Some(ps.len())
            } else {
                None
            },
        }),
{
    assert(ps.push(p).drop_last() =~= ps);
}

proof fn lemma_ensure_spec(ps: Seq<Participant>, id: String)
    requires
        distinct_ids(ps),
    ensures
        distinct_ids(ensure_spec(ps, id).0),
        ensure_spec(ps, id).1 < ensure_spec(ps, id).0.len(),
        ensure_spec(ps, id).0[ensure_spec(ps, id).1 as int].id@ == id@,
        ensure_spec(ps, id).0.len() >= ps.len(),
        ps.is_prefix_of(ensure_spec(ps, id).0),
{
    lemma_find_participant(ps, id@);
    let r = ensure_spec(ps, id);
    assert(ps.is_prefix_of(r.0)) by {
        assert(forall|i: int| 0 <= i < ps.len() ==> r.0[i] == ps[i]);
    }
}


// ---------------------------------------------------------------------------
// Implementation
// ---------------------------------------------------------------------------

/// Index of the participant with id `id`, if there is one.
fn lookup_participant(participants: &Vec<Participant>, id: &String) -> (r: Option<usize>)
    ensures
        match r {
            Some(i) => find_participant(participants@, id@) == Some(i as nat),
            None => find_participant(participants@, id@) is None,
        },
{
    let mut i: usize = 0;
    while i < participants.len()
        invariant
            i <= participants.len(),
            find_participant(participants@.take(i as int), id@) is None,
        decreases participants.len() - i,
    {
        proof {
            lemma_find_push(participants@.take(i as int), participants@[i as int], id@);
            assert(participants@.take(i as int).push(participants@[i as int]) =~= participants@.take(
                i as int + 1,
            ));
        }
        if participants[i].id == *id {
            proof {
                lemma_find_prefix_extends(participants@, i as nat + 1, id@);
            }
            return Some(i);
        }
        i = i + 1;
    }
    assert(participants@.take(i as int) =~= participants@);
    None
}

/// Once `id` is found in a prefix, the lookup in the whole sequence finds the same index.
proof fn lemma_find_prefix_extends(ps: Seq<Participant>, k: nat, id: Seq<char>)
    requires
        k <= ps.len(),
        find_participant(ps.take(k as int), id) is Some,
    ensures
        find_participant(ps, id) == find_participant(ps.take(k as int), id),
    decreases ps.len() - k,
{
    if k < ps.len() {
        lemma_find_push(ps.take(k as int), ps[k as int], id);
        assert(ps.take(k as int).push(ps[k as int]) =~= ps.take(k as int + 1));
        lemma_find_prefix_extends(ps, k + 1, id);
    } else {
        assert(ps.take(k as int) =~= ps);
    }
}

/// Ensure a participant exists, creating an implicit one if needed.
/// Returns the participant index.
fn ensure_participant(participants: &mut Vec<Participant>, id: &String) -> (r: usize)
    ensures
        (final(participants)@, r as nat) == ensure_spec(old(participants)@, *id),
{
    proof {
        lemma_find_participant(old(participants)@, id@);
    }
    match lookup_participant(participants, id) {
        Some(i) => {
            assert(find_participant(participants@, id@) == Some(i as nat));
            assert(ensure_spec(participants@, *id) == (participants@, i as nat));
            i
        },
        None => {
            let idx = participants.len();
            let p = Participant { id: id.clone(), label: id.clone(), kind: ParticipantKind::Participant };
            assert(p == implicit_participant(*id));
            participants.push(p);
            idx
        },
    }
}

/// Check a divider against the innermost open block.
fn validate_block_divider(block_stack: &Vec<BlockKind>, divider: BlockDividerKind) -> (r: Result<
    (),
    CompileError,
>)
    ensures
        match r {
            Ok(_) => divider_check(block_stack@, divider) is Ok,
            Err(e) => divider_check(block_stack@, divider) == Err::<(), SpecCompileError>(e@),
        },
{
    if block_stack.len() == 0 {
        return Err(CompileError::DividerWithoutBlock { divider });
    }
    let current = block_stack[block_stack.len() - 1];
    match (current, divider) {
        (BlockKind::Alt, BlockDividerKind::Else)
        | (BlockKind::Par, BlockDividerKind::And)
        | (BlockKind::Critical, BlockDividerKind::Option) => Ok(()),
        _ => Err(CompileError::DividerNotValid { divider, block: current }),
    }
}

/// An error in a prefix is the error of the whole compilation.
proof fn lemma_compile_err_propagates(stmts: Seq<SequenceStatement>, k: nat)
    requires
        k <= stmts.len(),
        compile_prefix(stmts, k) is Err,
    ensures
        compile_spec(stmts) == Err::<(Seq<Participant>, Seq<SpecEvent>, bool), SpecCompileError>(
            compile_prefix(stmts, k)->Err_0,
        ),
    decreases stmts.len() - k,
{
    if k < stmts.len() {
        assert(compile_prefix(stmts, k + 1) == compile_prefix(stmts, k));
        lemma_compile_err_propagates(stmts, k + 1);
    }
}

/// Exec form of the events accumulated so far, related to their mathematical form.
pub open spec fn events_view(events: Seq<SequenceEvent>) -> Seq<SpecEvent> {
    events.map_values(|e: SequenceEvent| e@)
}

pub broadcast proof fn lemma_events_view_push(s: Seq<SequenceEvent>, e: SequenceEvent)
    ensures
        #[trigger] events_view(s.push(e)) == events_view(s).push(e@),
{
    assert(events_view(s.push(e)) =~= events_view(s).push(e@));
}

/// A note whose `k`-th name is the first unknown one fails with that name.
proof fn lemma_note_indices_err_extends(ps: Seq<Participant>, names: Seq<String>, k: nat)
    requires
        1 <= k <= names.len(),
        note_indices(ps, names.take(k as int - 1)) is Ok,
        find_participant(ps, names[k as int - 1]@) is None,
    ensures
        note_indices(ps, names) == Err::<Seq<nat>, String>(names[k as int - 1]),
    decreases names.len() - k,
{
    let t = names.take(k as int);
    assert(t.drop_last() =~= names.take(k as int - 1));
    assert(note_indices(ps, t) == Err::<Seq<nat>, String>(names[k as int - 1]));
    lemma_note_indices_err_prefix(ps, names, k);
}

proof fn lemma_note_indices_err_prefix(ps: Seq<Participant>, names: Seq<String>, k: nat)
    requires
        k <= names.len(),
        note_indices(ps, names.take(k as int)) is Err,
    ensures
        note_indices(ps, names) == note_indices(ps, names.take(k as int)),
    decreases names.len() - k,
{
    if k < names.len() {
        let t = names.take(k as int + 1);
        assert(t.drop_last() =~= names.take(k as int));
        lemma_note_indices_err_prefix(ps, names, k + 1);
    } else {
        assert(names.take(k as int) =~= names);
    }
}

/// Compile parsed sequence statements into a validated model.
///
/// Participants are ordered by first appearance (explicit declarations first,
/// then implicit from message endpoints). Unknown participant references in
/// notes produce an error.
#[verifier::loop_isolation(false)]
pub fn compile(statements: &Vec<SequenceStatement>) -> (r: Result<Sequence, CompileError>)
    requires
        statements.len() < usize::MAX,
    ensures
        match r {
            Ok(model) => compile_spec(statements@) == Ok::<_, SpecCompileError>(
                (model.participants@, events_view(model.events@), model.autonumber),
            ),
            Err(e) => compile_spec(statements@) == Err::<
                (Seq<Participant>, Seq<SpecEvent>, bool),
                SpecCompileError,
            >(e@),
        },
{
    broadcast use lemma_events_view_push;

    let mut participants: Vec<Participant> = Vec::new();
    let mut events: Vec<SequenceEvent> = Vec::new();
    let mut autonumber = false;
    let mut message_counter: usize = 0;
    let mut block_stack: Vec<BlockKind> = Vec::new();
    let ghost stmts = statements@;

    // First pass: collect explicit participant declarations (preserving order)
    let mut i: usize = 0;
    while i < statements.len()
        invariant
            i <= statements.len(),
            stmts == statements@,
            participants@ == declared_participants(stmts, i as nat),
            autonumber == exists|j: int| 0 <= j < i && stmts[j] is Autonumber,
        decreases statements.len() - i,
    {
        match &statements[i] {
            SequenceStatement::Participant { kind, id, alias } => {
                if lookup_participant(&participants, id).is_none() {
                    let label = match alias {
                        Some(a) => a.clone(),
                        None => id.clone(),
                    };
                    participants.push(Participant { id: id.clone(), label, kind: *kind });
                }
            },
            SequenceStatement::Autonumber => {
                autonumber = true;
            },
            _ => {},
        }
        i = i + 1;
    }
    assert(autonumber == has_autonumber(stmts));

    // Second pass: process messages and notes, creating implicit participants as needed
    let mut i: usize = 0;
    assert(events_view(events@) =~= Seq::<SpecEvent>::empty());
    while i < statements.len()
        invariant
            i <= statements.len(),
            stmts == statements@,
            autonumber == has_autonumber(stmts),
            message_counter <= i,
            compile_prefix(stmts, i as nat) == Ok::<CompileState, SpecCompileError>(
                CompileState {
                    participants: participants@,
                    events: events_view(events@),
                    messages: message_counter as nat,
                    blocks: block_stack@,
                },
            ),
        decreases statements.len() - i,
    {
        let ghost st = compile_prefix(stmts, i as nat)->Ok_0;
        let ghost next = compile_step(st, stmts[i as int], autonumber);
        assert(compile_prefix(stmts, i as nat + 1) == next);
        match &statements[i] {
            SequenceStatement::Message { from, to, line_style, arrow_head, text, activate } => {
                let from_idx = ensure_participant(&mut participants, from);
                let to_idx = ensure_participant(&mut participants, to);
                message_counter = message_counter + 1;
                events.push(
                    SequenceEvent::Message {
                        from: from_idx,
                        to: to_idx,
                        line_style: *line_style,
                        arrow_head: *arrow_head,
                        text: text.clone(),
                        number: if autonumber {
                            Some(message_counter)
                        } else {
                            None
                        },
                    },
                );
                // + activates the target; - deactivates the source.
                match activate {
                    Some(ActivationModifier::Activate) => {
                        events.push(SequenceEvent::ActivateStart { participant: to_idx });
                    },
                    Some(ActivationModifier::Deactivate) => {
                        events.push(SequenceEvent::ActivateEnd { participant: from_idx });
                    },
                    None => {},
                }
            },
            SequenceStatement::Activate { participant: id } => {
                let idx = ensure_participant(&mut participants, id);
                events.push(SequenceEvent::ActivateStart { participant: idx });
            },
            SequenceStatement::Deactivate { participant: id } => {
                let idx = ensure_participant(&mut participants, id);
                events.push(SequenceEvent::ActivateEnd { participant: idx });
            },
            SequenceStatement::Note { placement, participants: names, text } => {
                let count_ok = match placement {
                    NotePlacement::LeftOf | NotePlacement::RightOf => names.len() == 1,
                    NotePlacement::Over => names.len() <= 2,
                };
                if !count_ok {
                    proof {
                        lemma_compile_err_propagates(stmts, i as nat + 1);
                    }
                    return Err(
                        CompileError::NoteParticipantCount {
                            placement: *placement,
                            count: names.len(),
                        },
                    );
                }
                let mut indices: Vec<usize> = Vec::new();
                let mut k: usize = 0;
                assert(names@.take(0) =~= Seq::<String>::empty());
                assert(indices@.map_values(|x: usize| x as nat) =~= Seq::<nat>::empty());
                while k < names.len()
                    invariant
                        k <= names.len(),
                        note_indices(participants@, names@.take(k as int)) == Ok::<
                            Seq<nat>,
                            String,
                        >(indices@.map_values(|x: usize| x as nat)),
                    decreases names.len() - k,
                {
                    proof {
                        assert(names@.take(k as int + 1).drop_last() =~= names@.take(k as int));
                        assert(names@.take(k as int + 1).last() == names@[k as int]);
                    }
                    let ghost prev_indices = indices@;
                    proof {
                        lemma_find_participant(participants@, names@[k as int]@);
                    }
                    match lookup_participant(&participants, &names[k]) {
                        Some(idx) => {
                            indices.push(idx);
                            proof {
                                assert(indices@.map_values(|x: usize| x as nat) =~= prev_indices.map_values(
                                    |x: usize| x as nat,
                                ).push(idx as nat));
                            }
                        },
                        None => {
                            proof {
                                lemma_note_indices_err_extends(
                                    participants@,
                                    names@,
                                    k as nat + 1,
                                );
                                lemma_compile_err_propagates(stmts, i as nat + 1);
                            }
                            return Err(CompileError::UnknownParticipant { name: names[k].clone() });
                        },
                    }
                    k = k + 1;
                }
                assert(names@.take(names.len() as int) =~= names@);
                events.push(
                    SequenceEvent::Note {
                        placement: *placement,
                        participants: indices,
                        text: text.clone(),
                    },
                );
            },
            SequenceStatement::Participant { .. } | SequenceStatement::Autonumber => {
                // Already handled in first pass
            },
            SequenceStatement::BlockStart { kind, label } => {
                block_stack.push(*kind);
                events.push(SequenceEvent::BlockStart { kind: *kind, label: label.clone() });
            },
            SequenceStatement::BlockDivider { kind, label } => {
                match validate_block_divider(&block_stack, *kind) {
                    Ok(_) => {},
                    Err(e) => {
                        proof {
                            lemma_compile_err_propagates(stmts, i as nat + 1);
                        }
                        return Err(e);
                    },
                }
                events.push(SequenceEvent::BlockDivider { kind: *kind, label: label.clone() });
            },
            SequenceStatement::BlockEnd => {
                match block_stack.pop() {
                    Some(_) => {},
                    None => {
                        proof {
                            lemma_compile_err_propagates(stmts, i as nat + 1);
                        }
                        return Err(CompileError::EndWithoutBlock);
                    },
                }
                events.push(SequenceEvent::BlockEnd);
            },
        }
        i = i + 1;
    }

    if block_stack.len() > 0 {
        return Err(CompileError::UnclosedBlocks { blocks: block_stack });
    }

    Ok(Sequence { participants, events, autonumber })
}

// ---------------------------------------------------------------------------
// Laws of the compiled model
// ---------------------------------------------------------------------------

/// Every participant index an event mentions is below `n`.
pub open spec fn event_refs_below(e: SpecEvent, n: nat) -> bool {
    match e {
        SpecEvent::Message { from, to, .. } => from < n && to < n,
        SpecEvent::Note { participants, .. } => forall|j: int|
            0 <= j < participants.len() ==> #[trigger] participants[j] < n,
        SpecEvent::ActivateStart { participant } => participant < n,
        SpecEvent::ActivateEnd { participant } => participant < n,
        _ => true,
    }
}

/// The properties every (partial) compilation state keeps.
pub open spec fn state_wf(stmts: Seq<SequenceStatement>, st: CompileState) -> bool {
    &&& distinct_ids(st.participants)
    &&& declared_participants(stmts, stmts.len()).is_prefix_of(st.participants)
    &&& forall|j: int|
        0 <= j < st.events.len() ==> event_refs_below(#[trigger] st.events[j], st.participants.len())
}

proof fn lemma_declared_distinct(stmts: Seq<SequenceStatement>, k: nat)
    ensures
        distinct_ids(declared_participants(stmts, k)),
    decreases k,
{
    if k > 0 && k <= stmts.len() {
        let prev = declared_participants(stmts, (k - 1) as nat);
        lemma_declared_distinct(stmts, (k - 1) as nat);
        match stmts[k - 1] {
            SequenceStatement::Participant { kind, id, alias } => {
                lemma_find_participant(prev, id@);
            },
            _ => {},
        }
    }
}

proof fn lemma_note_indices_below(ps: Seq<Participant>, names: Seq<String>)
    ensures
        note_indices(ps, names) matches Ok(idx) ==> forall|j: int|
            0 <= j < idx.len() ==> #[trigger] idx[j] < ps.len(),
    decreases names.len(),
{
    if names.len() > 0 {
        lemma_note_indices_below(ps, names.drop_last());
        lemma_find_participant(ps, names.last()@);
    }
}

proof fn lemma_step_wf(stmts: Seq<SequenceStatement>, st: CompileState, stmt: SequenceStatement, auto: bool)
    requires
        state_wf(stmts, st),
    ensures
        compile_step(st, stmt, auto) matches Ok(next) ==> state_wf(stmts, next),
{
    let d = declared_participants(stmts, stmts.len());
    match stmt {
        SequenceStatement::Message { from, to, .. } => {
            lemma_ensure_spec(st.participants, from);
            let (ps1, f) = ensure_spec(st.participants, from);
            lemma_ensure_spec(ps1, to);
            let (ps2, t) = ensure_spec(ps1, to);
            assert(d.is_prefix_of(ps2)) by {
                assert(forall|i: int| 0 <= i < d.len() ==> ps2[i] == ps1[i] && ps1[i] == st.participants[i]);
            }
        },
        SequenceStatement::Activate { participant } => {
            lemma_ensure_spec(st.participants, participant);
            let (ps, i) = ensure_spec(st.participants, participant);
            assert(d.is_prefix_of(ps)) by {
                assert(forall|k: int| 0 <= k < d.len() ==> ps[k] == st.participants[k]);
            }
        },
        SequenceStatement::Deactivate { participant } => {
            lemma_ensure_spec(st.participants, participant);
            let (ps, i) = ensure_spec(st.participants, participant);
            assert(d.is_prefix_of(ps)) by {
                assert(forall|k: int| 0 <= k < d.len() ==> ps[k] == st.participants[k]);
            }
        },
        SequenceStatement::Note { participants, .. } => {
            lemma_note_indices_below(st.participants, participants@);
        },
        _ => {},
    }
    match compile_step(st, stmt, auto) {
        Ok(next) => {
            assert forall|j: int| 0 <= j < next.events.len() implies event_refs_below(
                #[trigger] next.events[j],
                next.participants.len(),
            ) by {
                if j < st.events.len() {
                    assert(next.events[j] == st.events[j]);
                }
            }
        },
        Err(_) => {},
    }
}

proof fn lemma_prefix_wf(stmts: Seq<SequenceStatement>, k: nat)
    ensures
        compile_prefix(stmts, k) matches Ok(st) ==> state_wf(stmts, st),
    decreases k,
{
    if k == 0 || k > stmts.len() {
        lemma_declared_distinct(stmts, stmts.len());
        let st = compile_prefix(stmts, k)->Ok_0;
        assert(st.participants.is_prefix_of(st.participants));
    } else {
        lemma_prefix_wf(stmts, (k - 1) as nat);
        match compile_prefix(stmts, (k - 1) as nat) {
            Ok(st) => lemma_step_wf(stmts, st, stmts[k - 1], has_autonumber(stmts)),
            Err(_) => {},
        }
    }
}

/// A compiled model lists each participant id once, starts with the explicitly
/// declared participants in declaration order, and every event refers to an
/// existing participant.
pub proof fn law_compiled_model_is_well_formed(stmts: Seq<SequenceStatement>)
    ensures
        compile_spec(stmts) matches Ok((ps, events, _)) ==> {
            &&& distinct_ids(ps)
            &&& declared_participants(stmts, stmts.len()).is_prefix_of(ps)
            &&& forall|j: int| 0 <= j < events.len() ==> event_refs_below(#[trigger] events[j], ps.len())
        },
{
    lemma_prefix_wf(stmts, stmts.len());
}

/// One compilation step only appends: participants and events before the
/// step are prefixes of those after it.
proof fn lemma_step_appends(st: CompileState, stmt: SequenceStatement, auto: bool)
    ensures
        compile_step(st, stmt, auto) matches Ok(next) ==> st.participants.is_prefix_of(next.participants)
            && st.events.is_prefix_of(next.events),
{
    match stmt {
        SequenceStatement::Message { from, to, .. } => {
            let (ps1, f) = ensure_spec(st.participants, from);
            let (ps2, t) = ensure_spec(ps1, to);
            assert(st.participants.is_prefix_of(ps1));
            assert(ps1.is_prefix_of(ps2));
            assert(forall|i: int| 0 <= i < st.participants.len() ==> ps2[i] == ps1[i] && ps1[i] == st.participants[i]);
        },
        _ => {},
    }
    match compile_step(st, stmt, auto) {
        Ok(next) => {
            assert(forall|i: int| 0 <= i < st.events.len() ==> next.events[i] == st.events[i]);
        },
        Err(_) => {},
    }
}

/// Compiling more statements only appends: the state after `k` statements is
/// a prefix of the state after `m` statements, for `k <= m`.
proof fn lemma_prefix_appends(stmts: Seq<SequenceStatement>, k: nat, m: nat)
    requires
        k <= m <= stmts.len(),
        compile_prefix(stmts, m) is Ok,
    ensures
        compile_prefix(stmts, k) is Ok,
        compile_prefix(stmts, k)->Ok_0.participants.is_prefix_of(compile_prefix(stmts, m)->Ok_0.participants),
        compile_prefix(stmts, k)->Ok_0.events.is_prefix_of(compile_prefix(stmts, m)->Ok_0.events),
    decreases m - k,
{
    if k < m {
        let prev = compile_prefix(stmts, (m - 1) as nat);
        assert(prev is Ok);
        lemma_prefix_appends(stmts, k, (m - 1) as nat);
        lemma_step_appends(prev->Ok_0, stmts[m - 1], has_autonumber(stmts));
        let a = compile_prefix(stmts, k)->Ok_0;
        let b = prev->Ok_0;
        let c = compile_prefix(stmts, m)->Ok_0;
        assert(forall|i: int| 0 <= i < a.participants.len() ==> c.participants[i] == b.participants[i] && b.participants[i] == a.participants[i]);
        assert(forall|i: int| 0 <= i < a.events.len() ==> c.events[i] == b.events[i] && b.events[i] == a.events[i]);
    }
}

/// Every message of a compiled diagram appears as a message event between the
/// participants it names, and the `+` / `-` shorthand acts on the right end:
/// `+` is followed by the activation of the receiver, `-` by the
/// deactivation of the sender.
pub proof fn law_message_activation_shorthand(stmts: Seq<SequenceStatement>, k: int)
    requires
        0 <= k < stmts.len(),
        compile_spec(stmts) is Ok,
    ensures
        match stmts[k] {
            SequenceStatement::Message { from, to, activate, .. } => {
                let ps = compile_spec(stmts)->Ok_0.0;
                let evs = compile_spec(stmts)->Ok_0.1;
                exists|j: int|
                    0 <= j < evs.len() && (#[trigger] evs[j] matches SpecEvent::Message { from: f, to: t, .. } && f
                        < ps.len() && t < ps.len() && ps[f as int].id@ == from@ && ps[t as int].id@ == to@ && match activate {
                        Some(ActivationModifier::Activate) => j + 1 < evs.len() && evs[j + 1]
                            == SpecEvent::ActivateStart { participant: t },
                        Some(ActivationModifier::Deactivate) => j + 1 < evs.len() && evs[j + 1]
                            == SpecEvent::ActivateEnd { participant: f },
                        None => true,
                    })
            },
            _ => true,
        },
{
    let n = stmts.len();
    assert(compile_prefix(stmts, n) is Ok);
    lemma_prefix_appends(stmts, k as nat, n);
    lemma_prefix_appends(stmts, (k + 1) as nat, n);
    lemma_prefix_wf(stmts, k as nat);
    let st0 = compile_prefix(stmts, k as nat)->Ok_0;
    let st1 = compile_prefix(stmts, (k + 1) as nat)->Ok_0;
    let fin = compile_prefix(stmts, n)->Ok_0;
    assert(compile_prefix(stmts, (k + 1) as nat) == compile_step(st0, stmts[k], has_autonumber(stmts)));
    match stmts[k] {
        SequenceStatement::Message { from, to, activate, .. } => {
            lemma_ensure_spec(st0.participants, from);
            let (ps1, f) = ensure_spec(st0.participants, from);
            lemma_ensure_spec(ps1, to);
            let (ps2, t) = ensure_spec(ps1, to);
            assert(ps1.is_prefix_of(ps2));
            assert(ps2[f as int] == ps1[f as int]);
            let j = st0.events.len() as int;
            assert(st1.participants == ps2);
            assert(fin.participants[f as int] == ps2[f as int]);
            assert(fin.participants[t as int] == ps2[t as int]);
            assert(fin.events[j] == st1.events[j]);
            match activate {
                Some(_) => {
                    assert(fin.events[j + 1] == st1.events[j + 1]);
                },
                None => {},
            }
            assert(compile_spec(stmts)->Ok_0.0 == fin.participants);
            assert(compile_spec(stmts)->Ok_0.1 == fin.events);
        },
        _ => {},
    }
}

/// Number of message events in `evs`.
pub open spec fn message_count(evs: Seq<SpecEvent>) -> nat
    decreases evs.len(),
{
    if evs.len() == 0 {
        0
    } else {
        message_count(evs.drop_last()) + if evs.last() is Message {
            1nat
        } else {
            0nat
        }
    }
}

/// Message events are numbered `1, 2, 3, ...` in order when autonumbering is
/// on, and carry no number when it is off.
pub open spec fn numbered_in_order(evs: Seq<SpecEvent>, auto: bool) -> bool {
    forall|j: int|
        0 <= j < evs.len() ==> ((#[trigger] evs[j]) matches SpecEvent::Message { number, .. } ==> number == (if auto {
            Some(message_count(evs.take(j + 1)))
        } else {
            None
        }))
}

proof fn lemma_numbering_push(evs: Seq<SpecEvent>, e: SpecEvent, auto: bool)
    requires
        numbered_in_order(evs, auto),
        e matches SpecEvent::Message { number, .. } ==> number == (if auto {
            Some(message_count(evs) + 1)
        } else {
            None
        }),
    ensures
        numbered_in_order(evs.push(e), auto),
        message_count(evs.push(e)) == message_count(evs) + if e is Message {
            1nat
        } else {
            0nat
        },
{
    let next = evs.push(e);
    assert(next.drop_last() =~= evs);
    assert forall|j: int| 0 <= j < next.len() implies ((#[trigger] next[j]) matches SpecEvent::Message { number, .. }
        ==> number == (if auto {
        Some(message_count(next.take(j + 1)))
    } else {
        None
    })) by {
        if j < evs.len() {
            assert(next.take(j + 1) =~= evs.take(j + 1));
            assert(next[j] == evs[j]);
        } else {
            assert(next.take(j + 1) =~= next);
        }
    }
}

proof fn lemma_prefix_numbering(stmts: Seq<SequenceStatement>, k: nat)
    ensures
        compile_prefix(stmts, k) matches Ok(st) ==> st.messages == message_count(st.events) && numbered_in_order(
            st.events,
            has_autonumber(stmts),
        ),
    decreases k,
{
    let auto = has_autonumber(stmts);
    if k == 0 || k > stmts.len() {
        assert(numbered_in_order(Seq::<SpecEvent>::empty(), auto));
    } else {
        lemma_prefix_numbering(stmts, (k - 1) as nat);
        match compile_prefix(stmts, (k - 1) as nat) {
            Ok(st) => {
                match stmts[k - 1] {
                    SequenceStatement::Message { from, to, line_style, arrow_head, text, activate } => {
                        let (ps1, f) = ensure_spec(st.participants, from);
                        let (ps2, t) = ensure_spec(ps1, to);
                        let n = st.messages + 1;
                        let msg = SpecEvent::Message {
                            from: f,
                            to: t,
                            line_style,
                            arrow_head,
                            text,
                            number: if auto {
                                Some(n)
                            } else {
                                None
                            },
                        };
                        lemma_numbering_push(st.events, msg, auto);
                        let evs = st.events.push(msg);
                        match activate {
                            Some(ActivationModifier::Activate) => {
                                lemma_numbering_push(evs, SpecEvent::ActivateStart { participant: t }, auto);
                            },
                            Some(ActivationModifier::Deactivate) => {
                                lemma_numbering_push(evs, SpecEvent::ActivateEnd { participant: f }, auto);
                            },
                            None => {},
                        }
                    },
                    SequenceStatement::Activate { participant } => {
                        let (ps, i) = ensure_spec(st.participants, participant);
                        lemma_numbering_push(st.events, SpecEvent::ActivateStart { participant: i }, auto);
                    },
                    SequenceStatement::Deactivate { participant } => {
                        let (ps, i) = ensure_spec(st.participants, participant);
                        lemma_numbering_push(st.events, SpecEvent::ActivateEnd { participant: i }, auto);
                    },
                    SequenceStatement::Note { placement, participants, text } => {
                        match note_indices(st.participants, participants@) {
                            Ok(idx) => {
                                lemma_numbering_push(
                                    st.events,
                                    SpecEvent::Note { placement, participants: idx, text },
                                    auto,
                                );
                            },
                            Err(_) => {},
                        }
                    },
                    SequenceStatement::BlockStart { kind, label } => {
                        lemma_numbering_push(st.events, SpecEvent::BlockStart { kind, label }, auto);
                    },
                    SequenceStatement::BlockDivider { kind, label } => {
                        lemma_numbering_push(st.events, SpecEvent::BlockDivider { kind, label }, auto);
                    },
                    SequenceStatement::BlockEnd => {
                        lemma_numbering_push(st.events, SpecEvent::BlockEnd, auto);
                    },
                    _ => {},
                }
            },
            Err(_) => {},
        }
    }
}

/// Autonumbering: with an `autonumber` statement anywhere in the diagram,
/// the message events are numbered `1, 2, 3, ...` in the order they occur;
/// without one, no message carries a number.
pub proof fn law_autonumber_counts_messages_in_order(stmts: Seq<SequenceStatement>)
    ensures
        compile_spec(stmts) matches Ok((ps, evs, auto)) ==> auto == (exists|k: int|
            0 <= k < stmts.len() && #[trigger] stmts[k] is Autonumber) && numbered_in_order(evs, auto),
{
    lemma_prefix_numbering(stmts, stmts.len());
}

} // verus!
