//! The record of what a propagation or a search did, step by step, for a
//! caller that wants to explain it.

use crate::board::SudokuState;
use crate::config::Elimination;
use crate::grid::Grid;
use vstd::prelude::*;

verus! {

/// One step of a propagation or of a search.
#[derive(Debug, Clone, Copy, PartialEq, Eq)]
pub enum TraceEvent {
    /// The commitment of `number` at the cell (`x`, `y`) begins. What
    /// follows, up to the matching `Settled`, happens on its behalf.
    Commit { x: usize, y: usize, number: usize },
    /// The running commitment took a candidate away.
    Eliminated(Elimination),
    /// The running commitment is done: its cell is certain.
    Settled,
    /// The search is about to branch on this board.
    Board(SudokuState),
    /// Only the cell (`x`, `y`) of region `region` is open for `number`.
    OnlyCell { x: usize, y: usize, number: usize, region: usize },
    /// Several cells of region `region` are open for `number`.
    SeveralCells { number: usize, region: usize },
    /// The search tries `number` at the cell (`x`, `y`) of region `region`.
    Assuming { x: usize, y: usize, number: usize, region: usize },
}

/// A trace event with the board, where it shows one, as a grid.
pub enum Note {
    Commit { x: usize, y: usize, number: usize },
    Eliminated(Elimination),
    Settled,
    Board(Grid),
    OnlyCell { x: usize, y: usize, number: usize, region: usize },
    SeveralCells { number: usize, region: usize },
    Assuming { x: usize, y: usize, number: usize, region: usize },
}

impl View for TraceEvent {
    type V = Note;

    open spec fn view(&self) -> Note {
        match *self {
            TraceEvent::Commit { x, y, number } => Note::Commit { x, y, number },
            TraceEvent::Eliminated(target) => Note::Eliminated(target),
            TraceEvent::Settled => Note::Settled,
            TraceEvent::Board(board) => Note::Board(board@),
            TraceEvent::OnlyCell { x, y, number, region } => Note::OnlyCell {
                x,
                y,
                number,
                region,
            },
            TraceEvent::SeveralCells { number, region } => Note::SeveralCells { number, region },
            TraceEvent::Assuming { x, y, number, region } => Note::Assuming {
                x,
                y,
                number,
                region,
            },
        }
    }
}

/// The events of `trace` as notes.
pub open spec fn notes(trace: Seq<TraceEvent>) -> Seq<Note> {
    Seq::new(trace.len(), |i: int| trace[i]@)
}

/// Appending an event to a trace appends its note.
pub proof fn lemma_notes_push(trace: Seq<TraceEvent>, event: TraceEvent)
    ensures
        notes(trace.push(event)) == notes(trace).push(event@),
{
    assert(notes(trace.push(event)) =~= notes(trace).push(event@));
}

/// Whether a note names only cells of the board, digits and regions.
pub open spec fn note_on_board(note: Note) -> bool {
    match note {
        Note::Commit { x, y, number } => x < 9 && y < 9 && number < 9,
        Note::Eliminated(target) => target.x < 9 && target.y < 9 && target.number < 9,
        Note::Settled => true,
        Note::Board(_) => true,
        Note::OnlyCell { x, y, number, region } => x < 9 && y < 9 && number < 9 && region < 27,
        Note::SeveralCells { number, region } => number < 9 && region < 27,
        Note::Assuming { x, y, number, region } => x < 9 && y < 9 && number < 9 && region < 27,
    }
}

/// Whether every note names only cells of the board, digits and regions.
pub open spec fn notes_on_board(all: Seq<Note>) -> bool {
    forall|i: int| 0 <= i < all.len() ==> note_on_board(#[trigger] all[i])
}

impl TraceEvent {
    /// Whether the event names only cells of the board, digits and regions.
    pub fn is_on_board(&self) -> (ok: bool)
        ensures
            ok == note_on_board(self@),
    {
        match *self {
            TraceEvent::Commit { x, y, number } => x < 9 && y < 9 && number < 9,
            TraceEvent::Eliminated(target) => target.x < 9 && target.y < 9 && target.number < 9,
            TraceEvent::Settled => true,
            TraceEvent::Board(_) => true,
            TraceEvent::OnlyCell { x, y, number, region } => x < 9 && y < 9 && number < 9
                && region < 27,
            TraceEvent::SeveralCells { number, region } => number < 9 && region < 27,
            TraceEvent::Assuming { x, y, number, region } => x < 9 && y < 9 && number < 9
                && region < 27,
        }
    }
}

/// Whether every event of `trace` names only cells of the board, digits and
/// regions.
pub fn trace_is_on_board(trace: &Vec<TraceEvent>) -> (ok: bool)
    ensures
        ok == notes_on_board(notes(trace@)),
{
    let mut i: usize = 0;
    while i < trace.len()
        invariant
            i <= trace.len(),
            forall|k: int| 0 <= k < i ==> note_on_board(#[trigger] notes(trace@)[k]),
        decreases trace.len() - i,
    {
        if !trace[i].is_on_board() {
            assert(!note_on_board(notes(trace@)[i as int]));
            return false;
        }
        i += 1;
    }
    true
}

/// Whether the events that `after` holds beyond those of `before` name only
/// cells of the board, digits and regions.
pub open spec fn added_on_board(before: Seq<TraceEvent>, after: Seq<TraceEvent>) -> bool {
    forall|i: int| before.len() <= i < after.len() ==> note_on_board(#[trigger] after[i]@)
}

} // verus!
