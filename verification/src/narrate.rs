//! Turns a trace into the lines that explain it.

use crate::config::Elimination;
use crate::region::{name_of_region, region_name};
use crate::text::{
    board_text, cell_name, cell_name_text, digit_mark, digit_mark_of, reason_name, reason_text,
};
use crate::trace::{note_on_board, notes, notes_on_board, Note, TraceEvent};
use vstd::prelude::*;

verus! {

/// A commitment that is under way: its cell and its digit.
pub type Open = (usize, usize, usize);

/// Two blanks for each of `depth` commitments under way.
pub open spec fn indent(depth: nat) -> Seq<char> {
    Seq::new(2 * depth, |i: int| ' ')
}

/// The line for a candidate that the commitment `source` took away, `depth`
/// commitments being under way.
pub open spec fn eliminated_line(depth: nat, source: Open, target: Elimination) -> Seq<char> {
    indent(depth) + cell_name_text(source.0, source.1) + " = "@ + seq![digit_mark(source.2)]
        + ", so "@ + cell_name_text(target.x, target.y) + " ("@ + reason_text(target.reason)
        + ") can't be "@ + seq![digit_mark(target.number)]
}

/// The line for a cell left with a single candidate, `depth` commitments
/// being under way.
pub open spec fn forced_line(depth: nat, x: usize, y: usize, number: usize) -> Seq<char> {
    indent(depth) + "Therefore, "@ + cell_name_text(x, y) + " can only be "@ + seq![
        digit_mark(number),
    ]
}

/// The line for a region in which one cell alone is open for a digit.
pub open spec fn only_cell_line(x: usize, y: usize, number: usize, region: usize) -> Seq<char> {
    "Only "@ + cell_name_text(x, y) + " can contain the "@ + seq![digit_mark(number)] + " in "@
        + region_name(region as nat) + " => "@ + cell_name_text(x, y) + " must be "@ + seq![
        digit_mark(number),
    ]
}

/// The line for a region in which several cells are open for a digit.
pub open spec fn several_cells_line(number: usize, region: usize) -> Seq<char> {
    "Multiple cells could contain the "@ + seq![digit_mark(number)] + " in "@ + region_name(
        region as nat,
    )
}

/// The line for a guess of the search.
pub open spec fn assuming_line(x: usize, y: usize, number: usize, region: usize) -> Seq<char> {
    "Assuming that "@ + cell_name_text(x, y) + " houses the "@ + seq![digit_mark(number)]
        + " in "@ + region_name(region as nat)
}

/// The lines that explain `all`, the commitments `open` being under way,
/// the innermost last. A commitment forced by another gets a line; one that
/// a caller made gets none. A candidate taken away gets a line that names
/// the commitment that took it. Lines of a commitment are indented by two
/// blanks for each commitment under way.
pub open spec fn story(all: Seq<Note>, open: Seq<Open>) -> Seq<Seq<char>>
    decreases all.len(),
{
    if all.len() == 0 {
        Seq::empty()
    } else {
        let later = all.drop_first();
        match all[0] {
            Note::Commit { x, y, number } => {
                let said = if open.len() > 0 {
                    seq![forced_line(open.len(), x, y, number)]
                } else {
                    Seq::empty()
                };
                said + story(later, open.push((x, y, number)))
            },
            Note::Eliminated(target) => {
                let said = if open.len() > 0 {
                    seq![eliminated_line(open.len(), open.last(), target)]
                } else {
                    Seq::empty()
                };
                said + story(later, open)
            },
            Note::Settled => story(
                later,
                if open.len() > 0 {
                    open.drop_last()
                } else {
                    open
                },
            ),
            Note::Board(g) => seq![board_text(g)] + story(later, open),
            Note::OnlyCell { x, y, number, region } => seq![only_cell_line(x, y, number, region)]
                + story(later, open),
            Note::SeveralCells { number, region } => seq![several_cells_line(number, region)]
                + story(later, open),
            Note::Assuming { x, y, number, region } => seq![assuming_line(x, y, number, region)]
                + story(later, open),
        }
    }
}

/// The texts of `lines`.
pub open spec fn texts(lines: Seq<String>) -> Seq<Seq<char>> {
    Seq::new(lines.len(), |i: int| lines[i]@)
}

/// Whether every commitment of `open` names a cell of the board and a digit.
pub open spec fn open_on_board(open: Seq<Open>) -> bool {
    forall|i: int|
        0 <= i < open.len() ==> (#[trigger] open[i]).0 < 9 && open[i].1 < 9 && open[i].2 < 9
}

/// A string of two blanks for each of `depth` commitments under way.
fn indentation(depth: usize) -> (blanks: String)
    ensures
        blanks@ == indent(depth as nat),
{
    let mut blanks = String::new();
    let mut done: usize = 0;
    while done < depth
        invariant
            done <= depth,
            blanks@ == indent(done as nat),
        decreases depth - done,
    {
        blanks.push(' ');
        blanks.push(' ');
        done += 1;
        assert(blanks@ =~= indent(done as nat));
    }
    assert(blanks@ =~= indent(depth as nat));
    blanks
}

/// Writes the line for a candidate taken away.
fn write_eliminated(depth: usize, source: Open, target: Elimination) -> (line: String)
    requires
        source.0 < 9,
        source.1 < 9,
        source.2 < 9,
        target.x < 9,
        target.y < 9,
        target.number < 9,
    ensures
        line@ == eliminated_line(depth as nat, source, target),
{
    let mut line = indentation(depth);
    line.push_str(cell_name(source.0, source.1).as_str());
    line.push_str(" = ");
    line.push(digit_mark_of(source.2));
    line.push_str(", so ");
    line.push_str(cell_name(target.x, target.y).as_str());
    line.push_str(" (");
    line.push_str(reason_name(target.reason));
    line.push_str(") can't be ");
    line.push(digit_mark_of(target.number));
    assert(line@ =~= eliminated_line(depth as nat, source, target));
    line
}

/// Writes the line for a cell left with a single candidate.
fn write_forced(depth: usize, x: usize, y: usize, number: usize) -> (line: String)
    requires
        x < 9,
        y < 9,
        number < 9,
    ensures
        line@ == forced_line(depth as nat, x, y, number),
{
    let mut line = indentation(depth);
    line.push_str("Therefore, ");
    line.push_str(cell_name(x, y).as_str());
    line.push_str(" can only be ");
    line.push(digit_mark_of(number));
    assert(line@ =~= forced_line(depth as nat, x, y, number));
    line
}

/// Writes the line for the only open cell of a region.
fn write_only_cell(x: usize, y: usize, number: usize, region: usize) -> (line: String)
    requires
        x < 9,
        y < 9,
        number < 9,
        region < 27,
    ensures
        line@ == only_cell_line(x, y, number, region),
{
    let mut line = String::new();
    line.push_str("Only ");
    line.push_str(cell_name(x, y).as_str());
    line.push_str(" can contain the ");
    line.push(digit_mark_of(number));
    line.push_str(" in ");
    line.push_str(name_of_region(region));
    line.push_str(" => ");
    line.push_str(cell_name(x, y).as_str());
    line.push_str(" must be ");
    line.push(digit_mark_of(number));
    assert(line@ =~= only_cell_line(x, y, number, region));
    line
}

/// Writes the line for a region with several open cells.
fn write_several_cells(number: usize, region: usize) -> (line: String)
    requires
        number < 9,
        region < 27,
    ensures
        line@ == several_cells_line(number, region),
{
    let mut line = String::new();
    line.push_str("Multiple cells could contain the ");
    line.push(digit_mark_of(number));
    line.push_str(" in ");
    line.push_str(name_of_region(region));
    assert(line@ =~= several_cells_line(number, region));
    line
}

/// Writes the line for a guess of the search.
fn write_assuming(x: usize, y: usize, number: usize, region: usize) -> (line: String)
    requires
        x < 9,
        y < 9,
        number < 9,
        region < 27,
    ensures
        line@ == assuming_line(x, y, number, region),
{
    let mut line = String::new();
    line.push_str("Assuming that ");
    line.push_str(cell_name(x, y).as_str());
    line.push_str(" houses the ");
    line.push(digit_mark_of(number));
    line.push_str(" in ");
    line.push_str(name_of_region(region));
    assert(line@ =~= assuming_line(x, y, number, region));
    line
}

/// The lines that explain `trace`, in order.
pub fn narrate(trace: &Vec<TraceEvent>) -> (lines: Vec<String>)
    requires
        notes_on_board(notes(trace@)),
    ensures
        texts(lines@) == story(notes(trace@), Seq::empty()),
{
    let mut lines: Vec<String> = Vec::new();
    let mut open: Vec<Open> = Vec::new();
    let ghost all = notes(trace@);
    let mut i: usize = 0;
    assert(all.skip(0) =~= all);
    assert(texts(lines@) + story(all, open@) =~= story(all, Seq::empty()));
    while i < trace.len()
        invariant
            i <= trace.len(),
            all == notes(trace@),
            notes_on_board(all),
            open_on_board(open@),
            texts(lines@) + story(all.skip(i as int), open@) == story(all, Seq::empty()),
        decreases trace.len() - i,
    {
        let ghost pending = all.skip(i as int);
        let ghost later = all.skip(i + 1);
        let ghost told = texts(lines@);
        let ghost was_open = open@;
        proof {
            assert(pending.drop_first() =~= later);
            assert(pending[0] == trace@[i as int]@);
            assert(note_on_board(all[i as int]));
        }
        match trace[i] {
            TraceEvent::Commit { x, y, number } => {
                if open.len() > 0 {
                    let line = write_forced(open.len(), x, y, number);
                    lines.push(line);
                    proof {
                        let said = seq![forced_line(was_open.len(), x, y, number)];
                        assert(texts(lines@) =~= told + said);
                        assert(texts(lines@) + story(later, was_open.push((x, y, number)))
                            =~= told + (said + story(later, was_open.push((x, y, number)))));
                    }
                }
                open.push((x, y, number));
            },
            TraceEvent::Eliminated(target) => {
                if open.len() > 0 {
                    let source = open[open.len() - 1];
                    let line = write_eliminated(open.len(), source, target);
                    lines.push(line);
                    proof {
                        let said = seq![eliminated_line(was_open.len(), was_open.last(), target)];
                        assert(texts(lines@) =~= told + said);
                        assert(texts(lines@) + story(later, was_open) =~= told + (said + story(
                            later,
                            was_open,
                        )));
                    }
                }
            },
            TraceEvent::Settled => {
                if open.len() > 0 {
                    open.pop();
                    assert(open@ =~= was_open.drop_last());
                }
            },
            TraceEvent::Board(board) => {
                let line = board.render();
                lines.push(line);
                proof {
                    let said = seq![board_text(board@)];
                    assert(texts(lines@) =~= told + said);
                    assert(texts(lines@) + story(later, was_open) =~= told + (said + story(
                        later,
                        was_open,
                    )));
                }
            },
            TraceEvent::OnlyCell { x, y, number, region } => {
                let line = write_only_cell(x, y, number, region);
                lines.push(line);
                proof {
                    let said = seq![only_cell_line(x, y, number, region)];
                    assert(texts(lines@) =~= told + said);
                    assert(texts(lines@) + story(later, was_open) =~= told + (said + story(
                        later,
                        was_open,
                    )));
                }
            },
            TraceEvent::SeveralCells { number, region } => {
                let line = write_several_cells(number, region);
                lines.push(line);
                proof {
                    let said = seq![several_cells_line(number, region)];
                    assert(texts(lines@) =~= told + said);
                    assert(texts(lines@) + story(later, was_open) =~= told + (said + story(
                        later,
                        was_open,
                    )));
                }
            },
            TraceEvent::Assuming { x, y, number, region } => {
                let line = write_assuming(x, y, number, region);
                lines.push(line);
                proof {
                    let said = seq![assuming_line(x, y, number, region)];
                    assert(texts(lines@) =~= told + said);
                    assert(texts(lines@) + story(later, was_open) =~= told + (said + story(
                        later,
                        was_open,
                    )));
                }
            },
        }
        i += 1;
    }
    proof {
        assert(all.skip(i as int) =~= Seq::<Note>::empty());
        assert(texts(lines@) + Seq::<Seq<char>>::empty() =~= texts(lines@));
    }
    lines
}

} // verus!
