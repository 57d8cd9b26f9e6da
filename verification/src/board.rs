//! The board: a 9x9 grid of cells, and the propagation that commits a digit.

use crate::cell::{all_digits, digit_count, CellState};
use crate::config::{affected_cells, targets_on_board, Elimination, PuzzleConfig};
use crate::grid::{is_dead, on_board, weight, Grid};
use crate::puzzle::open_grid;
use crate::propagate::{
    cell_of, commit_tasks, committed, frame_tasks, lemma_propagate_sound, lemma_run_compose,
    lemma_run_log_compose, lemma_run_weight, lemma_sole_digit, lemma_struck_weight, propagate,
    propagate_log, run, run_log, settled, sole_digit, strikes, struck, Task,
};
use crate::trace::{added_on_board, lemma_notes_push, notes, Note, TraceEvent};
use vstd::prelude::*;

verus! {

/// The candidates of every cell of a board, indexed by column, then row.
#[derive(Debug, Clone, Copy, PartialEq, Eq)]
pub struct SudokuState {
    pub cells: [[CellState; 9]; 9],
}

impl View for SudokuState {
    type V = Grid;

    open spec fn view(&self) -> Grid {
        Map::new(
            |cell: (nat, nat)| on_board(cell),
            |cell: (nat, nat)| self.cells[cell.0 as int][cell.1 as int]@,
        )
    }
}

impl SudokuState {
    /// Commits `number` as the only candidate of the cell (`certain_x`,
    /// `certain_y`) and rules out, in cascade, whatever that forces. With
    /// `explain`, each step is appended to `trace`.
    pub fn set_certain(
        &mut self,
        certain_x: usize,
        certain_y: usize,
        number: usize,
        explain: bool,
        trace: &mut Vec<TraceEvent>,
        config: &PuzzleConfig,
    )
        requires
            certain_x < 9,
            certain_y < 9,
            number < 9,
        ensures
            final(self)@ == propagate(
                old(self)@,
                certain_x,
                certain_y,
                number,
                config.anti_cells@,
                config.non_con_cells@,
            ),
            committed(
                old(self)@,
                final(self)@,
                certain_x,
                certain_y,
                number,
                config.anti_cells@,
                config.non_con_cells@,
            ),
            !explain ==> final(trace)@ == old(trace)@,
            explain ==> notes(final(trace)@) == notes(old(trace)@) + propagate_log(
                old(self)@,
                certain_x,
                certain_y,
                number,
                config.anti_cells@,
                config.non_con_cells@,
            ),
            final(trace)@.len() >= old(trace)@.len(),
            forall|i: int| 0 <= i < old(trace)@.len() ==> final(trace)@[i] == old(trace)@[i],
            added_on_board(old(trace)@, final(trace)@),
        decreases weight(old(self)@), 1nat,
    {
        let targets = affected_cells(certain_x, certain_y, number, config);
        let ghost start = self@;
        let ghost anti = config.anti_cells@;
        let ghost non_con = config.non_con_cells@;
        let ghost whole = frame_tasks(targets@, certain_x, certain_y, number);
        let ghost goal = notes(old(trace)@) + propagate_log(
            start,
            certain_x,
            certain_y,
            number,
            anti,
            non_con,
        );
        if explain {
            trace.push(TraceEvent::Commit { x: certain_x, y: certain_y, number });
            proof {
                lemma_notes_push(
                    old(trace)@,
                    TraceEvent::Commit { x: certain_x, y: certain_y, number },
                );
                assert(notes(trace@) + run_log(start, whole, anti, non_con) =~= goal);
            }
        }
        let mut i: usize = 0;
        assert(targets@.skip(0) =~= targets@);
        while i < targets.len()
            invariant
                i <= targets.len(),
                targets_on_board(targets@),
                start == old(self)@,
                anti == config.anti_cells@,
                non_con == config.non_con_cells@,
                weight(self@) <= weight(start),
                run(start, frame_tasks(targets@, certain_x, certain_y, number), anti, non_con)
                    == run(
                    self@,
                    frame_tasks(targets@.skip(i as int), certain_x, certain_y, number),
                    anti,
                    non_con,
                ),
                !explain ==> trace@ == old(trace)@,
                explain ==> notes(trace@) + run_log(
                    self@,
                    frame_tasks(targets@.skip(i as int), certain_x, certain_y, number),
                    anti,
                    non_con,
                ) == goal,
                trace@.len() >= old(trace)@.len(),
                forall|k: int| 0 <= k < old(trace)@.len() ==> trace@[k] == old(trace)@[k],
                added_on_board(old(trace)@, trace@),
            decreases targets.len() - i,
        {
            let target = targets[i];
            let ghost before = self@;
            let ghost told = notes(trace@);
            let ghost later = frame_tasks(targets@.skip(i + 1), certain_x, certain_y, number);
            proof {
                let pending = targets@.skip(i as int);
                assert(pending.drop_first() =~= targets@.skip(i + 1));
                assert(pending[0] == target);
            }
            if !(target.x == certain_x && target.y == certain_y) {
                self.eliminate(target, explain, trace, config);
                proof {
                    let one = seq![Task::Eliminate(target)];
                    lemma_run_compose(before, one, later, anti, non_con);
                    lemma_run_log_compose(before, one, later, anti, non_con);
                    if explain {
                        let steps = run_log(before, one, anti, non_con);
                        let rest = run_log(self@, later, anti, non_con);
                        assert(notes(trace@) + rest =~= told + (steps + rest));
                    }
                }
            }
            i += 1;
        }
        let ghost before = self@;
        proof {
            let only = seq![Task::Settle { x: certain_x, y: certain_y, number }];
            let done = settled(before, certain_x, certain_y, number);
            assert(targets@.skip(i as int) =~= Seq::<Elimination>::empty());
            assert(only.drop_first() =~= Seq::<Task>::empty());
            assert(only[0] == (Task::Settle { x: certain_x, y: certain_y, number }));
            assert(run(done, Seq::<Task>::empty(), anti, non_con) == done);
            assert(run_log(done, Seq::<Task>::empty(), anti, non_con) =~= Seq::<Note>::empty());
            assert(run_log(before, only, anti, non_con) =~= seq![Note::Settled]);
        }
        self.cells[certain_x][certain_y] = CellState::certain(number);
        if explain {
            proof {
                lemma_notes_push(trace@, TraceEvent::Settled);
                assert(notes(trace@).push(Note::Settled) =~= notes(trace@) + seq![Note::Settled]);
            }
            trace.push(TraceEvent::Settled);
        }
        assert(self@ =~= settled(before, certain_x, certain_y, number));
        proof {
            lemma_propagate_sound(start, certain_x, certain_y, number, anti, non_con);
        }
    }

    /// Rules the digit of `target` out of its cell and, where that leaves
    /// the cell with a single digit, commits that digit.
    fn eliminate(
        &mut self,
        target: Elimination,
        explain: bool,
        trace: &mut Vec<TraceEvent>,
        config: &PuzzleConfig,
    )
        requires
            target.x < 9,
            target.y < 9,
            target.number < 9,
        ensures
            final(self)@ == run(
                old(self)@,
                seq![Task::Eliminate(target)],
                config.anti_cells@,
                config.non_con_cells@,
            ),
            weight(final(self)@) <= weight(old(self)@),
            !explain ==> final(trace)@ == old(trace)@,
            explain ==> notes(final(trace)@) == notes(old(trace)@) + run_log(
                old(self)@,
                seq![Task::Eliminate(target)],
                config.anti_cells@,
                config.non_con_cells@,
            ),
            final(trace)@.len() >= old(trace)@.len(),
            forall|i: int| 0 <= i < old(trace)@.len() ==> final(trace)@[i] == old(trace)@[i],
            added_on_board(old(trace)@, final(trace)@),
        decreases weight(old(self)@), 0nat,
    {
        let ghost before = self@;
        let ghost told = notes(trace@);
        let ghost anti = config.anti_cells@;
        let ghost non_con = config.non_con_cells@;
        let ghost one = seq![Task::Eliminate(target)];
        let ghost none = Seq::<Task>::empty();
        proof {
            assert(one.drop_first() =~= none);
            assert(one[0] == Task::Eliminate(target));
            lemma_run_weight(before, one, anti, non_con, cell_of(target));
        }
        let changed = self.cells[target.x][target.y].eliminate(target.number);
        if changed {
            proof {
                assert(strikes(before, target));
                assert(self@ =~= struck(before, target));
                lemma_struck_weight(before, target);
            }
            if explain {
                proof {
                    lemma_notes_push(trace@, TraceEvent::Eliminated(target));
                }
                trace.push(TraceEvent::Eliminated(target));
            }
            let ghost left = self@;
            if let Some(forced) = self.cells[target.x][target.y].get_certain() {
                let ghost frame = commit_tasks(target.x, target.y, forced, anti, non_con);
                proof {
                    lemma_sole_digit(left[cell_of(target)]);
                    assert(forced == sole_digit(left[cell_of(target)]));
                    assert(frame + none =~= frame);
                }
                self.set_certain(target.x, target.y, forced, explain, trace, config);
                proof {
                    if explain {
                        let struck_note = seq![Note::Eliminated(target)];
                        let commit_note = seq![
                            Note::Commit { x: target.x, y: target.y, number: forced },
                        ];
                        let inner = run_log(left, frame, anti, non_con);
                        assert(seq![
                            Note::Eliminated(target),
                            Note::Commit { x: target.x, y: target.y, number: forced },
                        ] =~= struck_note + commit_note);
                        assert(notes(trace@) =~= told + ((struck_note + commit_note) + inner));
                    }
                }
            } else {
                proof {
                    assert(run(left, none, anti, non_con) == left);
                    assert(run_log(left, none, anti, non_con) =~= Seq::<Note>::empty());
                    if explain {
                        assert(notes(trace@) =~= told + (seq![Note::Eliminated(target)]
                            + Seq::<Note>::empty()));
                    }
                }
            }
        } else {
            proof {
                assert(!strikes(before, target));
                assert(self@[cell_of(target)] =~= before[cell_of(target)]);
                assert(self@ =~= before);
                assert(run(before, none, anti, non_con) == before);
                assert(run_log(before, none, anti, non_con) =~= Seq::<Note>::empty());
                assert(told + Seq::<Note>::empty() =~= told);
            }
        }
    }

    /// Whether some cell has no candidate left.
    pub fn is_impossible(&self) -> (dead: bool)
        ensures
            dead == is_dead(self@),
    {
        let mut x: usize = 0;
        while x < 9
            invariant
                x <= 9,
                forall|cell: (nat, nat)|
                    on_board(cell) && cell.0 < x ==> digit_count(
                        #[trigger] self@[cell],
                    ) != 0,
            decreases 9 - x,
        {
            let mut y: usize = 0;
            while y < 9
                invariant
                    x < 9,
                    y <= 9,
                    forall|cell: (nat, nat)|
                        on_board(cell) && (cell.0 < x || (cell.0 == x && cell.1 < y))
                            ==> digit_count(#[trigger] self@[cell]) != 0,
                decreases 9 - y,
            {
                if self.cells[x][y].is_impossible() {
                    assert(on_board((x as nat, y as nat)));
                    assert(digit_count(self@[(x as nat, y as nat)]) == 0);
                    return true;
                }
                y += 1;
            }
            x += 1;
        }
        false
    }
}

impl Default for SudokuState {
    /// The board on which every digit is possible everywhere.
    fn default() -> (board: Self)
        ensures
            board@ == open_grid(),
    {
        let cell = CellState::completely_uncertain();
        let column = [cell, cell, cell, cell, cell, cell, cell, cell, cell];
        let board = SudokuState {
            cells: [column, column, column, column, column, column, column, column, column],
        };
        proof {
            assert forall|at: (nat, nat)| on_board(at) implies #[trigger] board@[at]
                == all_digits() by {
                assert(board.cells[at.0 as int] == column);
                assert(column[at.1 as int] == cell);
            }
            assert(board@ =~= open_grid());
        }
        board
    }
}

} // verus!
