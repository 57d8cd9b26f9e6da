//! The search is complete: it finds every filling that keeps the rules and
//! that the board allows.

use crate::cell::{digit_count, lemma_member_counts};
use crate::config::Elimination;
use crate::grid::{is_dead, on_board, weight, Grid};
use crate::laws::{lemma_no_choice_none_open, lemma_nothing_open_is_solved};
use crate::propagate::{
    cell_of, commit_tasks, frame_tasks, lemma_frame_tasks_shape, lemma_settled_weight,
    lemma_sole_digit, lemma_struck_weight, propagate, run, settled, sole_digit, strikes, struck,
    Task,
};
use crate::region::region_cell;
use crate::rules::{
    allows, is_filling, is_settled, keeps_rules, lemma_region_holds_digit, lemma_region_slots,
    lemma_regions_mutual, lemma_rules_obeyed, obeys, reach, respects, shows, Filling,
};
use crate::search::{
    all_solutions, attempt_solutions, branch_solutions, choice, is_candidate, leads,
    lemma_branch_weight, open_cells_below,
};
use crate::settle::lemma_propagate_settled;
use vstd::prelude::*;

verus! {

/// Whether no task of `agenda` goes against `a`: none rules the digit of `a`
/// out of a cell, and none settles a cell on another digit.
pub open spec fn agrees(agenda: Seq<Task>, a: Filling) -> bool {
    forall|i: int|
        0 <= i < agenda.len() ==> match #[trigger] agenda[i] {
            Task::Eliminate(target) => on_board(cell_of(target)) ==> a[cell_of(target)]
                != target.number,
            Task::Settle { x, y, number } => on_board((x as nat, y as nat)) ==> a[(
                x as nat,
                y as nat,
            )] == number,
        }
}

/// Each elimination among the tasks of a commitment comes from `targets`,
/// from the position returned, and does not name the cell of the commitment.
pub proof fn lemma_frame_task_source(
    targets: Seq<Elimination>,
    x: usize,
    y: usize,
    number: usize,
    i: int,
) -> (j: int)
    requires
        0 <= i < frame_tasks(targets, x, y, number).len() - 1,
    ensures
        0 <= j < targets.len(),
        frame_tasks(targets, x, y, number)[i] == Task::Eliminate(targets[j]),
        !(targets[j].x == x && targets[j].y == y),
    decreases targets.len(),
{
    lemma_frame_tasks_shape(targets.drop_first(), x, y, number);
    if targets[0].x == x && targets[0].y == y {
        1 + lemma_frame_task_source(targets.drop_first(), x, y, number, i)
    } else if i == 0 {
        0
    } else {
        1 + lemma_frame_task_source(targets.drop_first(), x, y, number, i - 1)
    }
}

/// The tasks of committing the digit of `a` at a cell do not go against `a`.
pub proof fn lemma_frame_agrees(
    a: Filling,
    cell: (nat, nat),
    anti_cells: Seq<(isize, isize)>,
    non_con_cells: Seq<(isize, isize)>,
)
    requires
        on_board(cell),
        obeys(a, anti_cells, non_con_cells),
    ensures
        agrees(
            commit_tasks(cell.0 as usize, cell.1 as usize, a[cell], anti_cells, non_con_cells),
            a,
        ),
{
    let x = cell.0 as usize;
    let y = cell.1 as usize;
    let targets = reach(a, cell, anti_cells, non_con_cells);
    let frame = commit_tasks(x, y, a[cell], anti_cells, non_con_cells);
    lemma_frame_tasks_shape(targets, x, y, a[cell]);
    assert forall|i: int| 0 <= i < frame.len() implies match #[trigger] frame[i] {
        Task::Eliminate(target) => on_board(cell_of(target)) ==> a[cell_of(target)]
            != target.number,
        Task::Settle { x, y, number } => on_board((x as nat, y as nat)) ==> a[(
            x as nat,
            y as nat,
        )] == number,
    } by {
        if i < frame.len() - 1 {
            let j = lemma_frame_task_source(targets, x, y, a[cell], i);
            assert(respects(a, cell, reach(a, cell, anti_cells, non_con_cells)[j]));
        } else {
            assert(frame[i] == frame.last());
        }
    }
}

/// Working off an agenda that does not go against `a`, on a board that
/// allows `a`, leaves a board that allows `a`.
pub proof fn lemma_run_allows(
    g: Grid,
    agenda: Seq<Task>,
    a: Filling,
    anti_cells: Seq<(isize, isize)>,
    non_con_cells: Seq<(isize, isize)>,
)
    requires
        is_filling(a),
        obeys(a, anti_cells, non_con_cells),
        allows(g, a),
        agrees(agenda, a),
    ensures
        allows(run(g, agenda, anti_cells, non_con_cells), a),
    decreases weight(g), agenda.len(),
{
    if agenda.len() > 0 {
        let later = agenda.drop_first();
        assert forall|i: int| 0 <= i < later.len() implies later[i] == agenda[i + 1] by {}
        assert(agrees(later, a));
        match agenda[0] {
            Task::Settle { x, y, number } => {
                let next = settled(g, x, y, number);
                lemma_settled_weight(g, x, y, number);
                assert(allows(next, a));
                lemma_run_allows(next, later, a, anti_cells, non_con_cells);
            },
            Task::Eliminate(target) => {
                let at = cell_of(target);
                if strikes(g, target) {
                    let left = struck(g, target);
                    lemma_struck_weight(g, target);
                    assert(allows(left, a));
                    if digit_count(left[at]) == 1 {
                        let forced = sole_digit(left[at]);
                        lemma_sole_digit(left[at]);
                        assert(left[at].contains(a[at] as nat));
                        assert(forced == a[at]);
                        let frame = commit_tasks(
                            target.x,
                            target.y,
                            forced,
                            anti_cells,
                            non_con_cells,
                        );
                        let next = frame + later;
                        lemma_frame_agrees(a, at, anti_cells, non_con_cells);
                        assert(agrees(next, a)) by {
                            assert forall|i: int| 0 <= i < next.len() implies match #[trigger] next[i] {
                                Task::Eliminate(target) => on_board(cell_of(target))
                                    ==> a[cell_of(target)] != target.number,
                                Task::Settle { x, y, number } => on_board((x as nat, y as nat))
                                    ==> a[(x as nat, y as nat)] == number,
                            } by {
                                if i < frame.len() {
                                    assert(next[i] == frame[i]);
                                } else {
                                    assert(next[i] == later[i - frame.len()]);
                                }
                            }
                        }
                        lemma_run_allows(left, next, a, anti_cells, non_con_cells);
                    } else {
                        lemma_run_allows(left, later, a, anti_cells, non_con_cells);
                    }
                } else {
                    lemma_run_allows(g, later, a, anti_cells, non_con_cells);
                }
            },
        }
    }
}

/// Propagation rules out no solution: a filling that keeps the rules and
/// that the board allowed is allowed after the commitment of its own digit
/// at any cell.
pub proof fn lemma_propagate_allows(
    g: Grid,
    x: usize,
    y: usize,
    a: Filling,
    anti_cells: Seq<(isize, isize)>,
    non_con_cells: Seq<(isize, isize)>,
)
    requires
        x < 9,
        y < 9,
        keeps_rules(a, anti_cells, non_con_cells),
        allows(g, a),
    ensures
        allows(propagate(g, x, y, a[(x as nat, y as nat)], anti_cells, non_con_cells), a),
{
    lemma_rules_obeyed(a, anti_cells, non_con_cells);
    lemma_frame_agrees(a, (x as nat, y as nat), anti_cells, non_con_cells);
    lemma_run_allows(
        g,
        commit_tasks(x, y, a[(x as nat, y as nat)], anti_cells, non_con_cells),
        a,
        anti_cells,
        non_con_cells,
    );
}

/// A board that allows a filling is not dead.
pub proof fn lemma_allowing_is_alive(g: Grid, a: Filling)
    requires
        is_filling(a),
        allows(g, a),
    ensures
        !is_dead(g),
{
    assert forall|cell: (nat, nat)| on_board(cell) implies digit_count(#[trigger] g[cell])
        != 0 by {
        assert(g[cell].contains(a[cell] as nat));
        lemma_member_counts(g[cell], a[cell] as nat);
    }
}

/// Where some cell of a region is open for a digit, one of its positions
/// holds such a cell: the one returned.
pub proof fn lemma_open_cell_exists(g: Grid, region: usize, number: usize, slots: nat) -> (slot:
    nat)
    requires
        open_cells_below(g, region, number, slots).len() > 0,
    ensures
        slot < slots,
        is_candidate(g, region_cell(region as nat, slot), number),
    decreases slots,
{
    if is_candidate(g, region_cell(region as nat, (slots - 1) as nat), number) {
        (slots - 1) as nat
    } else {
        lemma_open_cell_exists(g, region, number, (slots - 1) as nat)
    }
}

/// The search is complete: from a board that is settled as to its rows,
/// columns and blocks it hands out, at the position returned, every filling
/// that keeps the rules and that the board allows.
pub proof fn lemma_search_complete(
    g: Grid,
    a: Filling,
    anti_cells: Seq<(isize, isize)>,
    non_con_cells: Seq<(isize, isize)>,
) -> (i: int)
    requires
        keeps_rules(a, anti_cells, non_con_cells),
        allows(g, a),
        is_settled(g, false, anti_cells, non_con_cells),
    ensures
        0 <= i < all_solutions(g, anti_cells, non_con_cells).len(),
        shows(all_solutions(g, anti_cells, non_con_cells)[i], a),
    decreases weight(g), 10nat,
{
    lemma_allowing_is_alive(g, a);
    match choice(g) {
        None => {
            lemma_no_choice_none_open(g);
            lemma_nothing_open_is_solved(g);
            assert forall|cell: (nat, nat), d: nat| on_board(cell) && d < 9 implies (
            #[trigger] g[cell].contains(d) <==> d == a[cell]) by {
                lemma_sole_digit(g[cell]);
                assert(g[cell].contains(a[cell] as nat));
            }
            0
        },
        Some((region, number)) => {
            let pair = choose|pair: (usize, usize)| leads(g, pair.0, pair.1, 243);
            assert(leads(g, region, number, 243));
            let slot = lemma_region_holds_digit(a, region as nat, number);
            let cell = region_cell(region as nat, slot);
            lemma_region_slots(region as nat, slot, slot);
            assert(g[cell].contains(a[cell] as nat));
            if digit_count(g[cell]) == 1 {
                let open = lemma_open_cell_exists(g, region, number, 9);
                let other = region_cell(region as nat, open);
                lemma_region_slots(region as nat, slot, open);
                assert(g[cell].contains(number as nat) && g[other].contains(number as nat));
                assert(false);
            }
            lemma_branch_complete(g, region, number, 0, slot, a, anti_cells, non_con_cells)
        },
    }
}

/// The same from position `from` of a region on, where the filling has the
/// digit at position `slot`.
proof fn lemma_branch_complete(
    g: Grid,
    region: usize,
    number: usize,
    from: nat,
    slot: nat,
    a: Filling,
    anti_cells: Seq<(isize, isize)>,
    non_con_cells: Seq<(isize, isize)>,
) -> (i: int)
    requires
        region < 27,
        from <= slot < 9,
        keeps_rules(a, anti_cells, non_con_cells),
        allows(g, a),
        is_settled(g, false, anti_cells, non_con_cells),
        a[region_cell(region as nat, slot)] == number,
        is_candidate(g, region_cell(region as nat, slot), number),
    ensures
        0 <= i < branch_solutions(g, region, number, from, anti_cells, non_con_cells).len(),
        shows(branch_solutions(g, region, number, from, anti_cells, non_con_cells)[i], a),
    decreases weight(g), 9 - from,
{
    let cell = region_cell(region as nat, from);
    let x = cell.0 as usize;
    let y = cell.1 as usize;
    let here = attempt_solutions(g, x, y, number, anti_cells, non_con_cells);
    lemma_region_slots(region as nat, from, from);
    if from == slot {
        let next = propagate(g, x, y, number, anti_cells, non_con_cells);
        lemma_propagate_allows(g, x, y, a, anti_cells, non_con_cells);
        lemma_regions_mutual(anti_cells, non_con_cells);
        lemma_propagate_settled(g, x, y, number, false, anti_cells, non_con_cells);
        lemma_allowing_is_alive(next, a);
        lemma_branch_weight(g, x, y, number, anti_cells, non_con_cells);
        lemma_search_complete(next, a, anti_cells, non_con_cells)
    } else {
        let later = lemma_branch_complete(
            g,
            region,
            number,
            from + 1,
            slot,
            a,
            anti_cells,
            non_con_cells,
        );
        here.len() + later
    }
}

} // verus!
