//! What committing a digit does to a board: the eliminations that it forces,
//! and those that they force in turn, as a list of tasks worked off in order.

use crate::cell::{digit_count, lemma_count_remove};
use crate::config::{
    affected, block_targets, column_targets, lemma_near_member, lemma_neighbor_member,
    near_targets, neighbor_targets, neighbour, row_targets, Elimination,
};
use crate::grid::{
    lemma_weight_insert, on_board, share, shares_region, weight, within, Grid,
};
use crate::trace::Note;
use vstd::prelude::*;

verus! {

/// One step of a propagation.
pub enum Task {
    /// Rule one digit out of one cell.
    Eliminate(Elimination),
    /// Make `number` the only candidate of the cell (`x`, `y`).
    Settle { x: usize, y: usize, number: usize },
}

/// The cell that `target` names.
pub open spec fn cell_of(target: Elimination) -> (nat, nat) {
    (target.x as nat, target.y as nat)
}

/// Whether `target` takes a candidate away from `g`: it names a cell of the
/// board and a digit that is possible there.
pub open spec fn strikes(g: Grid, target: Elimination) -> bool {
    &&& target.x < 9
    &&& target.y < 9
    &&& target.number < 9
    &&& g[cell_of(target)].contains(target.number as nat)
}

/// `g` without the candidate that `target` names.
pub open spec fn struck(g: Grid, target: Elimination) -> Grid {
    g.insert(cell_of(target), g[cell_of(target)].remove(target.number as nat))
}

/// `g` with `number` as the only candidate of the cell (`x`, `y`).
pub open spec fn settled(g: Grid, x: usize, y: usize, number: usize) -> Grid {
    g.insert((x as nat, y as nat), set![number as nat])
}

/// A digit that `s` holds; the only one, where `s` holds one digit.
pub open spec fn sole_digit(s: Set<nat>) -> usize {
    choose|d: usize| d < 9 && s.contains(d as nat)
}

/// The tasks of committing `number` at (`x`, `y`): the eliminations
/// `targets` in order, without those that name (`x`, `y`) itself, and then
/// the settling of (`x`, `y`).
pub open spec fn frame_tasks(targets: Seq<Elimination>, x: usize, y: usize, number: usize) -> Seq<
    Task,
>
    decreases targets.len(),
{
    if targets.len() == 0 {
        seq![Task::Settle { x, y, number }]
    } else {
        let later = frame_tasks(targets.drop_first(), x, y, number);
        if targets[0].x == x && targets[0].y == y {
            later
        } else {
            seq![Task::Eliminate(targets[0])] + later
        }
    }
}

/// The tasks of committing `number` at (`x`, `y`) under the given rules.
pub open spec fn commit_tasks(
    x: usize,
    y: usize,
    number: usize,
    anti_cells: Seq<(isize, isize)>,
    non_con_cells: Seq<(isize, isize)>,
) -> Seq<Task> {
    frame_tasks(affected(x, y, number, anti_cells, non_con_cells), x, y, number)
}

/// The board that results from working off `agenda` on `g`, first task
/// first. An elimination that leaves its cell with a single candidate puts
/// the tasks of committing that candidate in front of the rest.
pub open spec fn run(
    g: Grid,
    agenda: Seq<Task>,
    anti_cells: Seq<(isize, isize)>,
    non_con_cells: Seq<(isize, isize)>,
) -> Grid
    decreases weight(g), agenda.len(),
    via run_decreases
{
    if agenda.len() == 0 {
        g
    } else {
        let later = agenda.drop_first();
        match agenda[0] {
            Task::Settle { x, y, number } => run(
                settled(g, x, y, number),
                later,
                anti_cells,
                non_con_cells,
            ),
            Task::Eliminate(target) => if strikes(g, target) {
                let left = struck(g, target);
                if digit_count(left[cell_of(target)]) == 1 {
                    let forced = sole_digit(left[cell_of(target)]);
                    run(
                        left,
                        commit_tasks(target.x, target.y, forced, anti_cells, non_con_cells)
                            + later,
                        anti_cells,
                        non_con_cells,
                    )
                } else {
                    run(left, later, anti_cells, non_con_cells)
                }
            } else {
                run(g, later, anti_cells, non_con_cells)
            },
        }
    }
}

#[via_fn]
proof fn run_decreases(
    g: Grid,
    agenda: Seq<Task>,
    anti_cells: Seq<(isize, isize)>,
    non_con_cells: Seq<(isize, isize)>,
) {
    if agenda.len() > 0 {
        match agenda[0] {
            Task::Settle { x, y, number } => {
                lemma_settled_weight(g, x, y, number);
            },
            Task::Eliminate(target) => {
                if strikes(g, target) {
                    lemma_struck_weight(g, target);
                }
            },
        }
    }
}

/// Settling a cell does not raise the weight.
pub proof fn lemma_settled_weight(g: Grid, x: usize, y: usize, number: usize)
    ensures
        weight(settled(g, x, y, number)) <= weight(g),
        share(settled(g, x, y, number), (x as nat, y as nat)) <= 1,
{
    lemma_weight_insert(g, (x as nat, y as nat), set![number as nat]);
}

/// An elimination that strikes does not raise the weight, and lowers it
/// where it leaves a single candidate.
pub proof fn lemma_struck_weight(g: Grid, target: Elimination)
    requires
        strikes(g, target),
    ensures
        weight(struck(g, target)) <= weight(g),
        digit_count(struck(g, target)[cell_of(target)]) == 1 ==> weight(struck(g, target))
            < weight(g),
        digit_count(struck(g, target)[cell_of(target)]) + 1 == digit_count(g[cell_of(target)]),
{
    lemma_count_remove(g[cell_of(target)], target.number as nat);
    lemma_weight_insert(g, cell_of(target), g[cell_of(target)].remove(target.number as nat));
}

/// The board that results from committing `number` at (`x`, `y`) on `g`.
pub open spec fn propagate(
    g: Grid,
    x: usize,
    y: usize,
    number: usize,
    anti_cells: Seq<(isize, isize)>,
    non_con_cells: Seq<(isize, isize)>,
) -> Grid {
    run(g, commit_tasks(x, y, number, anti_cells, non_con_cells), anti_cells, non_con_cells)
}

/// Whether each settling task of `agenda` that names a cell of the board
/// settles it on a digit that `bound` allows there.
pub open spec fn settles_within(agenda: Seq<Task>, bound: Grid) -> bool {
    forall|i: int|
        0 <= i < agenda.len() ==> match #[trigger] agenda[i] {
            Task::Settle { x, y, number } => on_board((x as nat, y as nat)) ==> bound[(
                x as nat,
                y as nat,
            )].contains(number as nat),
            Task::Eliminate(_) => true,
        }
}

/// The tasks of a commitment end with the settling of its cell, and hold no
/// other settling task; each of its eliminations comes from `targets`.
pub proof fn lemma_frame_tasks_shape(targets: Seq<Elimination>, x: usize, y: usize, number: usize)
    ensures
        frame_tasks(targets, x, y, number).len() >= 1,
        frame_tasks(targets, x, y, number).last() == (Task::Settle { x, y, number }),
        forall|i: int|
            0 <= i < frame_tasks(targets, x, y, number).len() - 1 ==> (#[trigger] frame_tasks(
                targets,
                x,
                y,
                number,
            )[i]) is Eliminate,
    decreases targets.len(),
{
    if targets.len() > 0 {
        lemma_frame_tasks_shape(targets.drop_first(), x, y, number);
    }
}

/// Working off an agenda never raises the weight of the board, and never
/// raises the weight of the board without any one `cell`.
pub proof fn lemma_run_weight(
    g: Grid,
    agenda: Seq<Task>,
    anti_cells: Seq<(isize, isize)>,
    non_con_cells: Seq<(isize, isize)>,
    cell: (nat, nat),
)
    ensures
        weight(run(g, agenda, anti_cells, non_con_cells)) <= weight(g),
        weight(run(g, agenda, anti_cells, non_con_cells)) + share(g, cell) <= weight(g) + share(
            run(g, agenda, anti_cells, non_con_cells),
            cell,
        ),
    decreases weight(g), agenda.len(),
{
    if agenda.len() > 0 {
        let later = agenda.drop_first();
        match agenda[0] {
            Task::Settle { x, y, number } => {
                lemma_settled_weight(g, x, y, number);
                lemma_weight_insert(g, (x as nat, y as nat), set![number as nat]);
                lemma_run_weight(settled(g, x, y, number), later, anti_cells, non_con_cells, cell);
            },
            Task::Eliminate(target) => {
                if strikes(g, target) {
                    let left = struck(g, target);
                    lemma_struck_weight(g, target);
                    lemma_weight_insert(
                        g,
                        cell_of(target),
                        g[cell_of(target)].remove(target.number as nat),
                    );
                    if digit_count(left[cell_of(target)]) == 1 {
                        let forced = sole_digit(left[cell_of(target)]);
                        lemma_run_weight(
                            left,
                            commit_tasks(target.x, target.y, forced, anti_cells, non_con_cells)
                                + later,
                            anti_cells,
                            non_con_cells,
                            cell,
                        );
                    } else {
                        lemma_run_weight(left, later, anti_cells, non_con_cells, cell);
                    }
                } else {
                    lemma_run_weight(g, later, anti_cells, non_con_cells, cell);
                }
            },
        }
    }
}

/// Working off two agendas one after the other is working off their
/// concatenation.
pub proof fn lemma_run_compose(
    g: Grid,
    first: Seq<Task>,
    second: Seq<Task>,
    anti_cells: Seq<(isize, isize)>,
    non_con_cells: Seq<(isize, isize)>,
)
    ensures
        run(g, first + second, anti_cells, non_con_cells) == run(
            run(g, first, anti_cells, non_con_cells),
            second,
            anti_cells,
            non_con_cells,
        ),
    decreases weight(g), first.len(),
{
    if first.len() == 0 {
        assert(first + second =~= second);
    } else {
        let later = first.drop_first();
        assert((first + second).drop_first() =~= later + second);
        assert((first + second)[0] == first[0]);
        match first[0] {
            Task::Settle { x, y, number } => {
                lemma_settled_weight(g, x, y, number);
                lemma_run_compose(
                    settled(g, x, y, number),
                    later,
                    second,
                    anti_cells,
                    non_con_cells,
                );
            },
            Task::Eliminate(target) => {
                if strikes(g, target) {
                    let left = struck(g, target);
                    lemma_struck_weight(g, target);
                    if digit_count(left[cell_of(target)]) == 1 {
                        let forced = sole_digit(left[cell_of(target)]);
                        let frame = commit_tasks(
                            target.x,
                            target.y,
                            forced,
                            anti_cells,
                            non_con_cells,
                        );
                        assert(frame + (later + second) =~= (frame + later) + second);
                        lemma_run_compose(
                            left,
                            frame + later,
                            second,
                            anti_cells,
                            non_con_cells,
                        );
                    } else {
                        lemma_run_compose(left, later, second, anti_cells, non_con_cells);
                    }
                } else {
                    lemma_run_compose(g, later, second, anti_cells, non_con_cells);
                }
            },
        }
    }
}

/// A cell with one candidate holds the digit `sole_digit` and no other.
pub proof fn lemma_sole_digit(s: Set<nat>)
    requires
        digit_count(s) == 1,
    ensures
        sole_digit(s) < 9,
        s.contains(sole_digit(s) as nat),
        forall|d: nat| d < 9 && s.contains(d) ==> d == sole_digit(s),
{
    if s.contains(0) {
        assert(0usize < 9 && s.contains(0usize as nat));
    } else if s.contains(1) {
        assert(1usize < 9 && s.contains(1usize as nat));
    } else if s.contains(2) {
        assert(2usize < 9 && s.contains(2usize as nat));
    } else if s.contains(3) {
        assert(3usize < 9 && s.contains(3usize as nat));
    } else if s.contains(4) {
        assert(4usize < 9 && s.contains(4usize as nat));
    } else if s.contains(5) {
        assert(5usize < 9 && s.contains(5usize as nat));
    } else if s.contains(6) {
        assert(6usize < 9 && s.contains(6usize as nat));
    } else if s.contains(7) {
        assert(7usize < 9 && s.contains(7usize as nat));
    } else {
        assert(8usize < 9 && s.contains(8usize as nat));
    }
}

/// Working off an agenda on a board within `bound` leaves it within `bound`,
/// where the agenda settles cells only on digits that `bound` allows.
pub proof fn lemma_run_within(
    g: Grid,
    agenda: Seq<Task>,
    anti_cells: Seq<(isize, isize)>,
    non_con_cells: Seq<(isize, isize)>,
    bound: Grid,
)
    requires
        within(g, bound),
        settles_within(agenda, bound),
    ensures
        within(run(g, agenda, anti_cells, non_con_cells), bound),
    decreases weight(g), agenda.len(),
{
    if agenda.len() > 0 {
        let later = agenda.drop_first();
        assert forall|i: int| 0 <= i < later.len() implies later[i] == agenda[i + 1] by {}
        assert(settles_within(later, bound));
        match agenda[0] {
            Task::Settle { x, y, number } => {
                lemma_settled_weight(g, x, y, number);
                let next = settled(g, x, y, number);
                assert(within(next, bound));
                lemma_run_within(next, later, anti_cells, non_con_cells, bound);
            },
            Task::Eliminate(target) => {
                if strikes(g, target) {
                    let left = struck(g, target);
                    lemma_struck_weight(g, target);
                    assert(within(left, bound));
                    if digit_count(left[cell_of(target)]) == 1 {
                        let forced = sole_digit(left[cell_of(target)]);
                        let frame = commit_tasks(
                            target.x,
                            target.y,
                            forced,
                            anti_cells,
                            non_con_cells,
                        );
                        lemma_sole_digit(left[cell_of(target)]);
                        lemma_frame_tasks_shape(
                            affected(target.x, target.y, forced, anti_cells, non_con_cells),
                            target.x,
                            target.y,
                            forced,
                        );
                        assert(settles_within(frame + later, bound)) by {
                            assert forall|i: int| 0 <= i < (frame + later).len() implies match #[trigger] (
                            frame + later)[i] {
                                Task::Settle { x, y, number } => on_board((x as nat, y as nat))
                                    ==> bound[(x as nat, y as nat)].contains(number as nat),
                                Task::Eliminate(_) => true,
                            } by {
                                if i < frame.len() {
                                    assert((frame + later)[i] == frame[i]);
                                    if i < frame.len() - 1 {
                                        assert(frame[i] is Eliminate);
                                    } else {
                                        assert(frame[i] == frame.last());
                                    }
                                } else {
                                    assert((frame + later)[i] == later[i - frame.len()]);
                                }
                            }
                        }
                        lemma_run_within(left, frame + later, anti_cells, non_con_cells, bound);
                    } else {
                        lemma_run_within(left, later, anti_cells, non_con_cells, bound);
                    }
                } else {
                    lemma_run_within(g, later, anti_cells, non_con_cells, bound);
                }
            },
        }
    }
}

/// Committing a digit that its cell allows leaves every cell of the board
/// with candidates that it had before.
pub proof fn lemma_propagate_within(
    g: Grid,
    x: usize,
    y: usize,
    number: usize,
    anti_cells: Seq<(isize, isize)>,
    non_con_cells: Seq<(isize, isize)>,
)
    requires
        on_board((x as nat, y as nat)) ==> g[(x as nat, y as nat)].contains(number as nat),
    ensures
        within(propagate(g, x, y, number, anti_cells, non_con_cells), g),
{
    let frame = commit_tasks(x, y, number, anti_cells, non_con_cells);
    lemma_frame_tasks_shape(affected(x, y, number, anti_cells, non_con_cells), x, y, number);
    assert(settles_within(frame, g)) by {
        assert forall|i: int| 0 <= i < frame.len() implies match #[trigger] frame[i] {
            Task::Settle { x, y, number } => on_board((x as nat, y as nat)) ==> g[(
                x as nat,
                y as nat,
            )].contains(number as nat),
            Task::Eliminate(_) => true,
        } by {
            if i < frame.len() - 1 {
                assert(frame[i] is Eliminate);
            } else {
                assert(frame[i] == frame.last());
            }
        }
    }
    lemma_run_within(g, frame, anti_cells, non_con_cells, g);
}

/// After the tasks of a commitment at (`x`, `y`), that cell holds the
/// committed digit alone, every other cell has lost candidates at most, and
/// no other cell holds a digit that one of `targets` rules out of it.
pub proof fn lemma_frame_sound(
    g: Grid,
    targets: Seq<Elimination>,
    x: usize,
    y: usize,
    number: usize,
    anti_cells: Seq<(isize, isize)>,
    non_con_cells: Seq<(isize, isize)>,
)
    ensures
        ({
            let after = run(g, frame_tasks(targets, x, y, number), anti_cells, non_con_cells);
            &&& after[(x as nat, y as nat)] == set![number as nat]
            &&& forall|cell: (nat, nat)|
                on_board(cell) && cell != (x as nat, y as nat) ==> (#[trigger] after[cell]).subset_of(
                    g[cell],
                )
            &&& forall|i: int|
                0 <= i < targets.len() && on_board(cell_of(targets[i])) && cell_of(targets[i]) != (
                    x as nat,
                    y as nat,
                ) && targets[i].number < 9 ==> !after[cell_of(#[trigger] targets[i])].contains(
                    targets[i].number as nat,
                )
        }),
    decreases targets.len(),
{
    let here = (x as nat, y as nat);
    let after = run(g, frame_tasks(targets, x, y, number), anti_cells, non_con_cells);
    if targets.len() == 0 {
        let only = seq![Task::Settle { x, y, number }];
        assert(only.drop_first() =~= Seq::<Task>::empty());
        assert(only[0] == (Task::Settle { x, y, number }));
        assert(run(settled(g, x, y, number), Seq::<Task>::empty(), anti_cells, non_con_cells)
            == settled(g, x, y, number));
        assert(frame_tasks(targets, x, y, number) == only);
        assert(after == settled(g, x, y, number));
    } else {
        let target = targets[0];
        let rest = targets.drop_first();
        let later = frame_tasks(rest, x, y, number);
        assert forall|i: int| 1 <= i < targets.len() implies targets[i] == rest[i - 1] by {}
        if target.x == x && target.y == y {
            lemma_frame_sound(g, rest, x, y, number, anti_cells, non_con_cells);
        } else {
            let tasks = seq![Task::Eliminate(target)] + later;
            assert(tasks.drop_first() =~= later);
            assert(tasks[0] == Task::Eliminate(target));
            if strikes(g, target) {
                let left = struck(g, target);
                lemma_struck_weight(g, target);
                if digit_count(left[cell_of(target)]) == 1 {
                    let forced = sole_digit(left[cell_of(target)]);
                    lemma_sole_digit(left[cell_of(target)]);
                    let frame = commit_tasks(target.x, target.y, forced, anti_cells, non_con_cells);
                    let mid = run(left, frame, anti_cells, non_con_cells);
                    lemma_run_compose(left, frame, later, anti_cells, non_con_cells);
                    lemma_propagate_within(
                        left,
                        target.x,
                        target.y,
                        forced,
                        anti_cells,
                        non_con_cells,
                    );
                    assert(within(mid, left));
                    lemma_frame_sound(mid, rest, x, y, number, anti_cells, non_con_cells);
                    assert(after == run(mid, later, anti_cells, non_con_cells));
                    assert forall|cell: (nat, nat)|
                        on_board(cell) && cell != here implies (#[trigger] after[cell]).subset_of(
                        g[cell],
                    ) by {
                        assert(mid[cell].subset_of(left[cell]));
                    }
                } else {
                    lemma_frame_sound(left, rest, x, y, number, anti_cells, non_con_cells);
                    assert(after == run(left, later, anti_cells, non_con_cells));
                }
            } else {
                lemma_frame_sound(g, rest, x, y, number, anti_cells, non_con_cells);
                assert(after == run(g, later, anti_cells, non_con_cells));
            }
        }
    }
}

/// What holds of a board `after` committing `number` at (`x`, `y`) on `g`:
/// the cell is certain of the digit; no other cell has gained a candidate;
/// the digit is possible in no other cell of the row, of the column, of the
/// block, nor at an anti-cell offset; and the digits next to it are
/// possible in no other cell at a non-consecutive offset.
pub open spec fn committed(
    g: Grid,
    after: Grid,
    x: usize,
    y: usize,
    number: usize,
    anti_cells: Seq<(isize, isize)>,
    non_con_cells: Seq<(isize, isize)>,
) -> bool {
    let here = (x as nat, y as nat);
    &&& after[here] == set![number as nat]
    &&& forall|cell: (nat, nat)|
        on_board(cell) && cell != here ==> (#[trigger] after[cell]).subset_of(g[cell])
    &&& forall|cell: (nat, nat)|
        on_board(cell) && cell != here && shares_region(cell, here) ==> !(#[trigger] after[cell]).contains(
            number as nat,
        )
    &&& forall|i: int|
        0 <= i < anti_cells.len() ==> match neighbour(here, #[trigger] anti_cells[i]) {
            Some(cell) => cell != here ==> !after[cell].contains(number as nat),
            None => true,
        }
    &&& forall|i: int|
        0 <= i < non_con_cells.len() ==> match neighbour(here, #[trigger] non_con_cells[i]) {
            Some(cell) => cell != here ==> (number + 1 < 9 ==> !after[cell].contains(
                (number + 1) as nat,
            )) && (number >= 1 ==> !after[cell].contains((number - 1) as nat)),
            None => true,
        }
}

/// Propagation is sound: committing a digit at a cell of the board leaves
/// the board as `committed` says.
pub proof fn lemma_propagate_sound(
    g: Grid,
    x: usize,
    y: usize,
    number: usize,
    anti_cells: Seq<(isize, isize)>,
    non_con_cells: Seq<(isize, isize)>,
)
    requires
        x < 9,
        y < 9,
        number < 9,
    ensures
        committed(
            g,
            propagate(g, x, y, number, anti_cells, non_con_cells),
            x,
            y,
            number,
            anti_cells,
            non_con_cells,
        ),
{
    let here = (x as nat, y as nat);
    let targets = affected(x, y, number, anti_cells, non_con_cells);
    let after = propagate(g, x, y, number, anti_cells, non_con_cells);
    let rows = row_targets(y, number);
    let columns = column_targets(x, number);
    let blocks = block_targets(x, y, number);
    let near = near_targets(x, y, number, anti_cells);
    let neighbors = neighbor_targets(x, y, number, non_con_cells);
    lemma_frame_sound(g, targets, x, y, number, anti_cells, non_con_cells);
    assert forall|cell: (nat, nat)|
        on_board(cell) && cell != here && shares_region(cell, here) implies !(#[trigger] after[cell]).contains(
        number as nat,
    ) by {
        let j: int = if cell.1 == here.1 {
            cell.0 as int
        } else if cell.0 == here.0 {
            (9 + cell.1) as int
        } else {
            18 + (cell.0 - x / 3 * 3) * 3 + (cell.1 - y / 3 * 3)
        };
        assert(0 <= j < 27);
        assert(cell_of(targets[j]) == cell);
        assert(targets[j].number == number);
    }
    assert forall|i: int| 0 <= i < anti_cells.len() implies match neighbour(
        here,
        #[trigger] anti_cells[i],
    ) {
        Some(cell) => cell != here ==> !after[cell].contains(number as nat),
        None => true,
    } by {
        if neighbour(here, anti_cells[i]) is Some {
            let k = lemma_near_member(x, y, number, anti_cells, i);
            assert(targets[27 + k] == near[k]);
        }
    }
    assert forall|i: int| 0 <= i < non_con_cells.len() implies match neighbour(
        here,
        #[trigger] non_con_cells[i],
    ) {
        Some(cell) => cell != here ==> (number + 1 < 9 ==> !after[cell].contains(
            (number + 1) as nat,
        )) && (number >= 1 ==> !after[cell].contains((number - 1) as nat)),
        None => true,
    } by {
        if let Some(cell) = neighbour(here, non_con_cells[i]) {
            if cell != here {
                if number + 1 < 9 {
                    let k = lemma_neighbor_member(x, y, number, non_con_cells, i, 1isize);
                    assert(targets[27 + near.len() + k] == neighbors[k]);
                }
                if number >= 1 {
                    let k = lemma_neighbor_member(x, y, number, non_con_cells, i, -1isize);
                    assert(targets[27 + near.len() + k] == neighbors[k]);
                }
            }
        }
    }
}

/// Committing a digit never raises the weight of the board, and lowers it
/// where the cell had more than one candidate.
pub proof fn lemma_propagate_weight(
    g: Grid,
    x: usize,
    y: usize,
    number: usize,
    anti_cells: Seq<(isize, isize)>,
    non_con_cells: Seq<(isize, isize)>,
)
    ensures
        weight(propagate(g, x, y, number, anti_cells, non_con_cells)) <= weight(g),
        on_board((x as nat, y as nat)) ==> weight(
            propagate(g, x, y, number, anti_cells, non_con_cells),
        ) + share(g, (x as nat, y as nat)) <= weight(g) + 1,
{
    let here = (x as nat, y as nat);
    let frame = commit_tasks(x, y, number, anti_cells, non_con_cells);
    lemma_frame_tasks_shape(affected(x, y, number, anti_cells, non_con_cells), x, y, number);
    let sweep = frame.drop_last();
    let only = seq![Task::Settle { x, y, number }];
    assert(frame =~= sweep + only);
    lemma_run_compose(g, sweep, only, anti_cells, non_con_cells);
    let swept = run(g, sweep, anti_cells, non_con_cells);
    lemma_run_weight(g, sweep, anti_cells, non_con_cells, here);
    assert(only.drop_first() =~= Seq::<Task>::empty());
    assert(only[0] == (Task::Settle { x, y, number }));
    assert(run(settled(swept, x, y, number), Seq::<Task>::empty(), anti_cells, non_con_cells)
        == settled(swept, x, y, number));
    assert(run(swept, only, anti_cells, non_con_cells) == settled(swept, x, y, number));
    lemma_settled_weight(swept, x, y, number);
    lemma_weight_insert(swept, here, set![number as nat]);
}

/// What working off `agenda` on `g` does, step by step: a note for each
/// candidate taken away, for each commitment that this forces, and for each
/// cell settled.
pub open spec fn run_log(
    g: Grid,
    agenda: Seq<Task>,
    anti_cells: Seq<(isize, isize)>,
    non_con_cells: Seq<(isize, isize)>,
) -> Seq<Note>
    decreases weight(g), agenda.len(),
    via run_log_decreases
{
    if agenda.len() == 0 {
        Seq::empty()
    } else {
        let later = agenda.drop_first();
        match agenda[0] {
            Task::Settle { x, y, number } => seq![Note::Settled] + run_log(
                settled(g, x, y, number),
                later,
                anti_cells,
                non_con_cells,
            ),
            Task::Eliminate(target) => if strikes(g, target) {
                let left = struck(g, target);
                if digit_count(left[cell_of(target)]) == 1 {
                    let forced = sole_digit(left[cell_of(target)]);
                    seq![
                        Note::Eliminated(target),
                        Note::Commit { x: target.x, y: target.y, number: forced },
                    ] + run_log(
                        left,
                        commit_tasks(target.x, target.y, forced, anti_cells, non_con_cells)
                            + later,
                        anti_cells,
                        non_con_cells,
                    )
                } else {
                    seq![Note::Eliminated(target)] + run_log(
                        left,
                        later,
                        anti_cells,
                        non_con_cells,
                    )
                }
            } else {
                run_log(g, later, anti_cells, non_con_cells)
            },
        }
    }
}

#[via_fn]
proof fn run_log_decreases(
    g: Grid,
    agenda: Seq<Task>,
    anti_cells: Seq<(isize, isize)>,
    non_con_cells: Seq<(isize, isize)>,
) {
    if agenda.len() > 0 {
        match agenda[0] {
            Task::Settle { x, y, number } => {
                lemma_settled_weight(g, x, y, number);
            },
            Task::Eliminate(target) => {
                if strikes(g, target) {
                    lemma_struck_weight(g, target);
                }
            },
        }
    }
}

/// What committing `number` at (`x`, `y`) on `g` does, step by step.
pub open spec fn propagate_log(
    g: Grid,
    x: usize,
    y: usize,
    number: usize,
    anti_cells: Seq<(isize, isize)>,
    non_con_cells: Seq<(isize, isize)>,
) -> Seq<Note> {
    seq![Note::Commit { x, y, number }] + run_log(
        g,
        commit_tasks(x, y, number, anti_cells, non_con_cells),
        anti_cells,
        non_con_cells,
    )
}

/// The notes of working off two agendas one after the other are the notes
/// of working off their concatenation.
pub proof fn lemma_run_log_compose(
    g: Grid,
    first: Seq<Task>,
    second: Seq<Task>,
    anti_cells: Seq<(isize, isize)>,
    non_con_cells: Seq<(isize, isize)>,
)
    ensures
        run_log(g, first + second, anti_cells, non_con_cells) == run_log(
            g,
            first,
            anti_cells,
            non_con_cells,
        ) + run_log(
            run(g, first, anti_cells, non_con_cells),
            second,
            anti_cells,
            non_con_cells,
        ),
    decreases weight(g), first.len(),
{
    let whole = run_log(g, first + second, anti_cells, non_con_cells);
    let tail = run_log(
        run(g, first, anti_cells, non_con_cells),
        second,
        anti_cells,
        non_con_cells,
    );
    if first.len() == 0 {
        assert(first + second =~= second);
        assert(whole =~= run_log(g, first, anti_cells, non_con_cells) + tail);
    } else {
        let later = first.drop_first();
        assert((first + second).drop_first() =~= later + second);
        assert((first + second)[0] == first[0]);
        match first[0] {
            Task::Settle { x, y, number } => {
                lemma_settled_weight(g, x, y, number);
                let next = settled(g, x, y, number);
                lemma_run_log_compose(next, later, second, anti_cells, non_con_cells);
                let head = seq![Note::Settled];
                let middle = run_log(next, later, anti_cells, non_con_cells);
                assert(head + (middle + tail) =~= (head + middle) + tail);
            },
            Task::Eliminate(target) => {
                if strikes(g, target) {
                    let left = struck(g, target);
                    lemma_struck_weight(g, target);
                    if digit_count(left[cell_of(target)]) == 1 {
                        let forced = sole_digit(left[cell_of(target)]);
                        let frame = commit_tasks(
                            target.x,
                            target.y,
                            forced,
                            anti_cells,
                            non_con_cells,
                        );
                        assert(frame + (later + second) =~= (frame + later) + second);
                        lemma_run_log_compose(
                            left,
                            frame + later,
                            second,
                            anti_cells,
                            non_con_cells,
                        );
                        let head = seq![
                            Note::Eliminated(target),
                            Note::Commit { x: target.x, y: target.y, number: forced },
                        ];
                        let middle = run_log(left, frame + later, anti_cells, non_con_cells);
                        assert(head + (middle + tail) =~= (head + middle) + tail);
                    } else {
                        lemma_run_log_compose(left, later, second, anti_cells, non_con_cells);
                        let head = seq![Note::Eliminated(target)];
                        let middle = run_log(left, later, anti_cells, non_con_cells);
                        assert(head + (middle + tail) =~= (head + middle) + tail);
                    }
                } else {
                    lemma_run_log_compose(g, later, second, anti_cells, non_con_cells);
                }
            },
        }
    }
}

} // verus!
