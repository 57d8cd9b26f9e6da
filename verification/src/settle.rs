//! Propagation leaves a settled board settled: after a commitment, what the
//! digit of every certain cell rules out elsewhere is not possible there.

use crate::cell::digit_count;
use crate::config::{affected, Elimination};
use crate::grid::{on_board, weight, Grid};
use crate::propagate::{
    cell_of, commit_tasks, frame_tasks, lemma_frame_tasks_shape, lemma_settled_weight, lemma_sole_digit,
    lemma_struck_weight, propagate, run, settled, sole_digit, strikes, struck, Task,
};
use crate::rules::{hits, is_settled, lemma_rules_out_target, mutual, rules_out};
use vstd::prelude::*;

verus! {

/// Whether `task` settles `cell`.
pub open spec fn settles(task: Task, cell: (nat, nat)) -> bool {
    match task {
        Task::Eliminate(_) => false,
        Task::Settle { x, y, .. } => (x as nat, y as nat) == cell,
    }
}

/// Whether `task` rules the digit `d` out of `cell`.
pub open spec fn aims(task: Task, cell: (nat, nat), d: nat) -> bool {
    match task {
        Task::Eliminate(target) => hits(target, cell, d),
        Task::Settle { .. } => false,
    }
}

/// Whether `agenda` holds a task that settles `cell`.
pub open spec fn settle_pending(agenda: Seq<Task>, cell: (nat, nat)) -> bool {
    exists|i: int| 0 <= i < agenda.len() && settles(#[trigger] agenda[i], cell)
}

/// Whether `agenda` holds a task that rules `d` out of `cell`.
pub open spec fn aimed(agenda: Seq<Task>, cell: (nat, nat), d: nat) -> bool {
    exists|i: int| 0 <= i < agenda.len() && aims(#[trigger] agenda[i], cell, d)
}

/// Whether `cell` will hold `d` once `agenda` is worked off, as far as the
/// tasks of `agenda` decide it: the last task that settles `cell` or rules
/// `d` out of it decides; where there is none, the board does.
pub open spec fn will_hold(g: Grid, agenda: Seq<Task>, cell: (nat, nat), d: nat) -> bool
    decreases agenda.len(),
{
    if agenda.len() == 0 {
        g[cell].contains(d)
    } else {
        match agenda.last() {
            Task::Eliminate(target) => if hits(target, cell, d) {
                false
            } else {
                will_hold(g, agenda.drop_last(), cell, d)
            },
            Task::Settle { x, y, number } => if (x as nat, y as nat) == cell {
                number == d
            } else {
                will_hold(g, agenda.drop_last(), cell, d)
            },
        }
    }
}

/// Whether `cell` is certain or about to be settled.
pub open spec fn decided(g: Grid, agenda: Seq<Task>, cell: (nat, nat)) -> bool {
    digit_count(g[cell]) == 1 || settle_pending(agenda, cell)
}

/// Whether, of what a decided cell will hold and what that rules out
/// elsewhere, the second will not hold.
pub open spec fn kept(
    g: Grid,
    agenda: Seq<Task>,
    full: bool,
    anti_cells: Seq<(isize, isize)>,
    non_con_cells: Seq<(isize, isize)>,
) -> bool {
    forall|cell: (nat, nat), other: (nat, nat), e: nat, d: nat|
        #![trigger will_hold(g, agenda, cell, e), will_hold(g, agenda, other, d)]
        on_board(cell) && on_board(other) && cell != other && e < 9 && d < 9 && will_hold(
            g,
            agenda,
            cell,
            e,
        ) && decided(g, agenda, cell) && rules_out(
            full,
            cell,
            e,
            other,
            d,
            anti_cells,
            non_con_cells,
        ) ==> !will_hold(g, agenda, other, d)
}

/// What `kept` promises of one decided cell and one other cell.
proof fn lemma_kept_use(
    g: Grid,
    agenda: Seq<Task>,
    full: bool,
    anti_cells: Seq<(isize, isize)>,
    non_con_cells: Seq<(isize, isize)>,
    cell: (nat, nat),
    other: (nat, nat),
    e: nat,
    d: nat,
)
    requires
        kept(g, agenda, full, anti_cells, non_con_cells),
        on_board(cell),
        on_board(other),
        cell != other,
        e < 9,
        d < 9,
        will_hold(g, agenda, cell, e),
        decided(g, agenda, cell),
        rules_out(full, cell, e, other, d, anti_cells, non_con_cells),
    ensures
        !will_hold(g, agenda, other, d),
{
}

/// Whether the cell (`x`, `y`) of `g` holds `number` and no other digit.
pub open spec fn fixed(g: Grid, x: usize, y: usize, number: usize) -> bool {
    forall|d: nat| d < 9 ==> (#[trigger] g[(x as nat, y as nat)].contains(d) <==> d == number)
}

/// Whether each settling task of `front` settles a cell on what it holds.
pub open spec fn quiet(front: Seq<Task>, g: Grid) -> bool {
    forall|i: int|
        0 <= i < front.len() ==> match #[trigger] front[i] {
            Task::Settle { x, y, number } => fixed(g, x, y, number),
            Task::Eliminate(_) => true,
        }
}

/// Settling the first task of an agenda does not change what will hold.
proof fn lemma_will_hold_after_settle(g: Grid, agenda: Seq<Task>, cell: (nat, nat), d: nat)
    requires
        agenda.len() > 0,
        agenda[0] is Settle,
    ensures
        will_hold(g, agenda, cell, d) == will_hold(
            settled(g, agenda[0]->x, agenda[0]->y, agenda[0]->number),
            agenda.drop_first(),
            cell,
            d,
        ),
    decreases agenda.len(),
{
    let next = settled(g, agenda[0]->x, agenda[0]->y, agenda[0]->number);
    if agenda.len() == 1 {
        assert(agenda.last() == agenda[0]);
        assert(will_hold(g, agenda.drop_last(), cell, d) == g[cell].contains(d));
        assert(will_hold(next, agenda.drop_first(), cell, d) == next[cell].contains(d));
    } else {
        let shorter = agenda.drop_last();
        assert(shorter[0] == agenda[0]);
        assert(shorter.drop_first() =~= agenda.drop_first().drop_last());
        assert(agenda.drop_first().last() == agenda.last());
        lemma_will_hold_after_settle(g, shorter, cell, d);
    }
}

/// The board after the first task of an agenda, where that is an
/// elimination.
pub open spec fn after_eliminate(g: Grid, target: Elimination) -> Grid {
    if strikes(g, target) {
        struck(g, target)
    } else {
        g
    }
}

/// Carrying out the elimination that an agenda starts with does not change
/// what will hold.
proof fn lemma_will_hold_after_eliminate(g: Grid, agenda: Seq<Task>, cell: (nat, nat), d: nat)
    requires
        agenda.len() > 0,
        agenda[0] is Eliminate,
        on_board(cell),
        d < 9,
    ensures
        will_hold(g, agenda, cell, d) == will_hold(
            after_eliminate(g, agenda[0]->0),
            agenda.drop_first(),
            cell,
            d,
        ),
    decreases agenda.len(),
{
    let left = after_eliminate(g, agenda[0]->0);
    if agenda.len() == 1 {
        assert(agenda.last() == agenda[0]);
        assert(will_hold(g, agenda.drop_last(), cell, d) == g[cell].contains(d));
        assert(will_hold(left, agenda.drop_first(), cell, d) == left[cell].contains(d));
    } else {
        let shorter = agenda.drop_last();
        assert(shorter[0] == agenda[0]);
        assert(shorter.drop_first() =~= agenda.drop_first().drop_last());
        assert(agenda.drop_first().last() == agenda.last());
        lemma_will_hold_after_eliminate(g, shorter, cell, d);
    }
}

/// What will hold after tasks that settle cells only on what they hold is
/// possible now.
proof fn lemma_will_hold_quiet(g: Grid, front: Seq<Task>, cell: (nat, nat), d: nat)
    requires
        quiet(front, g),
        d < 9,
        will_hold(g, front, cell, d),
    ensures
        g[cell].contains(d),
    decreases front.len(),
{
    if front.len() > 0 {
        let shorter = front.drop_last();
        assert(front.last() == front[front.len() - 1]);
        assert forall|i: int| 0 <= i < shorter.len() implies shorter[i] == front[i] by {}
        match front.last() {
            Task::Eliminate(target) => {
                lemma_will_hold_quiet(g, shorter, cell, d);
            },
            Task::Settle { x, y, number } => {
                if (x as nat, y as nat) != cell {
                    lemma_will_hold_quiet(g, shorter, cell, d);
                }
            },
        }
    }
}

/// Putting such tasks in front of an agenda adds nothing to what will hold.
proof fn lemma_will_hold_prepend(
    g: Grid,
    front: Seq<Task>,
    rest: Seq<Task>,
    cell: (nat, nat),
    d: nat,
)
    requires
        quiet(front, g),
        d < 9,
        will_hold(g, front + rest, cell, d),
    ensures
        will_hold(g, rest, cell, d),
    decreases rest.len(),
{
    if rest.len() == 0 {
        assert(front + rest =~= front);
        lemma_will_hold_quiet(g, front, cell, d);
    } else {
        assert((front + rest).last() == rest.last());
        assert((front + rest).drop_last() =~= front + rest.drop_last());
        match rest.last() {
            Task::Eliminate(target) => {
                lemma_will_hold_prepend(g, front, rest.drop_last(), cell, d);
            },
            Task::Settle { x, y, number } => {
                if (x as nat, y as nat) != cell {
                    lemma_will_hold_prepend(g, front, rest.drop_last(), cell, d);
                }
            },
        }
    }
}

/// What will hold in a cell that no task settles is possible now.
proof fn lemma_will_hold_unsettled(g: Grid, agenda: Seq<Task>, cell: (nat, nat), d: nat)
    requires
        !settle_pending(agenda, cell),
        will_hold(g, agenda, cell, d),
    ensures
        g[cell].contains(d),
    decreases agenda.len(),
{
    if agenda.len() > 0 {
        let shorter = agenda.drop_last();
        assert(agenda.last() == agenda[agenda.len() - 1]);
        assert(!settles(agenda[agenda.len() - 1], cell));
        assert forall|i: int| 0 <= i < shorter.len() implies !settles(
            #[trigger] shorter[i],
            cell,
        ) by {
            assert(shorter[i] == agenda[i]);
        }
        lemma_will_hold_unsettled(g, shorter, cell, d);
    }
}

/// What will hold in a cell although a task rules it out is settled by a
/// task.
proof fn lemma_will_hold_aimed(g: Grid, agenda: Seq<Task>, cell: (nat, nat), d: nat)
    requires
        will_hold(g, agenda, cell, d),
        aimed(agenda, cell, d),
    ensures
        settle_pending(agenda, cell),
    decreases agenda.len(),
{
    let last = agenda.len() - 1;
    let shorter = agenda.drop_last();
    assert(agenda.last() == agenda[last]);
    if settles(agenda[last], cell) {
    } else {
        let i = choose|i: int| 0 <= i < agenda.len() && aims(#[trigger] agenda[i], cell, d);
        assert(i != last);
        assert(shorter[i] == agenda[i]);
        lemma_will_hold_aimed(g, shorter, cell, d);
        let j = choose|j: int| 0 <= j < shorter.len() && settles(#[trigger] shorter[j], cell);
        assert(agenda[j] == shorter[j]);
    }
}

/// A cell that the rest of an agenda settles is settled by the agenda.
proof fn lemma_settle_pending_before(agenda: Seq<Task>, cell: (nat, nat))
    requires
        agenda.len() > 0,
        settle_pending(agenda.drop_first(), cell),
    ensures
        settle_pending(agenda, cell),
{
    let rest = agenda.drop_first();
    let i = choose|i: int| 0 <= i < rest.len() && settles(#[trigger] rest[i], cell);
    assert(agenda[i + 1] == rest[i]);
}

/// A cell that a commitment put in front of an agenda settles is the cell
/// of the commitment, or a cell that the agenda settles.
proof fn lemma_settle_pending_behind_frame(
    targets: Seq<Elimination>,
    x: usize,
    y: usize,
    number: usize,
    rest: Seq<Task>,
    cell: (nat, nat),
)
    requires
        settle_pending(frame_tasks(targets, x, y, number) + rest, cell),
        cell != (x as nat, y as nat),
    ensures
        settle_pending(rest, cell),
{
    let frame = frame_tasks(targets, x, y, number);
    lemma_frame_tasks_shape(targets, x, y, number);
    let i = choose|i: int|
        0 <= i < (frame + rest).len() && settles(#[trigger] (frame + rest)[i], cell);
    if i < frame.len() {
        assert((frame + rest)[i] == frame[i]);
        if i < frame.len() - 1 {
            assert(frame[i] is Eliminate);
        } else {
            assert(frame[i] == frame.last());
        }
    } else {
        assert((frame + rest)[i] == rest[i - frame.len()]);
    }
}

/// A commitment has a task for whatever the digit rules out elsewhere.
proof fn lemma_frame_aims(
    full: bool,
    cell: (nat, nat),
    e: nat,
    other: (nat, nat),
    d: nat,
    rest: Seq<Task>,
    anti_cells: Seq<(isize, isize)>,
    non_con_cells: Seq<(isize, isize)>,
)
    requires
        on_board(cell),
        on_board(other),
        cell != other,
        e < 9,
        rules_out(full, cell, e, other, d, anti_cells, non_con_cells),
    ensures
        aimed(
            commit_tasks(cell.0 as usize, cell.1 as usize, e as usize, anti_cells, non_con_cells)
                + rest,
            other,
            d,
        ),
{
    let x = cell.0 as usize;
    let y = cell.1 as usize;
    let targets = affected(x, y, e as usize, anti_cells, non_con_cells);
    let frame = commit_tasks(x, y, e as usize, anti_cells, non_con_cells);
    let j = lemma_rules_out_target(full, cell, e, other, d, anti_cells, non_con_cells);
    let i = lemma_frame_task_index(targets, x, y, e as usize, j);
    assert((frame + rest)[i] == frame[i]);
    assert(aims((frame + rest)[i], other, d));
}

/// Each of `targets` that does not name the cell of the commitment is among
/// its tasks, at the position returned.
pub proof fn lemma_frame_task_index(
    targets: Seq<Elimination>,
    x: usize,
    y: usize,
    number: usize,
    j: int,
) -> (i: int)
    requires
        0 <= j < targets.len(),
        !(targets[j].x == x && targets[j].y == y),
    ensures
        0 <= i < frame_tasks(targets, x, y, number).len(),
        frame_tasks(targets, x, y, number)[i] == Task::Eliminate(targets[j]),
    decreases targets.len(),
{
    if targets[0].x == x && targets[0].y == y {
        lemma_frame_task_index(targets.drop_first(), x, y, number, j - 1)
    } else if j == 0 {
        0
    } else {
        1 + lemma_frame_task_index(targets.drop_first(), x, y, number, j - 1)
    }
}

/// Working off an agenda on a board of which `kept` holds leaves a settled
/// board.
pub proof fn lemma_run_settled(
    g: Grid,
    agenda: Seq<Task>,
    full: bool,
    anti_cells: Seq<(isize, isize)>,
    non_con_cells: Seq<(isize, isize)>,
)
    requires
        mutual(full, anti_cells, non_con_cells),
        kept(g, agenda, full, anti_cells, non_con_cells),
    ensures
        is_settled(run(g, agenda, anti_cells, non_con_cells), full, anti_cells, non_con_cells),
    decreases weight(g), agenda.len(),
{
    if agenda.len() == 0 {
        assert forall|cell: (nat, nat), other: (nat, nat), e: nat, d: nat|
            #![trigger g[cell].contains(e), g[other].contains(d)]
            on_board(cell) && on_board(other) && cell != other && e < 9 && d < 9 && digit_count(
                g[cell],
            ) == 1 && g[cell].contains(e) && rules_out(
                full,
                cell,
                e,
                other,
                d,
                anti_cells,
                non_con_cells,
            ) implies !g[other].contains(d) by {
            lemma_kept_use(g, agenda, full, anti_cells, non_con_cells, cell, other, e, d);
        }
    } else {
        let later = agenda.drop_first();
        match agenda[0] {
            Task::Settle { x, y, number } => {
                let next = settled(g, x, y, number);
                lemma_settled_weight(g, x, y, number);
                assert forall|cell: (nat, nat), other: (nat, nat), e: nat, d: nat|
                    #![trigger will_hold(next, later, cell, e), will_hold(next, later, other, d)]
                    on_board(cell) && on_board(other) && cell != other && e < 9 && d < 9
                        && will_hold(next, later, cell, e) && decided(next, later, cell)
                        && rules_out(
                        full,
                        cell,
                        e,
                        other,
                        d,
                        anti_cells,
                        non_con_cells,
                    ) implies !will_hold(next, later, other, d) by {
                    lemma_will_hold_after_settle(g, agenda, cell, e);
                    lemma_will_hold_after_settle(g, agenda, other, d);
                    if settle_pending(later, cell) {
                        lemma_settle_pending_before(agenda, cell);
                    } else if cell == (x as nat, y as nat) {
                        assert(settles(agenda[0], cell));
                    }
                    lemma_kept_use(g, agenda, full, anti_cells, non_con_cells, cell, other, e, d);
                }
                lemma_run_settled(next, later, full, anti_cells, non_con_cells);
            },
            Task::Eliminate(target) => {
                let at = cell_of(target);
                let left = after_eliminate(g, target);
                if strikes(g, target) {
                    lemma_struck_weight(g, target);
                }
                if strikes(g, target) && digit_count(left[at]) == 1 {
                    let forced = sole_digit(left[at]);
                    lemma_sole_digit(left[at]);
                    let frame = commit_tasks(
                        target.x,
                        target.y,
                        forced,
                        anti_cells,
                        non_con_cells,
                    );
                    let next = frame + later;
                    lemma_frame_tasks_shape(
                        affected(target.x, target.y, forced, anti_cells, non_con_cells),
                        target.x,
                        target.y,
                        forced,
                    );
                    assert(fixed(left, target.x, target.y, forced));
                    assert(quiet(frame, left)) by {
                        assert forall|i: int| 0 <= i < frame.len() implies match #[trigger] frame[i] {
                            Task::Settle { x, y, number } => fixed(left, x, y, number),
                            Task::Eliminate(_) => true,
                        } by {
                            if i < frame.len() - 1 {
                                assert(frame[i] is Eliminate);
                            } else {
                                assert(frame[i] == frame.last());
                            }
                        }
                    }
                    assert forall|cell: (nat, nat), other: (nat, nat), e: nat, d: nat|
                        #![trigger will_hold(left, next, cell, e), will_hold(left, next, other, d)]
                        on_board(cell) && on_board(other) && cell != other && e < 9 && d < 9
                            && will_hold(left, next, cell, e) && decided(left, next, cell)
                            && rules_out(
                            full,
                            cell,
                            e,
                            other,
                            d,
                            anti_cells,
                            non_con_cells,
                        ) implies !will_hold(left, next, other, d) by {
                        if will_hold(left, next, other, d) {
                            lemma_will_hold_prepend(left, frame, later, cell, e);
                            lemma_will_hold_prepend(left, frame, later, other, d);
                            lemma_will_hold_after_eliminate(g, agenda, cell, e);
                            lemma_will_hold_after_eliminate(g, agenda, other, d);
                            if cell != at || settle_pending(agenda, cell) {
                                if cell != at && settle_pending(next, cell) {
                                    lemma_settle_pending_behind_frame(
                                        affected(
                                            target.x,
                                            target.y,
                                            forced,
                                            anti_cells,
                                            non_con_cells,
                                        ),
                                        target.x,
                                        target.y,
                                        forced,
                                        later,
                                        cell,
                                    );
                                    lemma_settle_pending_before(agenda, cell);
                                }
                                assert(left[cell] == g[cell] || cell == at);
                                lemma_kept_use(
                                    g,
                                    agenda,
                                    full,
                                    anti_cells,
                                    non_con_cells,
                                    cell,
                                    other,
                                    e,
                                    d,
                                );
                            } else {
                                assert(!settle_pending(later, cell)) by {
                                    if settle_pending(later, cell) {
                                        lemma_settle_pending_before(agenda, cell);
                                    }
                                }
                                lemma_will_hold_unsettled(left, later, cell, e);
                                assert(e == forced);
                                lemma_frame_aims(
                                    full,
                                    cell,
                                    e,
                                    other,
                                    d,
                                    later,
                                    anti_cells,
                                    non_con_cells,
                                );
                                lemma_will_hold_aimed(left, next, other, d);
                                lemma_settle_pending_behind_frame(
                                    affected(
                                        target.x,
                                        target.y,
                                        forced,
                                        anti_cells,
                                        non_con_cells,
                                    ),
                                    target.x,
                                    target.y,
                                    forced,
                                    later,
                                    other,
                                );
                                lemma_settle_pending_before(agenda, other);
                                lemma_kept_use(
                                    g,
                                    agenda,
                                    full,
                                    anti_cells,
                                    non_con_cells,
                                    other,
                                    cell,
                                    d,
                                    e,
                                );
                            }
                        }
                    }
                    lemma_run_settled(left, next, full, anti_cells, non_con_cells);
                } else {
                    assert forall|cell: (nat, nat), other: (nat, nat), e: nat, d: nat|
                        #![trigger will_hold(left, later, cell, e), will_hold(left, later, other, d)]
                        on_board(cell) && on_board(other) && cell != other && e < 9 && d < 9
                            && will_hold(left, later, cell, e) && decided(left, later, cell)
                            && rules_out(
                            full,
                            cell,
                            e,
                            other,
                            d,
                            anti_cells,
                            non_con_cells,
                        ) implies !will_hold(left, later, other, d) by {
                        lemma_will_hold_after_eliminate(g, agenda, cell, e);
                        lemma_will_hold_after_eliminate(g, agenda, other, d);
                        if settle_pending(later, cell) {
                            lemma_settle_pending_before(agenda, cell);
                        }
                        assert(left[cell] == g[cell] || cell == at);
                        lemma_kept_use(
                            g,
                            agenda,
                            full,
                            anti_cells,
                            non_con_cells,
                            cell,
                            other,
                            e,
                            d,
                        );
                    }
                    lemma_run_settled(left, later, full, anti_cells, non_con_cells);
                }
            },
        }
    }
}

/// Propagation keeps a board settled: where the rules are mutual and the
/// board was settled, it is settled after any commitment.
pub proof fn lemma_propagate_settled(
    g: Grid,
    x: usize,
    y: usize,
    number: usize,
    full: bool,
    anti_cells: Seq<(isize, isize)>,
    non_con_cells: Seq<(isize, isize)>,
)
    requires
        x < 9,
        y < 9,
        number < 9,
        mutual(full, anti_cells, non_con_cells),
        is_settled(g, full, anti_cells, non_con_cells),
    ensures
        is_settled(
            propagate(g, x, y, number, anti_cells, non_con_cells),
            full,
            anti_cells,
            non_con_cells,
        ),
{
    let here = (x as nat, y as nat);
    let targets = affected(x, y, number, anti_cells, non_con_cells);
    let frame = commit_tasks(x, y, number, anti_cells, non_con_cells);
    let none = Seq::<Task>::empty();
    lemma_frame_tasks_shape(targets, x, y, number);
    assert(frame + none =~= frame);
    assert forall|cell: (nat, nat), other: (nat, nat), e: nat, d: nat|
        #![trigger will_hold(g, frame, cell, e), will_hold(g, frame, other, d)]
        on_board(cell) && on_board(other) && cell != other && e < 9 && d < 9 && will_hold(
            g,
            frame,
            cell,
            e,
        ) && decided(g, frame, cell) && rules_out(
            full,
            cell,
            e,
            other,
            d,
            anti_cells,
            non_con_cells,
        ) implies !will_hold(g, frame, other, d) by {
        if will_hold(g, frame, other, d) {
            if cell == here {
                assert(frame.last() == (Task::Settle { x, y, number }));
                assert(e == number);
                lemma_frame_aims(full, cell, e, other, d, none, anti_cells, non_con_cells);
                lemma_will_hold_aimed(g, frame, other, d);
                lemma_settle_pending_behind_frame(targets, x, y, number, none, other);
            } else {
                if settle_pending(frame, cell) {
                    lemma_settle_pending_behind_frame(targets, x, y, number, none, cell);
                }
                lemma_will_hold_unsettled(g, frame, cell, e);
                if other == here {
                    assert(frame.last() == (Task::Settle { x, y, number }));
                    assert(d == number);
                    lemma_frame_aims(full, other, d, cell, e, none, anti_cells, non_con_cells);
                    lemma_will_hold_aimed(g, frame, cell, e);
                } else {
                    if settle_pending(frame, other) {
                        lemma_settle_pending_behind_frame(targets, x, y, number, none, other);
                    }
                    lemma_will_hold_unsettled(g, frame, other, d);
                }
            }
        }
    }
    lemma_run_settled(g, frame, full, anti_cells, non_con_cells);
}

} // verus!
