//! What holds of every search: the boards that it hands out are decided,
//! keep the rules, refine the board that the search began with, and differ
//! from one another.

use crate::cell::{digit_count, lemma_member_counts};
use crate::config::{
    affected, lemma_near_member, lemma_neighbor_member, near_targets, neighbor_targets,
    neighbour,
};
use crate::grid::{is_dead, is_solved, on_board, shares_region, weight, within, Grid};
use crate::propagate::{
    lemma_propagate_sound, lemma_propagate_within, lemma_sole_digit, propagate, sole_digit,
};
use crate::region::region_cell;
use crate::rules::{
    hits, is_filling, is_settled, keeps_regions, keeps_rules, lemma_region_slots,
    lemma_regions_in_rules, lemma_regions_mutual, lemma_settled_use, mutual, shows,
    Filling,
};
use crate::search::{
    all_solutions, attempt_solutions, branch_solutions, choice, is_candidate, leads,
    lemma_branch_weight, none_open, open_cells_below, rank, tally,
};
use crate::settle::lemma_propagate_settled;
use vstd::prelude::*;

verus! {

/// A cell of a region that is open for a digit is counted by the tally.
pub proof fn lemma_open_cell_counts(g: Grid, region: usize, number: usize, slot: nat)
    requires
        slot < 9,
        is_candidate(g, region_cell(region as nat, slot), number),
    ensures
        tally(g, region, number) > 0,
{
    lemma_open_cells_grow(g, region, number, slot + 1, 9);
}

/// The open cells among more positions are no fewer.
proof fn lemma_open_cells_grow(g: Grid, region: usize, number: usize, fewer: nat, more: nat)
    requires
        fewer <= more,
    ensures
        open_cells_below(g, region, number, fewer).len() <= open_cells_below(
            g,
            region,
            number,
            more,
        ).len(),
    decreases more,
{
    if fewer < more {
        lemma_open_cells_grow(g, region, number, fewer, (more - 1) as nat);
    }
}

/// Among the pairs of rank below `upto`, either none has an open cell or one
/// of them leads.
proof fn lemma_leader_exists(g: Grid, upto: nat) -> (leader: (usize, usize))
    requires
        upto <= 243,
    ensures
        none_open(g, upto as int) || leads(g, leader.0, leader.1, upto as int),
    decreases upto,
{
    if upto == 0 {
        (0, 0)
    } else {
        let before = lemma_leader_exists(g, (upto - 1) as nat);
        let region = ((upto - 1) / 9) as usize;
        let number = ((upto - 1) % 9) as usize;
        assert(rank(region, number) == upto - 1);
        assert forall|r: usize, n: usize| n < 9 && rank(r, n) < upto implies rank(r, n) < upto - 1
            || (r == region && n == number) by {}
        if tally(g, region, number) == 0 {
            before
        } else if none_open(g, upto - 1) {
            (region, number)
        } else if tally(g, region, number) < tally(g, before.0, before.1) {
            (region, number)
        } else {
            before
        }
    }
}

/// Where the search has no choice to make, no cell is open.
pub proof fn lemma_no_choice_none_open(g: Grid)
    requires
        choice(g) is None,
    ensures
        none_open(g, 243),
{
    let leader = lemma_leader_exists(g, 243);
    if leads(g, leader.0, leader.1, 243) {
        let pair = (leader.0, leader.1);
        assert(leads(g, pair.0, pair.1, 243));
    }
}

/// A board that is not dead and on which no cell is open is solved.
pub proof fn lemma_nothing_open_is_solved(g: Grid)
    requires
        none_open(g, 243),
        !is_dead(g),
    ensures
        is_solved(g),
{
    assert forall|cell: (nat, nat)| on_board(cell) implies digit_count(#[trigger] g[cell])
        == 1 by {
        let s = g[cell];
        if digit_count(s) >= 2 {
            let d: usize = if s.contains(0) {
                0
            } else if s.contains(1) {
                1
            } else if s.contains(2) {
                2
            } else if s.contains(3) {
                3
            } else if s.contains(4) {
                4
            } else if s.contains(5) {
                5
            } else if s.contains(6) {
                6
            } else if s.contains(7) {
                7
            } else {
                8
            };
            assert(s.contains(d as nat));
            let row = (9 + cell.1) as usize;
            assert(region_cell(row as nat, cell.0) == cell);
            assert(is_candidate(g, cell, d));
            lemma_open_cell_counts(g, row, d, cell.0);
            assert(rank(row, d) < 243);
            assert(tally(g, row, d) == 0);
        }
    }
}

/// Every board that the search hands out from a board that is not dead is
/// solved: each of its cells holds exactly one digit.
pub proof fn lemma_solutions_are_solved(
    g: Grid,
    anti_cells: Seq<(isize, isize)>,
    non_con_cells: Seq<(isize, isize)>,
    i: int,
)
    requires
        !is_dead(g),
        0 <= i < all_solutions(g, anti_cells, non_con_cells).len(),
    ensures
        is_solved(all_solutions(g, anti_cells, non_con_cells)[i]),
    decreases weight(g), 10nat,
{
    match choice(g) {
        None => {
            lemma_no_choice_none_open(g);
            lemma_nothing_open_is_solved(g);
        },
        Some((region, number)) => {
            lemma_branches_are_solved(g, region, number, 0, anti_cells, non_con_cells, i);
        },
    }
}

/// The same of the boards handed out from position `slot` of a region on.
proof fn lemma_branches_are_solved(
    g: Grid,
    region: usize,
    number: usize,
    slot: nat,
    anti_cells: Seq<(isize, isize)>,
    non_con_cells: Seq<(isize, isize)>,
    i: int,
)
    requires
        0 <= i < branch_solutions(g, region, number, slot, anti_cells, non_con_cells).len(),
    ensures
        is_solved(branch_solutions(g, region, number, slot, anti_cells, non_con_cells)[i]),
    decreases weight(g), 9 - slot,
{
    if slot < 9 {
        let cell = region_cell(region as nat, slot);
        let x = cell.0 as usize;
        let y = cell.1 as usize;
        let here = attempt_solutions(g, x, y, number, anti_cells, non_con_cells);
        if i < here.len() {
            let next = propagate(g, x, y, number, anti_cells, non_con_cells);
            lemma_branch_weight(g, x, y, number, anti_cells, non_con_cells);
            lemma_solutions_are_solved(next, anti_cells, non_con_cells, i);
        } else {
            lemma_branches_are_solved(
                g,
                region,
                number,
                slot + 1,
                anti_cells,
                non_con_cells,
                i - here.len(),
            );
        }
    }
}

/// A dead board with an open cell is a dead end: whatever is committed on
/// it, some cell stays without candidates, and the search hands out
/// nothing.
pub proof fn lemma_dead_end(
    g: Grid,
    anti_cells: Seq<(isize, isize)>,
    non_con_cells: Seq<(isize, isize)>,
)
    requires
        is_dead(g),
        choice(g) is Some,
    ensures
        all_solutions(g, anti_cells, non_con_cells).len() == 0,
{
    let (region, number) = choice(g).unwrap();
    lemma_dead_branches(g, region, number, 0, anti_cells, non_con_cells);
}

/// The same from position `slot` of a region on.
proof fn lemma_dead_branches(
    g: Grid,
    region: usize,
    number: usize,
    slot: nat,
    anti_cells: Seq<(isize, isize)>,
    non_con_cells: Seq<(isize, isize)>,
)
    requires
        is_dead(g),
    ensures
        branch_solutions(g, region, number, slot, anti_cells, non_con_cells).len() == 0,
    decreases 9 - slot,
{
    if slot < 9 {
        let cell = region_cell(region as nat, slot);
        let x = cell.0 as usize;
        let y = cell.1 as usize;
        if is_candidate(g, cell, number) {
            let next = propagate(g, x, y, number, anti_cells, non_con_cells);
            let empty = choose|empty: (nat, nat)|
                on_board(empty) && digit_count(#[trigger] g[empty]) == 0;
            lemma_member_counts(g[cell], number as nat);
            lemma_propagate_sound(g, x, y, number, anti_cells, non_con_cells);
            assert((x as nat, y as nat) == cell);
            assert(empty != cell);
            assert(next[empty].subset_of(g[empty]));
            assert(digit_count(next[empty]) == 0);
            assert(is_dead(next));
        }
        assert(attempt_solutions(g, x, y, number, anti_cells, non_con_cells).len() == 0);
        lemma_dead_branches(g, region, number, slot + 1, anti_cells, non_con_cells);
    }
}

/// Every board that the search hands out from a settled board is settled,
/// where the rules are mutual.
pub proof fn lemma_solutions_are_settled(
    g: Grid,
    full: bool,
    anti_cells: Seq<(isize, isize)>,
    non_con_cells: Seq<(isize, isize)>,
    i: int,
)
    requires
        mutual(full, anti_cells, non_con_cells),
        is_settled(g, full, anti_cells, non_con_cells),
        0 <= i < all_solutions(g, anti_cells, non_con_cells).len(),
    ensures
        is_settled(all_solutions(g, anti_cells, non_con_cells)[i], full, anti_cells, non_con_cells),
    decreases weight(g), 10nat,
{
    match choice(g) {
        None => {},
        Some((region, number)) => {
            lemma_branches_are_settled(g, full, region, number, 0, anti_cells, non_con_cells, i);
        },
    }
}

/// The same of the boards handed out from position `slot` of a region on.
proof fn lemma_branches_are_settled(
    g: Grid,
    full: bool,
    region: usize,
    number: usize,
    slot: nat,
    anti_cells: Seq<(isize, isize)>,
    non_con_cells: Seq<(isize, isize)>,
    i: int,
)
    requires
        mutual(full, anti_cells, non_con_cells),
        is_settled(g, full, anti_cells, non_con_cells),
        0 <= i < branch_solutions(g, region, number, slot, anti_cells, non_con_cells).len(),
    ensures
        is_settled(
            branch_solutions(g, region, number, slot, anti_cells, non_con_cells)[i],
            full,
            anti_cells,
            non_con_cells,
        ),
    decreases weight(g), 9 - slot,
{
    if slot < 9 {
        let cell = region_cell(region as nat, slot);
        let x = cell.0 as usize;
        let y = cell.1 as usize;
        let here = attempt_solutions(g, x, y, number, anti_cells, non_con_cells);
        if i < here.len() {
            let next = propagate(g, x, y, number, anti_cells, non_con_cells);
            lemma_branch_weight(g, x, y, number, anti_cells, non_con_cells);
            lemma_propagate_settled(g, x, y, number, full, anti_cells, non_con_cells);
            lemma_solutions_are_settled(next, full, anti_cells, non_con_cells, i);
        } else {
            lemma_branches_are_settled(
                g,
                full,
                region,
                number,
                slot + 1,
                anti_cells,
                non_con_cells,
                i - here.len(),
            );
        }
    }
}

/// Every board that the search hands out refines the board that the search
/// began with: no cell has a candidate that it did not have.
pub proof fn lemma_solutions_are_within(
    g: Grid,
    anti_cells: Seq<(isize, isize)>,
    non_con_cells: Seq<(isize, isize)>,
    i: int,
)
    requires
        0 <= i < all_solutions(g, anti_cells, non_con_cells).len(),
    ensures
        within(all_solutions(g, anti_cells, non_con_cells)[i], g),
    decreases weight(g), 10nat,
{
    match choice(g) {
        None => {},
        Some((region, number)) => {
            lemma_branches_are_within(g, region, number, 0, anti_cells, non_con_cells, i);
        },
    }
}

/// The same of the boards handed out from position `slot` of a region on.
proof fn lemma_branches_are_within(
    g: Grid,
    region: usize,
    number: usize,
    slot: nat,
    anti_cells: Seq<(isize, isize)>,
    non_con_cells: Seq<(isize, isize)>,
    i: int,
)
    requires
        0 <= i < branch_solutions(g, region, number, slot, anti_cells, non_con_cells).len(),
    ensures
        within(branch_solutions(g, region, number, slot, anti_cells, non_con_cells)[i], g),
    decreases weight(g), 9 - slot,
{
    if slot < 9 {
        let cell = region_cell(region as nat, slot);
        let x = cell.0 as usize;
        let y = cell.1 as usize;
        let here = attempt_solutions(g, x, y, number, anti_cells, non_con_cells);
        if i < here.len() {
            let next = propagate(g, x, y, number, anti_cells, non_con_cells);
            lemma_branch_weight(g, x, y, number, anti_cells, non_con_cells);
            lemma_propagate_within(g, x, y, number, anti_cells, non_con_cells);
            lemma_solutions_are_within(next, anti_cells, non_con_cells, i);
            assert forall|at: (nat, nat)| on_board(at) implies (#[trigger] here[i][at]).subset_of(
                g[at],
            ) by {
                assert(next[at].subset_of(g[at]));
            }
        } else {
            lemma_branches_are_within(
                g,
                region,
                number,
                slot + 1,
                anti_cells,
                non_con_cells,
                i - here.len(),
            );
        }
    }
}

/// Every board that the search hands out from a committed digit holds that
/// digit at its cell, as far as it holds any there.
proof fn lemma_attempt_keeps_digit(
    g: Grid,
    x: usize,
    y: usize,
    number: usize,
    anti_cells: Seq<(isize, isize)>,
    non_con_cells: Seq<(isize, isize)>,
    i: int,
    d: nat,
)
    requires
        0 <= i < attempt_solutions(g, x, y, number, anti_cells, non_con_cells).len(),
        attempt_solutions(g, x, y, number, anti_cells, non_con_cells)[i][(
            x as nat,
            y as nat,
        )].contains(d),
    ensures
        d == number,
{
    let next = propagate(g, x, y, number, anti_cells, non_con_cells);
    lemma_propagate_sound(g, x, y, number, anti_cells, non_con_cells);
    lemma_solutions_are_within(next, anti_cells, non_con_cells, i);
    let found = all_solutions(next, anti_cells, non_con_cells)[i];
    assert(found[(x as nat, y as nat)].subset_of(next[(x as nat, y as nat)]));
}

/// No board is handed out twice: two boards that the search hands out from
/// a board that is settled as to its rows, columns and blocks differ in the
/// cell returned.
pub proof fn lemma_solutions_differ(
    g: Grid,
    anti_cells: Seq<(isize, isize)>,
    non_con_cells: Seq<(isize, isize)>,
    i: int,
    j: int,
) -> (cell: (nat, nat))
    requires
        is_settled(g, false, anti_cells, non_con_cells),
        0 <= i < j < all_solutions(g, anti_cells, non_con_cells).len(),
    ensures
        on_board(cell),
        all_solutions(g, anti_cells, non_con_cells)[i][cell] != all_solutions(
            g,
            anti_cells,
            non_con_cells,
        )[j][cell],
    decreases weight(g), 10nat,
{
    match choice(g) {
        None => (0, 0),
        Some((region, number)) => {
            let pair = choose|pair: (usize, usize)| leads(g, pair.0, pair.1, 243);
            assert(leads(g, region, number, 243));
            lemma_branches_differ(g, region, number, 0, anti_cells, non_con_cells, i, j)
        },
    }
}

/// The same of the boards handed out from position `slot` of a region on.
proof fn lemma_branches_differ(
    g: Grid,
    region: usize,
    number: usize,
    slot: nat,
    anti_cells: Seq<(isize, isize)>,
    non_con_cells: Seq<(isize, isize)>,
    i: int,
    j: int,
) -> (cell: (nat, nat))
    requires
        region < 27,
        is_settled(g, false, anti_cells, non_con_cells),
        0 <= i < j < branch_solutions(g, region, number, slot, anti_cells, non_con_cells).len(),
    ensures
        on_board(cell),
        branch_solutions(g, region, number, slot, anti_cells, non_con_cells)[i][cell]
            != branch_solutions(g, region, number, slot, anti_cells, non_con_cells)[j][cell],
    decreases weight(g), 9 - slot,
{
    let at = region_cell(region as nat, slot);
    let x = at.0 as usize;
    let y = at.1 as usize;
    let here = attempt_solutions(g, x, y, number, anti_cells, non_con_cells);
    let next = propagate(g, x, y, number, anti_cells, non_con_cells);
    lemma_region_slots(region as nat, slot, slot);
    lemma_regions_mutual(anti_cells, non_con_cells);
    if j < here.len() {
        lemma_branch_weight(g, x, y, number, anti_cells, non_con_cells);
        lemma_propagate_settled(g, x, y, number, false, anti_cells, non_con_cells);
        lemma_solutions_differ(next, anti_cells, non_con_cells, i, j)
    } else if i < here.len() {
        lemma_branch_weight(g, x, y, number, anti_cells, non_con_cells);
        lemma_propagate_settled(g, x, y, number, false, anti_cells, non_con_cells);
        lemma_solutions_are_solved(next, anti_cells, non_con_cells, i);
        let first = here[i];
        let second = lemma_later_branch_avoids(
            g,
            region,
            number,
            slot,
            slot + 1,
            anti_cells,
            non_con_cells,
            j - here.len(),
        );
        assert(digit_count(first[at]) == 1);
        lemma_sole_digit(first[at]);
        lemma_attempt_keeps_digit(
            g,
            x,
            y,
            number,
            anti_cells,
            non_con_cells,
            i,
            sole_digit(first[at]) as nat,
        );
        assert(first[at].contains(number as nat));
        at
    } else {
        lemma_branches_differ(
            g,
            region,
            number,
            slot + 1,
            anti_cells,
            non_con_cells,
            i - here.len(),
            j - here.len(),
        )
    }
}

/// A board handed out for a later cell of the region does not hold the
/// digit at an earlier one.
proof fn lemma_later_branch_avoids(
    g: Grid,
    region: usize,
    number: usize,
    earlier: nat,
    slot: nat,
    anti_cells: Seq<(isize, isize)>,
    non_con_cells: Seq<(isize, isize)>,
    j: int,
)
    requires
        region < 27,
        earlier < slot,
        is_settled(g, false, anti_cells, non_con_cells),
        0 <= j < branch_solutions(g, region, number, slot, anti_cells, non_con_cells).len(),
    ensures
        !branch_solutions(g, region, number, slot, anti_cells, non_con_cells)[j][region_cell(
            region as nat,
            earlier,
        )].contains(number as nat),
    decreases 9 - slot,
{
    let at = region_cell(region as nat, slot);
    let x = at.0 as usize;
    let y = at.1 as usize;
    let before = region_cell(region as nat, earlier);
    let here = attempt_solutions(g, x, y, number, anti_cells, non_con_cells);
    let next = propagate(g, x, y, number, anti_cells, non_con_cells);
    if j < here.len() {
        lemma_region_slots(region as nat, earlier, slot);
        lemma_region_slots(region as nat, slot, earlier);
        lemma_propagate_sound(g, x, y, number, anti_cells, non_con_cells);
        lemma_solutions_are_within(next, anti_cells, non_con_cells, j);
        assert(!next[before].contains(number as nat));
        assert(here[j][before].subset_of(next[before]));
    } else {
        lemma_later_branch_avoids(
            g,
            region,
            number,
            earlier,
            slot + 1,
            anti_cells,
            non_con_cells,
            j - here.len(),
        );
    }
}

/// The filling that a solved board shows.
pub open spec fn filling_of(g: Grid) -> Filling {
    Map::new(|cell: (nat, nat)| on_board(cell), |cell: (nat, nat)| sole_digit(g[cell]))
}

/// A solved board shows its filling.
pub proof fn lemma_solved_shows_filling(g: Grid)
    requires
        is_solved(g),
    ensures
        is_filling(filling_of(g)),
        shows(g, filling_of(g)),
{
    assert forall|cell: (nat, nat)| on_board(cell) implies (#[trigger] filling_of(g)[cell])
        < 9 by {
        lemma_sole_digit(g[cell]);
    }
    assert forall|cell: (nat, nat), d: nat| on_board(cell) && d < 9 implies (
    #[trigger] g[cell].contains(d) <==> d == filling_of(g)[cell]) by {
        lemma_sole_digit(g[cell]);
    }
}

/// The filling of a solved board that is settled as to its rows, columns
/// and blocks has each digit once in every row, column and block.
pub proof fn lemma_settled_keeps_regions(
    g: Grid,
    anti_cells: Seq<(isize, isize)>,
    non_con_cells: Seq<(isize, isize)>,
)
    requires
        is_solved(g),
        is_settled(g, false, anti_cells, non_con_cells),
    ensures
        is_filling(filling_of(g)),
        keeps_regions(filling_of(g)),
{
    let a = filling_of(g);
    lemma_solved_shows_filling(g);
    assert forall|cell: (nat, nat), other: (nat, nat)|
        on_board(cell) && on_board(other) && cell != other && shares_region(
            cell,
            other,
        ) implies #[trigger] a[cell] != #[trigger] a[other] by {
        lemma_sole_digit(g[cell]);
        lemma_sole_digit(g[other]);
        lemma_settled_use(
            g,
            false,
            anti_cells,
            non_con_cells,
            cell,
            other,
            a[cell] as nat,
            a[cell] as nat,
        );
    }
}

/// The filling of a solved board that is settled as to all the rules keeps
/// the rules.
pub proof fn lemma_settled_keeps_rules(
    g: Grid,
    anti_cells: Seq<(isize, isize)>,
    non_con_cells: Seq<(isize, isize)>,
)
    requires
        is_solved(g),
        is_settled(g, true, anti_cells, non_con_cells),
    ensures
        keeps_rules(filling_of(g), anti_cells, non_con_cells),
{
    let a = filling_of(g);
    lemma_solved_shows_filling(g);
    assert forall|cell: (nat, nat), other: (nat, nat)|
        on_board(cell) && on_board(other) && cell != other && shares_region(
            cell,
            other,
        ) implies #[trigger] a[cell] != #[trigger] a[other] by {
        lemma_sole_digit(g[cell]);
        lemma_sole_digit(g[other]);
        lemma_regions_in_rules(cell, a[cell] as nat, other, anti_cells, non_con_cells);
        lemma_settled_use(
            g,
            true,
            anti_cells,
            non_con_cells,
            cell,
            other,
            a[cell] as nat,
            a[cell] as nat,
        );
    }
    assert forall|cell: (nat, nat), i: int|
        on_board(cell) && 0 <= i < anti_cells.len() implies match #[trigger] neighbour(
        cell,
        anti_cells[i],
    ) {
        Some(other) => other != cell ==> a[other] != a[cell],
        None => true,
    } by {
        if let Some(other) = neighbour(cell, anti_cells[i]) {
            if other != cell {
                lemma_near_rules_out(g, cell, other, i, anti_cells, non_con_cells);
                lemma_sole_digit(g[other]);
            }
        }
    }
    assert forall|cell: (nat, nat), i: int|
        on_board(cell) && 0 <= i < non_con_cells.len() implies match #[trigger] neighbour(
        cell,
        non_con_cells[i],
    ) {
        Some(other) => other != cell ==> a[other] != a[cell] + 1 && a[other] + 1 != a[cell],
        None => true,
    } by {
        if let Some(other) = neighbour(cell, non_con_cells[i]) {
            if other != cell {
                lemma_sole_digit(g[cell]);
                lemma_sole_digit(g[other]);
                if a[cell] + 1 < 9 {
                    lemma_neighbor_rules_out(
                        g,
                        cell,
                        other,
                        i,
                        1isize,
                        anti_cells,
                        non_con_cells,
                    );
                }
                if a[cell] >= 1 {
                    lemma_neighbor_rules_out(
                        g,
                        cell,
                        other,
                        i,
                        -1isize,
                        anti_cells,
                        non_con_cells,
                    );
                }
            }
        }
    }
}

/// On a solved and settled board, a cell at an anti-cell offset from
/// another does not hold the digit of that one.
proof fn lemma_near_rules_out(
    g: Grid,
    cell: (nat, nat),
    other: (nat, nat),
    i: int,
    anti_cells: Seq<(isize, isize)>,
    non_con_cells: Seq<(isize, isize)>,
)
    requires
        is_solved(g),
        is_settled(g, true, anti_cells, non_con_cells),
        on_board(cell),
        0 <= i < anti_cells.len(),
        neighbour(cell, anti_cells[i]) == Some(other),
        other != cell,
    ensures
        !g[other].contains(sole_digit(g[cell]) as nat),
{
    let x = cell.0 as usize;
    let y = cell.1 as usize;
    let e = sole_digit(g[cell]);
    lemma_sole_digit(g[cell]);
    let targets = affected(x, y, e, anti_cells, non_con_cells);
    let near = near_targets(x, y, e, anti_cells);
    let k = lemma_near_member(x, y, e, anti_cells, i);
    assert(targets[27 + k] == near[k]);
    let listed = affected(
        cell.0 as usize,
        cell.1 as usize,
        (e as nat) as usize,
        anti_cells,
        non_con_cells,
    );
    assert(hits(listed[27 + k], other, e as nat));
    lemma_settled_use(g, true, anti_cells, non_con_cells, cell, other, e as nat, e as nat);
}

/// On a solved and settled board, a cell at a non-consecutive offset from
/// another does not hold a digit next to that of the other.
proof fn lemma_neighbor_rules_out(
    g: Grid,
    cell: (nat, nat),
    other: (nat, nat),
    i: int,
    delta: isize,
    anti_cells: Seq<(isize, isize)>,
    non_con_cells: Seq<(isize, isize)>,
)
    requires
        is_solved(g),
        is_settled(g, true, anti_cells, non_con_cells),
        on_board(cell),
        0 <= i < non_con_cells.len(),
        neighbour(cell, non_con_cells[i]) == Some(other),
        other != cell,
        delta == 1 || delta == -1,
        0 <= sole_digit(g[cell]) + delta < 9,
    ensures
        !g[other].contains((sole_digit(g[cell]) + delta) as nat),
{
    let x = cell.0 as usize;
    let y = cell.1 as usize;
    let e = sole_digit(g[cell]);
    lemma_sole_digit(g[cell]);
    let targets = affected(x, y, e, anti_cells, non_con_cells);
    let near = near_targets(x, y, e, anti_cells);
    let neighbors = neighbor_targets(x, y, e, non_con_cells);
    let k = lemma_neighbor_member(x, y, e, non_con_cells, i, delta);
    assert(targets[27 + near.len() + k] == neighbors[k]);
    let listed = affected(
        cell.0 as usize,
        cell.1 as usize,
        (e as nat) as usize,
        anti_cells,
        non_con_cells,
    );
    assert(hits(listed[27 + near.len() + k], other, (e + delta) as nat));
    lemma_settled_use(
        g,
        true,
        anti_cells,
        non_con_cells,
        cell,
        other,
        e as nat,
        (e + delta) as nat,
    );
}

} // verus!
