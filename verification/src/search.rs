//! The exhaustive search: branch on the digit and region with the fewest
//! open cells, and collect every board on which nothing is left open.

use crate::board::SudokuState;
use crate::cell::{digit_count, lemma_member_counts};
use crate::config::PuzzleConfig;
use crate::grid::{is_dead, on_board, weight, Grid};
use crate::propagate::{lemma_propagate_weight, propagate, propagate_log};
use crate::trace::{added_on_board, lemma_notes_push, notes, Note, TraceEvent};
use crate::region::{lemma_region_on_board, region_cell, unique_region, UniqueRegion, REGION_COUNT};
use vstd::prelude::*;

verus! {

/// Whether `cell` is open for `number`: a cell of the board that could hold
/// the digit and is not certain yet.
pub open spec fn is_candidate(g: Grid, cell: (nat, nat), number: usize) -> bool {
    &&& on_board(cell)
    &&& number < 9
    &&& g[cell].contains(number as nat)
    &&& digit_count(g[cell]) != 1
}

/// The cells among the first `slots` of `region` that are open for
/// `number`, in the order of the region.
pub open spec fn open_cells_below(g: Grid, region: usize, number: usize, slots: nat) -> Seq<
    (usize, usize),
>
    decreases slots,
{
    if slots == 0 {
        Seq::empty()
    } else {
        let before = open_cells_below(g, region, number, (slots - 1) as nat);
        let cell = region_cell(region as nat, (slots - 1) as nat);
        if is_candidate(g, cell, number) {
            before.push((cell.0 as usize, cell.1 as usize))
        } else {
            before
        }
    }
}

/// The cells of `region` that are open for `number`, in the order of the
/// region.
pub open spec fn open_cells(g: Grid, region: usize, number: usize) -> Seq<(usize, usize)> {
    open_cells_below(g, region, number, 9)
}

/// How many cells of `region` are open for `number`.
pub open spec fn tally(g: Grid, region: usize, number: usize) -> nat {
    open_cells(g, region, number).len()
}

/// The place of the pair (`region`, `number`) in the order in which the
/// search considers the pairs: by region, then by digit.
pub open spec fn rank(region: usize, number: usize) -> int {
    region * 9 + number
}

/// Whether (`region`, `number`) is the pair to branch on among the pairs of
/// rank below `upto`: it has open cells, no such pair with open cells has
/// fewer, and none before it has as few.
pub open spec fn leads(g: Grid, region: usize, number: usize, upto: int) -> bool {
    &&& region < 27
    &&& number < 9
    &&& rank(region, number) < upto
    &&& tally(g, region, number) > 0
    &&& forall|r: usize, n: usize|
        n < 9 && rank(r, n) < upto && #[trigger] tally(g, r, n) > 0 ==> tally(g, region, number)
            <= tally(g, r, n) && (rank(r, n) < rank(region, number) ==> tally(g, region, number)
            < tally(g, r, n))
}

/// Whether no pair of rank below `upto` has an open cell.
pub open spec fn none_open(g: Grid, upto: int) -> bool {
    forall|r: usize, n: usize| n < 9 && rank(r, n) < upto ==> #[trigger] tally(g, r, n) == 0
}

/// The pair of region and digit that the search branches on, if any cell is
/// open: among those with the fewest open cells, the first.
pub open spec fn choice(g: Grid) -> Option<(usize, usize)> {
    if exists|pair: (usize, usize)| leads(g, pair.0, pair.1, 243) {
        Some(choose|pair: (usize, usize)| leads(g, pair.0, pair.1, 243))
    } else {
        None
    }
}

/// Every board that the search reaches from `g` with nothing left open, in
/// the order in which it reaches them.
pub open spec fn all_solutions(
    g: Grid,
    anti_cells: Seq<(isize, isize)>,
    non_con_cells: Seq<(isize, isize)>,
) -> Seq<Grid>
    decreases weight(g), 10nat,
{
    match choice(g) {
        None => seq![g],
        Some((region, number)) => branch_solutions(
            g,
            region,
            number,
            0,
            anti_cells,
            non_con_cells,
        ),
    }
}

/// The boards that the search reaches from `g` by committing `number` in
/// turn at each open cell of `region` from position `slot` on.
pub open spec fn branch_solutions(
    g: Grid,
    region: usize,
    number: usize,
    slot: nat,
    anti_cells: Seq<(isize, isize)>,
    non_con_cells: Seq<(isize, isize)>,
) -> Seq<Grid>
    decreases weight(g), 9 - slot,
{
    if slot >= 9 {
        Seq::empty()
    } else {
        let cell = region_cell(region as nat, slot);
        attempt_solutions(g, cell.0 as usize, cell.1 as usize, number, anti_cells, non_con_cells)
            + branch_solutions(g, region, number, slot + 1, anti_cells, non_con_cells)
    }
}

/// The boards that the search reaches from `g` by committing `number` at
/// (`x`, `y`): none where the cell is not open for the digit, and none where
/// the commitment leaves a cell without candidates.
pub open spec fn attempt_solutions(
    g: Grid,
    x: usize,
    y: usize,
    number: usize,
    anti_cells: Seq<(isize, isize)>,
    non_con_cells: Seq<(isize, isize)>,
) -> Seq<Grid>
    decreases weight(g), 0nat,
    via attempt_solutions_decreases
{
    let next = propagate(g, x, y, number, anti_cells, non_con_cells);
    if !is_candidate(g, (x as nat, y as nat), number) || is_dead(next) {
        Seq::empty()
    } else {
        all_solutions(next, anti_cells, non_con_cells)
    }
}

#[via_fn]
proof fn attempt_solutions_decreases(
    g: Grid,
    x: usize,
    y: usize,
    number: usize,
    anti_cells: Seq<(isize, isize)>,
    non_con_cells: Seq<(isize, isize)>,
) {
    if is_candidate(g, (x as nat, y as nat), number) {
        lemma_branch_weight(g, x, y, number, anti_cells, non_con_cells);
    }
}

/// Committing a digit at a cell that is open for it lowers the weight.
pub proof fn lemma_branch_weight(
    g: Grid,
    x: usize,
    y: usize,
    number: usize,
    anti_cells: Seq<(isize, isize)>,
    non_con_cells: Seq<(isize, isize)>,
)
    requires
        is_candidate(g, (x as nat, y as nat), number),
    ensures
        weight(propagate(g, x, y, number, anti_cells, non_con_cells)) < weight(g),
{
    lemma_member_counts(g[(x as nat, y as nat)], number as nat);
    lemma_propagate_weight(g, x, y, number, anti_cells, non_con_cells);
}

/// What the search says before it branches on (`region`, `number`): which
/// cell is the only open one, or that there are several.
pub open spec fn headline(g: Grid, region: usize, number: usize) -> Note {
    let cells = open_cells(g, region, number);
    if cells.len() == 1 {
        Note::OnlyCell { x: cells[0].0, y: cells[0].1, number, region }
    } else {
        Note::SeveralCells { number, region }
    }
}

/// What the search from `g` does, step by step: before each branching the
/// board and the headline, then for each open cell the guess, where there
/// are several, the propagation and what the search does from there.
pub open spec fn search_log(
    g: Grid,
    anti_cells: Seq<(isize, isize)>,
    non_con_cells: Seq<(isize, isize)>,
) -> Seq<Note>
    decreases weight(g), 10nat,
{
    match choice(g) {
        None => Seq::empty(),
        Some((region, number)) => seq![Note::Board(g), headline(g, region, number)] + branch_log(
            g,
            region,
            number,
            0,
            anti_cells,
            non_con_cells,
        ),
    }
}

/// What the search does from position `slot` of `region` on.
pub open spec fn branch_log(
    g: Grid,
    region: usize,
    number: usize,
    slot: nat,
    anti_cells: Seq<(isize, isize)>,
    non_con_cells: Seq<(isize, isize)>,
) -> Seq<Note>
    decreases weight(g), 9 - slot,
{
    if slot >= 9 {
        Seq::empty()
    } else {
        let cell = region_cell(region as nat, slot);
        let x = cell.0 as usize;
        let y = cell.1 as usize;
        let guess = if is_candidate(g, cell, number) && tally(g, region, number) > 1 {
            seq![Note::Assuming { x, y, number, region }]
        } else {
            Seq::empty()
        };
        guess + attempt_log(g, x, y, number, anti_cells, non_con_cells) + branch_log(
            g,
            region,
            number,
            slot + 1,
            anti_cells,
            non_con_cells,
        )
    }
}

/// What the search does to commit `number` at (`x`, `y`) and to go on from
/// there: nothing where the cell is not open for the digit.
pub open spec fn attempt_log(
    g: Grid,
    x: usize,
    y: usize,
    number: usize,
    anti_cells: Seq<(isize, isize)>,
    non_con_cells: Seq<(isize, isize)>,
) -> Seq<Note>
    decreases weight(g), 0nat,
    via attempt_log_decreases
{
    let next = propagate(g, x, y, number, anti_cells, non_con_cells);
    if !is_candidate(g, (x as nat, y as nat), number) {
        Seq::empty()
    } else if is_dead(next) {
        propagate_log(g, x, y, number, anti_cells, non_con_cells)
    } else {
        propagate_log(g, x, y, number, anti_cells, non_con_cells) + search_log(
            next,
            anti_cells,
            non_con_cells,
        )
    }
}

#[via_fn]
proof fn attempt_log_decreases(
    g: Grid,
    x: usize,
    y: usize,
    number: usize,
    anti_cells: Seq<(isize, isize)>,
    non_con_cells: Seq<(isize, isize)>,
) {
    if is_candidate(g, (x as nat, y as nat), number) {
        lemma_branch_weight(g, x, y, number, anti_cells, non_con_cells);
    }
}

/// At most one pair leads among all pairs.
pub proof fn lemma_leader_unique(g: Grid, region: usize, number: usize, r: usize, n: usize)
    requires
        leads(g, region, number, 243),
        leads(g, r, n, 243),
    ensures
        region == r,
        number == n,
{
    assert(tally(g, r, n) > 0);
    assert(tally(g, region, number) > 0);
}

/// The pair that leads among all pairs is the choice of the search.
pub proof fn lemma_choice_is_leader(g: Grid, region: usize, number: usize)
    requires
        leads(g, region, number, 243),
    ensures
        choice(g) == Some((region, number)),
{
    let witness = (region, number);
    assert(leads(g, witness.0, witness.1, 243));
    let pair = choose|pair: (usize, usize)| leads(g, pair.0, pair.1, 243);
    lemma_leader_unique(g, region, number, pair.0, pair.1);
}

/// Where no cell is open, the search has no choice to make.
pub proof fn lemma_no_choice(g: Grid)
    requires
        none_open(g, 243),
    ensures
        choice(g) is None,
{
    assert forall|pair: (usize, usize)| !leads(g, pair.0, pair.1, 243) by {
        if leads(g, pair.0, pair.1, 243) {
            assert(tally(g, pair.0, pair.1) == 0);
        }
    }
}

/// The boards of `boards` as grids.
pub open spec fn grids(boards: Seq<SudokuState>) -> Seq<Grid> {
    Seq::new(boards.len(), |i: int| boards[i]@)
}

/// Whether the cell (`x`, `y`) of `field` is open for `number`.
pub fn is_applicable(field: &SudokuState, x: usize, y: usize, number: usize) -> (open: bool)
    requires
        x < 9,
        y < 9,
    ensures
        open == is_candidate(field@, (x as nat, y as nat), number),
{
    let possible = field.cells[x][y].could_contain(number);
    let certain = field.cells[x][y].is_certain();
    proof {
        if possible && number >= 9 {
            crate::cell::lemma_possibility_count_bound(field.cells[x as int][y as int]);
        }
    }
    possible && !certain
}

/// The item of `items`, if it is the only one.
pub fn into_single<T: Copy>(items: &Vec<T>) -> (single: Option<T>)
    ensures
        single == if items@.len() == 1 {
            Some(items@[0])
        } else {
            None
        },
{
    if items.len() == 1 {
        Some(items[0])
    } else {
        None
    }
}

/// The cells of `region` that are open for `number`, in the order of the
/// region.
fn applicable_cells(
    field: &SudokuState,
    region: &UniqueRegion,
    Ghost(index): Ghost<usize>,
    number: usize,
) -> (cells: Vec<(usize, usize)>)
    requires
        index < 27,
        region.is_region(index as nat),
    ensures
        cells@ == open_cells(field@, index, number),
        cells@.len() <= 9,
        forall|i: int| 0 <= i < cells@.len() ==> (#[trigger] cells@[i]).0 < 9 && cells@[i].1 < 9,
{
    let mut cells: Vec<(usize, usize)> = Vec::new();
    let mut slot: usize = 0;
    while slot < 9
        invariant
            slot <= 9,
            index < 27,
            region.is_region(index as nat),
            cells@ == open_cells_below(field@, index, number, slot as nat),
            cells@.len() <= slot,
            forall|i: int| 0 <= i < cells@.len() ==> (#[trigger] cells@[i]).0 < 9 && cells@[i].1 < 9,
        decreases 9 - slot,
    {
        let (x, y) = region.cells[slot];
        proof {
            lemma_region_on_board(index as nat, slot as nat);
            assert(region_cell(index as nat, slot as nat) == (x as nat, y as nat));
        }
        if is_applicable(field, x, y, number) {
            cells.push((x, y));
        }
        slot += 1;
    }
    cells
}

/// Finds the unique region (column, row or 3x3 block) with the fewest number
/// of possible cells for a given number: returns that count, the index of
/// the region and the number, or `None` where no cell is open at all.
pub fn find_low_hanging_region(field: &SudokuState) -> (found: Option<(usize, usize, usize)>)
    ensures
        match found {
            Some((count, region, number)) => leads(field@, region, number, 243) && count == tally(
                field@,
                region,
                number,
            ),
            None => none_open(field@, 243),
        },
{
    let mut low_hanging_region: Option<(usize, usize, usize)> = None;
    let mut index: usize = 0;
    while index < REGION_COUNT
        invariant
            index <= 27,
            match low_hanging_region {
                Some((count, region, number)) => leads(field@, region, number, index * 9) && count
                    == tally(field@, region, number),
                None => none_open(field@, index * 9),
            },
        decreases 27 - index,
    {
        let region = unique_region(index);
        let mut number: usize = 0;
        while number < 9
            invariant
                index < 27,
                number <= 9,
                region.is_region(index as nat),
                match low_hanging_region {
                    Some((count, region, found)) => leads(
                        field@,
                        region,
                        found,
                        index * 9 + number,
                    ) && count == tally(field@, region, found),
                    None => none_open(field@, index * 9 + number),
                },
            decreases 9 - number,
        {
            // Number of cells in this region that could contain `number`
            let num_applicable_cells = applicable_cells(
                field,
                &region,
                Ghost(index),
                number,
            ).len();
            let ghost upto = index * 9 + number;
            proof {
                assert forall|r: usize, n: usize| n < 9 && rank(r, n) < upto + 1 implies rank(r, n)
                    < upto || (r == index && n == number) by {}
            }
            if num_applicable_cells != 0 {
                let better = match low_hanging_region {
                    Some((count, _, _)) => num_applicable_cells < count,
                    None => true,
                };
                if better {
                    low_hanging_region = Some((num_applicable_cells, index, number));
                }
            }
            number += 1;
        }
        index += 1;
    }
    low_hanging_region
}

/// Commits `number` at the cell (`cell_x`, `cell_y`) on a copy of `field`
/// and, unless that is a dead end, searches on from there.
fn try_with_cell_set_to(
    field: &SudokuState,
    cell_x: usize,
    cell_y: usize,
    number: usize,
    solutions: &mut Vec<SudokuState>,
    explain: bool,
    trace: &mut Vec<TraceEvent>,
    config: &PuzzleConfig,
)
    requires
        is_candidate(field@, (cell_x as nat, cell_y as nat), number),
    ensures
        grids(final(solutions)@) == grids(old(solutions)@) + attempt_solutions(
            field@,
            cell_x,
            cell_y,
            number,
            config.anti_cells@,
            config.non_con_cells@,
        ),
        final(solutions)@.len() >= old(solutions)@.len(),
        forall|i: int| 0 <= i < old(solutions)@.len() ==> final(solutions)@[i] == old(solutions)@[i],
        !explain ==> final(trace)@ == old(trace)@,
        explain ==> notes(final(trace)@) == notes(old(trace)@) + attempt_log(
            field@,
            cell_x,
            cell_y,
            number,
            config.anti_cells@,
            config.non_con_cells@,
        ),
        final(trace)@.len() >= old(trace)@.len(),
        forall|i: int| 0 <= i < old(trace)@.len() ==> final(trace)@[i] == old(trace)@[i],
        added_on_board(old(trace)@, final(trace)@),
    decreases weight(field@), 0nat,
{
    let ghost anti = config.anti_cells@;
    let ghost non_con = config.non_con_cells@;
    let mut next = *field;
    next.set_certain(cell_x, cell_y, number, explain, trace, config);
    if next.is_impossible() {
        // Setting this field causes a cell to have no valid possible value
        // anymore, so this permutation is a dead end
        assert(grids(solutions@) + Seq::<Grid>::empty() =~= grids(solutions@));
        return ;
    }
    proof {
        lemma_branch_weight(field@, cell_x, cell_y, number, anti, non_con);
    }
    let ghost steps = notes(trace@);
    try_out_field_state(next, solutions, explain, trace, config);
    proof {
        if explain {
            let told = notes(old(trace)@);
            let first = propagate_log(field@, cell_x, cell_y, number, anti, non_con);
            let deeper = search_log(next@, anti, non_con);
            assert((told + first) + deeper =~= told + (first + deeper));
        }
    }
}

/// Explores every way of completing `field` and appends to `solutions`, in
/// the order of the search, each board on which no cell is left open. With
/// `explain`, each step is appended to `trace`.
pub fn try_out_field_state(
    field: SudokuState,
    solutions: &mut Vec<SudokuState>,
    explain: bool,
    trace: &mut Vec<TraceEvent>,
    config: &PuzzleConfig,
)
    ensures
        grids(final(solutions)@) == grids(old(solutions)@) + all_solutions(
            field@,
            config.anti_cells@,
            config.non_con_cells@,
        ),
        final(solutions)@.len() >= old(solutions)@.len(),
        forall|i: int| 0 <= i < old(solutions)@.len() ==> final(solutions)@[i] == old(solutions)@[i],
        !explain ==> final(trace)@ == old(trace)@,
        explain ==> notes(final(trace)@) == notes(old(trace)@) + search_log(
            field@,
            config.anti_cells@,
            config.non_con_cells@,
        ),
        final(trace)@.len() >= old(trace)@.len(),
        forall|i: int| 0 <= i < old(trace)@.len() ==> final(trace)@[i] == old(trace)@[i],
        added_on_board(old(trace)@, final(trace)@),
    decreases weight(field@), 10nat,
{
    let ghost anti = config.anti_cells@;
    let ghost non_con = config.non_con_cells@;
    match find_low_hanging_region(&field) {
        Some((num_applicable_cells, index, number)) => {
            proof {
                lemma_choice_is_leader(field@, index, number);
            }
            let region = unique_region(index);
            let ghost shown = seq![Note::Board(field@), headline(field@, index, number)];
            let ghost goal = notes(old(trace)@) + search_log(field@, anti, non_con);
            if explain {
                proof {
                    lemma_notes_push(trace@, TraceEvent::Board(field));
                }
                trace.push(TraceEvent::Board(field));
                let cells = applicable_cells(&field, &region, Ghost(index), number);
                let told = match into_single(&cells) {
                    Some((cell_x, cell_y)) => TraceEvent::OnlyCell {
                        x: cell_x,
                        y: cell_y,
                        number,
                        region: index,
                    },
                    None => TraceEvent::SeveralCells { number, region: index },
                };
                proof {
                    lemma_notes_push(trace@, told);
                    assert(notes(trace@).push(told@) =~= notes(old(trace)@) + shown);
                }
                trace.push(told);
            }
            let mut slot: usize = 0;
            proof {
                assert(grids(solutions@) =~= grids(old(solutions)@) + Seq::<Grid>::empty());
                if explain {
                    assert(notes(trace@) + branch_log(field@, index, number, 0, anti, non_con)
                        =~= goal);
                }
            }
            while slot < 9
                invariant
                    slot <= 9,
                    index < 27,
                    number < 9,
                    region.is_region(index as nat),
                    num_applicable_cells == tally(field@, index, number),
                    anti == config.anti_cells@,
                    non_con == config.non_con_cells@,
                    solutions@.len() >= old(solutions)@.len(),
                    forall|i: int|
                        0 <= i < old(solutions)@.len() ==> solutions@[i] == old(solutions)@[i],
                    grids(solutions@) + branch_solutions(
                        field@,
                        index,
                        number,
                        slot as nat,
                        anti,
                        non_con,
                    ) == grids(old(solutions)@) + branch_solutions(
                        field@,
                        index,
                        number,
                        0,
                        anti,
                        non_con,
                    ),
                    !explain ==> trace@ == old(trace)@,
                    explain ==> notes(trace@) + branch_log(
                        field@,
                        index,
                        number,
                        slot as nat,
                        anti,
                        non_con,
                    ) == goal,
                    trace@.len() >= old(trace)@.len(),
                    forall|i: int| 0 <= i < old(trace)@.len() ==> trace@[i] == old(trace)@[i],
                    added_on_board(old(trace)@, trace@),
                decreases 9 - slot,
            {
                let (cell_x, cell_y) = region.cells[slot];
                let ghost so_far = grids(solutions@);
                let ghost told = notes(trace@);
                let ghost rest = branch_solutions(
                    field@,
                    index,
                    number,
                    (slot + 1) as nat,
                    anti,
                    non_con,
                );
                let ghost rest_log = branch_log(
                    field@,
                    index,
                    number,
                    (slot + 1) as nat,
                    anti,
                    non_con,
                );
                let ghost found = attempt_solutions(field@, cell_x, cell_y, number, anti, non_con);
                let ghost steps = attempt_log(field@, cell_x, cell_y, number, anti, non_con);
                proof {
                    lemma_region_on_board(index as nat, slot as nat);
                    assert(region_cell(index as nat, slot as nat) == (cell_x as nat, cell_y as nat));
                }
                if is_applicable(&field, cell_x, cell_y, number) {
                    let ghost guess = if num_applicable_cells > 1 {
                        seq![Note::Assuming { x: cell_x, y: cell_y, number, region: index }]
                    } else {
                        Seq::<Note>::empty()
                    };
                    if explain && num_applicable_cells > 1 {
                        let assuming = TraceEvent::Assuming {
                            x: cell_x,
                            y: cell_y,
                            number,
                            region: index,
                        };
                        proof {
                            lemma_notes_push(trace@, assuming);
                        }
                        trace.push(assuming);
                    }
                    assert(explain ==> notes(trace@) =~= told + guess);
                    try_with_cell_set_to(
                        &field,
                        cell_x,
                        cell_y,
                        number,
                        solutions,
                        explain,
                        trace,
                        config,
                    );
                    proof {
                        assert(grids(solutions@) + rest =~= so_far + (found + rest));
                        if explain {
                            assert(notes(trace@) + rest_log =~= told + (guess + steps + rest_log));
                        }
                    }
                } else {
                    proof {
                        assert(found =~= Seq::<Grid>::empty());
                        assert(grids(solutions@) + rest =~= so_far + (found + rest));
                        if explain {
                            assert(steps =~= Seq::<Note>::empty());
                            assert(notes(trace@) + rest_log =~= told + (Seq::<Note>::empty() + steps
                                + rest_log));
                        }
                    }
                }
                slot += 1;
            }
            proof {
                assert(branch_solutions(field@, index, number, 9, anti, non_con)
                    =~= Seq::<Grid>::empty());
                assert(grids(solutions@) + Seq::<Grid>::empty() =~= grids(solutions@));
                if explain {
                    assert(branch_log(field@, index, number, 9, anti, non_con)
                        =~= Seq::<Note>::empty());
                    assert(notes(trace@) + Seq::<Note>::empty() =~= notes(trace@));
                }
            }
        },
        None => {
            // If no region+number with applicable cells were found, the
            // cells are all decided.
            proof {
                lemma_no_choice(field@);
                assert(notes(trace@) + Seq::<Note>::empty() =~= notes(trace@));
            }
            solutions.push(field);
            assert(grids(solutions@) =~= grids(old(solutions)@) + seq![field@]);
        },
    }
}

} // verus!
