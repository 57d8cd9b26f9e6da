//! A puzzle as a caller states it: the clues, read from text or given as
//! triples, and the board that they seed.

use crate::board::SudokuState;
use crate::cell::{all_digits, digit_count};
use crate::complete::{lemma_propagate_allows, lemma_search_complete};
use crate::config::PuzzleConfig;
use crate::grid::{is_dead, is_solved, on_board, Grid};
use crate::laws::{
    filling_of, lemma_settled_keeps_regions, lemma_settled_keeps_rules,
    lemma_solutions_are_settled, lemma_solutions_are_solved, lemma_solutions_are_within,
    lemma_solutions_differ, lemma_solved_shows_filling,
};
use crate::propagate::{lemma_propagate_sound, lemma_sole_digit, propagate, sole_digit};
use crate::rules::{
    allows, is_filling, is_settled, keeps_regions, keeps_rules, lemma_regions_mutual,
    lemma_symmetric_mutual, mutual, shows, symmetric, Filling,
};
use crate::search::all_solutions;
use crate::settle::lemma_propagate_settled;
use crate::trace::TraceEvent;
use vstd::prelude::*;
use vstd::string::StrSliceExecFns;

verus! {

/// A clue: the column and the row of a cell, and its digit, counted from 0.
pub type Clue = (usize, usize, usize);

/// The digit that the character `c` gives as a clue, counted from 0: `1` to
/// `9` are clues, any other character leaves its cell empty.
pub open spec fn clue_digit(c: char) -> Option<usize> {
    if c == '1' {
        Some(0)
    } else if c == '2' {
        Some(1)
    } else if c == '3' {
        Some(2)
    } else if c == '4' {
        Some(3)
    } else if c == '5' {
        Some(4)
    } else if c == '6' {
        Some(5)
    } else if c == '7' {
        Some(6)
    } else if c == '8' {
        Some(7)
    } else if c == '9' {
        Some(8)
    } else {
        None
    }
}

/// The clues of a puzzle written row by row, one character for each cell.
pub open spec fn decoded(puzzle: Seq<char>) -> Seq<Clue>
    decreases puzzle.len(),
{
    if puzzle.len() == 0 {
        Seq::empty()
    } else {
        let before = decoded(puzzle.drop_last());
        let idx = puzzle.len() - 1;
        match clue_digit(puzzle.last()) {
            Some(number) => before.push(((idx % 9) as usize, (idx / 9) as usize, number)),
            None => before,
        }
    }
}

/// Whether every clue names a cell of the board and a digit.
pub open spec fn clues_on_board(clues: Seq<Clue>) -> bool {
    forall|i: int|
        0 <= i < clues.len() ==> (#[trigger] clues[i]).0 < 9 && clues[i].1 < 9 && clues[i].2 < 9
}

/// Whether no two clues name the same cell.
pub open spec fn clues_apart(clues: Seq<Clue>) -> bool {
    forall|i: int, j: int|
        0 <= i < j < clues.len() ==> !((#[trigger] clues[i]).0 == (#[trigger] clues[j]).0
            && clues[i].1 == clues[j].1)
}

/// Whether `a` has, in the cell of every clue, the digit of the clue.
pub open spec fn meets(a: Filling, clues: Seq<Clue>) -> bool {
    forall|i: int|
        0 <= i < clues.len() ==> a[((#[trigger] clues[i]).0 as nat, clues[i].1 as nat)]
            == clues[i].2
}

/// The board on which every digit is possible in every cell.
pub open spec fn open_grid() -> Grid {
    Map::new(|cell: (nat, nat)| on_board(cell), |cell: (nat, nat)| all_digits())
}

/// The board that results from committing `clues` on `g`, one after the
/// other.
pub open spec fn seeded(
    g: Grid,
    clues: Seq<Clue>,
    anti_cells: Seq<(isize, isize)>,
    non_con_cells: Seq<(isize, isize)>,
) -> Grid
    decreases clues.len(),
{
    if clues.len() == 0 {
        g
    } else {
        propagate(
            seeded(g, clues.drop_last(), anti_cells, non_con_cells),
            clues.last().0,
            clues.last().1,
            clues.last().2,
            anti_cells,
            non_con_cells,
        )
    }
}

/// The digit that a character gives as a clue, if it gives one.
pub fn clue_digit_of(c: char) -> (number: Option<usize>)
    ensures
        number == clue_digit(c),
{
    match c {
        '1' => Some(0),
        '2' => Some(1),
        '3' => Some(2),
        '4' => Some(3),
        '5' => Some(4),
        '6' => Some(5),
        '7' => Some(6),
        '8' => Some(7),
        '9' => Some(8),
        _ => None,
    }
}

/// Reads the clues of a puzzle written row by row, one character for each
/// cell.
pub fn decode_puzzle(puzzle: &str) -> (clues: Vec<Clue>)
    ensures
        clues@ == decoded(puzzle@),
{
    let mut clues: Vec<Clue> = Vec::new();
    let len = puzzle.unicode_len();
    let mut idx: usize = 0;
    assert(puzzle@.take(0) =~= Seq::<char>::empty());
    while idx < len
        invariant
            idx <= len,
            len == puzzle@.len(),
            clues@ == decoded(puzzle@.take(idx as int)),
        decreases len - idx,
    {
        let value = puzzle.get_char(idx);
        proof {
            let upto = puzzle@.take(idx + 1);
            assert(upto.drop_last() =~= puzzle@.take(idx as int));
            assert(upto.last() == value);
        }
        if let Some(number) = clue_digit_of(value) {
            clues.push((idx % 9, idx / 9, number));
        }
        idx += 1;
    }
    assert(puzzle@.take(idx as int) =~= puzzle@);
    clues
}

/// Whether every clue names a cell of the board and a digit.
pub fn clues_are_on_board(clues: &Vec<Clue>) -> (ok: bool)
    ensures
        ok == clues_on_board(clues@),
{
    let mut i: usize = 0;
    while i < clues.len()
        invariant
            i <= clues.len(),
            forall|k: int| 0 <= k < i ==> (#[trigger] clues@[k]).0 < 9 && clues@[k].1 < 9 && clues@[k].2 < 9,
        decreases clues.len() - i,
    {
        let (x, y, number) = clues[i];
        if !(x < 9 && y < 9 && number < 9) {
            return false;
        }
        i += 1;
    }
    true
}

impl SudokuState {
    /// Commits the clues on the board, one after the other.
    pub fn set_clues(&mut self, clues: &Vec<Clue>, config: &PuzzleConfig)
        requires
            clues_on_board(clues@),
        ensures
            final(self)@ == seeded(
                old(self)@,
                clues@,
                config.anti_cells@,
                config.non_con_cells@,
            ),
    {
        let mut unused: Vec<TraceEvent> = Vec::new();
        let mut i: usize = 0;
        assert(clues@.take(0) =~= Seq::<Clue>::empty());
        while i < clues.len()
            invariant
                i <= clues.len(),
                clues_on_board(clues@),
                self@ == seeded(
                    old(self)@,
                    clues@.take(i as int),
                    config.anti_cells@,
                    config.non_con_cells@,
                ),
            decreases clues.len() - i,
        {
            let (x, y, number) = clues[i];
            proof {
                let upto = clues@.take(i + 1);
                assert(upto.drop_last() =~= clues@.take(i as int));
                assert(upto.last() == clues@[i as int]);
            }
            self.set_certain(x, y, number, false, &mut unused, config);
            i += 1;
        }
        assert(clues@.take(i as int) =~= clues@);
    }
}

/// The place in the text of the cell that `clue` names.
pub open spec fn place(clue: Clue) -> int {
    clue.0 + 9 * clue.1
}

/// The clues read from a text come in the order of the text, each with a
/// digit, and so name different cells.
pub proof fn lemma_decoded_apart(puzzle: Seq<char>)
    requires
        puzzle.len() <= usize::MAX,
    ensures
        clues_apart(decoded(puzzle)),
        forall|i: int|
            0 <= i < decoded(puzzle).len() ==> (#[trigger] decoded(puzzle)[i]).2 < 9 && decoded(
                puzzle,
            )[i].0 < 9 && place(decoded(puzzle)[i]) < puzzle.len(),
        forall|i: int, j: int|
            0 <= i < j < decoded(puzzle).len() ==> place(#[trigger] decoded(puzzle)[i]) < place(
                #[trigger] decoded(puzzle)[j],
            ),
    decreases puzzle.len(),
{
    if puzzle.len() > 0 {
        let before = decoded(puzzle.drop_last());
        lemma_decoded_apart(puzzle.drop_last());
        let clues = decoded(puzzle);
        assert forall|i: int, j: int| 0 <= i < j < clues.len() implies place(
            #[trigger] clues[i],
        ) < place(#[trigger] clues[j]) by {
            if j < before.len() {
                assert(clues[i] == before[i] && clues[j] == before[j]);
            } else {
                assert(clues[i] == before[i]);
            }
        }
        assert forall|i: int, j: int| 0 <= i < j < clues.len() implies !((
        #[trigger] clues[i]).0 == (#[trigger] clues[j]).0 && clues[i].1 == clues[j].1) by {
            assert(place(clues[i]) < place(clues[j]));
        }
    }
}

/// The board on which everything is possible is settled.
pub proof fn lemma_open_grid_settled(
    full: bool,
    anti_cells: Seq<(isize, isize)>,
    non_con_cells: Seq<(isize, isize)>,
)
    ensures
        is_settled(open_grid(), full, anti_cells, non_con_cells),
{
    assert forall|cell: (nat, nat)| on_board(cell) implies digit_count(
        #[trigger] open_grid()[cell],
    ) == 9 by {}
}

/// Seeding keeps a board settled, where the rules are mutual.
pub proof fn lemma_seeded_settled(
    g: Grid,
    clues: Seq<Clue>,
    full: bool,
    anti_cells: Seq<(isize, isize)>,
    non_con_cells: Seq<(isize, isize)>,
)
    requires
        clues_on_board(clues),
        mutual(full, anti_cells, non_con_cells),
        is_settled(g, full, anti_cells, non_con_cells),
    ensures
        is_settled(seeded(g, clues, anti_cells, non_con_cells), full, anti_cells, non_con_cells),
    decreases clues.len(),
{
    if clues.len() > 0 {
        let before = clues.drop_last();
        assert forall|i: int| 0 <= i < before.len() implies before[i] == clues[i] by {}
        lemma_seeded_settled(g, before, full, anti_cells, non_con_cells);
        lemma_propagate_settled(
            seeded(g, before, anti_cells, non_con_cells),
            clues.last().0,
            clues.last().1,
            clues.last().2,
            full,
            anti_cells,
            non_con_cells,
        );
    }
}

/// Seeding rules out no solution: a filling that keeps the rules, that the
/// board allowed and that meets the clues is allowed by the seeded board.
pub proof fn lemma_seeded_allows(
    g: Grid,
    clues: Seq<Clue>,
    a: Filling,
    anti_cells: Seq<(isize, isize)>,
    non_con_cells: Seq<(isize, isize)>,
)
    requires
        clues_on_board(clues),
        keeps_rules(a, anti_cells, non_con_cells),
        allows(g, a),
        meets(a, clues),
    ensures
        allows(seeded(g, clues, anti_cells, non_con_cells), a),
    decreases clues.len(),
{
    if clues.len() > 0 {
        let before = clues.drop_last();
        assert forall|i: int| 0 <= i < before.len() implies before[i] == clues[i] by {}
        lemma_seeded_allows(g, before, a, anti_cells, non_con_cells);
        assert(clues.last() == clues[clues.len() - 1]);
        lemma_propagate_allows(
            seeded(g, before, anti_cells, non_con_cells),
            clues.last().0,
            clues.last().1,
            a,
            anti_cells,
            non_con_cells,
        );
    }
}

/// On the seeded board the cell of every clue holds no digit but that of
/// the clue, where the clues name different cells.
pub proof fn lemma_seeded_keeps_clues(
    g: Grid,
    clues: Seq<Clue>,
    anti_cells: Seq<(isize, isize)>,
    non_con_cells: Seq<(isize, isize)>,
    i: int,
    d: nat,
)
    requires
        clues_on_board(clues),
        clues_apart(clues),
        0 <= i < clues.len(),
        seeded(g, clues, anti_cells, non_con_cells)[(clues[i].0 as nat, clues[i].1 as nat)].contains(
            d,
        ),
    ensures
        d == clues[i].2,
    decreases clues.len(),
{
    let before = clues.drop_last();
    let last = clues[clues.len() - 1];
    let earlier = seeded(g, before, anti_cells, non_con_cells);
    let at = (clues[i].0 as nat, clues[i].1 as nat);
    assert(clues.last() == last);
    assert forall|k: int| 0 <= k < before.len() implies before[k] == clues[k] by {}
    lemma_propagate_sound(earlier, last.0, last.1, last.2, anti_cells, non_con_cells);
    if i < clues.len() - 1 {
        assert(at != (last.0 as nat, last.1 as nat));
        assert(seeded(g, clues, anti_cells, non_con_cells)[at].subset_of(earlier[at]));
        lemma_seeded_keeps_clues(g, before, anti_cells, non_con_cells, i, d);
    }
}

/// Every board that the search hands out for a puzzle is consistent, where
/// the seeded board is not dead: it is solved, it has each digit once in
/// every row, column and block, and it meets the clues.
pub proof fn lemma_puzzle_consistent(
    clues: Seq<Clue>,
    anti_cells: Seq<(isize, isize)>,
    non_con_cells: Seq<(isize, isize)>,
    i: int,
)
    requires
        clues_on_board(clues),
        clues_apart(clues),
        !is_dead(seeded(open_grid(), clues, anti_cells, non_con_cells)),
        0 <= i < all_solutions(
            seeded(open_grid(), clues, anti_cells, non_con_cells),
            anti_cells,
            non_con_cells,
        ).len(),
    ensures
        ({
            let found = all_solutions(
                seeded(open_grid(), clues, anti_cells, non_con_cells),
                anti_cells,
                non_con_cells,
            )[i];
            &&& is_solved(found)
            &&& shows(found, filling_of(found))
            &&& is_filling(filling_of(found))
            &&& keeps_regions(filling_of(found))
            &&& meets(filling_of(found), clues)
        }),
{
    let start = seeded(open_grid(), clues, anti_cells, non_con_cells);
    let found = all_solutions(start, anti_cells, non_con_cells)[i];
    lemma_regions_mutual(anti_cells, non_con_cells);
    lemma_open_grid_settled(false, anti_cells, non_con_cells);
    lemma_seeded_settled(open_grid(), clues, false, anti_cells, non_con_cells);
    lemma_solutions_are_solved(start, anti_cells, non_con_cells, i);
    lemma_solutions_are_settled(start, false, anti_cells, non_con_cells, i);
    lemma_solutions_are_within(start, anti_cells, non_con_cells, i);
    lemma_solved_shows_filling(found);
    lemma_settled_keeps_regions(found, anti_cells, non_con_cells);
    assert forall|k: int| 0 <= k < clues.len() implies filling_of(found)[(
        (#[trigger] clues[k]).0 as nat,
        clues[k].1 as nat,
    )] == clues[k].2 by {
        let at = (clues[k].0 as nat, clues[k].1 as nat);
        lemma_sole_digit(found[at]);
        assert(found[at].subset_of(start[at]));
        lemma_seeded_keeps_clues(
            open_grid(),
            clues,
            anti_cells,
            non_con_cells,
            k,
            sole_digit(found[at]) as nat,
        );
    }
}

/// The search finds only solutions of the puzzle, where the offsets of the
/// rules are symmetric and the seeded board is not dead: the filling of
/// every board that it hands out keeps all the rules.
pub proof fn lemma_puzzle_sound(
    clues: Seq<Clue>,
    anti_cells: Seq<(isize, isize)>,
    non_con_cells: Seq<(isize, isize)>,
    i: int,
)
    requires
        clues_on_board(clues),
        symmetric(anti_cells),
        symmetric(non_con_cells),
        !is_dead(seeded(open_grid(), clues, anti_cells, non_con_cells)),
        0 <= i < all_solutions(
            seeded(open_grid(), clues, anti_cells, non_con_cells),
            anti_cells,
            non_con_cells,
        ).len(),
    ensures
        keeps_rules(
            filling_of(
                all_solutions(
                    seeded(open_grid(), clues, anti_cells, non_con_cells),
                    anti_cells,
                    non_con_cells,
                )[i],
            ),
            anti_cells,
            non_con_cells,
        ),
{
    let start = seeded(open_grid(), clues, anti_cells, non_con_cells);
    let found = all_solutions(start, anti_cells, non_con_cells)[i];
    lemma_symmetric_mutual(anti_cells, non_con_cells);
    lemma_open_grid_settled(true, anti_cells, non_con_cells);
    lemma_seeded_settled(open_grid(), clues, true, anti_cells, non_con_cells);
    lemma_solutions_are_solved(start, anti_cells, non_con_cells, i);
    lemma_solutions_are_settled(start, true, anti_cells, non_con_cells, i);
    lemma_settled_keeps_rules(found, anti_cells, non_con_cells);
}

/// The search hands out no solution of a puzzle twice: two boards that it
/// hands out differ in the cell returned.
pub proof fn lemma_puzzle_distinct(
    clues: Seq<Clue>,
    anti_cells: Seq<(isize, isize)>,
    non_con_cells: Seq<(isize, isize)>,
    i: int,
    j: int,
) -> (cell: (nat, nat))
    requires
        clues_on_board(clues),
        0 <= i < j < all_solutions(
            seeded(open_grid(), clues, anti_cells, non_con_cells),
            anti_cells,
            non_con_cells,
        ).len(),
    ensures
        on_board(cell),
        all_solutions(
            seeded(open_grid(), clues, anti_cells, non_con_cells),
            anti_cells,
            non_con_cells,
        )[i][cell] != all_solutions(
            seeded(open_grid(), clues, anti_cells, non_con_cells),
            anti_cells,
            non_con_cells,
        )[j][cell],
{
    let start = seeded(open_grid(), clues, anti_cells, non_con_cells);
    lemma_regions_mutual(anti_cells, non_con_cells);
    lemma_open_grid_settled(false, anti_cells, non_con_cells);
    lemma_seeded_settled(open_grid(), clues, false, anti_cells, non_con_cells);
    lemma_solutions_differ(start, anti_cells, non_con_cells, i, j)
}

/// The search finds every solution of the puzzle: each filling that keeps
/// the rules and meets the clues is shown by the board that the search
/// hands out at the position returned.
pub proof fn lemma_puzzle_complete(
    clues: Seq<Clue>,
    a: Filling,
    anti_cells: Seq<(isize, isize)>,
    non_con_cells: Seq<(isize, isize)>,
) -> (i: int)
    requires
        clues_on_board(clues),
        keeps_rules(a, anti_cells, non_con_cells),
        meets(a, clues),
    ensures
        0 <= i < all_solutions(
            seeded(open_grid(), clues, anti_cells, non_con_cells),
            anti_cells,
            non_con_cells,
        ).len(),
        shows(
            all_solutions(
                seeded(open_grid(), clues, anti_cells, non_con_cells),
                anti_cells,
                non_con_cells,
            )[i],
            a,
        ),
{
    let start = seeded(open_grid(), clues, anti_cells, non_con_cells);
    lemma_regions_mutual(anti_cells, non_con_cells);
    lemma_open_grid_settled(false, anti_cells, non_con_cells);
    lemma_seeded_settled(open_grid(), clues, false, anti_cells, non_con_cells);
    assert(allows(open_grid(), a));
    lemma_seeded_allows(open_grid(), clues, a, anti_cells, non_con_cells);
    lemma_search_complete(start, a, anti_cells, non_con_cells)
}

} // verus!
