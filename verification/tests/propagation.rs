use sudoku_solver::board::SudokuState;
use sudoku_solver::cell::CellState;
use sudoku_solver::config::{Elimination, PuzzleConfig, Reason};
use sudoku_solver::trace::TraceEvent;

fn plain() -> PuzzleConfig {
    PuzzleConfig::new(vec![], vec![])
}

fn non_consecutive() -> PuzzleConfig {
    PuzzleConfig::new(vec![], vec![(0, 1), (1, 0), (0, -1), (-1, 0)])
}

fn anti_king() -> PuzzleConfig {
    PuzzleConfig::new(
        vec![(-1, 1), (0, 1), (1, 1), (1, 0), (1, -1), (0, -1), (-1, -1), (-1, 0)],
        vec![],
    )
}

fn anti_knight() -> PuzzleConfig {
    PuzzleConfig::new(
        vec![(-1, 2), (1, 2), (2, 1), (2, -1), (1, -2), (-1, -2), (-2, -1), (-2, 1)],
        vec![],
    )
}

fn commit(board: &mut SudokuState, x: usize, y: usize, number: usize, config: &PuzzleConfig) {
    let mut trace = Vec::new();
    board.set_certain(x, y, number, false, &mut trace, config);
    assert!(trace.is_empty());
}

fn same_block(a: (usize, usize), b: (usize, usize)) -> bool {
    a.0 / 3 == b.0 / 3 && a.1 / 3 == b.1 / 3
}

#[test]
fn default_board_is_open_everywhere() {
    let board = SudokuState::default();
    for x in 0..9 {
        for y in 0..9 {
            assert_eq!(board.cells[x][y], CellState::completely_uncertain());
        }
    }
    assert!(!board.is_impossible());
}

#[test]
fn commitment_clears_row_column_and_block() {
    let mut board = SudokuState::default();
    commit(&mut board, 4, 7, 2, &plain());
    assert!(!board.is_impossible());
    for x in 0..9 {
        for y in 0..9 {
            let cell = board.cells[x][y];
            if (x, y) == (4, 7) {
                assert_eq!(cell.get_certain(), Some(2));
            } else if x == 4 || y == 7 || same_block((x, y), (4, 7)) {
                assert!(!cell.could_contain(2));
                for other in [0, 1, 3, 4, 5, 6, 7, 8] {
                    assert!(cell.could_contain(other));
                }
            } else {
                assert_eq!(cell, CellState::completely_uncertain());
            }
        }
    }
}

#[test]
fn non_consecutive_rule_excludes_neighbouring_digits() {
    let mut board = SudokuState::default();
    commit(&mut board, 0, 0, 5, &non_consecutive());
    for (x, y) in [(0, 1), (1, 0)] {
        let cell = board.cells[x][y];
        assert!(!cell.could_contain(4));
        assert!(!cell.could_contain(6));
        assert!(!cell.could_contain(5));
        for other in [0, 1, 2, 3, 7, 8] {
            assert!(cell.could_contain(other));
        }
    }
    let diagonal = board.cells[1][1];
    assert!(diagonal.could_contain(4));
    assert!(diagonal.could_contain(6));
    assert!(!diagonal.could_contain(5));
    assert_eq!(board.cells[0][0].get_certain(), Some(5));
}

#[test]
fn non_consecutive_rule_at_the_ends_of_the_digits() {
    let mut low = SudokuState::default();
    commit(&mut low, 4, 4, 0, &non_consecutive());
    for (x, y) in [(4, 5), (5, 4), (4, 3), (3, 4)] {
        assert!(!low.cells[x][y].could_contain(1));
        assert!(low.cells[x][y].could_contain(8));
    }
    let mut high = SudokuState::default();
    commit(&mut high, 4, 4, 8, &non_consecutive());
    for (x, y) in [(4, 5), (5, 4), (4, 3), (3, 4)] {
        assert!(!high.cells[x][y].could_contain(7));
        assert!(high.cells[x][y].could_contain(0));
    }
}

#[test]
fn anti_king_rule_excludes_the_digit_around_the_cell() {
    let mut board = SudokuState::default();
    commit(&mut board, 2, 2, 6, &anti_king());
    assert!(!board.cells[3][3].could_contain(6));
    assert!(!board.cells[3][1].could_contain(6));
    assert!(!board.cells[1][3].could_contain(6));
    assert!(board.cells[4][4].could_contain(6));
    assert!(board.cells[3][4].could_contain(6));
}

#[test]
fn anti_knight_rule_excludes_the_digit_a_knight_move_away() {
    let mut board = SudokuState::default();
    commit(&mut board, 2, 2, 6, &anti_knight());
    for (x, y) in [(1, 4), (3, 4), (4, 3), (4, 1), (3, 0), (1, 0), (0, 1), (0, 3)] {
        assert!(!board.cells[x][y].could_contain(6));
    }
    assert!(board.cells[3][3].could_contain(6));
    assert!(board.cells[4][4].could_contain(6));
}

#[test]
fn duplicate_clues_in_a_row_make_the_board_impossible() {
    let mut board = SudokuState::default();
    commit(&mut board, 0, 0, 3, &plain());
    assert!(!board.is_impossible());
    commit(&mut board, 1, 0, 3, &plain());
    assert!(board.is_impossible());
    assert!(board.cells[0][0].is_impossible());
    assert_eq!(board.cells[1][0].get_certain(), Some(3));
}

#[test]
fn cascade_commits_the_last_cell_of_a_row() {
    let mut board = SudokuState::default();
    for x in 0..8 {
        commit(&mut board, x, 0, x, &plain());
    }
    assert_eq!(board.cells[8][0].get_certain(), Some(8));
    for y in 1..9 {
        assert!(!board.cells[8][y].could_contain(8));
    }
    assert!(!board.cells[7][1].could_contain(8));
    assert!(!board.cells[6][2].could_contain(8));
    assert!(board.cells[5][1].could_contain(8));
    assert!(!board.is_impossible());
}

#[test]
fn trace_of_a_cascade() {
    let mut board = SudokuState::default();
    for x in 0..7 {
        commit(&mut board, x, 0, x, &plain());
    }
    let mut silent = board;
    commit(&mut silent, 7, 0, 7, &plain());
    let mut trace = vec![TraceEvent::Settled];
    board.set_certain(7, 0, 7, true, &mut trace, &plain());
    assert_eq!(board, silent);
    let struck = |x: usize, y: usize, number: usize, reason: Reason| {
        TraceEvent::Eliminated(Elimination { x, y, number, reason })
    };
    // Taking 7 out of the last cell of the row leaves it with 8; committing
    // that takes 8 out of the cell that is being committed, which commits it
    // once more, now as a forced cell.
    let mut expected = vec![
        TraceEvent::Settled,
        TraceEvent::Commit { x: 7, y: 0, number: 7 },
        struck(8, 0, 7, Reason::SameRow),
        TraceEvent::Commit { x: 8, y: 0, number: 8 },
        struck(7, 0, 8, Reason::SameRow),
        TraceEvent::Commit { x: 7, y: 0, number: 7 },
    ];
    for y in 1..9 {
        expected.push(struck(7, y, 7, Reason::SameColumn));
    }
    for (x, y) in [(6, 1), (6, 2), (8, 1), (8, 2)] {
        expected.push(struck(x, y, 7, Reason::SameBlock));
    }
    expected.push(TraceEvent::Settled);
    for y in 1..9 {
        expected.push(struck(8, y, 8, Reason::SameColumn));
    }
    for (x, y) in [(6, 1), (6, 2), (7, 1), (7, 2)] {
        expected.push(struck(x, y, 8, Reason::SameBlock));
    }
    expected.push(TraceEvent::Settled);
    expected.push(TraceEvent::Settled);
    assert_eq!(trace, expected);
}

#[test]
fn committing_again_changes_nothing() {
    let mut board = SudokuState::default();
    commit(&mut board, 3, 3, 1, &anti_king());
    let once = board;
    let mut trace = Vec::new();
    board.set_certain(3, 3, 1, true, &mut trace, &anti_king());
    assert_eq!(board, once);
    assert_eq!(
        trace,
        vec![TraceEvent::Commit { x: 3, y: 3, number: 1 }, TraceEvent::Settled]
    );
}
