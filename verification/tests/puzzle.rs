use sudoku_solver::board::SudokuState;
use sudoku_solver::config::PuzzleConfig;
use sudoku_solver::puzzle::{clue_digit_of, clues_are_on_board, decode_puzzle};
use sudoku_solver::search::try_out_field_state;

const WIKIPEDIA: &str =
    "530070000600195000098000060800060003400803001700020006060000280000419005000080079";

#[test]
fn characters_that_give_a_clue() {
    assert_eq!(clue_digit_of('1'), Some(0));
    assert_eq!(clue_digit_of('5'), Some(4));
    assert_eq!(clue_digit_of('9'), Some(8));
    assert_eq!(clue_digit_of('0'), None);
    assert_eq!(clue_digit_of('.'), None);
    assert_eq!(clue_digit_of(' '), None);
    assert_eq!(clue_digit_of('a'), None);
    assert_eq!(clue_digit_of('\u{0663}'), None);
    assert_eq!(clue_digit_of('\u{ff15}'), None);
}

#[test]
fn clues_of_a_short_text() {
    assert_eq!(decode_puzzle(""), vec![]);
    assert_eq!(decode_puzzle("0.x"), vec![]);
    assert_eq!(
        decode_puzzle("10020000930"),
        vec![(0, 0, 0), (3, 0, 1), (8, 0, 8), (0, 1, 2)]
    );
    assert_eq!(decode_puzzle("\u{2016}7\u{e9}8"), vec![(1, 0, 6), (3, 0, 7)]);
}

#[test]
fn clues_of_a_whole_puzzle() {
    let clues = decode_puzzle(WIKIPEDIA);
    assert_eq!(clues.len(), 30);
    assert_eq!(clues[0], (0, 0, 4));
    assert_eq!(clues[1], (1, 0, 2));
    assert_eq!(clues[2], (4, 0, 6));
    assert_eq!(clues[3], (0, 1, 5));
    assert_eq!(clues[29], (8, 8, 8));
    assert!(clues_are_on_board(&clues));
}

#[test]
fn clues_beyond_the_board_are_read_and_told_apart() {
    let mut text = "0".repeat(81);
    text.push('4');
    let clues = decode_puzzle(&text);
    assert_eq!(clues, vec![(0, 9, 3)]);
    assert!(!clues_are_on_board(&clues));
    assert!(clues_are_on_board(&vec![]));
    assert!(clues_are_on_board(&vec![(8, 8, 8)]));
    assert!(!clues_are_on_board(&vec![(8, 8, 8), (9, 0, 0)]));
    assert!(!clues_are_on_board(&vec![(0, 0, 9)]));
}

#[test]
fn clues_are_committed_in_order() {
    let config = PuzzleConfig::for_variants(false, true, true);
    let clues = vec![(0, 0, 3), (4, 4, 7), (8, 1, 0), (4, 5, 2)];
    let mut by_hand = SudokuState::default();
    let mut trace = Vec::new();
    for &(x, y, number) in &clues {
        by_hand.set_certain(x, y, number, false, &mut trace, &config);
    }
    let mut at_once = SudokuState::default();
    at_once.set_clues(&clues, &config);
    assert_eq!(at_once, by_hand);
    let mut untouched = SudokuState::default();
    untouched.set_clues(&Vec::new(), &config);
    assert_eq!(untouched, SudokuState::default());
}

#[test]
fn a_later_clue_for_the_same_cell_wins() {
    let config = PuzzleConfig::new(vec![], vec![]);
    let mut field = SudokuState::default();
    field.set_clues(&vec![(2, 2, 5), (2, 2, 6)], &config);
    assert_eq!(field.cells[2][2].get_certain(), Some(6));
    assert!(!field.cells[2][3].could_contain(5));
    assert!(!field.cells[2][3].could_contain(6));
}

#[test]
fn variant_rules_as_offsets() {
    let plain = PuzzleConfig::for_variants(false, false, false);
    assert!(plain.anti_cells.is_empty());
    assert!(plain.non_con_cells.is_empty());
    let king = PuzzleConfig::for_variants(true, false, false);
    assert_eq!(
        king.anti_cells,
        vec![(-1, 1), (0, 1), (1, 1), (1, 0), (1, -1), (0, -1), (-1, -1), (-1, 0)]
    );
    assert!(king.non_con_cells.is_empty());
    let knight = PuzzleConfig::for_variants(false, true, false);
    assert_eq!(
        knight.anti_cells,
        vec![(-1, 2), (1, 2), (2, 1), (2, -1), (1, -2), (-1, -2), (-2, -1), (-2, 1)]
    );
    let all = PuzzleConfig::for_variants(true, true, true);
    let mut both = king.anti_cells.clone();
    both.extend(knight.anti_cells.iter());
    assert_eq!(all.anti_cells, both);
    assert_eq!(all.non_con_cells, vec![(0, 1), (1, 0), (0, -1), (-1, 0)]);
}

#[test]
fn puzzle_from_text_to_solution() {
    let config = PuzzleConfig::for_variants(false, false, false);
    let mut field = SudokuState::default();
    field.set_clues(&decode_puzzle(WIKIPEDIA), &config);
    let mut solutions = Vec::new();
    let mut trace = Vec::new();
    try_out_field_state(field, &mut solutions, true, &mut trace, &config);
    assert_eq!(solutions, vec![field]);
    assert!(trace.is_empty());
    let row: Vec<Option<usize>> = (0..9).map(|x| field.cells[x][0].get_certain()).collect();
    assert_eq!(
        row,
        vec![Some(4), Some(2), Some(3), Some(5), Some(6), Some(7), Some(8), Some(0), Some(1)]
    );
}
