use sudoku_solver::board::SudokuState;
use sudoku_solver::config::{Elimination, PuzzleConfig, Reason};
use sudoku_solver::narrate::narrate;
use sudoku_solver::search::try_out_field_state;
use sudoku_solver::text::{cell_name, column_letter_of, digit_mark_of, reason_name};
use sudoku_solver::trace::{trace_is_on_board, TraceEvent};

const RECTANGLE: &str =
    "534008912672195348198342567859001423426853791713924856961537284287419635345286179";

fn seed(puzzle: &str, config: &PuzzleConfig) -> SudokuState {
    let mut field = SudokuState::default();
    let mut trace = Vec::new();
    for (idx, value) in puzzle.chars().enumerate() {
        let num = value.to_digit(10).unwrap();
        if num > 0 {
            field.set_certain(idx % 9, idx / 9, (num - 1) as usize, false, &mut trace, config);
        }
    }
    field
}

#[test]
fn cell_names() {
    assert_eq!(cell_name(0, 0), "A1");
    assert_eq!(cell_name(2, 4), "C5");
    assert_eq!(cell_name(8, 8), "I9");
    assert_eq!(cell_name(8, 0), "I1");
    let letters: String = (0..9).map(column_letter_of).collect();
    assert_eq!(letters, "ABCDEFGHI");
    let marks: String = (0..9).map(digit_mark_of).collect();
    assert_eq!(marks, "123456789");
}

#[test]
fn reason_names() {
    assert_eq!(reason_name(Reason::SameRow), "same row");
    assert_eq!(reason_name(Reason::SameColumn), "same column");
    assert_eq!(reason_name(Reason::SameBlock), "same block");
    assert_eq!(reason_name(Reason::NearCell), "near cell");
    assert_eq!(reason_name(Reason::DirectNeighbor), "direct neighbor");
}

#[test]
fn picture_of_the_open_board() {
    let text = SudokuState::default().render();
    let lines: Vec<&str> = text.split('\n').collect();
    assert_eq!(lines.len(), 39);
    assert_eq!(lines[0], "     A     B     C     D     E     F     G     H     I   ");
    assert_eq!(lines[1], "  +=====+=====+=====+=====+=====+=====+=====+=====+=====+");
    assert_eq!(
        lines[2],
        "  ‖1 2 3|1 2 3|1 2 3‖1 2 3|1 2 3|1 2 3‖1 2 3|1 2 3|1 2 3‖"
    );
    assert_eq!(
        lines[3],
        "1 ‖4 5 6|4 5 6|4 5 6‖4 5 6|4 5 6|4 5 6‖4 5 6|4 5 6|4 5 6‖"
    );
    assert_eq!(
        lines[4],
        "  ‖7 8 9|7 8 9|7 8 9‖7 8 9|7 8 9|7 8 9‖7 8 9|7 8 9|7 8 9‖"
    );
    assert_eq!(lines[5], "  +-----+-----+-----+-----+-----+-----+-----+-----+-----+");
    assert_eq!(lines[9], "  +-----+-----+-----+-----+-----+-----+-----+-----+-----+");
    assert_eq!(lines[13], "  +=====+=====+=====+=====+=====+=====+=====+=====+=====+");
    assert_eq!(
        lines[35],
        "9 ‖4 5 6|4 5 6|4 5 6‖4 5 6|4 5 6|4 5 6‖4 5 6|4 5 6|4 5 6‖"
    );
    assert_eq!(lines[37], "  +=====+=====+=====+=====+=====+=====+=====+=====+=====+");
    assert_eq!(lines[38], "");
}

#[test]
fn picture_of_a_seeded_board() {
    let field = seed(RECTANGLE, &PuzzleConfig::new(vec![], vec![]));
    let text = field.render();
    let lines: Vec<&str> = text.split('\n').collect();
    assert_eq!(
        lines[..14].to_vec(),
        vec![
            "     A     B     C     D     E     F     G     H     I   ",
            "  +=====+=====+=====+=====+=====+=====+=====+=====+=====+",
            "  ‖     |    3|     ‖     |     |     ‖     |1    |  2  ‖",
            "1 ‖  5  |     |4    ‖    6|    6|     ‖     |     |     ‖",
            "  ‖     |     |     ‖7    |7    |  8  ‖    9|     |     ‖",
            "  +-----+-----+-----+-----+-----+-----+-----+-----+-----+",
            "  ‖     |     |  2  ‖1    |     |     ‖    3|     |     ‖",
            "2 ‖    6|     |     ‖     |     |  5  ‖     |4    |     ‖",
            "  ‖     |7    |     ‖     |    9|     ‖     |     |  8  ‖",
            "  +-----+-----+-----+-----+-----+-----+-----+-----+-----+",
            "  ‖1    |     |     ‖    3|     |  2  ‖     |     |     ‖",
            "3 ‖     |     |     ‖     |4    |     ‖  5  |    6|     ‖",
            "  ‖     |    9|  8  ‖     |     |     ‖     |     |7    ‖",
            "  +=====+=====+=====+=====+=====+=====+=====+=====+=====+",
        ]
    );
}

#[test]
fn lines_of_an_explained_search() {
    let config = PuzzleConfig::new(vec![], vec![]);
    let field = seed(RECTANGLE, &config);
    let mut solutions = Vec::new();
    let mut trace = Vec::new();
    try_out_field_state(field, &mut solutions, true, &mut trace, &config);
    assert!(trace_is_on_board(&trace));
    let lines = narrate(&trace);
    assert_eq!(lines[0], field.render());
    assert_eq!(
        lines[1..].to_vec(),
        vec![
            "Multiple cells could contain the 6 in top block",
            "Assuming that D1 houses the 6 in top block",
            "  D1 = 6, so E1 (same row) can't be 6",
            "  Therefore, E1 can only be 7",
            "    E1 = 7, so D1 (same row) can't be 7",
            "    Therefore, D1 can only be 6",
            "      D1 = 6, so D4 (same column) can't be 6",
            "      Therefore, D4 can only be 7",
            "        D4 = 7, so E4 (same row) can't be 7",
            "        Therefore, E4 can only be 6",
            "Assuming that E1 houses the 6 in top block",
            "  E1 = 6, so D1 (same row) can't be 6",
            "  Therefore, D1 can only be 7",
            "    D1 = 7, so E1 (same row) can't be 7",
            "    Therefore, E1 can only be 6",
            "      E1 = 6, so E4 (same column) can't be 6",
            "      Therefore, E4 can only be 7",
            "        E4 = 7, so D4 (same row) can't be 7",
            "        Therefore, D4 can only be 6",
        ]
    );
}

#[test]
fn lines_of_single_events() {
    let target = Elimination { x: 1, y: 2, number: 3, reason: Reason::NearCell };
    let trace = vec![
        TraceEvent::OnlyCell { x: 8, y: 0, number: 8, region: 26 },
        TraceEvent::Eliminated(target),
        TraceEvent::Commit { x: 0, y: 0, number: 0 },
        TraceEvent::Eliminated(target),
        TraceEvent::Settled,
        TraceEvent::Settled,
        TraceEvent::Commit { x: 4, y: 4, number: 4 },
        TraceEvent::Commit { x: 5, y: 5, number: 5 },
        TraceEvent::Eliminated(Elimination { x: 5, y: 6, number: 6, reason: Reason::DirectNeighbor }),
        TraceEvent::Settled,
        TraceEvent::Eliminated(Elimination { x: 4, y: 0, number: 4, reason: Reason::SameBlock }),
    ];
    assert!(trace_is_on_board(&trace));
    assert_eq!(
        narrate(&trace),
        vec![
            "Only I1 can contain the 9 in column I => I1 must be 9",
            "  A1 = 1, so B3 (near cell) can't be 4",
            "  Therefore, F6 can only be 6",
            "    F6 = 6, so F7 (direct neighbor) can't be 7",
            "  E5 = 5, so E1 (same block) can't be 5",
        ]
    );
}

#[test]
fn events_off_the_board_are_told_apart() {
    assert!(trace_is_on_board(&Vec::new()));
    assert!(!trace_is_on_board(&vec![TraceEvent::Commit { x: 9, y: 0, number: 0 }]));
    assert!(!trace_is_on_board(&vec![
        TraceEvent::Settled,
        TraceEvent::SeveralCells { number: 0, region: 27 },
    ]));
    assert!(TraceEvent::Assuming { x: 8, y: 8, number: 8, region: 26 }.is_on_board());
    assert!(!TraceEvent::Assuming { x: 8, y: 8, number: 9, region: 26 }.is_on_board());
}
