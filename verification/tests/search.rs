use sudoku_solver::board::SudokuState;
use sudoku_solver::config::{Elimination, PuzzleConfig, Reason};
use sudoku_solver::search::{find_low_hanging_region, into_single, is_applicable, try_out_field_state};
use sudoku_solver::trace::TraceEvent;

const WIKIPEDIA: &str =
    "530070000600195000098000060800060003400803001700020006060000280000419005000080079";
const WIKIPEDIA_SOLVED: &str =
    "534678912672195348198342567859761423426853791713924856961537284287419635345286179";
const SEVENTEEN_CLUES: &str =
    "000000010400000000020000000000050407008000300001090000300400200050100000000806000";
const SEVENTEEN_CLUES_SOLVED: &str =
    "693784512487512936125963874932651487568247391741398625319475268856129743274836159";
const RECTANGLE: &str =
    "534008912672195348198342567859001423426853791713924856961537284287419635345286179";
const KNIGHT: &str =
    "100700006000103807000000003000009050000000000090580300070400905530000000902000000";

const KING: &str =
    "050008002000000005080000130005400000000000000010029000000000000000900360200006071";
const NON_CONSECUTIVE: &str =
    "008003006006000500010000000000000000020000009000600051000000080000007000000000007";

fn plain() -> PuzzleConfig {
    PuzzleConfig::new(vec![], vec![])
}

fn anti_king() -> PuzzleConfig {
    PuzzleConfig::new(
        vec![(-1, 1), (0, 1), (1, 1), (1, 0), (1, -1), (0, -1), (-1, -1), (-1, 0)],
        vec![],
    )
}

fn anti_knight() -> PuzzleConfig {
    PuzzleConfig::new(
        vec![(-1, 2), (1, 2), (2, 1), (2, -1), (1, -2), (-1, -2), (-2, -1), (-2, 1)],
        vec![],
    )
}

fn seed(puzzle: &str, config: &PuzzleConfig) -> SudokuState {
    let mut field = SudokuState::default();
    let mut trace = Vec::new();
    for (idx, value) in puzzle.chars().enumerate() {
        let num = value.to_digit(10).unwrap();
        if num > 0 {
            field.set_certain(idx % 9, idx / 9, (num - 1) as usize, false, &mut trace, config);
        }
    }
    assert!(trace.is_empty());
    field
}

fn solve(puzzle: &str, config: &PuzzleConfig) -> Vec<SudokuState> {
    let mut solutions = Vec::new();
    let mut trace = Vec::new();
    try_out_field_state(seed(puzzle, config), &mut solutions, false, &mut trace, config);
    assert!(trace.is_empty());
    solutions
}

fn digits(board: &SudokuState) -> String {
    let mut text = String::new();
    for y in 0..9 {
        for x in 0..9 {
            match board.cells[x][y].get_certain() {
                Some(number) => text.push(char::from_digit(number as u32 + 1, 10).unwrap()),
                None => text.push('.'),
            }
        }
    }
    text
}

fn assert_consistent(board: &SudokuState) {
    assert!(!board.is_impossible());
    for x in 0..9 {
        for y in 0..9 {
            let number = board.cells[x][y].get_certain().unwrap();
            for other_x in 0..9 {
                for other_y in 0..9 {
                    let shares = other_x == x
                        || other_y == y
                        || (other_x / 3 == x / 3 && other_y / 3 == y / 3);
                    if shares && (other_x, other_y) != (x, y) {
                        assert_ne!(board.cells[other_x][other_y].get_certain(), Some(number));
                    }
                }
            }
        }
    }
}

fn assert_agrees(board: &SudokuState, puzzle: &str) {
    for (given, found) in puzzle.chars().zip(digits(board).chars()) {
        assert!(given == '0' || given == found);
    }
}

#[test]
fn into_single_wants_exactly_one_item() {
    assert_eq!(into_single(&Vec::<(usize, usize)>::new()), None);
    assert_eq!(into_single(&vec![(3, 4)]), Some((3, 4)));
    assert_eq!(into_single(&vec![(3, 4), (5, 6)]), None);
    assert_eq!(into_single(&vec![7u8, 7, 7]), None);
}

#[test]
fn open_cells_are_possible_and_undecided() {
    let field = seed(RECTANGLE, &plain());
    assert!(is_applicable(&field, 3, 0, 5));
    assert!(is_applicable(&field, 3, 0, 6));
    assert!(!is_applicable(&field, 3, 0, 4));
    assert!(!is_applicable(&field, 0, 0, 4));
    assert!(!is_applicable(&field, 0, 0, 5));
    assert!(!is_applicable(&field, 3, 0, 9));
}

#[test]
fn selection_takes_the_first_pair_with_the_fewest_open_cells() {
    assert_eq!(find_low_hanging_region(&SudokuState::default()), Some((9, 0, 0)));
    assert_eq!(
        find_low_hanging_region(&seed("534678912", &plain())),
        Some((6, 0, 0))
    );
    assert_eq!(find_low_hanging_region(&seed(RECTANGLE, &plain())), Some((2, 1, 5)));
    assert_eq!(
        find_low_hanging_region(&seed(SEVENTEEN_CLUES, &plain())),
        Some((1, 5, 0))
    );
    assert_eq!(
        find_low_hanging_region(&seed(&WIKIPEDIA_SOLVED[..54], &plain())),
        Some((3, 6, 0))
    );
    assert_eq!(find_low_hanging_region(&seed(WIKIPEDIA, &plain())), None);
}

#[test]
fn propagation_alone_solves_an_easy_puzzle() {
    let field = seed(WIKIPEDIA, &plain());
    assert_eq!(digits(&field), WIKIPEDIA_SOLVED);
    let solutions = solve(WIKIPEDIA, &plain());
    assert_eq!(solutions, vec![field]);
    assert_consistent(&solutions[0]);
}

#[test]
fn seventeen_clue_puzzle_has_one_solution() {
    let solutions = solve(SEVENTEEN_CLUES, &plain());
    assert_eq!(solutions.len(), 1);
    assert_eq!(digits(&solutions[0]), SEVENTEEN_CLUES_SOLVED);
    assert_consistent(&solutions[0]);
    assert_agrees(&solutions[0], SEVENTEEN_CLUES);
}

#[test]
fn both_solutions_of_an_ambiguous_puzzle_in_search_order() {
    let solutions = solve(RECTANGLE, &plain());
    let found: Vec<String> = solutions.iter().map(digits).collect();
    assert_eq!(
        found,
        vec![
            "534678912672195348198342567859761423426853791713924856961537284287419635345286179",
            "534768912672195348198342567859671423426853791713924856961537284287419635345286179",
        ]
    );
    for solution in &solutions {
        assert_consistent(solution);
        assert_agrees(solution, RECTANGLE);
    }
}

#[test]
fn six_given_rows_have_120_completions() {
    let puzzle = &WIKIPEDIA_SOLVED[..54];
    let solutions = solve(puzzle, &plain());
    assert_eq!(solutions.len(), 120);
    assert_eq!(
        digits(&solutions[0]),
        "534678912672195348198342567859761423426853791713924856281539674365417289947286135"
    );
    assert_eq!(
        digits(&solutions[119]),
        "534678912672195348198342567859761423426853791713924856947286135365417289281539674"
    );
    for (i, solution) in solutions.iter().enumerate() {
        assert_consistent(solution);
        assert_agrees(solution, puzzle);
        for other in &solutions[..i] {
            assert_ne!(solution, other);
        }
    }
}

#[test]
fn anti_knight_puzzle_in_search_order() {
    let solutions = solve(KNIGHT, &anti_knight());
    let found: Vec<String> = solutions.iter().map(digits).collect();
    assert_eq!(
        found,
        vec![
            "183794526456123897729658143618349752345217689297586314871462935534971268962835471",
            "123798546456123897789654123618349752345217689297586314871462935534971268962835471",
        ]
    );
    for solution in &solutions {
        assert_consistent(solution);
        assert_agrees(solution, KNIGHT);
        for x in 0..9usize {
            for y in 0..9usize {
                for (dx, dy) in [(-1isize, 2isize), (1, 2), (2, 1), (2, -1)] {
                    let (nx, ny) = (x as isize + dx, y as isize + dy);
                    if (0..9).contains(&nx) && (0..9).contains(&ny) {
                        assert_ne!(
                            solution.cells[x][y].get_certain(),
                            solution.cells[nx as usize][ny as usize].get_certain()
                        );
                    }
                }
            }
        }
    }
}

fn digit_at(board: &SudokuState, x: isize, y: isize) -> Option<usize> {
    if (0..9).contains(&x) && (0..9).contains(&y) {
        board.cells[x as usize][y as usize].get_certain()
    } else {
        None
    }
}

#[test]
fn anti_king_puzzle_in_search_order() {
    let config = PuzzleConfig::for_variants(true, false, false);
    let solutions = solve(KING, &config);
    let found: Vec<String> = solutions.iter().map(digits).collect();
    assert_eq!(
        found,
        vec![
            "153768942426193785789254136365417298942835617817629453634571829571982364298346571",
            "153768942426193785789254136635417298942835617817629453364571829571982364298346571",
            "356198742124763985789254136635417298942835617817629453463571829571982364298346571",
        ]
    );
    for solution in &solutions {
        assert_consistent(solution);
        assert_agrees(solution, KING);
        for x in 0..9isize {
            for y in 0..9isize {
                for (dx, dy) in [(1, 1), (1, -1), (-1, 1), (-1, -1)] {
                    assert_ne!(digit_at(solution, x + dx, y + dy), digit_at(solution, x, y));
                }
            }
        }
    }
}

#[test]
fn non_consecutive_puzzle_in_search_order() {
    let config = PuzzleConfig::for_variants(false, false, true);
    let solutions = solve(NON_CONSECUTIVE, &config);
    let found: Vec<String> = solutions.iter().map(digits).collect();
    assert_eq!(
        found,
        vec![
            "248513796796248513513796248851379624624851379379624851137962485485137962962485137",
            "248513796796248513513796248851379624624851379379624851937162485485937162162485937",
            "248153796796428513513796248851379624624815379379642851937264185185937462462581937",
        ]
    );
    for solution in &solutions {
        assert_consistent(solution);
        assert_agrees(solution, NON_CONSECUTIVE);
        for x in 0..9isize {
            for y in 0..9isize {
                let here = digit_at(solution, x, y).unwrap();
                for (dx, dy) in [(0, 1), (1, 0), (0, -1), (-1, 0)] {
                    if let Some(there) = digit_at(solution, x + dx, y + dy) {
                        assert_ne!(there, here + 1);
                        assert_ne!(there + 1, here);
                    }
                }
            }
        }
    }
}

#[test]
fn contradictory_clues_give_no_solution() {
    let config = plain();
    let mut field = SudokuState::default();
    let mut trace = Vec::new();
    field.set_certain(0, 0, 3, false, &mut trace, &config);
    field.set_certain(1, 0, 3, false, &mut trace, &config);
    assert!(field.is_impossible());
    let mut solutions = Vec::new();
    try_out_field_state(field, &mut solutions, false, &mut trace, &config);
    assert!(solutions.is_empty());
    assert!(trace.is_empty());
}

#[test]
fn board_without_open_cells_is_handed_back_as_it_is() {
    let config = anti_king();
    let field = seed(WIKIPEDIA, &config);
    assert!(field.is_impossible());
    assert_eq!(find_low_hanging_region(&field), None);
    assert_eq!(solve(WIKIPEDIA, &config), vec![field]);
}

#[test]
fn solutions_are_appended_to_what_the_sink_holds() {
    let config = plain();
    let marker = SudokuState::default();
    let mut solutions = vec![marker];
    let mut trace = Vec::new();
    try_out_field_state(seed(RECTANGLE, &config), &mut solutions, false, &mut trace, &config);
    assert_eq!(solutions.len(), 3);
    assert_eq!(solutions[0], marker);
    assert_eq!(solutions[1..].to_vec(), solve(RECTANGLE, &config));
}

#[test]
fn explained_search_records_every_step() {
    let config = plain();
    let field = seed(RECTANGLE, &config);
    let mut solutions = Vec::new();
    let mut trace = Vec::new();
    try_out_field_state(field, &mut solutions, true, &mut trace, &config);
    assert_eq!(solutions, solve(RECTANGLE, &config));
    let struck = |x: usize, y: usize, number: usize, reason: Reason| {
        TraceEvent::Eliminated(Elimination { x, y, number, reason })
    };
    let commit = |x: usize, y: usize, number: usize| TraceEvent::Commit { x, y, number };
    let expected = vec![
        TraceEvent::Board(field),
        TraceEvent::SeveralCells { number: 5, region: 1 },
        TraceEvent::Assuming { x: 3, y: 0, number: 5, region: 1 },
        commit(3, 0, 5),
        struck(4, 0, 5, Reason::SameRow),
        commit(4, 0, 6),
        struck(3, 0, 6, Reason::SameRow),
        commit(3, 0, 5),
        struck(3, 3, 5, Reason::SameColumn),
        commit(3, 3, 6),
        struck(4, 3, 6, Reason::SameRow),
        commit(4, 3, 5),
        TraceEvent::Settled,
        TraceEvent::Settled,
        TraceEvent::Settled,
        TraceEvent::Settled,
        TraceEvent::Settled,
        TraceEvent::Assuming { x: 4, y: 0, number: 5, region: 1 },
        commit(4, 0, 5),
        struck(3, 0, 5, Reason::SameRow),
        commit(3, 0, 6),
        struck(4, 0, 6, Reason::SameRow),
        commit(4, 0, 5),
        struck(4, 3, 5, Reason::SameColumn),
        commit(4, 3, 6),
        struck(3, 3, 6, Reason::SameRow),
        commit(3, 3, 5),
        TraceEvent::Settled,
        TraceEvent::Settled,
        TraceEvent::Settled,
        TraceEvent::Settled,
        TraceEvent::Settled,
    ];
    assert_eq!(trace, expected);
}

#[test]
fn explained_search_names_the_only_open_cell() {
    let config = plain();
    let field = seed(SEVENTEEN_CLUES, &config);
    let mut solutions = Vec::new();
    let mut trace = Vec::new();
    try_out_field_state(field, &mut solutions, true, &mut trace, &config);
    assert_eq!(solutions.len(), 1);
    assert_eq!(trace[0], TraceEvent::Board(field));
    match trace[1] {
        TraceEvent::OnlyCell { x, y, number, region } => {
            assert_eq!((number, region), (0, 5));
            assert!(is_applicable(&field, x, y, 0));
            assert!((6..9).contains(&x) && (3..6).contains(&y));
        }
        other => panic!("unexpected event {:?}", other),
    }
    assert!(matches!(trace[2], TraceEvent::Commit { number: 0, .. }));
}
