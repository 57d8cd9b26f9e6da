use sudoku_solver::config::{
    affected_cells, offset, offset_pos, Elimination, PuzzleConfig, Reason,
};
use sudoku_solver::region::{unique_region, REGION_COUNT};

#[test]
fn offset_stays_within_the_nine() {
    assert_eq!(offset(3, 2), Some(5));
    assert_eq!(offset(0, 0), Some(0));
    assert_eq!(offset(0, -1), None);
    assert_eq!(offset(8, 1), None);
    assert_eq!(offset(8, 0), Some(8));
    assert_eq!(offset(8, -8), Some(0));
    assert_eq!(offset(0, 8), Some(8));
    assert_eq!(offset(0, 9), None);
    assert_eq!(offset(12, -4), Some(8));
    assert_eq!(offset(9, 0), None);
}

#[test]
fn offset_takes_extreme_values() {
    assert_eq!(offset(usize::MAX, isize::MIN), None);
    assert_eq!(offset(usize::MAX, isize::MAX), None);
    assert_eq!(offset(0, isize::MIN), None);
    assert_eq!(offset(0, isize::MAX), None);
    assert_eq!(offset(isize::MAX as usize + 3, isize::MIN + 1), Some(3));
    assert_eq!(offset(isize::MAX as usize + 9, isize::MIN + 1), None);
}

#[test]
fn offset_pos_needs_both_coordinates_on_the_board() {
    assert_eq!(offset_pos(4, 4, 1, -2), Some((5, 2)));
    assert_eq!(offset_pos(0, 4, -1, 0), None);
    assert_eq!(offset_pos(4, 8, 0, 1), None);
    assert_eq!(offset_pos(8, 8, 1, 1), None);
    assert_eq!(offset_pos(0, 0, 0, 0), Some((0, 0)));
}

#[test]
fn config_holds_its_offsets() {
    let config = PuzzleConfig::new(vec![(1, 2), (-1, 0)], vec![(0, 1)]);
    assert_eq!(config.anti_cells, vec![(1, 2), (-1, 0)]);
    assert_eq!(config.non_con_cells, vec![(0, 1)]);
}

#[test]
fn region_names_and_cells() {
    let top_left = unique_region(0);
    assert_eq!(top_left.name, "top left block");
    assert_eq!(
        top_left.cells,
        [(0, 0), (1, 0), (2, 0), (0, 1), (1, 1), (2, 1), (0, 2), (1, 2), (2, 2)]
    );
    let right = unique_region(5);
    assert_eq!(right.name, "right block");
    assert_eq!(
        right.cells,
        [(6, 3), (7, 3), (8, 3), (6, 4), (7, 4), (8, 4), (6, 5), (7, 5), (8, 5)]
    );
    let row = unique_region(11);
    assert_eq!(row.name, "row 3");
    assert_eq!(
        row.cells,
        [(0, 2), (1, 2), (2, 2), (3, 2), (4, 2), (5, 2), (6, 2), (7, 2), (8, 2)]
    );
    let column = unique_region(26);
    assert_eq!(column.name, "column I");
    assert_eq!(
        column.cells,
        [(8, 0), (8, 1), (8, 2), (8, 3), (8, 4), (8, 5), (8, 6), (8, 7), (8, 8)]
    );
}

#[test]
fn all_region_names_in_order() {
    let names: Vec<&str> = (0..REGION_COUNT).map(|index| unique_region(index).name).collect();
    assert_eq!(
        names,
        vec![
            "top left block",
            "top block",
            "top right block",
            "left block",
            "center block",
            "right block",
            "bottom left block",
            "bottom block",
            "bottom right block",
            "row 1",
            "row 2",
            "row 3",
            "row 4",
            "row 5",
            "row 6",
            "row 7",
            "row 8",
            "row 9",
            "column A",
            "column B",
            "column C",
            "column D",
            "column E",
            "column F",
            "column G",
            "column H",
            "column I",
        ]
    );
}

#[test]
fn every_cell_lies_in_one_block_one_row_one_column() {
    assert_eq!(REGION_COUNT, 27);
    for kind in 0..3 {
        let mut seen = [[0usize; 9]; 9];
        for index in kind * 9..kind * 9 + 9 {
            for (x, y) in unique_region(index).cells {
                assert!(x < 9 && y < 9);
                seen[x][y] += 1;
            }
        }
        for column in seen {
            for times in column {
                assert_eq!(times, 1);
            }
        }
    }
}

fn target(x: usize, y: usize, number: usize, reason: Reason) -> Elimination {
    Elimination { x, y, number, reason }
}

#[test]
fn affected_cells_of_a_plain_puzzle() {
    let config = PuzzleConfig::new(vec![], vec![]);
    let targets = affected_cells(4, 7, 2, &config);
    let mut expected = Vec::new();
    for x in 0..9 {
        expected.push(target(x, 7, 2, Reason::SameRow));
    }
    for y in 0..9 {
        expected.push(target(4, y, 2, Reason::SameColumn));
    }
    for x in 3..6 {
        for y in 6..9 {
            expected.push(target(x, y, 2, Reason::SameBlock));
        }
    }
    assert_eq!(targets, expected);
}

#[test]
fn affected_cells_with_variant_rules_at_a_corner() {
    let config = PuzzleConfig::new(
        vec![(-1, 2), (1, 2), (2, 1), (2, -1)],
        vec![(0, 1), (1, 0), (0, -1), (-1, 0)],
    );
    let targets = affected_cells(0, 0, 8, &config);
    assert_eq!(targets.len(), 27 + 2 + 2);
    assert_eq!(
        targets[27..].to_vec(),
        vec![
            target(1, 2, 8, Reason::NearCell),
            target(2, 1, 8, Reason::NearCell),
            target(0, 1, 7, Reason::DirectNeighbor),
            target(1, 0, 7, Reason::DirectNeighbor),
        ]
    );
    let middle = affected_cells(4, 4, 4, &config);
    assert_eq!(
        middle[27..].to_vec(),
        vec![
            target(3, 6, 4, Reason::NearCell),
            target(5, 6, 4, Reason::NearCell),
            target(6, 5, 4, Reason::NearCell),
            target(6, 3, 4, Reason::NearCell),
            target(4, 5, 5, Reason::DirectNeighbor),
            target(4, 5, 3, Reason::DirectNeighbor),
            target(5, 4, 5, Reason::DirectNeighbor),
            target(5, 4, 3, Reason::DirectNeighbor),
            target(4, 3, 5, Reason::DirectNeighbor),
            target(4, 3, 3, Reason::DirectNeighbor),
            target(3, 4, 5, Reason::DirectNeighbor),
            target(3, 4, 3, Reason::DirectNeighbor),
        ]
    );
    let lowest = affected_cells(4, 4, 0, &config);
    assert_eq!(
        lowest[31..].to_vec(),
        vec![
            target(4, 5, 1, Reason::DirectNeighbor),
            target(5, 4, 1, Reason::DirectNeighbor),
            target(4, 3, 1, Reason::DirectNeighbor),
            target(3, 4, 1, Reason::DirectNeighbor),
        ]
    );
}
