use sudoku_solver::cell::CellState;

fn count(cell: &CellState) -> usize {
    (0..9).filter(|&digit| cell.could_contain(digit)).count()
}

#[test]
fn fresh_cell_allows_every_digit() {
    let cell = CellState::completely_uncertain();
    for digit in 0..9 {
        assert!(cell.could_contain(digit));
    }
    assert!(!cell.could_contain(9));
    assert!(!cell.could_contain(16));
    assert!(!cell.could_contain(usize::MAX));
    assert!(!cell.is_certain());
    assert!(!cell.is_impossible());
    assert_eq!(cell.get_certain(), None);
}

#[test]
fn default_cell_is_completely_uncertain() {
    assert_eq!(CellState::default(), CellState::completely_uncertain());
}

#[test]
fn certain_cell_holds_one_digit() {
    for digit in 0..9 {
        let cell = CellState::certain(digit);
        assert!(cell.is_certain());
        assert!(!cell.is_impossible());
        assert_eq!(cell.get_certain(), Some(digit));
        for other in 0..9 {
            assert_eq!(cell.could_contain(other), other == digit);
        }
    }
}

#[test]
fn eliminate_reports_change_once() {
    let mut cell = CellState::completely_uncertain();
    assert!(cell.eliminate(4));
    let once = cell;
    assert!(!cell.could_contain(4));
    assert!(!cell.eliminate(4));
    assert_eq!(cell, once);
    assert_eq!(count(&cell), 8);
}

#[test]
fn eliminate_of_no_digit_changes_nothing() {
    let mut cell = CellState::completely_uncertain();
    assert!(!cell.eliminate(9));
    assert!(!cell.eliminate(15));
    assert!(!cell.eliminate(16));
    assert!(!cell.eliminate(usize::MAX));
    assert_eq!(cell, CellState::completely_uncertain());
}

#[test]
fn count_decides_certain_and_impossible() {
    let mut cell = CellState::completely_uncertain();
    for digit in 0..9 {
        assert_eq!(count(&cell), 9 - digit);
        assert_eq!(cell.is_certain(), count(&cell) == 1);
        assert_eq!(cell.is_impossible(), count(&cell) == 0);
        assert!(cell.eliminate(digit));
    }
    assert_eq!(count(&cell), 0);
    assert!(cell.is_impossible());
    assert!(!cell.is_certain());
    assert_eq!(cell.get_certain(), None);
}

#[test]
fn elimination_down_to_one_digit_makes_certain() {
    let mut cell = CellState::completely_uncertain();
    for digit in [0, 1, 2, 3, 4, 5, 7, 8] {
        assert_eq!(cell.get_certain(), None);
        assert!(cell.eliminate(digit));
    }
    assert_eq!(cell.get_certain(), Some(6));
    assert_eq!(cell, CellState::certain(6));
}

#[test]
fn eliminating_the_digit_of_a_certain_cell_leaves_nothing() {
    let mut cell = CellState::certain(2);
    assert!(!cell.eliminate(3));
    assert!(cell.is_certain());
    assert!(cell.eliminate(2));
    assert!(cell.is_impossible());
}
