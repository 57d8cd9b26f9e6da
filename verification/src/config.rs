//! The variant rules of a puzzle, and the cells that a committed digit
//! affects under them.

use vstd::prelude::*;

verus! {

/// The extra adjacency rules of a puzzle, as offsets relative to a cell.
pub struct PuzzleConfig {
    /// Offsets of the cells that may not hold the same digit as the cell.
    pub anti_cells: Vec<(isize, isize)>,
    /// Offsets of the cells that may not hold a digit next to the cell's.
    pub non_con_cells: Vec<(isize, isize)>,
}

/// The offsets of the eight cells around a cell.
pub open spec fn king_moves() -> Seq<(isize, isize)> {
    seq![
        (-1isize, 1isize),
        (0isize, 1isize),
        (1isize, 1isize),
        (1isize, 0isize),
        (1isize, -1isize),
        (0isize, -1isize),
        (-1isize, -1isize),
        (-1isize, 0isize),
    ]
}

/// The offsets of the eight cells a knight's move away from a cell.
pub open spec fn knight_moves() -> Seq<(isize, isize)> {
    seq![
        (-1isize, 2isize),
        (1isize, 2isize),
        (2isize, 1isize),
        (2isize, -1isize),
        (1isize, -2isize),
        (-1isize, -2isize),
        (-2isize, -1isize),
        (-2isize, 1isize),
    ]
}

/// The offsets of the four cells side by side with a cell.
pub open spec fn side_moves() -> Seq<(isize, isize)> {
    seq![(0isize, 1isize), (1isize, 0isize), (0isize, -1isize), (-1isize, 0isize)]
}

/// The anti-cell offsets of a puzzle with the given variant rules.
pub open spec fn variant_anti_cells(anti_king: bool, anti_knight: bool) -> Seq<(isize, isize)> {
    (if anti_king {
        king_moves()
    } else {
        Seq::empty()
    }) + (if anti_knight {
        knight_moves()
    } else {
        Seq::empty()
    })
}

/// The non-consecutive offsets of a puzzle with or without that rule.
pub open spec fn variant_non_con_cells(non_con: bool) -> Seq<(isize, isize)> {
    if non_con {
        side_moves()
    } else {
        Seq::empty()
    }
}

impl PuzzleConfig {
    /// The rules of a puzzle with the given variants: with `anti_king` no
    /// two cells a king's move apart hold the same digit, with `anti_knight`
    /// none a knight's move apart, and with `non_con` no two cells side by
    /// side hold consecutive digits.
    pub fn for_variants(anti_king: bool, anti_knight: bool, non_con: bool) -> (config: Self)
        ensures
            config.anti_cells@ == variant_anti_cells(anti_king, anti_knight),
            config.non_con_cells@ == variant_non_con_cells(non_con),
    {
        let mut anti_cells: Vec<(isize, isize)> = Vec::new();
        let mut non_con_cells: Vec<(isize, isize)> = Vec::new();
        if non_con {
            non_con_cells.push((0, 1));
            non_con_cells.push((1, 0));
            non_con_cells.push((0, -1));
            non_con_cells.push((-1, 0));
        }
        if anti_king {
            // 8 neighboring cells
            anti_cells.push((-1, 1));
            anti_cells.push((0, 1));
            anti_cells.push((1, 1));
            anti_cells.push((1, 0));
            anti_cells.push((1, -1));
            anti_cells.push((0, -1));
            anti_cells.push((-1, -1));
            anti_cells.push((-1, 0));
        }
        let ghost kings = anti_cells@;
        if anti_knight {
            anti_cells.push((-1, 2));
            anti_cells.push((1, 2));
            anti_cells.push((2, 1));
            anti_cells.push((2, -1));
            anti_cells.push((1, -2));
            anti_cells.push((-1, -2));
            anti_cells.push((-2, -1));
            anti_cells.push((-2, 1));
        }
        proof {
            assert(non_con_cells@ =~= variant_non_con_cells(non_con));
            assert(kings =~= if anti_king {
                king_moves()
            } else {
                Seq::empty()
            });
            assert(anti_cells@ =~= variant_anti_cells(anti_king, anti_knight));
        }
        Self { anti_cells, non_con_cells }
    }

    /// The rules with the given offsets.
    pub fn new(anti_cells: Vec<(isize, isize)>, non_con_cells: Vec<(isize, isize)>) -> (config:
        Self)
        ensures
            config.anti_cells == anti_cells,
            config.non_con_cells == non_con_cells,
    {
        Self { anti_cells, non_con_cells }
    }
}

/// `number` moved by `delta`, if that stays within `0..9`.
pub open spec fn spec_offset(number: usize, delta: isize) -> Option<usize> {
    if 0 <= number + delta < 9 {
        Some((number + delta) as usize)
    } else {
        None
    }
}

/// The cell (`x`, `y`) moved by (`offset_x`, `offset_y`), if that stays on
/// the board.
pub open spec fn spec_offset_pos(x: usize, y: usize, offset_x: isize, offset_y: isize) -> Option<
    (usize, usize),
> {
    match (spec_offset(x, offset_x), spec_offset(y, offset_y)) {
        (Some(new_x), Some(new_y)) => Some((new_x, new_y)),
        _ => None,
    }
}

/// `cell` moved by `offset`, if that stays on the board.
pub open spec fn neighbour(cell: (nat, nat), offset: (isize, isize)) -> Option<(nat, nat)> {
    match spec_offset_pos(cell.0 as usize, cell.1 as usize, offset.0, offset.1) {
        Some((near_x, near_y)) => Some((near_x as nat, near_y as nat)),
        None => None,
    }
}

/// `number` moved by `delta`, if that stays within `0..9`.
#[verifier::when_used_as_spec(spec_offset)]
pub fn offset(number: usize, delta: isize) -> (moved: Option<usize>)
    ensures
        moved == spec_offset(number, delta),
{
    let new_number: i128 = number as i128 + delta as i128;
    if new_number >= 0 && new_number < 9 {
        Some(new_number as usize)
    } else {
        None
    }
}

/// The cell (`x`, `y`) moved by (`offset_x`, `offset_y`), if that stays on
/// the board.
#[verifier::when_used_as_spec(spec_offset_pos)]
pub fn offset_pos(x: usize, y: usize, offset_x: isize, offset_y: isize) -> (moved: Option<
    (usize, usize),
>)
    ensures
        moved == spec_offset_pos(x, y, offset_x, offset_y),
{
    match offset(x, offset_x) {
        Some(new_x) => match offset(y, offset_y) {
            Some(new_y) => Some((new_x, new_y)),
            None => None,
        },
        None => None,
    }
}

/// Why a committed digit rules a digit out of another cell.
#[derive(Debug, Clone, Copy, PartialEq, Eq, Structural)]
pub enum Reason {
    SameRow,
    SameColumn,
    SameBlock,
    NearCell,
    DirectNeighbor,
}

/// One digit to rule out of one cell.
#[derive(Debug, Clone, Copy, PartialEq, Eq, Structural)]
pub struct Elimination {
    pub x: usize,
    pub y: usize,
    pub number: usize,
    pub reason: Reason,
}

/// `number` ruled out of the nine cells of row `y`, from left to right.
pub open spec fn row_targets(y: usize, number: usize) -> Seq<Elimination> {
    Seq::new(9, |i: int| Elimination { x: i as usize, y, number, reason: Reason::SameRow })
}

/// `number` ruled out of the nine cells of column `x`, from top to bottom.
pub open spec fn column_targets(x: usize, number: usize) -> Seq<Elimination> {
    Seq::new(9, |i: int| Elimination { x, y: i as usize, number, reason: Reason::SameColumn })
}

/// `number` ruled out of the nine cells of the block of (`x`, `y`), column by
/// column.
pub open spec fn block_targets(x: usize, y: usize, number: usize) -> Seq<Elimination> {
    Seq::new(
        9,
        |i: int|
            Elimination {
                x: (x / 3 * 3 + i / 3) as usize,
                y: (y / 3 * 3 + i % 3) as usize,
                number,
                reason: Reason::SameBlock,
            },
    )
}

/// `number` ruled out of each cell that lies at one of `offsets` from
/// (`x`, `y`) and on the board, in the order of `offsets`.
pub open spec fn near_targets(x: usize, y: usize, number: usize, offsets: Seq<(isize, isize)>) -> Seq<
    Elimination,
>
    decreases offsets.len(),
{
    if offsets.len() == 0 {
        Seq::empty()
    } else {
        let before = near_targets(x, y, number, offsets.drop_last());
        match spec_offset_pos(x, y, offsets.last().0, offsets.last().1) {
            Some((near_x, near_y)) => before.push(
                Elimination { x: near_x, y: near_y, number, reason: Reason::NearCell },
            ),
            None => before,
        }
    }
}

/// The digits next to `number`, the higher one first, ruled out of the cell
/// (`x`, `y`).
pub open spec fn adjacent_digit_targets(x: usize, y: usize, number: usize) -> Seq<Elimination> {
    let higher = match spec_offset(number, 1isize) {
        Some(above) => seq![
            Elimination { x, y, number: above, reason: Reason::DirectNeighbor },
        ],
        None => Seq::empty(),
    };
    let lower = match spec_offset(number, -1isize) {
        Some(below) => seq![
            Elimination { x, y, number: below, reason: Reason::DirectNeighbor },
        ],
        None => Seq::empty(),
    };
    higher + lower
}

/// The digits next to `number` ruled out of each cell that lies at one of
/// `offsets` from (`x`, `y`) and on the board, in the order of `offsets`.
pub open spec fn neighbor_targets(
    x: usize,
    y: usize,
    number: usize,
    offsets: Seq<(isize, isize)>,
) -> Seq<Elimination>
    decreases offsets.len(),
{
    if offsets.len() == 0 {
        Seq::empty()
    } else {
        let before = neighbor_targets(x, y, number, offsets.drop_last());
        match spec_offset_pos(x, y, offsets.last().0, offsets.last().1) {
            Some((near_x, near_y)) => before + adjacent_digit_targets(near_x, near_y, number),
            None => before,
        }
    }
}

/// Everything that committing `number` at (`x`, `y`) rules out, in the order
/// in which it is ruled out: the row, the column, the block, the cells at the
/// anti-cell offsets, then the neighbouring digits at the non-consecutive
/// offsets. The cell (`x`, `y`) itself is listed where a rule reaches it; it
/// is passed over when the list is worked off.
pub open spec fn affected(
    x: usize,
    y: usize,
    number: usize,
    anti_cells: Seq<(isize, isize)>,
    non_con_cells: Seq<(isize, isize)>,
) -> Seq<Elimination> {
    row_targets(y, number) + column_targets(x, number) + block_targets(x, y, number)
        + near_targets(x, y, number, anti_cells) + neighbor_targets(x, y, number, non_con_cells)
}

/// Whether every entry of `targets` names a cell of the board and a digit.
pub open spec fn targets_on_board(targets: Seq<Elimination>) -> bool {
    forall|i: int|
        0 <= i < targets.len() ==> (#[trigger] targets[i]).x < 9 && targets[i].y < 9
            && targets[i].number < 9
}

/// Computes the list `affected` for a commitment.
pub fn affected_cells(x: usize, y: usize, number: usize, config: &PuzzleConfig) -> (targets: Vec<
    Elimination,
>)
    requires
        x < 9,
        y < 9,
        number < 9,
    ensures
        targets@ == affected(x, y, number, config.anti_cells@, config.non_con_cells@),
        targets_on_board(targets@),
{
    let mut targets: Vec<Elimination> = Vec::new();
    let mut i: usize = 0;
    while i < 9
        invariant
            i <= 9,
            targets@ == row_targets(y, number).take(i as int),
        decreases 9 - i,
    {
        targets.push(Elimination { x: i, y, number, reason: Reason::SameRow });
        i += 1;
        assert(targets@ =~= row_targets(y, number).take(i as int));
    }
    assert(targets@ =~= row_targets(y, number));
    i = 0;
    while i < 9
        invariant
            i <= 9,
            targets@ == row_targets(y, number) + column_targets(x, number).take(i as int),
        decreases 9 - i,
    {
        targets.push(Elimination { x, y: i, number, reason: Reason::SameColumn });
        i += 1;
        assert(targets@ =~= row_targets(y, number) + column_targets(x, number).take(i as int));
    }
    assert(targets@ =~= row_targets(y, number) + column_targets(x, number));
    let block_x: usize = x / 3 * 3;
    let block_y: usize = y / 3 * 3;
    i = 0;
    while i < 9
        invariant
            i <= 9,
            x < 9,
            y < 9,
            block_x == x / 3 * 3,
            block_y == y / 3 * 3,
            targets@ == row_targets(y, number) + column_targets(x, number) + block_targets(
                x,
                y,
                number,
            ).take(i as int),
        decreases 9 - i,
    {
        targets.push(
            Elimination {
                x: block_x + i / 3,
                y: block_y + i % 3,
                number,
                reason: Reason::SameBlock,
            },
        );
        i += 1;
        assert(targets@ =~= row_targets(y, number) + column_targets(x, number) + block_targets(
            x,
            y,
            number,
        ).take(i as int));
    }
    assert(targets@ =~= row_targets(y, number) + column_targets(x, number) + block_targets(
        x,
        y,
        number,
    ));
    let ghost fixed = targets@;
    assert(targets_on_board(fixed));
    let mut k: usize = 0;
    while k < config.anti_cells.len()
        invariant
            k <= config.anti_cells.len(),
            number < 9,
            targets@ == fixed + near_targets(x, y, number, config.anti_cells@.take(k as int)),
            targets_on_board(targets@),
        decreases config.anti_cells.len() - k,
    {
        let (offset_x, offset_y) = config.anti_cells[k];
        proof {
            let upto = config.anti_cells@.take(k + 1);
            assert(upto.drop_last() =~= config.anti_cells@.take(k as int));
            assert(upto.last() == config.anti_cells@[k as int]);
        }
        if let Some((near_x, near_y)) = offset_pos(x, y, offset_x, offset_y) {
            targets.push(Elimination { x: near_x, y: near_y, number, reason: Reason::NearCell });
        }
        k += 1;
        assert(targets@ =~= fixed + near_targets(
            x,
            y,
            number,
            config.anti_cells@.take(k as int),
        ));
    }
    assert(config.anti_cells@.take(k as int) =~= config.anti_cells@);
    let ghost with_near = targets@;
    k = 0;
    while k < config.non_con_cells.len()
        invariant
            k <= config.non_con_cells.len(),
            number < 9,
            targets@ == with_near + neighbor_targets(
                x,
                y,
                number,
                config.non_con_cells@.take(k as int),
            ),
            targets_on_board(targets@),
        decreases config.non_con_cells.len() - k,
    {
        let (offset_x, offset_y) = config.non_con_cells[k];
        proof {
            let upto = config.non_con_cells@.take(k + 1);
            assert(upto.drop_last() =~= config.non_con_cells@.take(k as int));
            assert(upto.last() == config.non_con_cells@[k as int]);
        }
        if let Some((near_x, near_y)) = offset_pos(x, y, offset_x, offset_y) {
            if let Some(number_increment) = offset(number, 1) {
                targets.push(
                    Elimination {
                        x: near_x,
                        y: near_y,
                        number: number_increment,
                        reason: Reason::DirectNeighbor,
                    },
                );
            }
            if let Some(number_decrement) = offset(number, -1) {
                targets.push(
                    Elimination {
                        x: near_x,
                        y: near_y,
                        number: number_decrement,
                        reason: Reason::DirectNeighbor,
                    },
                );
            }
        }
        k += 1;
        assert(targets@ =~= with_near + neighbor_targets(
            x,
            y,
            number,
            config.non_con_cells@.take(k as int),
        ));
    }
    assert(config.non_con_cells@.take(k as int) =~= config.non_con_cells@);
    assert(targets@ =~= affected(x, y, number, config.anti_cells@, config.non_con_cells@));
    targets
}

/// A cell that lies at one of `offsets` from (`x`, `y`) occurs in
/// `near_targets`, at the position returned.
pub proof fn lemma_near_member(
    x: usize,
    y: usize,
    number: usize,
    offsets: Seq<(isize, isize)>,
    i: int,
) -> (k: int)
    requires
        0 <= i < offsets.len(),
        spec_offset_pos(x, y, offsets[i].0, offsets[i].1) is Some,
    ensures
        0 <= k < near_targets(x, y, number, offsets).len(),
        near_targets(x, y, number, offsets)[k] == (Elimination {
            x: spec_offset_pos(x, y, offsets[i].0, offsets[i].1).unwrap().0,
            y: spec_offset_pos(x, y, offsets[i].0, offsets[i].1).unwrap().1,
            number,
            reason: Reason::NearCell,
        }),
    decreases offsets.len(),
{
    let before = near_targets(x, y, number, offsets.drop_last());
    if i == offsets.len() - 1 {
        before.len() as int
    } else {
        lemma_near_member(x, y, number, offsets.drop_last(), i)
    }
}

/// A digit next to `number`, in a cell that lies at one of `offsets` from
/// (`x`, `y`), occurs in `neighbor_targets`, at the position returned.
pub proof fn lemma_neighbor_member(
    x: usize,
    y: usize,
    number: usize,
    offsets: Seq<(isize, isize)>,
    i: int,
    delta: isize,
) -> (k: int)
    requires
        0 <= i < offsets.len(),
        spec_offset_pos(x, y, offsets[i].0, offsets[i].1) is Some,
        delta == 1 || delta == -1,
        spec_offset(number, delta) is Some,
    ensures
        0 <= k < neighbor_targets(x, y, number, offsets).len(),
        neighbor_targets(x, y, number, offsets)[k] == (Elimination {
            x: spec_offset_pos(x, y, offsets[i].0, offsets[i].1).unwrap().0,
            y: spec_offset_pos(x, y, offsets[i].0, offsets[i].1).unwrap().1,
            number: spec_offset(number, delta).unwrap(),
            reason: Reason::DirectNeighbor,
        }),
    decreases offsets.len(),
{
    let before = neighbor_targets(x, y, number, offsets.drop_last());
    if i == offsets.len() - 1 {
        if delta == 1 || spec_offset(number, 1isize) is None {
            before.len() as int
        } else {
            (before.len() + 1) as int
        }
    } else {
        lemma_neighbor_member(x, y, number, offsets.drop_last(), i, delta)
    }
}

} // verus!
