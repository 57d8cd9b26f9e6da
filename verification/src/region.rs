//! The 27 groups of nine cells in which every digit occurs exactly once:
//! nine blocks, nine rows and nine columns.

use vstd::prelude::*;

verus! {

/// The number of unique regions of the board.
pub const REGION_COUNT: usize = 27;

/// The cell at position `slot` of region `region`, as (column, row).
///
/// Regions `0..9` are the 3x3 blocks, taken row of blocks by row of blocks;
/// regions `9..18` are the rows from top to bottom; regions `18..27` are the
/// columns from left to right.
pub open spec fn region_cell(region: nat, slot: nat) -> (nat, nat) {
    if region < 9 {
        (3 * (region % 3) + slot % 3, 3 * (region / 3) + slot / 3)
    } else if region < 18 {
        (slot, (region - 9) as nat)
    } else {
        ((region - 18) as nat, slot)
    }
}

/// The index of the block that holds the cell (`x`, `y`).
pub open spec fn block_of(x: nat, y: nat) -> nat {
    3 * (y / 3) + x / 3
}

/// The position of the cell (`x`, `y`) inside its block.
pub open spec fn slot_in_block(x: nat, y: nat) -> nat {
    3 * (y % 3) + x % 3
}

/// The display name of region `region`.
pub open spec fn region_name(region: nat) -> Seq<char> {
    if region == 0 {
        "top left block"@
    } else if region == 1 {
        "top block"@
    } else if region == 2 {
        "top right block"@
    } else if region == 3 {
        "left block"@
    } else if region == 4 {
        "center block"@
    } else if region == 5 {
        "right block"@
    } else if region == 6 {
        "bottom left block"@
    } else if region == 7 {
        "bottom block"@
    } else if region == 8 {
        "bottom right block"@
    } else if region == 9 {
        "row 1"@
    } else if region == 10 {
        "row 2"@
    } else if region == 11 {
        "row 3"@
    } else if region == 12 {
        "row 4"@
    } else if region == 13 {
        "row 5"@
    } else if region == 14 {
        "row 6"@
    } else if region == 15 {
        "row 7"@
    } else if region == 16 {
        "row 8"@
    } else if region == 17 {
        "row 9"@
    } else if region == 18 {
        "column A"@
    } else if region == 19 {
        "column B"@
    } else if region == 20 {
        "column C"@
    } else if region == 21 {
        "column D"@
    } else if region == 22 {
        "column E"@
    } else if region == 23 {
        "column F"@
    } else if region == 24 {
        "column G"@
    } else if region == 25 {
        "column H"@
    } else {
        "column I"@
    }
}

/// A row, a column or a 3x3 block: nine cells that hold each digit once.
pub struct UniqueRegion {
    pub name: &'static str,
    pub cells: [(usize, usize); 9],
}

impl UniqueRegion {
    /// Whether this value is region `region` of the board.
    pub open spec fn is_region(&self, region: nat) -> bool {
        &&& self.name@ == region_name(region)
        &&& forall|slot: int|
            0 <= slot < 9 ==> ((#[trigger] self.cells[slot]).0 as nat, self.cells[slot].1 as nat)
                == region_cell(region, slot as nat)
    }
}

/// The name of region `region`.
pub fn name_of_region(region: usize) -> (name: &'static str)
    requires
        region < REGION_COUNT,
    ensures
        name@ == region_name(region as nat),
{
    match region {
        0 => "top left block",
        1 => "top block",
        2 => "top right block",
        3 => "left block",
        4 => "center block",
        5 => "right block",
        6 => "bottom left block",
        7 => "bottom block",
        8 => "bottom right block",
        9 => "row 1",
        10 => "row 2",
        11 => "row 3",
        12 => "row 4",
        13 => "row 5",
        14 => "row 6",
        15 => "row 7",
        16 => "row 8",
        17 => "row 9",
        18 => "column A",
        19 => "column B",
        20 => "column C",
        21 => "column D",
        22 => "column E",
        23 => "column F",
        24 => "column G",
        25 => "column H",
        _ => "column I",
    }
}

/// Region `region` of the board, with its name and its nine cells in order.
pub fn unique_region(region: usize) -> (found: UniqueRegion)
    requires
        region < REGION_COUNT,
    ensures
        found.is_region(region as nat),
        forall|slot: int| 0 <= slot < 9 ==> found.cells[slot].0 < 9 && found.cells[slot].1 < 9,
{
    let name = name_of_region(region);
    let cells: [(usize, usize); 9] = if region < 9 {
        let x: usize = 3 * (region % 3);
        let y: usize = 3 * (region / 3);
        [
            (x, y),
            (x + 1, y),
            (x + 2, y),
            (x, y + 1),
            (x + 1, y + 1),
            (x + 2, y + 1),
            (x, y + 2),
            (x + 1, y + 2),
            (x + 2, y + 2),
        ]
    } else if region < 18 {
        let y: usize = region - 9;
        [(0, y), (1, y), (2, y), (3, y), (4, y), (5, y), (6, y), (7, y), (8, y)]
    } else {
        let x: usize = region - 18;
        [(x, 0), (x, 1), (x, 2), (x, 3), (x, 4), (x, 5), (x, 6), (x, 7), (x, 8)]
    };
    let found = UniqueRegion { name, cells };
    assert forall|slot: int| 0 <= slot < 9 implies ((#[trigger] found.cells[slot]).0 as nat, found.cells[slot].1 as nat)
        == region_cell(region as nat, slot as nat) by {
        assert(slot == 0 || slot == 1 || slot == 2 || slot == 3 || slot == 4 || slot == 5 || slot
            == 6 || slot == 7 || slot == 8);
    }
    found
}

/// A position of a block holds the cell (`x`, `y`) just if the block is
/// that of the cell and the position is that of the cell in it.
proof fn lemma_block_cell(region: nat, slot: nat, x: nat, y: nat)
    requires
        region < 9,
        slot < 9,
        x < 9,
        y < 9,
    ensures
        region_cell(region, slot) == (x, y) <==> region == block_of(x, y) && slot == slot_in_block(
            x,
            y,
        ),
{
    let across = region % 3;
    let down = region / 3;
    let right = slot % 3;
    let below = slot / 3;
    assert(region == 3 * down + across && across < 3 && down < 3);
    assert(slot == 3 * below + right && right < 3 && below < 3);
    if region_cell(region, slot) == (x, y) {
        assert(x == 3 * across + right && y == 3 * down + below);
        assert(x / 3 == across && x % 3 == right);
        assert(y / 3 == down && y % 3 == below);
    }
    if region == block_of(x, y) && slot == slot_in_block(x, y) {
        assert(x / 3 < 3 && y / 3 < 3 && x % 3 < 3 && y % 3 < 3);
        assert(across == x / 3 && down == y / 3);
        assert(right == x % 3 && below == y % 3);
        assert(x == 3 * (x / 3) + x % 3 && y == 3 * (y / 3) + y % 3);
    }
}

/// Every cell of the board lies in exactly one block, one row and one column,
/// each at exactly one position, and no region reaches outside the board:
/// together the regions of each kind cover the 81 cells.
pub proof fn lemma_region_coverage(x: nat, y: nat)
    requires
        x < 9,
        y < 9,
    ensures
        block_of(x, y) < 9,
        slot_in_block(x, y) < 9,
        forall|region: nat, slot: nat|
            region < 9 && slot < 9 ==> (#[trigger] region_cell(region, slot) == (x, y) <==> region
                == block_of(x, y) && slot == slot_in_block(x, y)),
        forall|region: nat, slot: nat|
            9 <= region < 18 && slot < 9 ==> (#[trigger] region_cell(region, slot) == (x, y)
                <==> region == 9 + y && slot == x),
        forall|region: nat, slot: nat|
            18 <= region < 27 && slot < 9 ==> (#[trigger] region_cell(region, slot) == (x, y)
                <==> region == 18 + x && slot == y),
{
    assert(x / 3 < 3 && y / 3 < 3 && x % 3 < 3 && y % 3 < 3);
    assert forall|region: nat, slot: nat| region < 9 && slot < 9 implies (#[trigger] region_cell(
        region,
        slot,
    ) == (x, y) <==> region == block_of(x, y) && slot == slot_in_block(x, y)) by {
        lemma_block_cell(region, slot, x, y);
    }
}

/// Every position of every region is a cell of the board.
pub proof fn lemma_region_on_board(region: nat, slot: nat)
    requires
        region < 27,
        slot < 9,
    ensures
        region_cell(region, slot).0 < 9,
        region_cell(region, slot).1 < 9,
{
}

} // verus!
