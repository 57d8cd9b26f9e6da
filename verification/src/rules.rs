//! The rules of the puzzle, stated of a filled board, and what it means for
//! a board of candidates to allow a filling.

use crate::cell::digit_count;
use crate::config::{
    affected, king_moves, knight_moves, lemma_near_member, lemma_neighbor_member, near_targets,
    neighbor_targets, neighbour, side_moves, spec_offset_pos, variant_anti_cells,
    variant_non_con_cells, Elimination,
};
use crate::grid::{on_board, shares_region, Grid};
use crate::propagate::cell_of;
use crate::region::region_cell;
use vstd::prelude::*;
use vstd::relations::injective_on;
use vstd::set_lib::{lemma_int_range, lemma_map_size, lemma_subset_equality, set_int_range};

verus! {

/// A digit for every cell.
pub type Filling = Map<(nat, nat), usize>;

/// Whether `a` gives every cell of the board a digit.
pub open spec fn is_filling(a: Filling) -> bool {
    forall|cell: (nat, nat)| on_board(cell) ==> (#[trigger] a[cell]) < 9
}

/// Whether no two cells of a row, of a column or of a block hold the same
/// digit.
pub open spec fn keeps_regions(a: Filling) -> bool {
    forall|cell: (nat, nat), other: (nat, nat)|
        on_board(cell) && on_board(other) && cell != other && shares_region(cell, other)
            ==> #[trigger] a[cell] != #[trigger] a[other]
}

/// Whether no cell holds the digit of a cell from which it lies at one of
/// `anti_cells`.
pub open spec fn keeps_anti_cells(a: Filling, anti_cells: Seq<(isize, isize)>) -> bool {
    forall|cell: (nat, nat), i: int|
        on_board(cell) && 0 <= i < anti_cells.len() ==> match #[trigger] neighbour(
            cell,
            anti_cells[i],
        ) {
            Some(other) => other != cell ==> a[other] != a[cell],
            None => true,
        }
}

/// Whether no cell holds a digit next to that of a cell from which it lies
/// at one of `non_con_cells`.
pub open spec fn keeps_non_consecutive(a: Filling, non_con_cells: Seq<(isize, isize)>) -> bool {
    forall|cell: (nat, nat), i: int|
        on_board(cell) && 0 <= i < non_con_cells.len() ==> match #[trigger] neighbour(
            cell,
            non_con_cells[i],
        ) {
            Some(other) => other != cell ==> a[other] != a[cell] + 1 && a[other] + 1 != a[cell],
            None => true,
        }
}

/// Whether `a` is a solution under the given rules: a digit in every cell,
/// each digit once in every row, column and block, and the variant rules
/// kept.
pub open spec fn keeps_rules(
    a: Filling,
    anti_cells: Seq<(isize, isize)>,
    non_con_cells: Seq<(isize, isize)>,
) -> bool {
    &&& is_filling(a)
    &&& keeps_regions(a)
    &&& keeps_anti_cells(a, anti_cells)
    &&& keeps_non_consecutive(a, non_con_cells)
}

/// Whether `g` has, in every cell, the digit of `a` among the candidates.
pub open spec fn allows(g: Grid, a: Filling) -> bool {
    forall|cell: (nat, nat)| on_board(cell) ==> g[cell].contains(#[trigger] a[cell] as nat)
}

/// Whether `g` holds, in every cell, the digit of `a` as the only one.
pub open spec fn shows(g: Grid, a: Filling) -> bool {
    forall|cell: (nat, nat), d: nat|
        on_board(cell) && d < 9 ==> (#[trigger] g[cell].contains(d) <==> d == a[cell])
}

/// Whether `target` rules the digit `d` out of `cell`.
pub open spec fn hits(target: Elimination, cell: (nat, nat), d: nat) -> bool {
    cell_of(target) == cell && target.number == d
}

/// Whether the digit `e` at `cell` rules the digit `d` out of `other`: under
/// all the rules, where `full` is set; else under the rule of the rows,
/// columns and blocks alone.
pub open spec fn rules_out(
    full: bool,
    cell: (nat, nat),
    e: nat,
    other: (nat, nat),
    d: nat,
    anti_cells: Seq<(isize, isize)>,
    non_con_cells: Seq<(isize, isize)>,
) -> bool {
    if full {
        exists|i: int|
            0 <= i < affected(
                cell.0 as usize,
                cell.1 as usize,
                e as usize,
                anti_cells,
                non_con_cells,
            ).len() && hits(
                #[trigger] affected(
                    cell.0 as usize,
                    cell.1 as usize,
                    e as usize,
                    anti_cells,
                    non_con_cells,
                )[i],
                other,
                d,
            )
    } else {
        shares_region(cell, other) && d == e
    }
}

/// Whether what the digit of every certain cell of `g` rules out elsewhere
/// is not possible there: propagation has nothing left to do. With `full`
/// this is said of all the rules, else of the rows, columns and blocks.
pub open spec fn is_settled(
    g: Grid,
    full: bool,
    anti_cells: Seq<(isize, isize)>,
    non_con_cells: Seq<(isize, isize)>,
) -> bool {
    forall|cell: (nat, nat), other: (nat, nat), e: nat, d: nat|
        #![trigger g[cell].contains(e), g[other].contains(d)]
        on_board(cell) && on_board(other) && cell != other && e < 9 && d < 9 && digit_count(
            g[cell],
        ) == 1 && g[cell].contains(e) && rules_out(
            full,
            cell,
            e,
            other,
            d,
            anti_cells,
            non_con_cells,
        ) ==> !g[other].contains(d)
}

/// Whether the rules are mutual: what rules a digit out of another cell is
/// in turn ruled out by that digit there.
pub open spec fn mutual(
    full: bool,
    anti_cells: Seq<(isize, isize)>,
    non_con_cells: Seq<(isize, isize)>,
) -> bool {
    forall|cell: (nat, nat), other: (nat, nat), e: nat, d: nat|
        on_board(cell) && on_board(other) && cell != other && e < 9 && d < 9 && #[trigger] rules_out(
            full,
            cell,
            e,
            other,
            d,
            anti_cells,
            non_con_cells,
        ) ==> rules_out(full, other, d, cell, e, anti_cells, non_con_cells)
}

/// The position at which committing `e` at `cell` lists the ruling out of
/// `d` at `other`.
pub proof fn lemma_rules_out_target(
    full: bool,
    cell: (nat, nat),
    e: nat,
    other: (nat, nat),
    d: nat,
    anti_cells: Seq<(isize, isize)>,
    non_con_cells: Seq<(isize, isize)>,
) -> (i: int)
    requires
        on_board(cell),
        on_board(other),
        cell != other,
        e < 9,
        rules_out(full, cell, e, other, d, anti_cells, non_con_cells),
    ensures
        0 <= i < affected(
            cell.0 as usize,
            cell.1 as usize,
            e as usize,
            anti_cells,
            non_con_cells,
        ).len(),
        hits(
            affected(cell.0 as usize, cell.1 as usize, e as usize, anti_cells, non_con_cells)[i],
            other,
            d,
        ),
{
    let x = cell.0 as usize;
    let y = cell.1 as usize;
    let targets = affected(x, y, e as usize, anti_cells, non_con_cells);
    if full {
        choose|i: int| 0 <= i < targets.len() && hits(#[trigger] targets[i], other, d)
    } else {
        let j: int = if other.1 == cell.1 {
            other.0 as int
        } else if other.0 == cell.0 {
            (9 + other.1) as int
        } else {
            18 + (other.0 - x / 3 * 3) * 3 + (other.1 - y / 3 * 3)
        };
        assert(0 <= j < 27);
        assert(cell_of(targets[j]) == other);
        assert(targets[j].number == e);
        j
    }
}

/// The rule of the rows, columns and blocks is mutual.
pub proof fn lemma_regions_mutual(
    anti_cells: Seq<(isize, isize)>,
    non_con_cells: Seq<(isize, isize)>,
)
    ensures
        mutual(false, anti_cells, non_con_cells),
{
}

/// What committing the digit of `a` at `cell` rules out.
pub open spec fn reach(
    a: Filling,
    cell: (nat, nat),
    anti_cells: Seq<(isize, isize)>,
    non_con_cells: Seq<(isize, isize)>,
) -> Seq<Elimination> {
    affected(cell.0 as usize, cell.1 as usize, a[cell], anti_cells, non_con_cells)
}

/// Whether `a` does not hold what `target` rules out, unless `target` names
/// `cell` itself.
pub open spec fn respects(a: Filling, cell: (nat, nat), target: Elimination) -> bool {
    cell_of(target) != cell ==> a[cell_of(target)] != target.number
}

/// Whether `a` holds nothing that the digit of one of its cells rules out
/// elsewhere.
pub open spec fn obeys(
    a: Filling,
    anti_cells: Seq<(isize, isize)>,
    non_con_cells: Seq<(isize, isize)>,
) -> bool {
    forall|cell: (nat, nat), i: int|
        on_board(cell) && 0 <= i < reach(a, cell, anti_cells, non_con_cells).len() ==> respects(
            a,
            cell,
            #[trigger] reach(a, cell, anti_cells, non_con_cells)[i],
        )
}

/// Each entry of `near_targets` rules the digit out of a cell that lies at
/// one of the offsets, the one at the position returned.
pub proof fn lemma_near_source(
    x: usize,
    y: usize,
    number: usize,
    offsets: Seq<(isize, isize)>,
    k: int,
) -> (i: int)
    requires
        0 <= k < near_targets(x, y, number, offsets).len(),
    ensures
        0 <= i < offsets.len(),
        spec_offset_pos(x, y, offsets[i].0, offsets[i].1) == Some(
            (near_targets(x, y, number, offsets)[k].x, near_targets(x, y, number, offsets)[k].y),
        ),
        near_targets(x, y, number, offsets)[k].number == number,
    decreases offsets.len(),
{
    let before = near_targets(x, y, number, offsets.drop_last());
    if k < before.len() {
        lemma_near_source(x, y, number, offsets.drop_last(), k)
    } else {
        offsets.len() - 1
    }
}

/// Each entry of `neighbor_targets` rules a digit next to `number` out of a
/// cell that lies at one of the offsets, the one at the position returned.
pub proof fn lemma_neighbor_source(
    x: usize,
    y: usize,
    number: usize,
    offsets: Seq<(isize, isize)>,
    k: int,
) -> (i: int)
    requires
        0 <= k < neighbor_targets(x, y, number, offsets).len(),
    ensures
        0 <= i < offsets.len(),
        spec_offset_pos(x, y, offsets[i].0, offsets[i].1) == Some(
            (
                neighbor_targets(x, y, number, offsets)[k].x,
                neighbor_targets(x, y, number, offsets)[k].y,
            ),
        ),
        neighbor_targets(x, y, number, offsets)[k].number == number + 1 || neighbor_targets(
            x,
            y,
            number,
            offsets,
        )[k].number + 1 == number,
    decreases offsets.len(),
{
    let before = neighbor_targets(x, y, number, offsets.drop_last());
    if k < before.len() {
        lemma_neighbor_source(x, y, number, offsets.drop_last(), k)
    } else {
        offsets.len() - 1
    }
}

/// A filling that keeps the rules holds nothing that the digit of one of its
/// cells rules out elsewhere.
pub proof fn lemma_rules_obeyed(
    a: Filling,
    anti_cells: Seq<(isize, isize)>,
    non_con_cells: Seq<(isize, isize)>,
)
    requires
        keeps_rules(a, anti_cells, non_con_cells),
    ensures
        obeys(a, anti_cells, non_con_cells),
{
    assert forall|cell: (nat, nat), i: int|
        on_board(cell) && 0 <= i < reach(a, cell, anti_cells, non_con_cells).len() implies respects(
        a,
        cell,
        #[trigger] reach(a, cell, anti_cells, non_con_cells)[i],
    ) by {
        let x = cell.0 as usize;
        let y = cell.1 as usize;
        let number = a[cell];
        let target = reach(a, cell, anti_cells, non_con_cells)[i];
        let near = near_targets(x, y, number, anti_cells);
        let neighbors = neighbor_targets(x, y, number, non_con_cells);
        if cell_of(target) != cell {
            if i < 27 {
                assert(on_board(cell_of(target)));
                assert(shares_region(cell, cell_of(target)));
                assert(target.number == number);
            } else if i < 27 + near.len() {
                let k = i - 27;
                assert(target == near[k]);
                let j = lemma_near_source(x, y, number, anti_cells, k);
                assert(neighbour(cell, anti_cells[j]) == Some(cell_of(target)));
            } else {
                let k = i - 27 - near.len();
                assert(target == neighbors[k]);
                let j = lemma_neighbor_source(x, y, number, non_con_cells, k);
                assert(neighbour(cell, non_con_cells[j]) == Some(cell_of(target)));
            }
        }
    }
}

/// Two positions of a region name two cells of one row, column or block;
/// different positions name different cells.
pub proof fn lemma_region_slots(region: nat, slot: nat, other: nat)
    requires
        region < 27,
        slot < 9,
        other < 9,
    ensures
        on_board(region_cell(region, slot)),
        shares_region(region_cell(region, slot), region_cell(region, other)),
        slot != other ==> region_cell(region, slot) != region_cell(region, other),
{
}

/// A filling that keeps the rules holds every digit in every region: at
/// the position returned.
pub proof fn lemma_region_holds_digit(a: Filling, region: nat, number: usize) -> (slot: nat)
    requires
        is_filling(a),
        keeps_regions(a),
        region < 27,
        number < 9,
    ensures
        slot < 9,
        a[region_cell(region, slot)] == number,
{
    let slots = set_int_range(0, 9);
    let digit = |s: int| a[region_cell(region, s as nat)] as int;
    let held = slots.map(digit);
    lemma_int_range(0, 9);
    assert(injective_on(digit, slots)) by {
        assert forall|s1: int, s2: int|
            slots.contains(s1) && slots.contains(s2) && #[trigger] digit(s1) == #[trigger] digit(
                s2,
            ) implies s1 == s2 by {
            lemma_region_slots(region, s1 as nat, s2 as nat);
        }
    }
    lemma_map_size(slots, held, digit);
    assert(held.subset_of(slots)) by {
        assert forall|d: int| held.contains(d) implies slots.contains(d) by {
            let s = choose|s: int| slots.contains(s) && d == digit(s);
            lemma_region_slots(region, s as nat, s as nat);
        }
    }
    lemma_subset_equality(held, slots);
    assert(slots.contains(number as int));
    assert(held.contains(number as int));
    let s = choose|s: int| slots.contains(s) && number as int == digit(s);
    s as nat
}

/// Whether `other` is the offset opposite to `offset`.
pub open spec fn opposite(offset: (isize, isize), other: (isize, isize)) -> bool {
    other.0 == -offset.0 && other.1 == -offset.1
}

/// Whether `offsets` holds the offset opposite to `offset`.
pub open spec fn has_opposite(offsets: Seq<(isize, isize)>, offset: (isize, isize)) -> bool {
    exists|j: int| 0 <= j < offsets.len() && opposite(offset, #[trigger] offsets[j])
}

/// Whether `offsets` holds, with every offset, the opposite one.
pub open spec fn symmetric(offsets: Seq<(isize, isize)>) -> bool {
    forall|i: int| 0 <= i < offsets.len() ==> has_opposite(offsets, #[trigger] offsets[i])
}

/// Two symmetric lists of offsets make a symmetric list.
pub proof fn lemma_symmetric_concat(first: Seq<(isize, isize)>, second: Seq<(isize, isize)>)
    requires
        symmetric(first),
        symmetric(second),
    ensures
        symmetric(first + second),
{
    let both = first + second;
    assert forall|i: int| 0 <= i < both.len() implies has_opposite(both, #[trigger] both[i]) by {
        if i < first.len() {
            assert(has_opposite(first, first[i]));
            let j = choose|j: int|
                0 <= j < first.len() && opposite(first[i], #[trigger] first[j]);
            assert(both[j] == first[j]);
        } else {
            let k = i - first.len();
            assert(has_opposite(second, second[k]));
            let j = choose|j: int|
                0 <= j < second.len() && opposite(second[k], #[trigger] second[j]);
            assert(both[first.len() + j] == second[j]);
        }
    }
}

/// The offsets of the variant rules are symmetric.
pub proof fn lemma_variants_symmetric(anti_king: bool, anti_knight: bool, non_con: bool)
    ensures
        symmetric(variant_anti_cells(anti_king, anti_knight)),
        symmetric(variant_non_con_cells(non_con)),
{
    let kings = king_moves();
    let knights = knight_moves();
    let sides = side_moves();
    let none = Seq::<(isize, isize)>::empty();
    assert forall|i: int| 0 <= i < kings.len() implies has_opposite(kings, #[trigger] kings[i]) by {
        assert(opposite(kings[i], kings[(i + 4) % 8]));
    }
    assert forall|i: int| 0 <= i < knights.len() implies has_opposite(
        knights,
        #[trigger] knights[i],
    ) by {
        assert(opposite(knights[i], knights[(i + 4) % 8]));
    }
    assert forall|i: int| 0 <= i < sides.len() implies has_opposite(sides, #[trigger] sides[i]) by {
        assert(opposite(sides[i], sides[(i + 2) % 4]));
    }
    assert(symmetric(none));
    lemma_symmetric_concat(
        if anti_king {
            kings
        } else {
            none
        },
        if anti_knight {
            knights
        } else {
            none
        },
    );
}

/// What the rule of the rows, columns and blocks rules out, all the rules
/// together rule out.
pub proof fn lemma_regions_in_rules(
    cell: (nat, nat),
    e: nat,
    other: (nat, nat),
    anti_cells: Seq<(isize, isize)>,
    non_con_cells: Seq<(isize, isize)>,
)
    requires
        on_board(cell),
        on_board(other),
        cell != other,
        e < 9,
        shares_region(cell, other),
    ensures
        rules_out(true, cell, e, other, e, anti_cells, non_con_cells),
{
    let i = lemma_rules_out_target(false, cell, e, other, e, anti_cells, non_con_cells);
}

/// With symmetric offsets, a cell is at an anti-cell offset from every cell
/// that is at an anti-cell offset from it.
proof fn lemma_near_mutual(
    cell: (nat, nat),
    other: (nat, nat),
    e: nat,
    anti_cells: Seq<(isize, isize)>,
    non_con_cells: Seq<(isize, isize)>,
    k: int,
)
    requires
        on_board(cell),
        on_board(other),
        e < 9,
        symmetric(anti_cells),
        0 <= k < near_targets(cell.0 as usize, cell.1 as usize, e as usize, anti_cells).len(),
        hits(
            near_targets(cell.0 as usize, cell.1 as usize, e as usize, anti_cells)[k],
            other,
            e,
        ),
    ensures
        rules_out(true, other, e, cell, e, anti_cells, non_con_cells),
{
    let x = cell.0 as usize;
    let y = cell.1 as usize;
    let ox = other.0 as usize;
    let oy = other.1 as usize;
    let back = affected(ox, oy, e as usize, anti_cells, non_con_cells);
    let back_near = near_targets(ox, oy, e as usize, anti_cells);
    let j = lemma_near_source(x, y, e as usize, anti_cells, k);
    assert(has_opposite(anti_cells, anti_cells[j]));
    let j2 = choose|j2: int|
        0 <= j2 < anti_cells.len() && opposite(anti_cells[j], #[trigger] anti_cells[j2]);
    let k2 = lemma_near_member(ox, oy, e as usize, anti_cells, j2);
    assert(back[27 + k2] == back_near[k2]);
    assert(hits(back[27 + k2], cell, e));
}

/// With symmetric offsets, a digit next to another is ruled out by it at a
/// non-consecutive offset wherever it rules the other out.
proof fn lemma_neighbor_mutual(
    cell: (nat, nat),
    other: (nat, nat),
    e: nat,
    d: nat,
    anti_cells: Seq<(isize, isize)>,
    non_con_cells: Seq<(isize, isize)>,
    k: int,
)
    requires
        on_board(cell),
        on_board(other),
        e < 9,
        d < 9,
        symmetric(non_con_cells),
        0 <= k < neighbor_targets(
            cell.0 as usize,
            cell.1 as usize,
            e as usize,
            non_con_cells,
        ).len(),
        hits(
            neighbor_targets(cell.0 as usize, cell.1 as usize, e as usize, non_con_cells)[k],
            other,
            d,
        ),
    ensures
        rules_out(true, other, d, cell, e, anti_cells, non_con_cells),
{
    let x = cell.0 as usize;
    let y = cell.1 as usize;
    let ox = other.0 as usize;
    let oy = other.1 as usize;
    let back = affected(ox, oy, d as usize, anti_cells, non_con_cells);
    let back_near = near_targets(ox, oy, d as usize, anti_cells);
    let back_neighbors = neighbor_targets(ox, oy, d as usize, non_con_cells);
    let j = lemma_neighbor_source(x, y, e as usize, non_con_cells, k);
    assert(has_opposite(non_con_cells, non_con_cells[j]));
    let j2 = choose|j2: int|
        0 <= j2 < non_con_cells.len() && opposite(non_con_cells[j], #[trigger] non_con_cells[j2]);
    let delta: isize = if d == e + 1 {
        -1isize
    } else {
        1isize
    };
    let k2 = lemma_neighbor_member(ox, oy, d as usize, non_con_cells, j2, delta);
    assert(back[27 + back_near.len() + k2] == back_neighbors[k2]);
    assert(hits(back[27 + back_near.len() + k2], cell, e));
}

/// With symmetric offsets all the rules together are mutual.
pub proof fn lemma_symmetric_mutual(
    anti_cells: Seq<(isize, isize)>,
    non_con_cells: Seq<(isize, isize)>,
)
    requires
        symmetric(anti_cells),
        symmetric(non_con_cells),
    ensures
        mutual(true, anti_cells, non_con_cells),
{
    assert forall|cell: (nat, nat), other: (nat, nat), e: nat, d: nat|
        on_board(cell) && on_board(other) && cell != other && e < 9 && d < 9 && #[trigger] rules_out(
            true,
            cell,
            e,
            other,
            d,
            anti_cells,
            non_con_cells,
        ) implies rules_out(true, other, d, cell, e, anti_cells, non_con_cells) by {
        let x = cell.0 as usize;
        let y = cell.1 as usize;
        let targets = affected(x, y, e as usize, anti_cells, non_con_cells);
        let near = near_targets(x, y, e as usize, anti_cells);
        let i = lemma_rules_out_target(true, cell, e, other, d, anti_cells, non_con_cells);
        if i < 27 {
            assert(shares_region(other, cell));
            assert(d == e);
            lemma_regions_in_rules(other, d, cell, anti_cells, non_con_cells);
        } else if i < 27 + near.len() {
            assert(targets[i] == near[i - 27]);
            let j = lemma_near_source(x, y, e as usize, anti_cells, i - 27);
            lemma_near_mutual(cell, other, e, anti_cells, non_con_cells, i - 27);
        } else {
            let neighbors = neighbor_targets(x, y, e as usize, non_con_cells);
            assert(targets[i] == neighbors[i - 27 - near.len()]);
            lemma_neighbor_mutual(
                cell,
                other,
                e,
                d,
                anti_cells,
                non_con_cells,
                i - 27 - near.len(),
            );
        }
    }
}

/// What a settled board promises of one certain cell and one other cell.
pub proof fn lemma_settled_use(
    g: Grid,
    full: bool,
    anti_cells: Seq<(isize, isize)>,
    non_con_cells: Seq<(isize, isize)>,
    cell: (nat, nat),
    other: (nat, nat),
    e: nat,
    d: nat,
)
    requires
        is_settled(g, full, anti_cells, non_con_cells),
        on_board(cell),
        on_board(other),
        cell != other,
        e < 9,
        d < 9,
        digit_count(g[cell]) == 1,
        g[cell].contains(e),
        rules_out(full, cell, e, other, d, anti_cells, non_con_cells),
    ensures
        !g[other].contains(d),
{
}

} // verus!
