//! The mathematical model of a board: the candidate digits of each cell,
//! and a measure of how much of the board is still undecided.

use crate::cell::digit_count;
use vstd::prelude::*;

verus! {

/// A board as a map from cells, written (column, row), to candidate digits.
pub type Grid = Map<(nat, nat), Set<nat>>;

/// Whether `cell` is one of the 81 cells of the board.
pub open spec fn on_board(cell: (nat, nat)) -> bool {
    cell.0 < 9 && cell.1 < 9
}

/// Whether two cells lie in the same row, the same column or the same block.
pub open spec fn shares_region(a: (nat, nat), b: (nat, nat)) -> bool {
    a.0 == b.0 || a.1 == b.1 || (a.0 / 3 == b.0 / 3 && a.1 / 3 == b.1 / 3)
}

/// Whether some cell of `g` has no candidate left.
pub open spec fn is_dead(g: Grid) -> bool {
    exists|cell: (nat, nat)| on_board(cell) && digit_count(#[trigger] g[cell]) == 0
}

/// Whether every cell of `g` has exactly one candidate.
pub open spec fn is_solved(g: Grid) -> bool {
    forall|cell: (nat, nat)| on_board(cell) ==> digit_count(#[trigger] g[cell]) == 1
}

/// Whether every cell of `g` keeps only candidates that it has in `bound`.
pub open spec fn within(g: Grid, bound: Grid) -> bool {
    forall|cell: (nat, nat)| on_board(cell) ==> (#[trigger] g[cell]).subset_of(bound[cell])
}

/// What a cell with candidates `s` adds to the weight of a board: the count
/// of its candidates, but 1 for a cell without any.
pub open spec fn slack(s: Set<nat>) -> nat {
    if digit_count(s) <= 1 {
        1
    } else {
        digit_count(s)
    }
}

/// The cell with running number `k`, counted column by column.
pub open spec fn cell_at(k: nat) -> (nat, nat) {
    (k / 9, k % 9)
}

/// The running number of `cell`.
pub open spec fn index_of(cell: (nat, nat)) -> nat {
    cell.0 * 9 + cell.1
}

/// The sum of `slack` over the first `k` cells.
pub open spec fn slack_below(g: Grid, k: nat) -> nat
    decreases k,
{
    if k == 0 {
        0
    } else {
        slack_below(g, (k - 1) as nat) + slack(g[cell_at((k - 1) as nat)])
    }
}

/// The weight of a board: the sum of `slack` over its 81 cells. Propagation
/// never raises it, and every branch of the search lowers it.
pub open spec fn weight(g: Grid) -> nat {
    slack_below(g, 81)
}

/// What `cell` adds to the weight of `g`: nothing, if it is off the board.
pub open spec fn share(g: Grid, cell: (nat, nat)) -> nat {
    if on_board(cell) {
        slack(g[cell])
    } else {
        0
    }
}

/// Replacing the candidates of one cell changes the sum over the first `k`
/// cells by the change of that cell's share, where the cell is among them.
proof fn lemma_slack_below_insert(g: Grid, cell: (nat, nat), s: Set<nat>, k: nat)
    requires
        k <= 81,
    ensures
        slack_below(g.insert(cell, s), k) + (if on_board(cell) && index_of(cell) < k {
            slack(g[cell])
        } else {
            0
        }) == slack_below(g, k) + (if on_board(cell) && index_of(cell) < k {
            slack(s)
        } else {
            0
        }),
    decreases k,
{
    if k > 0 {
        let j = (k - 1) as nat;
        lemma_slack_below_insert(g, cell, s, j);
        assert(cell_at(j) == cell <==> on_board(cell) && index_of(cell) == j);
    }
}

/// Replacing the candidates of one cell changes the weight by the change of
/// that cell's share.
pub proof fn lemma_weight_insert(g: Grid, cell: (nat, nat), s: Set<nat>)
    ensures
        weight(g.insert(cell, s)) + share(g, cell) == weight(g) + share(g.insert(cell, s), cell),
{
    lemma_slack_below_insert(g, cell, s, 81);
}

} // verus!
