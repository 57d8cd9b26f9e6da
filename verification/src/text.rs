//! Names and texts: how cells, digits, reasons and boards are written out
//! for a reader.

use crate::board::SudokuState;
use crate::cell::CellState;
use crate::config::Reason;
use crate::grid::Grid;
use vstd::prelude::*;

verus! {

/// `String::push` of the standard library appends the character to the end
/// of the string.
pub assume_specification[ String::push ](s: &mut String, ch: char)
    ensures
        final(s)@ == old(s)@.push(ch),
;

/// `String::push_str` of the standard library appends the string slice to
/// the end of the string.
pub assume_specification[ String::push_str ](s: &mut String, string: &str)
    ensures
        final(s)@ == old(s)@ + string@,
;

/// The letter of column `x`: `A` for the leftmost.
pub open spec fn column_letter(x: usize) -> char {
    if x == 0 {
        'A'
    } else if x == 1 {
        'B'
    } else if x == 2 {
        'C'
    } else if x == 3 {
        'D'
    } else if x == 4 {
        'E'
    } else if x == 5 {
        'F'
    } else if x == 6 {
        'G'
    } else if x == 7 {
        'H'
    } else {
        'I'
    }
}

/// The character of the digit that is counted as `number`: `1` for 0.
pub open spec fn digit_mark(number: usize) -> char {
    if number == 0 {
        '1'
    } else if number == 1 {
        '2'
    } else if number == 2 {
        '3'
    } else if number == 3 {
        '4'
    } else if number == 4 {
        '5'
    } else if number == 5 {
        '6'
    } else if number == 6 {
        '7'
    } else if number == 7 {
        '8'
    } else {
        '9'
    }
}

/// The name of the cell (`x`, `y`): its column letter and its row digit.
pub open spec fn cell_name_text(x: usize, y: usize) -> Seq<char> {
    seq![column_letter(x), digit_mark(y)]
}

/// The words for `reason`.
pub open spec fn reason_text(reason: Reason) -> Seq<char> {
    match reason {
        Reason::SameRow => "same row"@,
        Reason::SameColumn => "same column"@,
        Reason::SameBlock => "same block"@,
        Reason::NearCell => "near cell"@,
        Reason::DirectNeighbor => "direct neighbor"@,
    }
}

/// The letter of column `x`.
pub fn column_letter_of(x: usize) -> (letter: char)
    requires
        x < 9,
    ensures
        letter == column_letter(x),
{
    match x {
        0 => 'A',
        1 => 'B',
        2 => 'C',
        3 => 'D',
        4 => 'E',
        5 => 'F',
        6 => 'G',
        7 => 'H',
        _ => 'I',
    }
}

/// The character of the digit that is counted as `number`.
pub fn digit_mark_of(number: usize) -> (mark: char)
    requires
        number < 9,
    ensures
        mark == digit_mark(number),
{
    match number {
        0 => '1',
        1 => '2',
        2 => '3',
        3 => '4',
        4 => '5',
        5 => '6',
        6 => '7',
        7 => '8',
        _ => '9',
    }
}

/// Converts coordinates into human readable form: (0, 0) => A1, (2, 4) => C5
pub fn cell_name(x: usize, y: usize) -> (name: String)
    requires
        x < 9,
        y < 9,
    ensures
        name@ == cell_name_text(x, y),
{
    let mut name = String::new();
    name.push(column_letter_of(x));
    name.push(digit_mark_of(y));
    assert(name@ =~= cell_name_text(x, y));
    name
}

/// The words for `reason`.
pub fn reason_name(reason: Reason) -> (name: &'static str)
    ensures
        name@ == reason_text(reason),
{
    match reason {
        Reason::SameRow => "same row",
        Reason::SameColumn => "same column",
        Reason::SameBlock => "same block",
        Reason::NearCell => "near cell",
        Reason::DirectNeighbor => "direct neighbor",
    }
}

/// The double bar that frames a block.
pub open spec fn block_bar() -> char {
    '\u{2016}'
}

/// The bar to the left of column `x`: double at the edge of a block.
pub open spec fn bar(x: nat) -> char {
    if x % 3 == 0 {
        block_bar()
    } else {
        '|'
    }
}

/// The character for digit `d` in a cell with candidates `s`: the digit, or
/// a blank where it is ruled out.
pub open spec fn mark(s: Set<nat>, d: usize) -> char {
    if s.contains(d as nat) {
        digit_mark(d)
    } else {
        ' '
    }
}

/// `n` times a corner and five times `line`.
pub open spec fn rule_cells(line: char, n: nat) -> Seq<char>
    decreases n,
{
    if n == 0 {
        Seq::empty()
    } else {
        rule_cells(line, (n - 1) as nat) + seq!['+', line, line, line, line, line]
    }
}

/// The rule above row `y`: drawn with `=` at the edge of a block.
pub open spec fn rule_line(y: nat) -> Seq<char> {
    let line = if y % 3 == 0 {
        '='
    } else {
        '-'
    };
    seq![' ', ' '] + rule_cells(line, 9) + seq!['+', '\n']
}

/// The first `n` cells of row `y` in band `band`: of each cell the bar and
/// the three digits `3 * band ..= 3 * band + 2`, blank where ruled out.
pub open spec fn band_cells(g: Grid, y: nat, band: usize, n: nat) -> Seq<char>
    decreases n,
{
    if n == 0 {
        Seq::empty()
    } else {
        let s = g[((n - 1) as nat, y)];
        band_cells(g, y, band, (n - 1) as nat) + seq![
            bar((n - 1) as nat),
            mark(s, (3 * band) as usize),
            ' ',
            mark(s, (3 * band + 1) as usize),
            ' ',
            mark(s, (3 * band + 2) as usize),
        ]
    }
}

/// One of the three text lines of row `y`; the middle one starts with the
/// digit of the row.
pub open spec fn band_line(g: Grid, y: nat, band: usize) -> Seq<char> {
    let margin = if band == 1 {
        seq![digit_mark(y as usize), ' ']
    } else {
        seq![' ', ' ']
    };
    margin + band_cells(g, y, band, 9) + seq![block_bar(), '\n']
}

/// The four text lines of row `y`: the rule above it and its three bands.
pub open spec fn row_text(g: Grid, y: nat) -> Seq<char> {
    rule_line(y) + band_line(g, y, 0) + band_line(g, y, 1) + band_line(g, y, 2)
}

/// The text of the first `n` rows.
pub open spec fn rows_text(g: Grid, n: nat) -> Seq<char>
    decreases n,
{
    if n == 0 {
        Seq::empty()
    } else {
        rows_text(g, (n - 1) as nat) + row_text(g, (n - 1) as nat)
    }
}

/// The picture of a board: the column letters, the nine rows, each cell
/// three by three characters showing its candidates, and the closing rule.
pub open spec fn board_text(g: Grid) -> Seq<char> {
    "     A     B     C     D     E     F     G     H     I   \n"@ + rows_text(g, 9)
        + "  +=====+=====+=====+=====+=====+=====+=====+=====+=====+\n"@
}

/// The bar to the left of column `x`.
fn bar_of(x: usize) -> (edge: char)
    ensures
        edge == bar(x as nat),
{
    if x % 3 == 0 {
        '\u{2016}'
    } else {
        '|'
    }
}

/// The character for digit `d` in `cell`.
fn mark_of(cell: &CellState, d: usize) -> (shown: char)
    requires
        d < 9,
    ensures
        shown == mark(cell@, d),
{
    if cell.could_contain(d) {
        digit_mark_of(d)
    } else {
        ' '
    }
}

/// Appends the rule above row `y` to `out`.
fn push_rule_line(out: &mut String, y: usize)
    ensures
        final(out)@ == old(out)@ + rule_line(y as nat),
{
    let separator_char = if y % 3 == 0 {
        '='
    } else {
        '-'
    };
    out.push(' ');
    out.push(' ');
    let ghost start = out@;
    let mut x: usize = 0;
    while x < 9
        invariant
            x <= 9,
            out@ == start + rule_cells(separator_char, x as nat),
        decreases 9 - x,
    {
        out.push('+');
        out.push(separator_char);
        out.push(separator_char);
        out.push(separator_char);
        out.push(separator_char);
        out.push(separator_char);
        x += 1;
        assert(out@ =~= start + rule_cells(separator_char, x as nat));
    }
    out.push('+');
    out.push('\n');
    assert(out@ =~= old(out)@ + rule_line(y as nat));
}

/// Appends one of the three text lines of row `y` to `out`.
fn push_band_line(out: &mut String, board: &SudokuState, y: usize, band: usize)
    requires
        y < 9,
        band < 3,
    ensures
        final(out)@ == old(out)@ + band_line(board@, y as nat, band),
{
    if band == 1 {
        out.push(digit_mark_of(y));
    } else {
        out.push(' ');
    }
    out.push(' ');
    let ghost start = out@;
    let mut x: usize = 0;
    while x < 9
        invariant
            x <= 9,
            y < 9,
            band < 3,
            out@ == start + band_cells(board@, y as nat, band, x as nat),
        decreases 9 - x,
    {
        let cell = board.cells[x][y];
        let ghost s = board@[(x as nat, y as nat)];
        let ghost before = out@;
        assert(cell@ == s);
        let edge = bar_of(x);
        let left = mark_of(&cell, 3 * band);
        let middle = mark_of(&cell, 3 * band + 1);
        let right = mark_of(&cell, 3 * band + 2);
        out.push(edge);
        out.push(left);
        out.push(' ');
        out.push(middle);
        out.push(' ');
        out.push(right);
        assert(out@ =~= before + seq![edge, left, ' ', middle, ' ', right]);
        x += 1;
        assert(out@ =~= start + band_cells(board@, y as nat, band, x as nat));
    }
    out.push('\u{2016}');
    out.push('\n');
    assert(out@ =~= old(out)@ + band_line(board@, y as nat, band));
}

impl SudokuState {
    /// Draws the board: of each cell the candidates that are left.
    pub fn render(&self) -> (text: String)
        ensures
            text@ == board_text(self@),
    {
        let mut text = String::new();
        text.push_str("     A     B     C     D     E     F     G     H     I   \n");
        let ghost start = text@;
        let mut y: usize = 0;
        while y < 9
            invariant
                y <= 9,
                text@ == start + rows_text(self@, y as nat),
            decreases 9 - y,
        {
            let ghost before = text@;
            push_rule_line(&mut text, y);
            push_band_line(&mut text, self, y, 0);
            push_band_line(&mut text, self, y, 1);
            push_band_line(&mut text, self, y, 2);
            y += 1;
            assert(text@ =~= before + row_text(self@, (y - 1) as nat));
            assert(text@ =~= start + rows_text(self@, y as nat));
        }
        text.push_str("  +=====+=====+=====+=====+=====+=====+=====+=====+=====+\n");
        assert(text@ =~= board_text(self@));
        text
    }
}

} // verus!
