//! The grid as text: one character per cell, one line per row.

use vstd::prelude::*;
use crate::catalog::TileDefinition;
use crate::grid::Grid;
use crate::grid::GridView;
use crate::lattice::lemma_position_of;

verus! {

/// The first digit of `n` written in decimal.
pub open spec fn leading_digit(n: nat) -> nat
    decreases n,
{
    if n < 10 {
        n
    } else {
        leading_digit(n / 10)
    }
}

/// The character for a decimal digit.
pub open spec fn digit_glyph(d: nat) -> char {
    if d == 0 {
        '0'
    } else if d == 1 {
        '1'
    } else if d == 2 {
        '2'
    } else if d == 3 {
        '3'
    } else if d == 4 {
        '4'
    } else if d == 5 {
        '5'
    } else if d == 6 {
        '6'
    } else if d == 7 {
        '7'
    } else if d == 8 {
        '8'
    } else {
        '9'
    }
}

/// What stands for a cell: the glyph of its tile once it is collapsed, and
/// until then the first digit of its entropy.
pub open spec fn symbol(tiles: Seq<TileDefinition>, cell: Set<usize>) -> char {
    if cell.len() == 1 {
        tiles[cell.choose() as int].glyph
    } else {
        digit_glyph(leading_digit(cell.len()))
    }
}

/// The first `x` symbols of row `y`.
pub open spec fn row_prefix(grid: GridView, y: int, x: int) -> Seq<char> {
    Seq::new(x as nat, |k: int| symbol(grid.tiles, grid.cells[y * grid.width + k]))
}

/// The first `y` rows, each closed by a line break.
pub open spec fn rows(grid: GridView, y: int) -> Seq<char>
    decreases y,
{
    if y <= 0 {
        Seq::empty()
    } else {
        rows(grid, y - 1) + row_prefix(grid, y - 1, grid.width as int).push('\n')
    }
}

/// The whole grid as text.
pub open spec fn rendered(grid: GridView) -> Seq<char> {
    rows(grid, grid.height as int)
}

/// The first digit of `n` written in decimal, as a character.
pub fn first_digit(n: usize) -> (c: char)
    ensures
        c == digit_glyph(leading_digit(n as nat)),
{
    let mut rest: usize = n;
    while rest >= 10
        invariant
            leading_digit(rest as nat) == leading_digit(n as nat),
        decreases rest,
    {
        rest = rest / 10;
    }
    if rest == 0 {
        '0'
    } else if rest == 1 {
        '1'
    } else if rest == 2 {
        '2'
    } else if rest == 3 {
        '3'
    } else if rest == 4 {
        '4'
    } else if rest == 5 {
        '5'
    } else if rest == 6 {
        '6'
    } else if rest == 7 {
        '7'
    } else if rest == 8 {
        '8'
    } else {
        '9'
    }
}

/// The symbol of the cell at `index`.
pub fn symbol_at(grid: &Grid, index: usize) -> (c: char)
    requires
        grid.wf(),
        index < grid@.cells.len(),
    ensures
        c == symbol(grid@.tiles, grid@.cells[index as int]),
{
    let cell = grid.cell(index);
    match cell.tile() {
        Some(t) => {
            proof {
                cell.lemma_finite();
                assert(cell@.contains(t));
                assert(cell@.choose() == t);
                assert(crate::grid::cell_valid(grid@.cells[index as int], grid@.tiles.len()));
            }
            grid.tiles()[t].glyph
        },
        None => first_digit(cell.entropy()),
    }
}

/// Writes the grid out row by row.
pub fn render(grid: &Grid) -> (text: Vec<char>)
    requires
        grid.wf(),
    ensures
        text@ == rendered(grid@),
{
    let width = grid.width();
    let height = grid.height();
    let mut text: Vec<char> = Vec::new();
    let mut y: usize = 0;
    while y < height
        invariant
            grid.wf(),
            width == grid@.width,
            height == grid@.height,
            y <= height,
            text@ == rows(grid@, y as int),
        decreases height - y,
    {
        let mut x: usize = 0;
        proof {
            assert(row_prefix(grid@, y as int, 0) =~= Seq::<char>::empty());
            assert(rows(grid@, y as int) + Seq::<char>::empty() =~= rows(grid@, y as int));
        }
        while x < width
            invariant
                grid.wf(),
                width == grid@.width,
                height == grid@.height,
                y < height,
                x <= width,
                text@ == rows(grid@, y as int) + row_prefix(grid@, y as int, x as int),
            decreases width - x,
        {
            proof {
                lemma_position_of(x as int, y as int, width, height);
            }
            let index = y * width + x;
            text.push(symbol_at(grid, index));
            proof {
                assert(row_prefix(grid@, y as int, x + 1) =~= row_prefix(grid@, y as int, x as int).push(
                    symbol(grid@.tiles, grid@.cells[index as int]),
                ));
                assert(text@ =~= rows(grid@, y as int) + row_prefix(grid@, y as int, x + 1));
            }
            x += 1;
        }
        text.push('\n');
        proof {
            assert(text@ =~= rows(grid@, y as int) + row_prefix(grid@, y as int, width as int).push('\n'));
        }
        y += 1;
    }
    text
}

} // verus!
