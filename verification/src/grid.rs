//! The board grid: a 22-row by 10-column matrix of cells, viewed in
//! specifications as a sequence of row sequences.

use crate::pieces::{Color, BOARD_HEIGHT, BOARD_WIDTH};
use vstd::prelude::*;

verus! {

/// The specification view of a board: each row as a sequence of cells.
pub open spec fn grid_view<T>(b: Seq<Vec<T>>) -> Seq<Seq<T>> {
    b.map_values(|row: Vec<T>| row@)
}

/// A well-formed board grid: 22 rows of 10 cells, none of them the
/// `Random` sentinel.
pub open spec fn board_ok(g: Seq<Seq<Color>>) -> bool {
    &&& g.len() == BOARD_HEIGHT
    &&& forall|y: int| 0 <= y < BOARD_HEIGHT ==> (#[trigger] g[y]).len() == BOARD_WIDTH
    &&& forall|y: int, x: int|
        0 <= y < BOARD_HEIGHT && 0 <= x < BOARD_WIDTH ==> #[trigger] g[y][x] != Color::Random
}

/// A row of 10 empty cells.
pub open spec fn empty_row() -> Seq<Color> {
    Seq::new(BOARD_WIDTH as nat, |x: int| Color::Empty)
}

/// The empty board grid.
pub open spec fn empty_grid() -> Seq<Seq<Color>> {
    Seq::new(BOARD_HEIGHT as nat, |y: int| empty_row())
}

/// Whether every cell of `row` is occupied.
pub open spec fn row_full(row: Seq<Color>) -> bool {
    forall|x: int| 0 <= x < row.len() ==> #[trigger] row[x] != Color::Empty
}

/// Whether some cell of `row` is occupied.
pub open spec fn row_occupied(row: Seq<Color>) -> bool {
    exists|x: int| 0 <= x < row.len() && #[trigger] row[x] != Color::Empty
}

/// The topmost row index holding an occupied cell, scanning from row `y`
/// down; `BOARD_HEIGHT - 1` when every row from `y` on is empty.
pub open spec fn top_occupied_from(g: Seq<Seq<Color>>, y: int) -> int
    decreases BOARD_HEIGHT - y,
{
    if y >= BOARD_HEIGHT - 1 {
        BOARD_HEIGHT - 1
    } else if row_occupied(g[y]) {
        y
    } else {
        top_occupied_from(g, y + 1)
    }
}

/// The cached minimum occupied row of a board: the topmost row with an
/// occupied cell, or `BOARD_HEIGHT - 1` for an empty board.
pub open spec fn top_occupied(g: Seq<Seq<Color>>) -> int {
    top_occupied_from(g, 0)
}

/// Returns a fresh board of 22 rows by 10 columns, all cells empty.
pub fn new_empty_board() -> (b: Vec<Vec<Color>>)
    ensures
        grid_view(b@) =~~= empty_grid(),
{
    let mut b: Vec<Vec<Color>> = Vec::new();
    let mut y: usize = 0;
    while y < BOARD_HEIGHT
        invariant
            y <= BOARD_HEIGHT,
            b@.len() == y,
            forall|t: int| 0 <= t < y ==> (#[trigger] b@[t])@ =~= empty_row(),
        decreases BOARD_HEIGHT - y,
    {
        let mut row: Vec<Color> = Vec::new();
        let mut x: usize = 0;
        while x < BOARD_WIDTH
            invariant
                x <= BOARD_WIDTH,
                row@.len() == x,
                forall|t: int| 0 <= t < x ==> #[trigger] row@[t] == Color::Empty,
            decreases BOARD_WIDTH - x,
        {
            row.push(Color::Empty);
            x = x + 1;
        }
        assert(row@ =~= empty_row());
        b.push(row);
        y = y + 1;
    }
    b
}

/// Returns the cell at row `y`, column `x`.
pub fn get_cell(b: &Vec<Vec<Color>>, y: usize, x: usize) -> (c: Color)
    requires
        (y as int) < grid_view(b@).len(),
        (x as int) < grid_view(b@)[y as int].len(),
    ensures
        c == grid_view(b@)[y as int][x as int],
{
    b[y][x]
}

/// Writes `c` into the cell at row `y`, column `x`.
pub fn set_cell(b: &mut Vec<Vec<Color>>, y: usize, x: usize, c: Color)
    requires
        (y as int) < grid_view(old(b)@).len(),
        (x as int) < grid_view(old(b)@)[y as int].len(),
    ensures
        grid_view(final(b)@) =~~= grid_view(old(b)@).update(
            y as int,
            grid_view(old(b)@)[y as int].update(x as int, c),
        ),
{
    let row: &mut Vec<Color> = &mut b[y];
    row[x] = c;
}

/// Returns an independent copy of the board.
pub fn copy_board(b: &Vec<Vec<Color>>) -> (r: Vec<Vec<Color>>)
    ensures
        grid_view(r@) =~~= grid_view(b@),
{
    let mut r: Vec<Vec<Color>> = Vec::new();
    let mut y: usize = 0;
    while y < b.len()
        invariant
            y <= b@.len(),
            r@.len() == y,
            forall|t: int| 0 <= t < y ==> (#[trigger] r@[t])@ =~= b@[t]@,
        decreases b@.len() - y,
    {
        let src: &Vec<Color> = &b[y];
        let mut row: Vec<Color> = Vec::new();
        let mut x: usize = 0;
        while x < src.len()
            invariant
                x <= src@.len(),
                row@.len() == x,
                forall|t: int| 0 <= t < x ==> #[trigger] row@[t] == src@[t],
            decreases src@.len() - x,
        {
            row.push(src[x]);
            x = x + 1;
        }
        assert(row@ =~= src@);
        r.push(row);
        y = y + 1;
    }
    r
}

/// Returns the topmost occupied row of the board, or `BOARD_HEIGHT - 1`
/// when the board is empty.
pub fn compute_min_y(b: &Vec<Vec<Color>>) -> (m: usize)
    requires
        grid_view(b@).len() == BOARD_HEIGHT,
        forall|y: int| 0 <= y < BOARD_HEIGHT ==> (#[trigger] grid_view(b@)[y]).len() == BOARD_WIDTH,
    ensures
        m == top_occupied(grid_view(b@)),
        m < BOARD_HEIGHT,
{
    let mut y: usize = 0;
    while y < BOARD_HEIGHT - 1
        invariant
            y <= BOARD_HEIGHT - 1,
            grid_view(b@).len() == BOARD_HEIGHT,
            forall|t: int| 0 <= t < BOARD_HEIGHT ==> (#[trigger] grid_view(b@)[t]).len()
                == BOARD_WIDTH,
            top_occupied(grid_view(b@)) == top_occupied_from(grid_view(b@), y as int),
        decreases BOARD_HEIGHT - y,
    {
        let mut x: usize = 0;
        let mut occ = false;
        while x < BOARD_WIDTH
            invariant
                x <= BOARD_WIDTH,
                y < BOARD_HEIGHT,
                grid_view(b@).len() == BOARD_HEIGHT,
                forall|t: int| 0 <= t < BOARD_HEIGHT ==> (#[trigger] grid_view(b@)[t]).len()
                    == BOARD_WIDTH,
                occ == exists|t: int|
                    0 <= t < x && #[trigger] grid_view(b@)[y as int][t] != Color::Empty,
            decreases BOARD_WIDTH - x,
        {
            if !matches!(b[y][x], Color::Empty) {
                occ = true;
            }
            x = x + 1;
        }
        if occ {
            assert(row_occupied(grid_view(b@)[y as int]));
            return y;
        }
        assert(!row_occupied(grid_view(b@)[y as int]));
        y = y + 1;
    }
    BOARD_HEIGHT - 1
}

} // verus!
