//! Piece kinds, rotation-state shapes, kick offsets and spawn poses.
//!
//! The 7 piece kinds are indexed 0..7 in the order I, O, J, L, S, T, Z.
//! Each rotation state is a small bitmap given here as a function from
//! (kind, rotation, row, column) to filled/empty, together with the bitmap's
//! width and height. Rotating from state `r` clockwise applies the kick
//! offset of transition `r`; rotating counterclockwise from `r` applies the
//! offset of transition `r - 1` (wrapped) in reverse.

use vstd::prelude::*;

verus! {

/// The board width in columns.
pub const BOARD_WIDTH: usize = 10;

/// The board height in rows; row 0 is the top row.
pub const BOARD_HEIGHT: usize = 22;

/// The number of piece kinds.
pub const PIECE_COUNT: usize = 7;

/// A board cell: empty, or occupied by a cell of one piece kind.
/// `Random` is the unresolved sentinel for a not-yet-drawn piece; it never
/// occurs in a board cell, only as a current or next piece.
#[derive(Clone, Copy, PartialEq, Eq, Structural, Debug)]
pub enum Color {
    Empty,
    I,
    O,
    J,
    L,
    S,
    T,
    Z,
    Random,
}

/// A primitive controller action.
#[derive(Clone, Copy, PartialEq, Eq, Structural, Debug)]
pub enum Action {
    MoveLeft,
    MoveRight,
    SoftDrop,
    RotateCounterclockwise,
    RotateClockwise,
    /// The idle action; it changes nothing.
    NoMove,
}

/// Anything that can fill a grid cell and be tested for emptiness.
pub trait Cell {
    /// What counts as empty for this cell type.
    spec fn is_empty_spec(&self) -> bool;

    /// Returns whether the cell is empty.
    fn is_empty(&self) -> (r: bool)
        ensures
            r == self.is_empty_spec(),
    ;
}

impl Cell for Color {
    open spec fn is_empty_spec(&self) -> bool {
        *self == Color::Empty
    }

    fn is_empty(&self) -> (r: bool)
        ensures
            r == self.is_empty_spec(),
    {
        *self == Color::Empty
    }
}

/// A cell of a boolean mask over the board.
#[derive(Clone, Copy, PartialEq, Eq, Structural, Debug)]
pub enum Mask {
    Unset,
    Filled,
}

impl Cell for Mask {
    open spec fn is_empty_spec(&self) -> bool {
        *self == Mask::Unset
    }

    fn is_empty(&self) -> (r: bool)
        ensures
            r == self.is_empty_spec(),
    {
        *self == Mask::Unset
    }
}

/// True of the 7 proper piece kinds; false of `Empty` and `Random`.
pub open spec fn is_piece(c: Color) -> bool {
    c != Color::Empty && c != Color::Random
}

/// The table index of a piece kind, 0..7 in the order I, O, J, L, S, T, Z.
pub open spec fn piece_index_spec(c: Color) -> int {
    match c {
        Color::I => 0,
        Color::O => 1,
        Color::J => 2,
        Color::L => 3,
        Color::S => 4,
        Color::T => 5,
        Color::Z => 6,
        _ => 7,
    }
}

/// Returns the table index of a piece kind.
pub fn piece_index(c: Color) -> (i: usize)
    requires
        is_piece(c),
    ensures
        i == piece_index_spec(c),
        i < 7,
{
    match c {
        Color::I => 0,
        Color::O => 1,
        Color::J => 2,
        Color::L => 3,
        Color::S => 4,
        Color::T => 5,
        Color::Z => 6,
        _ => 7,
    }
}

/// The piece kind at table index `k`, inverse of `piece_index_spec`.
pub open spec fn kind_at_spec(k: int) -> Color {
    if k == 0 {
        Color::I
    } else if k == 1 {
        Color::O
    } else if k == 2 {
        Color::J
    } else if k == 3 {
        Color::L
    } else if k == 4 {
        Color::S
    } else if k == 5 {
        Color::T
    } else if k == 6 {
        Color::Z
    } else {
        Color::Empty
    }
}

/// Returns the piece kind at table index `k`.
pub fn kind_at(k: usize) -> (c: Color)
    requires
        k < 7,
    ensures
        c == kind_at_spec(k as int),
        is_piece(c),
        piece_index_spec(c) == k,
{
    match k {
        0 => Color::I,
        1 => Color::O,
        2 => Color::J,
        3 => Color::L,
        4 => Color::S,
        5 => Color::T,
        _ => Color::Z,
    }
}

/// The number of rotation states of kind `k`: I, S, Z have 2, O has 1,
/// J, L, T have 4.
pub open spec fn rot_count_spec(k: int) -> int {
    if k == 0 {
        2
    } else if k == 1 {
        1
    } else if k == 4 || k == 6 {
        2
    } else {
        4
    }
}

/// Returns the number of rotation states of kind `k`.
pub fn rot_count(k: usize) -> (n: usize)
    requires
        k < 7,
    ensures
        n == rot_count_spec(k as int),
        1 <= n <= 4,
{
    match k {
        0 => 2,
        1 => 1,
        4 => 2,
        6 => 2,
        _ => 4,
    }
}

/// The width of the shape bitmap of kind `k` in rotation state `r`.
pub open spec fn shape_width_spec(k: int, r: int) -> int {
    if k == 0 {
        if r == 0 {
            4
        } else {
            1
        }
    } else if k == 1 {
        2
    } else {
        if r == 0 || r == 2 {
            3
        } else {
            2
        }
    }
}

/// The height of the shape bitmap of kind `k` in rotation state `r`.
pub open spec fn shape_height_spec(k: int, r: int) -> int {
    if k == 0 {
        if r == 0 {
            1
        } else {
            4
        }
    } else if k == 1 {
        2
    } else {
        if r == 0 || r == 2 {
            2
        } else {
            3
        }
    }
}

/// Whether cell (row `j`, column `i`) of the shape bitmap of kind `k` in
/// rotation state `r` is filled. Meaningful for `j` and `i` within the
/// bitmap's height and width.
pub open spec fn shape_filled_spec(k: int, r: int, j: int, i: int) -> bool {
    if k == 0 || k == 1 {
        // I in either state and O are full rectangles.
        true
    } else if k == 2 {
        // J
        if r == 0 {
            j == 0 || i == 2
        } else if r == 1 {
            i == 1 || j == 2
        } else if r == 2 {
            j == 1 || i == 0
        } else {
            j == 0 || i == 0
        }
    } else if k == 3 {
        // L
        if r == 0 {
            j == 0 || i == 0
        } else if r == 1 {
            j == 0 || i == 1
        } else if r == 2 {
            j == 1 || i == 2
        } else {
            i == 0 || j == 2
        }
    } else if k == 4 {
        // S
        if r == 0 {
            (j == 0 && i >= 1) || (j == 1 && i <= 1)
        } else {
            (i == 0 && j <= 1) || (i == 1 && j >= 1)
        }
    } else if k == 5 {
        // T
        if r == 0 {
            j == 0 || i == 1
        } else if r == 1 {
            i == 1 || j == 1
        } else if r == 2 {
            j == 1 || i == 1
        } else {
            i == 0 || j == 1
        }
    } else {
        // Z
        if r == 0 {
            (j == 0 && i <= 1) || (j == 1 && i >= 1)
        } else {
            (i == 1 && j <= 1) || (i == 0 && j >= 1)
        }
    }
}

/// Returns the bitmap width and height of kind `k` in rotation state `r`.
pub fn shape_size(k: usize, r: usize) -> (wh: (usize, usize))
    requires
        k < 7,
        r < rot_count_spec(k as int),
    ensures
        wh.0 == shape_width_spec(k as int, r as int),
        wh.1 == shape_height_spec(k as int, r as int),
        1 <= wh.0 <= 4,
        1 <= wh.1 <= 4,
{
    if k == 0 {
        if r == 0 {
            (4, 1)
        } else {
            (1, 4)
        }
    } else if k == 1 {
        (2, 2)
    } else {
        if r == 0 || r == 2 {
            (3, 2)
        } else {
            (2, 3)
        }
    }
}

/// Returns whether cell (`j`, `i`) of the bitmap of kind `k` in rotation
/// state `r` is filled.
pub fn shape_cell(k: usize, r: usize, j: usize, i: usize) -> (b: bool)
    requires
        k < 7,
        r < rot_count_spec(k as int),
        j < shape_height_spec(k as int, r as int),
        i < shape_width_spec(k as int, r as int),
    ensures
        b == shape_filled_spec(k as int, r as int, j as int, i as int),
{
    if k == 0 || k == 1 {
        true
    } else if k == 2 {
        if r == 0 {
            j == 0 || i == 2
        } else if r == 1 {
            i == 1 || j == 2
        } else if r == 2 {
            j == 1 || i == 0
        } else {
            j == 0 || i == 0
        }
    } else if k == 3 {
        if r == 0 {
            j == 0 || i == 0
        } else if r == 1 {
            j == 0 || i == 1
        } else if r == 2 {
            j == 1 || i == 2
        } else {
            i == 0 || j == 2
        }
    } else if k == 4 {
        if r == 0 {
            (j == 0 && i >= 1) || (j == 1 && i <= 1)
        } else {
            (i == 0 && j <= 1) || (i == 1 && j >= 1)
        }
    } else if k == 5 {
        if r == 0 {
            j == 0 || i == 1
        } else if r == 1 {
            i == 1 || j == 1
        } else if r == 2 {
            j == 1 || i == 1
        } else {
            i == 0 || j == 1
        }
    } else {
        if r == 0 {
            (j == 0 && i <= 1) || (j == 1 && i >= 1)
        } else {
            (i == 1 && j <= 1) || (i == 0 && j >= 1)
        }
    }
}

/// The horizontal kick offset of kind `k` for the clockwise transition out
/// of rotation state `t`.
pub open spec fn kick_x_spec(k: int, t: int) -> int {
    if k == 0 {
        // I
        if t == 0 {
            2
        } else {
            -2
        }
    } else if k == 1 {
        0
    } else if k == 4 || k == 6 {
        // S, Z
        if t == 0 {
            1
        } else {
            -1
        }
    } else {
        // J, L, T
        if t == 0 {
            0
        } else if t == 1 {
            0
        } else if t == 2 {
            1
        } else {
            -1
        }
    }
}

/// The vertical kick offset of kind `k` for the clockwise transition out of
/// rotation state `t`.
pub open spec fn kick_y_spec(k: int, t: int) -> int {
    if k == 0 {
        if t == 0 {
            -2
        } else {
            2
        }
    } else if k == 1 {
        0
    } else if k == 4 || k == 6 {
        if t == 0 {
            -1
        } else {
            1
        }
    } else {
        if t == 0 {
            -1
        } else if t == 1 {
            0
        } else if t == 2 {
            0
        } else {
            1
        }
    }
}

/// Returns the kick offset (x, y) of kind `k` for the clockwise transition
/// out of rotation state `t`.
pub fn kick_offset(k: usize, t: usize) -> (o: (i32, i32))
    requires
        k < 7,
        t < rot_count_spec(k as int),
    ensures
        o.0 == kick_x_spec(k as int, t as int),
        o.1 == kick_y_spec(k as int, t as int),
        -2 <= o.0 <= 2,
        -2 <= o.1 <= 2,
{
    if k == 0 {
        if t == 0 {
            (2, -2)
        } else {
            (-2, 2)
        }
    } else if k == 1 {
        (0, 0)
    } else if k == 4 || k == 6 {
        if t == 0 {
            (1, -1)
        } else {
            (-1, 1)
        }
    } else {
        if t == 0 {
            (0, -1)
        } else if t == 1 {
            (0, 0)
        } else if t == 2 {
            (1, 0)
        } else {
            (-1, 1)
        }
    }
}

/// The spawn x position of kind `k`.
pub open spec fn spawn_x_spec(k: int) -> int {
    if k == 1 {
        4
    } else {
        3
    }
}

/// The spawn y position of kind `k`.
pub open spec fn spawn_y_spec(k: int) -> int {
    if k == 0 {
        1
    } else {
        0
    }
}

/// Returns the spawn pose (x, y, rotation) of kind `k`; the spawn rotation
/// state is always 0.
pub fn spawn_pose(k: usize) -> (p: (i32, i32, i32))
    requires
        k < 7,
    ensures
        p.0 == spawn_x_spec(k as int),
        p.1 == spawn_y_spec(k as int),
        p.2 == 0,
{
    if k == 0 {
        (3, 1, 0)
    } else if k == 1 {
        (4, 0, 0)
    } else {
        (3, 0, 0)
    }
}

/// `rot` reduced modulo `dim` into 0..dim.
pub open spec fn wrap_rot_spec(rot: int, dim: int) -> int
    recommends
        dim > 0,
{
    ((rot % dim) + dim) % dim
}

/// Returns `rot` wrapped into the range 0..dim.
pub fn wrap_rot(rot: i32, dim: i32) -> (r: i32)
    requires
        1 <= dim,
    ensures
        r == wrap_rot_spec(rot as int, dim as int),
        0 <= r < dim,
{
    proof {
        vstd::arithmetic::div_mod::lemma_mod_division_less_than_divisor(rot as int, dim as int);
        vstd::arithmetic::div_mod::lemma_mod_add_multiples_vanish(
            (rot as int) % (dim as int),
            dim as int,
        );
        vstd::arithmetic::div_mod::lemma_mod_twice(rot as int, dim as int);
    }
    if let Some(m) = rot.checked_rem_euclid(dim) {
        m
    } else {
        0
    }
}

/// The path-search heuristic between two poses: horizontal distance plus
/// the shorter of the two rotational distances around the `rot_dim` states.
pub open spec fn proximity_spec(a: (i32, i32, i32), b: (i32, i32, i32), rot_dim: int) -> int
    recommends
        rot_dim > 0,
{
    let dx = if a.0 >= b.0 {
        a.0 - b.0
    } else {
        b.0 - a.0
    };
    let cw = wrap_rot_spec(a.2 - b.2, rot_dim);
    let ccw = wrap_rot_spec(b.2 - a.2, rot_dim);
    dx + if cw <= ccw {
        cw
    } else {
        ccw
    }
}

/// Returns the heuristic distance between poses `a` and `b`.
pub fn proximity(a: (i32, i32, i32), b: (i32, i32, i32), rot_dim: i32) -> (r: i32)
    requires
        1 <= rot_dim <= 4,
        -1000 <= a.0 <= 1000,
        -1000 <= b.0 <= 1000,
        -1000 <= a.2 <= 1000,
        -1000 <= b.2 <= 1000,
    ensures
        r == proximity_spec(a, b, rot_dim as int),
        0 <= r,
{
    let dx = if a.0 >= b.0 {
        a.0 - b.0
    } else {
        b.0 - a.0
    };
    let cw = wrap_rot(a.2 - b.2, rot_dim);
    let ccw = wrap_rot(b.2 - a.2, rot_dim);
    dx + if cw <= ccw {
        cw
    } else {
        ccw
    }
}

} // verus!
