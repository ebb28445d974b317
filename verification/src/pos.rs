//! The position model: board grid plus game metadata, with collision and
//! lock-pose tests, placement with incremental hash maintenance, line
//! clearing, scoring and board features.

use crate::grid::{
    board_ok, copy_board, empty_grid, empty_row, grid_view, new_empty_board, row_full,
    top_occupied, top_occupied_from,
};
use crate::pieces::{
    is_piece, piece_index, piece_index_spec, rot_count_spec, shape_filled_spec,
    shape_height_spec, shape_size, shape_width_spec, Cell, Color, BOARD_HEIGHT, BOARD_WIDTH,
};
use crate::rng;
use crate::zobrist::{board_hash, Zobrist};
use vstd::prelude::*;

verus! {

/// Whether the piece of kind index `k` in rotation state `r` collides at
/// position (`x`, `y`): out of bounds, or some filled bitmap cell over an
/// occupied board cell.
pub open spec fn collides_with<T: Cell>(g: Seq<Seq<T>>, k: int, r: int, x: int, y: int) -> bool {
    let w = shape_width_spec(k, r);
    let h = shape_height_spec(k, r);
    ||| !(0 <= x && x + w <= BOARD_WIDTH && 0 <= y && y + h <= BOARD_HEIGHT)
    ||| exists|j: int, i: int|
        0 <= j < h && 0 <= i < w && #[trigger] shape_filled_spec(k, r, j, i)
            && !g[y + j][x + i].is_empty_spec()
}

/// `collides_with` on a board of colors.
pub open spec fn collides(g: Seq<Seq<Color>>, k: int, r: int, x: int, y: int) -> bool {
    collides_with(g, k, r, x, y)
}

/// A lock pose: the piece does not collide, and either rests on the floor
/// or some filled cell sits directly above an occupied board cell.
pub open spec fn is_lock(g: Seq<Seq<Color>>, k: int, r: int, x: int, y: int) -> bool {
    let w = shape_width_spec(k, r);
    let h = shape_height_spec(k, r);
    &&& !collides(g, k, r, x, y)
    &&& (y + h == BOARD_HEIGHT || exists|j: int, i: int|
        0 <= j < h && 0 <= i < w && #[trigger] shape_filled_spec(k, r, j, i) && g[y + j + 1][x
            + i] != Color::Empty)
}

/// The grid after writing the filled cells of kind `c` in rotation state
/// `r` at position (`x`, `y`). Only cells under a filled bitmap cell
/// change; with a non-colliding pose every such cell was empty before.
pub open spec fn place(g: Seq<Seq<Color>>, c: Color, r: int, x: int, y: int) -> Seq<Seq<Color>> {
    let k = piece_index_spec(c);
    let w = shape_width_spec(k, r);
    let h = shape_height_spec(k, r);
    Seq::new(
        BOARD_HEIGHT as nat,
        |yy: int|
            Seq::new(
                BOARD_WIDTH as nat,
                |xx: int|
                    if y <= yy < y + h && x <= xx < x + w && shape_filled_spec(
                        k,
                        r,
                        yy - y,
                        xx - x,
                    ) {
                        c
                    } else {
                        g[yy][xx]
                    },
            ),
    )
}

/// The rows of `g` that are not full, in order.
pub open spec fn keep_rows(g: Seq<Seq<Color>>) -> Seq<Seq<Color>>
    decreases g.len(),
{
    if g.len() == 0 {
        Seq::empty()
    } else if row_full(g.last()) {
        keep_rows(g.drop_last())
    } else {
        keep_rows(g.drop_last()).push(g.last())
    }
}

pub proof fn lemma_keep_rows_len(g: Seq<Seq<Color>>)
    ensures
        keep_rows(g).len() <= g.len(),
    decreases g.len(),
{
    if g.len() > 0 {
        lemma_keep_rows_len(g.drop_last());
    }
}

/// The number of full rows of `g`.
pub open spec fn full_count(g: Seq<Seq<Color>>) -> int {
    g.len() - keep_rows(g).len()
}

/// The grid after clearing every full row: the non-full rows shifted to
/// the bottom, with as many empty rows on top as rows were cleared.
pub open spec fn cleared(g: Seq<Seq<Color>>) -> Seq<Seq<Color>> {
    Seq::new((g.len() - keep_rows(g).len()) as nat, |i: int| empty_row()) + keep_rows(g)
}

/// The score awarded for clearing `k` lines in one placement.
pub open spec fn line_score(k: int) -> int {
    if k == 1 {
        40
    } else if k == 2 {
        100
    } else if k == 3 {
        300
    } else if k == 4 {
        1200
    } else {
        0
    }
}

/// Whether the top two rows of `g` hold an occupied cell; a position in
/// that state is terminal.
pub open spec fn topped_out(g: Seq<Seq<Color>>) -> bool {
    exists|y: int, x: int| 0 <= y < 2 && 0 <= x < BOARD_WIDTH && #[trigger] g[y][x] != Color::Empty
}

/// Returns whether the piece of kind index `k` in rotation state `r`
/// collides at (`x`, `y`) on `board`.
pub fn check_collision<T: Cell>(board: &Vec<Vec<T>>, k: usize, r: usize, x: i32, y: i32) -> (b:
    bool)
    requires
        k < 7,
        r < rot_count_spec(k as int),
        grid_view(board@).len() == BOARD_HEIGHT,
        forall|t: int|
            0 <= t < BOARD_HEIGHT ==> (#[trigger] grid_view(board@)[t]).len() == BOARD_WIDTH,
    ensures
        b == collides_with(grid_view(board@), k as int, r as int, x as int, y as int),
{
    let ghost g = grid_view(board@);
    proof {
        assert(board@.len() == g.len());
        assert forall|t: int| 0 <= t < BOARD_HEIGHT implies (#[trigger] board@[t])@.len()
            == BOARD_WIDTH by {
            assert(g[t] == board@[t]@);
        };
    }
    let (w, h) = shape_size(k, r);
    if x < 0 || y < 0 || x > (BOARD_WIDTH - w) as i32 || y > (BOARD_HEIGHT - h) as i32 {
        return true;
    }
    let ux = x as usize;
    let uy = y as usize;
    let mut j: usize = 0;
    while j < h
        invariant
            j <= h,
            k < 7,
            r < rot_count_spec(k as int),
            w == shape_width_spec(k as int, r as int),
            h == shape_height_spec(k as int, r as int),
            grid_view(board@).len() == BOARD_HEIGHT,
            forall|t: int|
                0 <= t < BOARD_HEIGHT ==> (#[trigger] grid_view(board@)[t]).len() == BOARD_WIDTH,
            g == grid_view(board@),
            ux == x as int,
            uy == y as int,
            0 <= x as int,
            0 <= y as int,
            x as int + w <= BOARD_WIDTH,
            y as int + h <= BOARD_HEIGHT,
            forall|jj: int, ii: int|
                0 <= jj < j && 0 <= ii < w && #[trigger] shape_filled_spec(
                    k as int,
                    r as int,
                    jj,
                    ii,
                ) ==> g[y + jj][x + ii].is_empty_spec(),
        decreases h - j,
    {
        let mut i: usize = 0;
        while i < w
            invariant
                i <= w,
                j < h,
                k < 7,
                r < rot_count_spec(k as int),
                w == shape_width_spec(k as int, r as int),
                h == shape_height_spec(k as int, r as int),
                grid_view(board@).len() == BOARD_HEIGHT,
                forall|t: int|
                    0 <= t < BOARD_HEIGHT ==> (#[trigger] grid_view(board@)[t]).len()
                        == BOARD_WIDTH,
                g == grid_view(board@),
                ux == x as int,
                uy == y as int,
                0 <= x as int,
                0 <= y as int,
                x as int + w <= BOARD_WIDTH,
                y as int + h <= BOARD_HEIGHT,
                forall|jj: int, ii: int|
                    0 <= jj < j && 0 <= ii < w && #[trigger] shape_filled_spec(
                        k as int,
                        r as int,
                        jj,
                        ii,
                    ) ==> g[y + jj][x + ii].is_empty_spec(),
                forall|ii: int|
                    0 <= ii < i && #[trigger] shape_filled_spec(k as int, r as int, j as int, ii)
                        ==> g[y + j][x + ii].is_empty_spec(),
            decreases w - i,
        {
            proof {
                assert(board@[(uy + j) as int]@ == g[(uy + j) as int]);
            }
            if crate::pieces::shape_cell(k, r, j, i) && !board[uy + j][ux + i].is_empty() {
                return true;
            }
            i = i + 1;
        }
        j = j + 1;
    }
    false
}

/// Returns whether the non-colliding pose (`x`, `y`, rotation `r`) of kind
/// index `k` is a lock pose.
pub fn is_lock_at(board: &Vec<Vec<Color>>, k: usize, r: usize, x: usize, y: usize) -> (b: bool)
    requires
        k < 7,
        r < rot_count_spec(k as int),
        grid_view(board@).len() == BOARD_HEIGHT,
        forall|t: int|
            0 <= t < BOARD_HEIGHT ==> (#[trigger] grid_view(board@)[t]).len() == BOARD_WIDTH,
        !collides(grid_view(board@), k as int, r as int, x as int, y as int),
    ensures
        b == is_lock(grid_view(board@), k as int, r as int, x as int, y as int),
{
    let ghost g = grid_view(board@);
    let (w, h) = shape_size(k, r);
    if y + h == BOARD_HEIGHT {
        return true;
    }
    let mut j: usize = 0;
    while j < h
        invariant
            j <= h,
            k < 7,
            r < rot_count_spec(k as int),
            w == shape_width_spec(k as int, r as int),
            h == shape_height_spec(k as int, r as int),
            grid_view(board@).len() == BOARD_HEIGHT,
            forall|t: int|
                0 <= t < BOARD_HEIGHT ==> (#[trigger] grid_view(board@)[t]).len() == BOARD_WIDTH,
            g == grid_view(board@),
            x + w <= BOARD_WIDTH,
            y + h < BOARD_HEIGHT,
            !collides(g, k as int, r as int, x as int, y as int),
            forall|jj: int, ii: int|
                0 <= jj < j && 0 <= ii < w && #[trigger] shape_filled_spec(
                    k as int,
                    r as int,
                    jj,
                    ii,
                ) ==> g[y + jj + 1][x + ii] == Color::Empty,
        decreases h - j,
    {
        let mut i: usize = 0;
        while i < w
            invariant
                i <= w,
                j < h,
                k < 7,
                r < rot_count_spec(k as int),
                w == shape_width_spec(k as int, r as int),
                h == shape_height_spec(k as int, r as int),
                grid_view(board@).len() == BOARD_HEIGHT,
                forall|t: int|
                    0 <= t < BOARD_HEIGHT ==> (#[trigger] grid_view(board@)[t]).len()
                        == BOARD_WIDTH,
                g == grid_view(board@),
                x + w <= BOARD_WIDTH,
                y + h < BOARD_HEIGHT,
                !collides(g, k as int, r as int, x as int, y as int),
                forall|jj: int, ii: int|
                    0 <= jj < j && 0 <= ii < w && #[trigger] shape_filled_spec(
                        k as int,
                        r as int,
                        jj,
                        ii,
                    ) ==> g[y + jj + 1][x + ii] == Color::Empty,
                forall|ii: int|
                    0 <= ii < i && #[trigger] shape_filled_spec(k as int, r as int, j as int, ii)
                        ==> g[y + j + 1][x + ii] == Color::Empty,
            decreases w - i,
        {
            let below = crate::grid::get_cell(board, y + j + 1, x + i);
            if crate::pieces::shape_cell(k, r, j, i) && !below.is_empty() {
                return true;
            }
            i = i + 1;
        }
        j = j + 1;
    }
    false
}

/// A game position: board, scores, the pieces in play and the cached
/// Zobrist hash and minimum occupied row.
pub struct Position {
    pub score: i64,
    pub last_piece: Color,
    pub current_piece: Color,
    pub next_piece: Color,
    pub board: Vec<Vec<Color>>,
    pub hash: u64,
    pub min_y: usize,
}

impl Position {
    /// The board grid of this position.
    pub open spec fn bgrid(&self) -> Seq<Seq<Color>> {
        grid_view(self.board@)
    }

    /// Well-formedness against the key table `z`: the board has the fixed
    /// dimensions and no sentinel cells, the hash equals the Zobrist hash
    /// of the board, the cached minimum occupied row is exact, and the
    /// pieces in play are proper kinds or the unresolved sentinel.
    pub open spec fn wf(&self, z: &Zobrist) -> bool {
        &&& z.wf()
        &&& board_ok(self.bgrid())
        &&& self.hash == board_hash(self.bgrid(), z.keys_seq())
        &&& self.min_y == top_occupied(self.bgrid())
        &&& is_piece(self.current_piece) || self.current_piece == Color::Random
        &&& is_piece(self.next_piece) || self.next_piece == Color::Random
    }

    /// Builds a position from its parts.
    pub fn new(
        last_piece: Color,
        current_piece: Color,
        next_piece: Color,
        score: i64,
        board: Vec<Vec<Color>>,
        hash: u64,
        min_y: usize,
    ) -> (p: Position)
        ensures
            p.last_piece == last_piece,
            p.current_piece == current_piece,
            p.next_piece == next_piece,
            p.score == score,
            p.board == board,
            p.hash == hash,
            p.min_y == min_y,
    {
        Position { last_piece, current_piece, next_piece, score, board, hash, min_y }
    }

    /// Draws the next piece kind from `roll` and `reroll`, two values taken
    /// from a generator: a roll equal to the next piece's code or to 8 is
    /// rerolled into the narrower range, making an immediate repeat rarer.
    pub fn sample_with(&self, roll: u8, reroll: u8) -> (c: Color)
        requires
            1 <= roll < 9,
            1 <= reroll < 7,
        ensures
            c == sample_spec(self.next_piece, roll as int, reroll as int),
            is_piece(c),
    {
        if roll == color_code(self.next_piece) || roll == 8 {
            color_from_code(reroll)
        } else {
            color_from_code(roll)
        }
    }

    /// Draws the next piece kind from the thread-local generator. Every
    /// outcome is a proper piece kind.
    pub fn sample(&self) -> (c: Color)
        ensures
            is_piece(c),
    {
        let mut rng = rng::fresh_rng();
        let roll = rng::roll_range(&mut rng, 1, 9);
        if roll == color_code(self.next_piece) || roll == 8 {
            let reroll = rng::roll_range(&mut rng, 1, 7);
            self.sample_with(roll, reroll)
        } else {
            self.sample_with(roll, 1)
        }
    }
}

/// Returns the score for clearing `k` lines.
pub fn line_score_of(k: usize) -> (s: i64)
    ensures
        s == line_score(k as int),
        0 <= s <= 1200,
{
    match k {
        1 => 40,
        2 => 100,
        3 => 300,
        4 => 1200,
        _ => 0,
    }
}

impl Position {
    /// Applies the move (`piece`, `x`, `y`, `rot`) to this position: writes
    /// the piece, clears full rows, scores them, and re-resolves the pieces
    /// in play. Returns the successor position, or `None` when the result
    /// is terminal (an occupied cell remains in the top two rows). With
    /// `gen_next` the next piece is drawn from the thread-local generator,
    /// otherwise it is left unresolved.
    pub fn apply_move(
        &self,
        z: &Zobrist,
        piece: Color,
        x: usize,
        y: usize,
        rot: usize,
        gen_next: bool,
    ) -> (r: Option<Position>)
        requires
            self.wf(z),
            is_piece(piece),
            rot < rot_count_spec(piece_index_spec(piece)),
            !collides(self.bgrid(), piece_index_spec(piece), rot as int, x as int, y as int),
            self.score + 1200 <= i64::MAX,
        ensures
            ({
                let g1 = place(self.bgrid(), piece, rot as int, x as int, y as int);
                let g2 = cleared(g1);
                let k = full_count(g1);
                &&& (r is Some <==> !topped_out(g2))
                &&& (r matches Some(p) ==> {
                    &&& p.wf(z)
                    &&& p.bgrid() == g2
                    &&& p.score == self.score + line_score(k)
                    &&& p.score >= self.score
                    &&& p.last_piece == piece
                    &&& p.current_piece == self.next_piece
                    &&& (!gen_next ==> p.next_piece == Color::Random)
                    &&& (gen_next ==> is_piece(p.next_piece))
                    &&& p.hash == board_hash(g2, z.keys_seq())
                    &&& p.min_y == top_occupied(g2)
                })
            }),
    {
        let ghost g1 = place(self.bgrid(), piece, rot as int, x as int, y as int);
        let ghost g2 = cleared(g1);
        let mut nb = copy_board(&self.board);
        let mut hash = self.hash;
        place_piece(&mut nb, &mut hash, z, piece, rot, x, y);
        let lines = clear_rows(&mut nb, &mut hash, z);
        // Terminal check: the move is reported as game over, not as a
        // successor, when the top two rows hold an occupied cell.
        let mut ty: usize = 0;
        while ty < 2
            invariant
                ty <= 2,
                g1 == place(self.bgrid(), piece, rot as int, x as int, y as int),
                g2 == cleared(g1),
                grid_view(nb@) == g2,
                board_ok(g2),
                forall|t: int, u: int|
                    0 <= t < ty && 0 <= u < BOARD_WIDTH ==> #[trigger] g2[t][u] == Color::Empty,
            decreases 2 - ty,
        {
            let mut tx: usize = 0;
            while tx < BOARD_WIDTH
                invariant
                    tx <= BOARD_WIDTH,
                    ty < 2,
                    g1 == place(self.bgrid(), piece, rot as int, x as int, y as int),
                    g2 == cleared(g1),
                    grid_view(nb@) == g2,
                    board_ok(g2),
                    forall|u: int| 0 <= u < tx ==> #[trigger] g2[ty as int][u] == Color::Empty,
                decreases BOARD_WIDTH - tx,
            {
                let c = crate::grid::get_cell(&nb, ty, tx);
                if !c.is_empty() {
                    proof {
                        assert(topped_out(g2));
                    }
                    return Option::None;
                }
                tx = tx + 1;
            }
            ty = ty + 1;
        }
        proof {
            assert(!topped_out(g2));
        }
        let score = self.score + line_score_of(lines);
        let min_y = crate::grid::compute_min_y(&nb);
        let next = if gen_next {
            self.sample()
        } else {
            Color::Random
        };
        Option::Some(
            Position {
                last_piece: piece,
                current_piece: self.next_piece,
                next_piece: next,
                score,
                board: nb,
                hash,
                min_y,
            },
        )
    }
}

/// Move soundness: a non-colliding placement writes the piece kind only
/// into previously empty cells and changes nothing else.
pub proof fn lemma_place_on_empty(g: Seq<Seq<Color>>, c: Color, r: int, x: int, y: int)
    requires
        board_ok(g),
        is_piece(c),
        !collides(g, piece_index_spec(c), r, x, y),
    ensures
        forall|yy: int, xx: int|
            0 <= yy < BOARD_HEIGHT && 0 <= xx < BOARD_WIDTH && #[trigger] place(
                g,
                c,
                r,
                x,
                y,
            )[yy][xx] != g[yy][xx] ==> g[yy][xx] == Color::Empty && place(g, c, r, x, y)[yy][xx]
                == c,
{
    let k = piece_index_spec(c);
    assert forall|yy: int, xx: int|
        0 <= yy < BOARD_HEIGHT && 0 <= xx < BOARD_WIDTH && #[trigger] place(g, c, r, x, y)[yy][xx]
            != g[yy][xx] implies g[yy][xx] == Color::Empty && place(g, c, r, x, y)[yy][xx] == c by {
        lemma_place_cell(g, c, r, x, y, yy, xx);
        if y <= yy < y + shape_height_spec(k, r) && x <= xx < x + shape_width_spec(k, r)
            && shape_filled_spec(k, r, yy - y, xx - x) {
            if g[yy][xx] != Color::Empty {
                assert(collides(g, k, r, x, y));
            }
        }
    };
}

/// The hand-engineered board features fed to the leaf evaluator: hole
/// count, bumpiness and aggregate height, as exact cell counts.
#[derive(Clone, Copy, PartialEq, Eq, Structural, Debug)]
pub struct Features {
    pub holes: u64,
    pub bumpiness: u64,
    pub aggregate_height: u64,
}

/// Whether some cell above row `y` in column `x` is occupied.
pub open spec fn occ_above(g: Seq<Seq<Color>>, x: int, y: int) -> bool {
    exists|t: int| 0 <= t < y && #[trigger] g[t][x] != Color::Empty
}

/// The holes of column `x` among rows 1..`y`: empty cells with an occupied
/// cell somewhere above them in the same column.
pub open spec fn col_holes_upto(g: Seq<Seq<Color>>, x: int, y: int) -> int
    decreases y,
{
    if y <= 1 {
        0
    } else {
        col_holes_upto(g, x, y - 1) + if g[y - 1][x] == Color::Empty && occ_above(g, x, y - 1) {
            1int
        } else {
            0int
        }
    }
}

/// The hole count of the whole board, summed over columns 0..`x`.
pub open spec fn holes_upto(g: Seq<Seq<Color>>, x: int) -> int
    decreases x,
{
    if x <= 0 {
        0
    } else {
        holes_upto(g, x - 1) + col_holes_upto(g, x - 1, BOARD_HEIGHT as int)
    }
}

/// The hole count of the whole board.
pub open spec fn holes_spec(g: Seq<Seq<Color>>) -> int {
    holes_upto(g, BOARD_WIDTH as int)
}

/// The stack height of column `x` measured from row `y` down: the height
/// contribution of the topmost occupied cell at or below `y`, 0 for an
/// empty column. Row 0 does not count toward heights.
pub open spec fn col_top(g: Seq<Seq<Color>>, x: int, y: int) -> int
    decreases BOARD_HEIGHT - y,
{
    if y >= BOARD_HEIGHT {
        0
    } else if g[y][x] != Color::Empty {
        BOARD_HEIGHT - y
    } else {
        col_top(g, x, y + 1)
    }
}

/// The stack height of column `x`.
pub open spec fn col_height(g: Seq<Seq<Color>>, x: int) -> int {
    col_top(g, x, 1)
}

/// |a - b|.
pub open spec fn abs_diff(a: int, b: int) -> int {
    if a >= b {
        a - b
    } else {
        b - a
    }
}

/// The aggregate height summed over columns 0..`x`.
pub open spec fn agg_upto(g: Seq<Seq<Color>>, x: int) -> int
    decreases x,
{
    if x <= 0 {
        0
    } else {
        agg_upto(g, x - 1) + col_height(g, x - 1)
    }
}

/// The aggregate height of the board: the sum of its column heights.
pub open spec fn agg_spec(g: Seq<Seq<Color>>) -> int {
    agg_upto(g, BOARD_WIDTH as int)
}

/// The bumpiness of the first `x + 1` columns: the sum of absolute height
/// differences between adjacent columns.
pub open spec fn bump_upto(g: Seq<Seq<Color>>, x: int) -> int
    decreases x,
{
    if x <= 0 {
        0
    } else {
        bump_upto(g, x - 1) + abs_diff(col_height(g, x - 1), col_height(g, x))
    }
}

/// The bumpiness of the board.
pub open spec fn bump_spec(g: Seq<Seq<Color>>) -> int {
    bump_upto(g, BOARD_WIDTH as int - 1)
}

proof fn lemma_col_top_bound(g: Seq<Seq<Color>>, x: int, y: int)
    requires
        0 <= y <= BOARD_HEIGHT,
    ensures
        0 <= col_top(g, x, y) <= BOARD_HEIGHT - y,
    decreases BOARD_HEIGHT - y,
{
    if y < BOARD_HEIGHT && g[y][x] == Color::Empty {
        lemma_col_top_bound(g, x, y + 1);
    }
}

proof fn lemma_col_holes_bound(g: Seq<Seq<Color>>, x: int, y: int)
    ensures
        0 <= col_holes_upto(g, x, y) <= if y <= 1 {
            0int
        } else {
            y - 1
        },
    decreases y,
{
    if y > 1 {
        lemma_col_holes_bound(g, x, y - 1);
    }
}

impl Position {
    /// Computes the board features: hole count (empty cells with an
    /// occupied cell above them in the same column), bumpiness and
    /// aggregate height.
    pub fn features(&self) -> (f: Features)
        requires
            board_ok(self.bgrid()),
        ensures
            f.holes == holes_spec(self.bgrid()),
            f.bumpiness == bump_spec(self.bgrid()),
            f.aggregate_height == agg_spec(self.bgrid()),
    {
        let ghost g = self.bgrid();
        let mut holes: u64 = 0;
        let mut heights: Vec<u64> = Vec::new();
        let mut x: usize = 0;
        while x < BOARD_WIDTH
            invariant
                x <= BOARD_WIDTH,
                board_ok(g),
                g == self.bgrid(),
                holes == holes_upto(g, x as int),
                holes <= 210 * x,
                heights@.len() == x,
                forall|t: int| 0 <= t < x ==> #[trigger] heights@[t] == col_height(g, t),
            decreases BOARD_WIDTH - x,
        {
            // Column height: the topmost occupied cell among rows 1 and
            // below.
            let mut hgt: u64 = 0;
            let mut found = false;
            let mut y: usize = 1;
            while y < BOARD_HEIGHT
                invariant
                    1 <= y <= BOARD_HEIGHT,
                    x < BOARD_WIDTH,
                    board_ok(g),
                    g == self.bgrid(),
                    found ==> hgt == col_height(g, x as int),
                    !found ==> hgt == 0 && col_height(g, x as int) == col_top(g, x as int, y as int),
                    hgt <= 21,
                decreases BOARD_HEIGHT - y,
            {
                let c = crate::grid::get_cell(&self.board, y, x);
                if !found && !c.is_empty() {
                    hgt = (BOARD_HEIGHT - y) as u64;
                    found = true;
                }
                y = y + 1;
            }
            proof {
                if !found {
                    assert(col_height(g, x as int) == col_top(g, x as int, BOARD_HEIGHT as int));
                }
                assert(hgt == col_height(g, x as int));
            }
            heights.push(hgt);
            // Column holes: empty cells below the first occupied cell.
            let first = crate::grid::get_cell(&self.board, 0, x);
            let mut seen = !first.is_empty();
            let mut ch: u64 = 0;
            let mut y2: usize = 1;
            proof {
                assert(seen == occ_above(g, x as int, 1));
            }
            while y2 < BOARD_HEIGHT
                invariant
                    1 <= y2 <= BOARD_HEIGHT,
                    x < BOARD_WIDTH,
                    board_ok(g),
                    g == self.bgrid(),
                    seen == occ_above(g, x as int, y2 as int),
                    ch == col_holes_upto(g, x as int, y2 as int),
                    ch <= y2 - 1,
                decreases BOARD_HEIGHT - y2,
            {
                let c = crate::grid::get_cell(&self.board, y2, x);
                if c.is_empty() {
                    if seen {
                        ch = ch + 1;
                    }
                } else {
                    seen = true;
                }
                proof {
                    assert forall|t: int|
                        0 <= t < y2 + 1 && #[trigger] g[t][x as int] != Color::Empty implies
                        occ_above(g, x as int, y2 + 1) by {};
                }
                y2 = y2 + 1;
            }
            proof {
                lemma_col_holes_bound(g, x as int, BOARD_HEIGHT as int);
            }
            holes = holes + ch;
            x = x + 1;
        }
        // Bumpiness and aggregate height from the column heights.
        proof {
            assert forall|u: int| 0 <= u < BOARD_WIDTH implies #[trigger] heights@[u] <= 21 by {
                lemma_col_top_bound(g, u, 1);
            };
        }
        let mut bump: u64 = 0;
        let mut agg: u64 = 0;
        let mut t: usize = 0;
        while t < BOARD_WIDTH
            invariant
                t <= BOARD_WIDTH,
                heights@.len() == BOARD_WIDTH,
                forall|u: int| 0 <= u < BOARD_WIDTH ==> #[trigger] heights@[u] == col_height(g, u),
                forall|u: int| 0 <= u < BOARD_WIDTH ==> #[trigger] heights@[u] <= 21,
                agg == agg_upto(g, t as int),
                agg <= 21 * t,
                bump == bump_upto(g, if t == 0 {
                    0int
                } else {
                    t - 1
                }),
                bump <= 21 * t,
            decreases BOARD_WIDTH - t,
        {
            agg = agg + heights[t];
            if t > 0 {
                let a = heights[t - 1];
                let b = heights[t];
                let d = if a >= b {
                    a - b
                } else {
                    b - a
                };
                bump = bump + d;
            }
            t = t + 1;
        }
        Features { holes, bumpiness: bump, aggregate_height: agg }
    }
}

/// The numeric code of a color: 0 for empty, 1..8 for I, O, J, L, S, T, Z,
/// and the unresolved sentinel.
pub open spec fn color_code_spec(c: Color) -> int {
    match c {
        Color::Empty => 0,
        Color::I => 1,
        Color::O => 2,
        Color::J => 3,
        Color::L => 4,
        Color::S => 5,
        Color::T => 6,
        Color::Z => 7,
        Color::Random => 8,
    }
}

/// Returns the numeric code of a color.
pub fn color_code(c: Color) -> (n: u8)
    ensures
        n == color_code_spec(c),
{
    match c {
        Color::Empty => 0,
        Color::I => 1,
        Color::O => 2,
        Color::J => 3,
        Color::L => 4,
        Color::S => 5,
        Color::T => 6,
        Color::Z => 7,
        Color::Random => 8,
    }
}

/// The color of a numeric code, empty for codes outside 1..8.
pub open spec fn color_from_code_spec(n: int) -> Color {
    if n == 1 {
        Color::I
    } else if n == 2 {
        Color::O
    } else if n == 3 {
        Color::J
    } else if n == 4 {
        Color::L
    } else if n == 5 {
        Color::S
    } else if n == 6 {
        Color::T
    } else if n == 7 {
        Color::Z
    } else {
        Color::Empty
    }
}

/// Returns the color of a numeric code.
pub fn color_from_code(n: u8) -> (c: Color)
    ensures
        c == color_from_code_spec(n as int),
{
    match n {
        1 => Color::I,
        2 => Color::O,
        3 => Color::J,
        4 => Color::L,
        5 => Color::S,
        6 => Color::T,
        7 => Color::Z,
        _ => Color::Empty,
    }
}

/// What the next-piece model draws from `roll` and `reroll` when the piece
/// before it is `next`.
pub open spec fn sample_spec(next: Color, roll: int, reroll: int) -> Color {
    if roll == color_code_spec(next) || roll == 8 {
        color_from_code_spec(reroll)
    } else {
        color_from_code_spec(roll)
    }
}

impl Default for Position {
    /// The empty starting position: empty board, I then J in play, score 0.
    fn default() -> (d: Self)
        ensures
            d.bgrid() == empty_grid(),
            d.score == 0,
            d.last_piece == Color::Empty,
            d.current_piece == Color::I,
            d.next_piece == Color::J,
            d.hash == 0,
            d.min_y == BOARD_HEIGHT - 1,
    {
        let board = new_empty_board();
        proof {
            lemma_empty_grid_hash_zero();
            lemma_empty_grid_top(0);
            assert(board@.len() == grid_view(board@).len());
            assert forall|t: int| 0 <= t < BOARD_HEIGHT implies (#[trigger] board@[t])@.len()
                == BOARD_WIDTH by {
                assert(grid_view(board@)[t] == board@[t]@);
                assert(grid_view(board@)[t] == empty_grid()[t]);
            };
        }
        let min_y = crate::grid::compute_min_y(&board);
        Position {
            last_piece: Color::Empty,
            current_piece: Color::I,
            next_piece: Color::J,
            score: 0,
            hash: 0,
            board,
            min_y,
        }
    }
}

/// A flat cell index decomposes into its row and column.
proof fn lemma_flat(y: int, x: int)
    requires
        0 <= y < BOARD_HEIGHT,
        0 <= x < BOARD_WIDTH,
    ensures
        (y * BOARD_WIDTH + x) / (BOARD_WIDTH as int) == y,
        (y * BOARD_WIDTH + x) % (BOARD_WIDTH as int) == x,
{
    vstd::arithmetic::div_mod::lemma_fundamental_div_mod_converse(
        y * BOARD_WIDTH + x,
        BOARD_WIDTH as int,
        y,
        x,
    );
}

/// Base-`w` encodings of bitmap cells are injective.
proof fn lemma_shape_flat_inj(w: int, j: int, i: int, jj: int, ii: int)
    requires
        0 <= i < w,
        0 <= ii < w,
        jj * w + ii == j * w + i,
    ensures
        jj == j && ii == i,
{
    assert(jj == j && ii == i) by (nonlinear_arith)
        requires
            0 <= i < w,
            0 <= ii < w,
            jj * w + ii == j * w + i,
    ;
}

/// The board after placement, restricted to the first `t` filled bitmap
/// cells in row-major bitmap order; the intermediate states of `place_piece`.
pub open spec fn place_prefix(
    g: Seq<Seq<Color>>,
    c: Color,
    r: int,
    x: int,
    y: int,
    t: int,
) -> Seq<Seq<Color>> {
    let k = piece_index_spec(c);
    let w = shape_width_spec(k, r);
    let h = shape_height_spec(k, r);
    Seq::new(
        BOARD_HEIGHT as nat,
        |yy: int|
            Seq::new(
                BOARD_WIDTH as nat,
                |xx: int|
                    if y <= yy < y + h && x <= xx < x + w && shape_filled_spec(k, r, yy - y, xx - x)
                        && (yy - y) * w + (xx - x) < t {
                        c
                    } else {
                        g[yy][xx]
                    },
            ),
    )
}


/// The cell value of a placement prefix, written out.
proof fn lemma_place_prefix_cell(
    g: Seq<Seq<Color>>,
    c: Color,
    r: int,
    x: int,
    y: int,
    t: int,
    yy: int,
    xx: int,
)
    requires
        0 <= yy < BOARD_HEIGHT,
        0 <= xx < BOARD_WIDTH,
    ensures
        place_prefix(g, c, r, x, y, t)[yy][xx] == {
            let k = piece_index_spec(c);
            let w = shape_width_spec(k, r);
            let h = shape_height_spec(k, r);
            if y <= yy < y + h && x <= xx < x + w && shape_filled_spec(k, r, yy - y, xx - x) && (yy
                - y) * w + (xx - x) < t {
                c
            } else {
                g[yy][xx]
            }
        },
{
}

/// The cell value of a placement, written out.
pub proof fn lemma_place_cell(
    g: Seq<Seq<Color>>,
    c: Color,
    r: int,
    x: int,
    y: int,
    yy: int,
    xx: int,
)
    requires
        0 <= yy < BOARD_HEIGHT,
        0 <= xx < BOARD_WIDTH,
    ensures
        place(g, c, r, x, y)[yy][xx] == {
            let k = piece_index_spec(c);
            let w = shape_width_spec(k, r);
            let h = shape_height_spec(k, r);
            if y <= yy < y + h && x <= xx < x + w && shape_filled_spec(k, r, yy - y, xx - x) {
                c
            } else {
                g[yy][xx]
            }
        },
{
}

/// Writes the filled cells of `piece` in rotation state `rot` at
/// (`x`, `y`), XOR-ing each written cell's key into the hash.
fn place_piece(nb: &mut Vec<Vec<Color>>, hash: &mut u64, z: &Zobrist, piece: Color, rot: usize, x: usize, y: usize)
    requires
        z.wf(),
        is_piece(piece),
        rot < rot_count_spec(piece_index_spec(piece)),
        board_ok(grid_view(old(nb)@)),
        !collides(grid_view(old(nb)@), piece_index_spec(piece), rot as int, x as int, y as int),
        *old(hash) == board_hash(grid_view(old(nb)@), z.keys_seq()),
    ensures
        grid_view(final(nb)@) == place(grid_view(old(nb)@), piece, rot as int, x as int, y as int),
        board_ok(grid_view(final(nb)@)),
        *final(hash) == board_hash(grid_view(final(nb)@), z.keys_seq()),
{
    let ghost g0 = grid_view(old(nb)@);
    let ghost ki = piece_index_spec(piece) as int;
    let k = piece_index(piece);
    let (w, h) = shape_size(k, rot);
    let wh = w * h;
    proof {
        assert(wh == w * h && wh <= 16) by (nonlinear_arith)
            requires
                1 <= w <= 4,
                1 <= h <= 4,
                wh == w * h,
        ;
        assert forall|yy: int, xx: int|
            0 <= yy < BOARD_HEIGHT && 0 <= xx < BOARD_WIDTH implies place_prefix(
            grid_view(nb@),
            piece,
            rot as int,
            x as int,
            y as int,
            0,
        )[yy][xx] == grid_view(nb@)[yy][xx] by {
            lemma_place_prefix_cell(
                grid_view(nb@),
                piece,
                rot as int,
                x as int,
                y as int,
                0,
                yy,
                xx,
            );
        };
        assert(place_prefix(grid_view(nb@), piece, rot as int, x as int, y as int, 0) =~~=
            grid_view(nb@));
    }
    let mut t: usize = 0;
    while t < wh
        invariant
            t <= wh,
            wh == w * h,
            z.wf(),
            is_piece(piece),
            ki == piece_index_spec(piece),
            k == ki,
            k < 7,
            rot < rot_count_spec(ki),
            w == shape_width_spec(ki, rot as int),
            h == shape_height_spec(ki, rot as int),
            1 <= w <= 4,
            1 <= h <= 4,
            board_ok(g0),
            !collides(g0, ki, rot as int, x as int, y as int),
            x + w <= BOARD_WIDTH,
            y + h <= BOARD_HEIGHT,
            grid_view(nb@) == place_prefix(g0, piece, rot as int, x as int, y as int, t as int),
            board_ok(grid_view(nb@)),
            *hash == board_hash(grid_view(nb@), z.keys_seq()),
        decreases w * h - t,
    {
        let j = t / w;
        let i = t % w;
        proof {
            vstd::arithmetic::div_mod::lemma_mod_division_less_than_divisor(t as int, w as int);
            assert(j < h) by (nonlinear_arith)
                requires
                    t < w * h,
                    j == t as int / (w as int),
                    1 <= w,
                    t as int == (t as int / (w as int)) * w + t as int % (w as int),
                    0 <= t as int % (w as int) < w,
            ;
            vstd::arithmetic::div_mod::lemma_fundamental_div_mod(t as int, w as int);
            assert((j as int) * w + i == t) by {
                vstd::arithmetic::div_mod::lemma_fundamental_div_mod(t as int, w as int);
            };
        }
        let ghost gcur = grid_view(nb@);
        if crate::pieces::shape_cell(k, rot, j, i) {
            let cy = y + j;
            let cx = x + i;
            proof {
                // The target cell still holds its original value, which a
                // non-colliding pose forces to be empty.
                assert(gcur[cy as int][cx as int] == g0[cy as int][cx as int]) by {
                    lemma_place_prefix_cell(
                        g0,
                        piece,
                        rot as int,
                        x as int,
                        y as int,
                        t as int,
                        cy as int,
                        cx as int,
                    );
                };
                assert(g0[cy as int][cx as int] == Color::Empty) by {
                    if g0[cy as int][cx as int] != Color::Empty {
                        assert(collides(g0, ki, rot as int, x as int, y as int));
                    }
                };
            }
            let key = z.key(cy, cx, piece);
            proof {
                let n0 = (cy as int) * BOARD_WIDTH + cx;
                let gnext = place_prefix(g0, piece, rot as int, x as int, y as int, t + 1);
                lemma_flat(cy as int, cx as int);
                assert forall|yy: int, xx: int|
                    0 <= yy < BOARD_HEIGHT && 0 <= xx < BOARD_WIDTH && !(yy == cy && xx == cx)
                        implies gnext[yy][xx] == gcur[yy][xx] by {
                    lemma_place_prefix_cell(
                        g0,
                        piece,
                        rot as int,
                        x as int,
                        y as int,
                        t as int,
                        yy,
                        xx,
                    );
                    lemma_place_prefix_cell(
                        g0,
                        piece,
                        rot as int,
                        x as int,
                        y as int,
                        t + 1,
                        yy,
                        xx,
                    );
                    if y <= yy < y + h && x <= xx < x + w && shape_filled_spec(
                        ki,
                        rot as int,
                        yy - y,
                        xx - x,
                    ) {
                        if (yy - y) * w + (xx - x) == t {
                            lemma_shape_flat_inj(w as int, j as int, i as int, yy - y, xx - x);
                        }
                    }
                };
                assert forall|m: int|
                    0 <= m < BOARD_HEIGHT * BOARD_WIDTH && m != n0 implies #[trigger]
                    crate::zobrist::cell_key(gcur, z.keys_seq(), m) == crate::zobrist::cell_key(
                    gnext,
                    z.keys_seq(),
                    m,
                ) by {
                    vstd::arithmetic::div_mod::lemma_fundamental_div_mod(m, BOARD_WIDTH as int);
                    vstd::arithmetic::div_mod::lemma_mod_division_less_than_divisor(
                        m,
                        BOARD_WIDTH as int,
                    );
                    assert(0 <= m / (BOARD_WIDTH as int) < BOARD_HEIGHT) by (nonlinear_arith)
                        requires
                            0 <= m < BOARD_HEIGHT * BOARD_WIDTH,
                            m == (m / (BOARD_WIDTH as int)) * (BOARD_WIDTH as int) + m % (
                            BOARD_WIDTH as int),
                            0 <= m % (BOARD_WIDTH as int) < BOARD_WIDTH,
                    ;
                };
                lemma_place_prefix_cell(
                    g0,
                    piece,
                    rot as int,
                    x as int,
                    y as int,
                    t + 1,
                    cy as int,
                    cx as int,
                );
                crate::zobrist::lemma_hash_one_change(gcur, gnext, z.keys_seq(), n0);
                assert(crate::zobrist::cell_key(gcur, z.keys_seq(), n0) == 0);
                assert(crate::zobrist::cell_key(gnext, z.keys_seq(), n0) == key);
                crate::zobrist::lemma_xor_zero(*hash);
            }
            *hash = *hash ^ key;
            crate::grid::set_cell(nb, cy, cx, piece);
            proof {
                assert(grid_view(nb@) =~~= place_prefix(
                    g0,
                    piece,
                    rot as int,
                    x as int,
                    y as int,
                    t + 1,
                ));
            }
        } else {
            proof {
                assert forall|yy: int, xx: int|
                    0 <= yy < BOARD_HEIGHT && 0 <= xx < BOARD_WIDTH implies place_prefix(
                    g0,
                    piece,
                    rot as int,
                    x as int,
                    y as int,
                    t + 1,
                )[yy][xx] == gcur[yy][xx] by {
                    lemma_place_prefix_cell(
                        g0,
                        piece,
                        rot as int,
                        x as int,
                        y as int,
                        t as int,
                        yy,
                        xx,
                    );
                    lemma_place_prefix_cell(
                        g0,
                        piece,
                        rot as int,
                        x as int,
                        y as int,
                        t + 1,
                        yy,
                        xx,
                    );
                    if y <= yy < y + h && x <= xx < x + w && shape_filled_spec(
                        ki,
                        rot as int,
                        yy - y,
                        xx - x,
                    ) {
                        if (yy - y) * w + (xx - x) == t {
                            lemma_shape_flat_inj(w as int, j as int, i as int, yy - y, xx - x);
                        }
                    }
                };
                assert(place_prefix(g0, piece, rot as int, x as int, y as int, t + 1) =~~= gcur);
            }
        }
        t = t + 1;
    }
    proof {
        assert forall|yy: int, xx: int|
            0 <= yy < BOARD_HEIGHT && 0 <= xx < BOARD_WIDTH implies place_prefix(
            g0,
            piece,
            rot as int,
            x as int,
            y as int,
            (w * h) as int,
        )[yy][xx] == place(g0, piece, rot as int, x as int, y as int)[yy][xx] by {
            lemma_place_prefix_cell(
                g0,
                piece,
                rot as int,
                x as int,
                y as int,
                (w * h) as int,
                yy,
                xx,
            );
            lemma_place_cell(g0, piece, rot as int, x as int, y as int, yy, xx);
            if y <= yy < y + h && x <= xx < x + w {
                assert((yy - y) * w + (xx - x) < w * h) by (nonlinear_arith)
                    requires
                        0 <= yy - y < h,
                        0 <= xx - x < w,
                ;
            }
        };
        assert(place_prefix(g0, piece, rot as int, x as int, y as int, (w * h) as int) =~~= place(
            g0,
            piece,
            rot as int,
            x as int,
            y as int,
        ));
    }
}

/// One cell changed: the board hash changes by the XOR of that cell's old
/// and new keys.
proof fn lemma_hash_cell_write(
    gold: Seq<Seq<Color>>,
    gnew: Seq<Seq<Color>>,
    z: Seq<u64>,
    cy: int,
    cx: int,
)
    requires
        0 <= cy < BOARD_HEIGHT,
        0 <= cx < BOARD_WIDTH,
        forall|yy: int, xx: int|
            0 <= yy < BOARD_HEIGHT && 0 <= xx < BOARD_WIDTH && !(yy == cy && xx == cx)
                ==> #[trigger] gold[yy][xx] == #[trigger] gnew[yy][xx],
    ensures
        crate::zobrist::board_hash(gnew, z) == crate::zobrist::board_hash(gold, z)
            ^ crate::zobrist::key_spec(z, cy, cx, gold[cy][cx]) ^ crate::zobrist::key_spec(
            z,
            cy,
            cx,
            gnew[cy][cx],
        ),
{
    let n0 = cy * BOARD_WIDTH + cx;
    lemma_flat(cy, cx);
    assert forall|m: int|
        0 <= m < BOARD_HEIGHT * BOARD_WIDTH && m != n0 implies #[trigger] crate::zobrist::cell_key(
        gold,
        z,
        m,
    ) == crate::zobrist::cell_key(gnew, z, m) by {
        vstd::arithmetic::div_mod::lemma_fundamental_div_mod(m, BOARD_WIDTH as int);
        vstd::arithmetic::div_mod::lemma_mod_division_less_than_divisor(m, BOARD_WIDTH as int);
        assert(0 <= m / (BOARD_WIDTH as int) < BOARD_HEIGHT) by (nonlinear_arith)
            requires
                0 <= m < BOARD_HEIGHT * BOARD_WIDTH,
                m == (m / (BOARD_WIDTH as int)) * (BOARD_WIDTH as int) + m % (BOARD_WIDTH as int),
                0 <= m % (BOARD_WIDTH as int) < BOARD_WIDTH,
        ;
    };
    crate::zobrist::lemma_hash_one_change(gold, gnew, z, n0);
}

/// The intermediate grid while row `j` is being cleared: rows after `yy`
/// already shifted down by one, row `yy` shifted up to column `xx`.
pub open spec fn shift_state(S: Seq<Seq<Color>>, j: int, yy: int, xx: int) -> Seq<Seq<Color>> {
    Seq::new(
        BOARD_HEIGHT as nat,
        |t: int|
            if yy < t && t <= j {
                S[t - 1]
            } else if t == yy {
                Seq::new(
                    BOARD_WIDTH as nat,
                    |u: int|
                        if u < xx {
                            S[yy - 1][u]
                        } else {
                            S[yy][u]
                        },
                )
            } else {
                S[t]
            },
    )
}

/// The grid after clearing row `j`: rows above shifted down one, the top
/// row emptied.
pub open spec fn shifted_down(S: Seq<Seq<Color>>, j: int) -> Seq<Seq<Color>> {
    Seq::new(
        BOARD_HEIGHT as nat,
        |t: int|
            if t == 0 {
                empty_row()
            } else if t <= j {
                S[t - 1]
            } else {
                S[t]
            },
    )
}

/// The partially emptied top row while it is being cleared.
pub open spec fn clear_top_state(S: Seq<Seq<Color>>, j: int, xx: int) -> Seq<Seq<Color>> {
    Seq::new(
        BOARD_HEIGHT as nat,
        |t: int|
            if t == 0 {
                Seq::new(
                    BOARD_WIDTH as nat,
                    |u: int|
                        if u < xx {
                            Color::Empty
                        } else {
                            S[0][u]
                        },
                )
            } else if t <= j {
                S[t - 1]
            } else {
                S[t]
            },
    )
}

/// Returns whether row `j` of the board is full.
fn row_is_full(nb: &Vec<Vec<Color>>, j: usize) -> (b: bool)
    requires
        (j as int) < nb@.len(),
        nb@[j as int]@.len() == BOARD_WIDTH,
    ensures
        b == row_full(grid_view(nb@)[j as int]),
{
    let mut x: usize = 0;
    while x < BOARD_WIDTH
        invariant
            x <= BOARD_WIDTH,
            (j as int) < nb@.len(),
            nb@[j as int]@.len() == BOARD_WIDTH,
            forall|u: int| 0 <= u < x ==> #[trigger] grid_view(nb@)[j as int][u] != Color::Empty,
        decreases BOARD_WIDTH - x,
    {
        let c = crate::grid::get_cell(nb, j, x);
        if c.is_empty() {
            return false;
        }
        x = x + 1;
    }
    true
}

/// Shifts rows 0..`j` down one row into 1..=`j` and empties the top row,
/// XOR-updating the hash for every displaced cell.
fn shift_down(nb: &mut Vec<Vec<Color>>, hash: &mut u64, z: &Zobrist, j: usize)
    requires
        z.wf(),
        j < BOARD_HEIGHT,
        board_ok(grid_view(old(nb)@)),
        *old(hash) == board_hash(grid_view(old(nb)@), z.keys_seq()),
    ensures
        grid_view(final(nb)@) == shifted_down(grid_view(old(nb)@), j as int),
        board_ok(grid_view(final(nb)@)),
        *final(hash) == board_hash(grid_view(final(nb)@), z.keys_seq()),
{
    let ghost s0 = grid_view(old(nb)@);
    let mut yy: usize = j;
    proof {
        assert(grid_view(nb@) =~~= shift_state(s0, j as int, j as int, 0));
    }
    while yy >= 1
        invariant
            yy <= j,
            j < BOARD_HEIGHT,
            z.wf(),
            board_ok(s0),
            grid_view(nb@) == shift_state(s0, j as int, yy as int, 0),
            board_ok(grid_view(nb@)),
            *hash == board_hash(grid_view(nb@), z.keys_seq()),
        decreases yy,
    {
        let mut xx: usize = 0;
        while xx < BOARD_WIDTH
            invariant
                xx <= BOARD_WIDTH,
                1 <= yy <= j,
                j < BOARD_HEIGHT,
                z.wf(),
                board_ok(s0),
                grid_view(nb@) == shift_state(s0, j as int, yy as int, xx as int),
                board_ok(grid_view(nb@)),
                *hash == board_hash(grid_view(nb@), z.keys_seq()),
            decreases BOARD_WIDTH - xx,
        {
            let ghost gcur = grid_view(nb@);
            let src = crate::grid::get_cell(nb, yy - 1, xx);
            let cur = crate::grid::get_cell(nb, yy, xx);
            proof {
                assert(src == s0[yy - 1][xx as int]);
                assert(cur == s0[yy as int][xx as int]);
            }
            let kold = z.key(yy, xx, cur);
            let knew = z.key(yy, xx, src);
            proof {
                let gnext = gcur.update(
                    yy as int,
                    gcur[yy as int].update(xx as int, src),
                );
                lemma_hash_cell_write(gcur, gnext, z.keys_seq(), yy as int, xx as int);
            }
            *hash = *hash ^ kold ^ knew;
            crate::grid::set_cell(nb, yy, xx, src);
            proof {
                assert(grid_view(nb@) =~~= shift_state(s0, j as int, yy as int, xx + 1));
            }
            xx = xx + 1;
        }
        proof {
            assert(grid_view(nb@) =~~= shift_state(s0, j as int, yy - 1, 0));
        }
        yy = yy - 1;
    }
    // Clear the now-duplicated top row.
    proof {
        assert(grid_view(nb@) =~~= clear_top_state(s0, j as int, 0));
    }
    let mut xx: usize = 0;
    while xx < BOARD_WIDTH
        invariant
            xx <= BOARD_WIDTH,
            j < BOARD_HEIGHT,
            z.wf(),
            board_ok(s0),
            grid_view(nb@) == clear_top_state(s0, j as int, xx as int),
            board_ok(grid_view(nb@)),
            *hash == board_hash(grid_view(nb@), z.keys_seq()),
        decreases BOARD_WIDTH - xx,
    {
        let ghost gcur = grid_view(nb@);
        let cur = crate::grid::get_cell(nb, 0, xx);
        let kold = z.key(0, xx, cur);
        proof {
            let gnext = gcur.update(0, gcur[0].update(xx as int, Color::Empty));
            lemma_hash_cell_write(gcur, gnext, z.keys_seq(), 0, xx as int);
            crate::zobrist::lemma_xor_zero(*hash ^ kold);
        }
        *hash = *hash ^ kold;
        crate::grid::set_cell(nb, 0, xx, Color::Empty);
        proof {
            assert(grid_view(nb@) =~~= clear_top_state(s0, j as int, xx + 1));
        }
        xx = xx + 1;
    }
    proof {
        assert(grid_view(nb@) =~~= shifted_down(s0, j as int));
    }
}

/// The grid after the clearing scan has processed rows 0..`j`: the cleared
/// rows so far as empty padding on top, the kept prefix rows below them,
/// and the unscanned rows unchanged.
pub open spec fn clear_stage(g1: Seq<Seq<Color>>, j: int) -> Seq<Seq<Color>> {
    let keep = keep_rows(g1.subrange(0, j));
    Seq::new((j - keep.len()) as nat, |i: int| empty_row()) + keep + g1.subrange(
        j,
        BOARD_HEIGHT as int,
    )
}

/// Scans rows top to bottom and clears every full one, shifting the rows
/// above it down; returns how many rows were cleared.
fn clear_rows(nb: &mut Vec<Vec<Color>>, hash: &mut u64, z: &Zobrist) -> (count: usize)
    requires
        z.wf(),
        board_ok(grid_view(old(nb)@)),
        *old(hash) == board_hash(grid_view(old(nb)@), z.keys_seq()),
    ensures
        grid_view(final(nb)@) == cleared(grid_view(old(nb)@)),
        board_ok(grid_view(final(nb)@)),
        *final(hash) == board_hash(grid_view(final(nb)@), z.keys_seq()),
        count == full_count(grid_view(old(nb)@)),
{
    let ghost g1 = grid_view(old(nb)@);
    let mut count: usize = 0;
    let mut j: usize = 0;
    proof {
        assert(g1.subrange(0, 0) =~= Seq::<Seq<Color>>::empty());
        assert(keep_rows(g1.subrange(0, 0)) =~= Seq::<Seq<Color>>::empty());
        assert(clear_stage(g1, 0) =~~= g1);
    }
    while j < BOARD_HEIGHT
        invariant
            j <= BOARD_HEIGHT,
            z.wf(),
            board_ok(g1),
            count == j - keep_rows(g1.subrange(0, j as int)).len(),
            keep_rows(g1.subrange(0, j as int)).len() <= j,
            grid_view(nb@) == clear_stage(g1, j as int),
            board_ok(grid_view(nb@)),
            *hash == board_hash(grid_view(nb@), z.keys_seq()),
        decreases BOARD_HEIGHT - j,
    {
        let ghost keep = keep_rows(g1.subrange(0, j as int));
        proof {
            // The next unscanned row of the stage is the original row j.
            assert(clear_stage(g1, j as int)[j as int] == g1[j as int]);
            assert(g1.subrange(0, j + 1).drop_last() =~= g1.subrange(0, j as int));
            assert(g1.subrange(0, j + 1).last() == g1[j as int]);
            lemma_keep_rows_len(g1.subrange(0, j + 1));
        }
        let full = row_is_full(nb, j);
        if full {
            proof {
                assert(row_full(g1[j as int]));
                assert(keep_rows(g1.subrange(0, j + 1)) == keep);
            }
            let ghost scur = grid_view(nb@);
            shift_down(nb, hash, z, j);
            count = count + 1;
            proof {
                assert(grid_view(nb@) =~~= clear_stage(g1, j + 1));
            }
        } else {
            proof {
                assert(!row_full(g1[j as int]));
                assert(keep_rows(g1.subrange(0, j + 1)) == keep.push(g1[j as int]));
                assert(grid_view(nb@) =~~= clear_stage(g1, j + 1));
            }
        }
        j = j + 1;
    }
    proof {
        assert(g1.subrange(0, BOARD_HEIGHT as int) =~= g1);
        assert(grid_view(nb@) =~~= cleared(g1));
    }
    count
}

/// The empty grid hashes to 0 under any key table, because every cell key
/// is 0.
pub proof fn lemma_empty_grid_hash_zero()
    ensures
        forall|z: Seq<u64>| board_hash(empty_grid(), z) == 0,
{
    assert forall|z: Seq<u64>| board_hash(empty_grid(), z) == 0 by {
        assert forall|m: int|
            0 <= m < BOARD_HEIGHT * BOARD_WIDTH implies #[trigger] crate::zobrist::cell_key(
            empty_grid(),
            z,
            m,
        ) == 0 by {
            vstd::arithmetic::div_mod::lemma_mod_division_less_than_divisor(m, BOARD_WIDTH as int);
            assert(0 <= m / (BOARD_WIDTH as int) < BOARD_HEIGHT) by {
                vstd::arithmetic::div_mod::lemma_div_multiples_vanish(
                    BOARD_HEIGHT as int,
                    BOARD_WIDTH as int,
                );
                vstd::arithmetic::div_mod::lemma_div_is_ordered(0, m, BOARD_WIDTH as int);
                vstd::arithmetic::div_mod::lemma_div_is_ordered(
                    m,
                    BOARD_HEIGHT * BOARD_WIDTH - 1,
                    BOARD_WIDTH as int,
                );
                vstd::arithmetic::div_mod::lemma_div_nonincreasing(m, BOARD_WIDTH as int);
            };
        };
        crate::zobrist::lemma_hash_upto_empty(empty_grid(), z, (BOARD_HEIGHT * BOARD_WIDTH) as int);
    };
}

/// On the empty grid no row is occupied, so the cached minimum occupied
/// row is the last row index.
pub proof fn lemma_empty_grid_top(y: int)
    requires
        0 <= y <= BOARD_HEIGHT - 1,
    ensures
        top_occupied_from(empty_grid(), y) == BOARD_HEIGHT - 1,
    decreases BOARD_HEIGHT - y,
{
    if y < BOARD_HEIGHT - 1 {
        assert(!crate::grid::row_occupied(empty_grid()[y]));
        lemma_empty_grid_top(y + 1);
    }
}

} // verus!
