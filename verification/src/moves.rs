//! Legal-move generation and pose-to-action path synthesis.
//!
//! A move is legal exactly when its pose is a lock pose and is reachable
//! from the spawn pose (see `reach`). `legal_moves` reports, per piece
//! kind, the exact sequence of legal moves in a canonical order: rotation
//! states ascending, columns ascending, rows bottom to top. `path` hands
//! back a concrete action sequence for one pose and is exact about when
//! one exists.

use crate::grid::{board_ok, grid_view};
use crate::pieces::{
    is_piece, kind_at, kind_at_spec, piece_index, piece_index_spec, rot_count, rot_count_spec,
    shape_height_spec, shape_size, shape_width_spec, spawn_pose, Action, Color, BOARD_HEIGHT,
    BOARD_WIDTH,
};
use crate::pos::{check_collision, collides, is_lock, is_lock_at, Position};
use crate::reach::{
    explore, lemma_replay_valid, no_idle, pose_idx, pose_in_box, pose_ints, reachable, replay,
    spawn_of,
};
use crate::EngineError;
use vstd::prelude::*;

verus! {

/// A legal move of kind `c`: pose (`x`, `y`, rotation `r`) is a lock pose
/// and the action model can reach it from the spawn pose.
pub open spec fn lock_reachable(g: Seq<Seq<Color>>, c: Color, r: int, x: int, y: int) -> bool {
    let k = piece_index_spec(c);
    is_lock(g, k, r, x, y) && reachable(g, k, (x, y, r))
}

/// The legal moves of kind `c` in rotation state `r`, column `x`, rows
/// `y` down to 0, in that order.
pub open spec fn col_moves(g: Seq<Seq<Color>>, c: Color, r: int, x: int, y: int) -> Seq<
    (Color, int, int, int),
>
    decreases y + 1,
{
    if y < 0 {
        Seq::empty()
    } else {
        (if lock_reachable(g, c, r, x, y) {
            seq![(c, x, y, r)]
        } else {
            Seq::empty()
        }) + col_moves(g, c, r, x, y - 1)
    }
}

/// The legal moves of kind `c` in rotation state `r`, columns `x` and up.
pub open spec fn row_moves(g: Seq<Seq<Color>>, c: Color, r: int, x: int) -> Seq<
    (Color, int, int, int),
>
    decreases BOARD_WIDTH - x,
{
    let k = piece_index_spec(c);
    let w = shape_width_spec(k, r);
    let h = shape_height_spec(k, r);
    if x > BOARD_WIDTH - w {
        Seq::empty()
    } else {
        col_moves(g, c, r, x, BOARD_HEIGHT - h) + row_moves(g, c, r, x + 1)
    }
}

/// The legal moves of kind `c` in rotation states `r` and up.
pub open spec fn rot_moves(g: Seq<Seq<Color>>, c: Color, r: int) -> Seq<(Color, int, int, int)>
    decreases rot_count_spec(piece_index_spec(c)) - r,
{
    if r >= rot_count_spec(piece_index_spec(c)) || r < 0 {
        Seq::empty()
    } else {
        row_moves(g, c, r, 0) + rot_moves(g, c, r + 1)
    }
}

/// All legal moves of kind `c`, in canonical order.
pub open spec fn kind_moves(g: Seq<Seq<Color>>, c: Color) -> Seq<(Color, int, int, int)> {
    rot_moves(g, c, 0)
}

/// Whether the exec move list `res` matches the spec move list `s`
/// elementwise.
pub open spec fn moves_match(
    res: Seq<(Color, usize, usize, usize)>,
    s: Seq<(Color, int, int, int)>,
) -> bool {
    &&& res.len() == s.len()
    &&& forall|i: int|
        0 <= i < res.len() ==> {
            let e = #[trigger] res[i];
            &&& e.0 == s[i].0
            &&& e.1 == s[i].1
            &&& e.2 == s[i].2
            &&& e.3 == s[i].3
        }
}

/// Returns the legal moves of kind `kind` on `board`, in canonical order:
/// every reported pose is a reachable lock pose, and every reachable lock
/// pose is reported.
pub fn moves_for_kind(board: &Vec<Vec<Color>>, kind: Color) -> (res: Vec<
    (Color, usize, usize, usize),
>)
    requires
        board_ok(grid_view(board@)),
        is_piece(kind),
    ensures
        moves_match(res@, kind_moves(grid_view(board@), kind)),
{
    let ghost g = grid_view(board@);
    let ki = piece_index(kind);
    let rc = rot_count(ki);
    let sp = spawn_pose(ki);
    let pair = explore(board, kind, sp);
    let vis = pair.0;
    let mut res: Vec<(Color, usize, usize, usize)> = Vec::new();
    let ghost mut done: Seq<(Color, int, int, int)> = Seq::empty();
    let mut r: usize = 0;
    proof {
        assert(moves_match(res@, done));
        assert(kind_moves(g, kind) =~= done + rot_moves(g, kind, 0));
    }
    while r < rc
        invariant
            r <= rc,
            ki == piece_index_spec(kind),
            ki < 7,
            is_piece(kind),
            1 <= rc <= 4,
            rc == rot_count_spec(ki as int),
            board_ok(g),
            g == grid_view(board@),
            vis@.len() == crate::reach::POSE_COUNT,
            forall|p: (int, int, int)|
                pose_in_box(p) ==> (vis@[#[trigger] pose_idx(p)] <==> reachable(g, ki as int, p)),
            moves_match(res@, done),
            kind_moves(g, kind) == done + rot_moves(g, kind, r as int),
        decreases rc - r,
    {
        let (w, h) = shape_size(ki, r);
        proof {
            assert(rot_moves(g, kind, r as int) == row_moves(g, kind, r as int, 0) + rot_moves(
                g,
                kind,
                r + 1,
            ));
            assert(kind_moves(g, kind) =~= done + row_moves(g, kind, r as int, 0) + rot_moves(
                g,
                kind,
                r + 1,
            ));
        }
        let mut x: usize = 0;
        while x + w <= BOARD_WIDTH
            invariant
                x <= BOARD_WIDTH,
                r < rc,
                ki == piece_index_spec(kind),
                ki < 7,
                is_piece(kind),
                1 <= rc <= 4,
                rc == rot_count_spec(ki as int),
                w == shape_width_spec(ki as int, r as int),
                h == shape_height_spec(ki as int, r as int),
                1 <= w <= 4,
                1 <= h <= 4,
                board_ok(g),
                g == grid_view(board@),
                vis@.len() == crate::reach::POSE_COUNT,
                forall|p: (int, int, int)|
                    pose_in_box(p) ==> (vis@[#[trigger] pose_idx(p)] <==> reachable(
                        g,
                        ki as int,
                        p,
                    )),
                moves_match(res@, done),
                kind_moves(g, kind) == done + row_moves(g, kind, r as int, x as int) + rot_moves(
                    g,
                    kind,
                    r + 1,
                ),
            decreases BOARD_WIDTH - x,
        {
            proof {
                assert(row_moves(g, kind, r as int, x as int) == col_moves(
                    g,
                    kind,
                    r as int,
                    x as int,
                    BOARD_HEIGHT - h,
                ) + row_moves(g, kind, r as int, x + 1));
                assert(kind_moves(g, kind) =~= done + col_moves(
                    g,
                    kind,
                    r as int,
                    x as int,
                    BOARD_HEIGHT - h,
                ) + row_moves(g, kind, r as int, x + 1) + rot_moves(g, kind, r + 1));
            }
            let mut yi: usize = BOARD_HEIGHT - h + 1;
            while yi > 0
                invariant
                    yi <= BOARD_HEIGHT - h + 1,
                    r < rc,
                    x + w <= BOARD_WIDTH,
                    ki == piece_index_spec(kind),
                    ki < 7,
                    is_piece(kind),
                    1 <= rc <= 4,
                    rc == rot_count_spec(ki as int),
                    w == shape_width_spec(ki as int, r as int),
                    h == shape_height_spec(ki as int, r as int),
                    1 <= w <= 4,
                    1 <= h <= 4,
                    board_ok(g),
                    g == grid_view(board@),
                    vis@.len() == crate::reach::POSE_COUNT,
                    forall|p: (int, int, int)|
                        pose_in_box(p) ==> (vis@[#[trigger] pose_idx(p)] <==> reachable(
                            g,
                            ki as int,
                            p,
                        )),
                    moves_match(res@, done),
                    kind_moves(g, kind) == done + col_moves(
                        g,
                        kind,
                        r as int,
                        x as int,
                        yi - 1,
                    ) + row_moves(g, kind, r as int, x + 1) + rot_moves(g, kind, r + 1),
                decreases yi,
            {
                let y = yi - 1;
                let ghost pp = (x as int, y as int, r as int);
                proof {
                    assert(col_moves(g, kind, r as int, x as int, y as int) == (if lock_reachable(
                        g,
                        kind,
                        r as int,
                        x as int,
                        y as int,
                    ) {
                        seq![(kind, x as int, y as int, r as int)]
                    } else {
                        Seq::empty()
                    }) + col_moves(g, kind, r as int, x as int, y - 1));
                }
                let collide = check_collision(board, ki, r, x as i32, y as i32);
                let mut legal = false;
                if !collide {
                    if is_lock_at(board, ki, r, x, y) {
                        let pidx = crate::reach::pose_index_of((x as i32, y as i32, r as i32));
                        if vis[pidx] {
                            legal = true;
                        }
                    }
                }
                proof {
                    if collide {
                        if reachable(g, ki as int, pp) {
                            let wseq = choose|wseq: Seq<Action>|
                                replay(g, ki as int, wseq) == Option::Some(pp);
                            lemma_replay_valid(g, ki as int, wseq);
                        }
                        assert(!lock_reachable(g, kind, r as int, x as int, y as int));
                    }
                    assert(legal == lock_reachable(g, kind, r as int, x as int, y as int));
                }
                if legal {
                    res.push((kind, x, y, r));
                    proof {
                        done = done + seq![(kind, x as int, y as int, r as int)];
                        assert(moves_match(res@, done));
                    }
                }
                proof {
                    assert(kind_moves(g, kind) =~= done + col_moves(
                        g,
                        kind,
                        r as int,
                        x as int,
                        y - 1,
                    ) + row_moves(g, kind, r as int, x + 1) + rot_moves(g, kind, r + 1));
                }
                yi = yi - 1;
            }
            proof {
                assert(col_moves(g, kind, r as int, x as int, -1) =~= Seq::<
                    (Color, int, int, int),
                >::empty());
                assert(kind_moves(g, kind) =~= done + row_moves(g, kind, r as int, x + 1)
                    + rot_moves(g, kind, r + 1));
            }
            x = x + 1;
        }
        proof {
            assert(row_moves(g, kind, r as int, x as int) =~= Seq::<(Color, int, int, int)>::empty());
            assert(kind_moves(g, kind) =~= done + rot_moves(g, kind, r + 1));
        }
        r = r + 1;
    }
    proof {
        assert(rot_moves(g, kind, rc as int) =~= Seq::<(Color, int, int, int)>::empty());
        assert(kind_moves(g, kind) =~= done);
    }
    res
}

impl Position {
    /// Enumerates the legal moves of this position, grouped by piece
    /// kind: one group for a known current piece, otherwise one group per
    /// kind in the order I, O, J, L, S, T, Z. Each group is the exact
    /// canonical move sequence of its kind: a pose is reported if and
    /// only if it is a reachable lock pose.
    pub fn legal_moves(&self) -> (r: Vec<Vec<(Color, usize, usize, usize)>>)
        requires
            board_ok(self.bgrid()),
            is_piece(self.current_piece) || self.current_piece == Color::Random,
        ensures
            self.current_piece != Color::Random ==> r@.len() == 1 && moves_match(
                r@[0]@,
                kind_moves(self.bgrid(), self.current_piece),
            ),
            self.current_piece == Color::Random ==> r@.len() == 7 && forall|gi: int|
                0 <= gi < 7 ==> moves_match(
                    (#[trigger] r@[gi])@,
                    kind_moves(self.bgrid(), kind_at_spec(gi)),
                ),
    {
        let mut res: Vec<Vec<(Color, usize, usize, usize)>> = Vec::new();
        if !matches!(self.current_piece, Color::Random) {
            let group = moves_for_kind(&self.board, self.current_piece);
            res.push(group);
        } else {
            let mut gi: usize = 0;
            while gi < 7
                invariant
                    gi <= 7,
                    board_ok(self.bgrid()),
                    res@.len() == gi,
                    forall|t: int|
                        0 <= t < gi ==> moves_match(
                            (#[trigger] res@[t])@,
                            kind_moves(self.bgrid(), kind_at_spec(t)),
                        ),
                decreases 7 - gi,
            {
                let group = moves_for_kind(&self.board, kind_at(gi));
                res.push(group);
                gi = gi + 1;
            }
        }
        res
    }

    /// Synthesizes the action sequence for one goal pose of the current
    /// piece: a sequence is returned exactly when the goal is reachable,
    /// and replaying it from the spawn pose lands on the goal without any
    /// intermediate collision. The sequence consists of primitive actions
    /// only — the idle action never appears — and the spawn pose itself is
    /// reached by the empty sequence. An unreachable goal is reported
    /// loudly.
    pub fn path(&self, goal: (i32, i32, i32)) -> (r: Result<Vec<Action>, EngineError>)
        requires
            board_ok(self.bgrid()),
            is_piece(self.current_piece),
        ensures
            ({
                let k = piece_index_spec(self.current_piece);
                let gp = pose_ints(goal);
                &&& (r matches Ok(acts) ==> replay(self.bgrid(), k, acts@) == Option::Some(gp))
                &&& (r matches Ok(acts) ==> forall|i: int|
                    0 <= i < acts@.len() ==> #[trigger] acts@[i] != Action::NoMove)
                &&& (r matches Ok(acts) ==> (gp == spawn_of(k) ==> acts@
                    == Seq::<Action>::empty()))
                &&& (r is Ok <==> reachable(self.bgrid(), k, gp))
                &&& (r matches Err(e) ==> e == EngineError::Unreachable)
            }),
    {
        let ghost g = self.bgrid();
        let ki = piece_index(self.current_piece);
        let rc = rot_count(ki);
        if goal.0 < 0 || goal.0 >= BOARD_WIDTH as i32 || goal.1 < 0 || goal.1 >= BOARD_HEIGHT as i32
            || goal.2 < 0 || goal.2 >= rc as i32 {
            proof {
                if reachable(g, ki as int, pose_ints(goal)) {
                    let wseq = choose|wseq: Seq<Action>|
                        replay(g, ki as int, wseq) == Option::Some(pose_ints(goal));
                    lemma_replay_valid(g, ki as int, wseq);
                }
            }
            return Result::Err(EngineError::Unreachable);
        }
        let pair = explore(&self.board, self.current_piece, goal);
        let gidx = crate::reach::pose_index_of(goal);
        if pair.0[gidx] {
            let acts = crate::reach::copy_actions(&pair.1[gidx]);
            proof {
                assert(no_idle(pair.1@[pose_idx(pose_ints(goal))]@));
            }
            Result::Ok(acts)
        } else {
            Result::Err(EngineError::Unreachable)
        }
    }
}


/// Move soundness: every move the generator reports, when applied, writes
/// the piece only into previously empty cells; everything else on the
/// board is untouched.
pub proof fn lemma_move_soundness(g: Seq<Seq<Color>>, c: Color, r: int, x: int, y: int)
    requires
        board_ok(g),
        is_piece(c),
        lock_reachable(g, c, r, x, y),
    ensures
        !collides(g, piece_index_spec(c), r, x, y),
        forall|yy: int, xx: int|
            0 <= yy < BOARD_HEIGHT && 0 <= xx < BOARD_WIDTH && #[trigger] crate::pos::place(
                g,
                c,
                r,
                x,
                y,
            )[yy][xx] != g[yy][xx] ==> g[yy][xx] == Color::Empty && crate::pos::place(
                g,
                c,
                r,
                x,
                y,
            )[yy][xx] == c,
{
    crate::pos::lemma_place_on_empty(g, c, r, x, y);
}

/// Reachability completeness: every move the generator judges legal is
/// reachable, so `path` — whose contract returns `Ok` exactly on
/// reachable poses and whose action sequence replays onto the pose —
/// succeeds on it.
pub proof fn lemma_legal_move_has_path(g: Seq<Seq<Color>>, c: Color, r: int, x: int, y: int)
    requires
        lock_reachable(g, c, r, x, y),
    ensures
        reachable(g, piece_index_spec(c), (x, y, r)),
{
}

/// Determinism of move generation: the generator's contract pins the
/// result as a function of the board and piece alone, so any two runs on
/// the same position return identical move lists.
pub proof fn lemma_moves_deterministic(
    r1: Seq<(Color, usize, usize, usize)>,
    r2: Seq<(Color, usize, usize, usize)>,
    g: Seq<Seq<Color>>,
    c: Color,
)
    requires
        moves_match(r1, kind_moves(g, c)),
        moves_match(r2, kind_moves(g, c)),
    ensures
        r1 == r2,
{
    assert forall|i: int| 0 <= i < r1.len() implies r1[i] == r2[i] by {
        assert(r1[i].0 == kind_moves(g, c)[i].0 && r2[i].0 == kind_moves(g, c)[i].0);
    };
    assert(r1 =~= r2);
}


proof fn lemma_col_moves_legal(g: Seq<Seq<Color>>, c: Color, r: int, x: int, y: int)
    ensures
        forall|i: int|
            0 <= i < col_moves(g, c, r, x, y).len() ==> {
                let m = #[trigger] col_moves(g, c, r, x, y)[i];
                &&& m.0 == c
                &&& m.1 == x
                &&& 0 <= m.2 <= y
                &&& m.3 == r
                &&& lock_reachable(g, c, r, m.1, m.2)
            },
    decreases y + 1,
{
    if y >= 0 {
        lemma_col_moves_legal(g, c, r, x, y - 1);
    }
}

proof fn lemma_row_moves_legal(g: Seq<Seq<Color>>, c: Color, r: int, x: int)
    ensures
        forall|i: int|
            0 <= i < row_moves(g, c, r, x).len() ==> {
                let m = #[trigger] row_moves(g, c, r, x)[i];
                &&& m.0 == c
                &&& x <= m.1
                &&& 0 <= m.2
                &&& m.3 == r
                &&& lock_reachable(g, c, r, m.1, m.2)
            },
    decreases BOARD_WIDTH - x,
{
    let k = piece_index_spec(c);
    let w = shape_width_spec(k, r);
    let h = shape_height_spec(k, r);
    if x <= BOARD_WIDTH - w {
        lemma_col_moves_legal(g, c, r, x, BOARD_HEIGHT - h);
        lemma_row_moves_legal(g, c, r, x + 1);
    }
}

proof fn lemma_rot_moves_legal(g: Seq<Seq<Color>>, c: Color, r: int)
    ensures
        forall|i: int|
            0 <= i < rot_moves(g, c, r).len() ==> {
                let m = #[trigger] rot_moves(g, c, r)[i];
                &&& m.0 == c
                &&& 0 <= m.1
                &&& 0 <= m.2
                &&& r <= m.3
                &&& lock_reachable(g, c, m.3, m.1, m.2)
            },
    decreases rot_count_spec(piece_index_spec(c)) - r,
{
    if 0 <= r < rot_count_spec(piece_index_spec(c)) {
        lemma_row_moves_legal(g, c, r, 0);
        lemma_rot_moves_legal(g, c, r + 1);
    }
}

/// Every move of the generated list is a legal move of its kind: a lock
/// pose that the action model reaches from the spawn pose. Together with
/// `lemma_move_soundness` this gives move soundness for the generator's
/// whole output, and together with `path`'s contract it gives
/// reachability completeness: synthesis succeeds on each of these moves.
pub proof fn lemma_generated_moves_legal(g: Seq<Seq<Color>>, c: Color)
    ensures
        forall|i: int|
            0 <= i < kind_moves(g, c).len() ==> {
                let m = #[trigger] kind_moves(g, c)[i];
                &&& m.0 == c
                &&& lock_reachable(g, c, m.3, m.1, m.2)
            },
{
    lemma_rot_moves_legal(g, c, 0);
}

} // verus!
