//! Reachability of piece poses under the primitive action model.
//!
//! A pose (x, y, rotation) is reachable when some finite sequence of
//! actions, replayed from the spawn pose without any intermediate
//! collision, ends exactly there. `explore` computes the full reachable
//! set by a best-first worklist search over the finite pose space,
//! recording for every reached pose an action sequence that is proved to
//! replay to it; the search is exact, so a pose is marked if and only if
//! it is reachable.

use crate::grid::{board_ok, grid_view};
use crate::pieces::{
    is_piece, kick_x_spec, kick_y_spec, kick_offset, piece_index, piece_index_spec, proximity,
    rot_count, rot_count_spec, spawn_pose, spawn_x_spec, spawn_y_spec, wrap_rot, wrap_rot_spec,
    Action, Color, BOARD_HEIGHT, BOARD_WIDTH,
};
use crate::pos::{check_collision, collides};
use vstd::prelude::*;

verus! {

/// One search edge: the action taken and the pose it leads to.
#[derive(Clone, Copy, PartialEq, Eq, Debug)]
pub struct Move {
    pub action: Action,
    pub dest: (i32, i32, i32),
}

impl Move {
    /// Builds a move from its action and destination pose.
    pub fn new(action: Action, dest: (i32, i32, i32)) -> (m: Move)
        ensures
            m.action == action,
            m.dest == dest,
    {
        Move { action, dest }
    }
}

/// A move queued in the search frontier together with its priority; lower
/// priorities are expanded first.
#[derive(Clone, Copy, PartialEq, Eq, Debug)]
pub struct OrderedMove {
    pub mv: Move,
    pub priority: i32,
}

impl OrderedMove {
    /// Builds a frontier entry from a move and its priority.
    pub fn new(mv: Move, priority: i32) -> (o: OrderedMove)
        ensures
            o.mv == mv,
            o.priority == priority,
    {
        OrderedMove { mv, priority }
    }
}

/// The spawn pose of kind index `k`.
pub open spec fn spawn_of(k: int) -> (int, int, int) {
    (spawn_x_spec(k), spawn_y_spec(k), 0)
}

/// The pose produced by one action from pose `p` of kind index `k`, or
/// `None` when the resulting pose collides. Rotations apply the
/// per-transition kick offset.
pub open spec fn step_pose(g: Seq<Seq<Color>>, k: int, p: (int, int, int), a: Action) -> Option<
    (int, int, int),
> {
    let n = rot_count_spec(k);
    let q = match a {
        Action::MoveLeft => (p.0 - 1, p.1, p.2),
        Action::MoveRight => (p.0 + 1, p.1, p.2),
        Action::SoftDrop => (p.0, p.1 + 1, p.2),
        Action::RotateClockwise => (
            p.0 + kick_x_spec(k, p.2),
            p.1 + kick_y_spec(k, p.2),
            wrap_rot_spec(p.2 + 1, n),
        ),
        Action::RotateCounterclockwise => {
            let r2 = wrap_rot_spec(p.2 - 1, n);
            (p.0 - kick_x_spec(k, r2), p.1 - kick_y_spec(k, r2), r2)
        },
        Action::NoMove => p,
    };
    if !collides(g, k, q.2, q.0, q.1) {
        Option::Some(q)
    } else {
        Option::None
    }
}

/// The pose reached by replaying `acts` from the spawn pose of kind `k`,
/// or `None` when the spawn collides or some step does.
pub open spec fn replay(g: Seq<Seq<Color>>, k: int, acts: Seq<Action>) -> Option<(int, int, int)>
    decreases acts.len(),
{
    if acts.len() == 0 {
        let s = spawn_of(k);
        if !collides(g, k, s.2, s.0, s.1) {
            Option::Some(s)
        } else {
            Option::None
        }
    } else {
        match replay(g, k, acts.drop_last()) {
            Option::Some(p) => step_pose(g, k, p, acts.last()),
            Option::None => Option::None,
        }
    }
}

/// A pose is reachable when some action sequence replays to it.
pub open spec fn reachable(g: Seq<Seq<Color>>, k: int, p: (int, int, int)) -> bool {
    exists|acts: Seq<Action>| replay(g, k, acts) == Option::Some(p)
}

/// Whether a pose lies in the indexable pose box.
pub open spec fn pose_in_box(p: (int, int, int)) -> bool {
    0 <= p.0 < BOARD_WIDTH && 0 <= p.1 < BOARD_HEIGHT && 0 <= p.2 < 4
}

/// The flat index of a pose in the 10 x 22 x 4 pose box.
pub open spec fn pose_idx(p: (int, int, int)) -> int {
    (p.1 * BOARD_WIDTH + p.0) * 4 + p.2
}

/// The number of entries of the pose box.
pub const POSE_COUNT: usize = 880;

proof fn lemma_pose_idx_inj(p: (int, int, int), q: (int, int, int))
    requires
        pose_in_box(p),
        pose_in_box(q),
        pose_idx(p) == pose_idx(q),
    ensures
        p == q,
{
}

/// `wrap_rot_spec` lands in 0..n.
proof fn lemma_wrap_bounds(rot: int, n: int)
    requires
        1 <= n,
    ensures
        0 <= wrap_rot_spec(rot, n) < n,
{
    vstd::arithmetic::div_mod::lemma_mod_division_less_than_divisor(rot, n);
    vstd::arithmetic::div_mod::lemma_mod_division_less_than_divisor((rot % n) + n, n);
}

/// A pose produced by a step is non-colliding, sits in the pose box, and
/// carries a rotation state of the piece.
proof fn lemma_step_valid(g: Seq<Seq<Color>>, k: int, p: (int, int, int), a: Action)
    requires
        0 <= k < 7,
        step_pose(g, k, p, a) is Some,
        0 <= p.2 < rot_count_spec(k),
    ensures
        ({
            let q = step_pose(g, k, p, a)->Some_0;
            &&& !collides(g, k, q.2, q.0, q.1)
            &&& 0 <= q.2 < rot_count_spec(k)
            &&& pose_in_box(q)
        }),
{
    let n = rot_count_spec(k);
    match a {
        Action::RotateClockwise => {
            lemma_wrap_bounds(p.2 + 1, n);
        },
        Action::RotateCounterclockwise => {
            lemma_wrap_bounds(p.2 - 1, n);
        },
        _ => {},
    }
}

/// A replayed pose is non-colliding, sits in the pose box, and carries a
/// rotation state of the piece.
pub proof fn lemma_replay_valid(g: Seq<Seq<Color>>, k: int, acts: Seq<Action>)
    requires
        0 <= k < 7,
        replay(g, k, acts) is Some,
    ensures
        ({
            let p = replay(g, k, acts)->Some_0;
            &&& !collides(g, k, p.2, p.0, p.1)
            &&& 0 <= p.2 < rot_count_spec(k)
            &&& pose_in_box(p)
        }),
    decreases acts.len(),
{
    if acts.len() == 0 {
    } else {
        lemma_replay_valid(g, k, acts.drop_last());
        let p = replay(g, k, acts.drop_last())->Some_0;
        lemma_step_valid(g, k, p, acts.last());
    }
}

/// When the spawn pose collides, nothing at all is reachable.
pub proof fn lemma_spawn_blocked(g: Seq<Seq<Color>>, k: int)
    requires
        collides(g, k, 0, spawn_x_spec(k), spawn_y_spec(k)),
    ensures
        forall|p: (int, int, int)| !reachable(g, k, p),
{
    assert forall|acts: Seq<Action>| replay(g, k, acts) is None by {
        lemma_replay_none(g, k, acts);
    };
}

proof fn lemma_replay_none(g: Seq<Seq<Color>>, k: int, acts: Seq<Action>)
    requires
        collides(g, k, 0, spawn_x_spec(k), spawn_y_spec(k)),
    ensures
        replay(g, k, acts) is None,
    decreases acts.len(),
{
    if acts.len() > 0 {
        lemma_replay_none(g, k, acts.drop_last());
    }
}

/// The action of search edge `n`, in the expansion order of the search.
pub open spec fn act_order(n: int) -> Action {
    if n == 0 {
        Action::MoveLeft
    } else if n == 1 {
        Action::MoveRight
    } else if n == 2 {
        Action::SoftDrop
    } else if n == 3 {
        Action::RotateCounterclockwise
    } else {
        Action::RotateClockwise
    }
}

/// The applicable search edges out of pose `p`, in expansion order.
pub open spec fn succ_upto(g: Seq<Seq<Color>>, k: int, p: (int, int, int), n: int) -> Seq<
    (Action, (int, int, int)),
>
    decreases n,
{
    if n <= 0 {
        Seq::empty()
    } else {
        succ_upto(g, k, p, n - 1) + match step_pose(g, k, p, act_order(n - 1)) {
            Option::Some(q) => seq![(act_order(n - 1), q)],
            Option::None => Seq::empty(),
        }
    }
}

/// All applicable search edges out of pose `p`.
pub open spec fn succ_list(g: Seq<Seq<Color>>, k: int, p: (int, int, int)) -> Seq<
    (Action, (int, int, int)),
> {
    succ_upto(g, k, p, 5)
}

/// Every applicable action other than the idle one appears in the
/// successor list with its target pose.
proof fn lemma_succ_complete(g: Seq<Seq<Color>>, k: int, p: (int, int, int), a: Action)
    requires
        a != Action::NoMove,
        step_pose(g, k, p, a) is Some,
    ensures
        exists|i: int|
            0 <= i < succ_list(g, k, p).len() && #[trigger] succ_list(g, k, p)[i] == (
                a,
                step_pose(g, k, p, a)->Some_0,
            ),
{
    let q = step_pose(g, k, p, a)->Some_0;
    let m: int = match a {
        Action::MoveLeft => 0,
        Action::MoveRight => 1,
        Action::SoftDrop => 2,
        Action::RotateCounterclockwise => 3,
        _ => 4,
    };
    assert(act_order(m) == a);
    let pre = succ_upto(g, k, p, m);
    assert(succ_upto(g, k, p, m + 1) == pre + seq![(a, q)]);
    lemma_succ_prefix(g, k, p, m + 1, 5);
    assert(succ_upto(g, k, p, m + 1)[pre.len() as int] == (a, q));
    assert(succ_list(g, k, p)[pre.len() as int] == (a, q));
    assert(0 <= pre.len() < succ_list(g, k, p).len());
}

/// A shorter successor prefix is a prefix of a longer one.
proof fn lemma_succ_prefix(g: Seq<Seq<Color>>, k: int, p: (int, int, int), m: int, n: int)
    requires
        0 <= m <= n,
    ensures
        succ_upto(g, k, p, n).len() >= succ_upto(g, k, p, m).len(),
        forall|i: int|
            0 <= i < succ_upto(g, k, p, m).len() ==> #[trigger] succ_upto(g, k, p, n)[i]
                == succ_upto(g, k, p, m)[i],
    decreases n - m,
{
    if m < n {
        lemma_succ_prefix(g, k, p, m, n - 1);
    }
}

/// Whether the exec edge list `res` matches the spec edge list `s`
/// elementwise.
pub open spec fn edges_match(res: Seq<(Action, (i32, i32, i32))>, s: Seq<(Action, (int, int, int))>) -> bool {
    &&& res.len() == s.len()
    &&& forall|i: int|
        0 <= i < res.len() ==> {
            let e = #[trigger] res[i];
            &&& e.0 == s[i].0
            &&& e.1.0 == s[i].1.0
            &&& e.1.1 == s[i].1.1
            &&& e.1.2 == s[i].1.2
        }
}

/// Returns the applicable search edges out of pose `p`, in expansion
/// order: left, right, soft drop, rotate counterclockwise, rotate
/// clockwise, each kept only when its target pose does not collide.
#[verifier::rlimit(50)]
pub fn successors(board: &Vec<Vec<Color>>, k: usize, p: (i32, i32, i32)) -> (res: Vec<
    (Action, (i32, i32, i32)),
>)
    requires
        k < 7,
        grid_view(board@).len() == BOARD_HEIGHT,
        forall|t: int|
            0 <= t < BOARD_HEIGHT ==> (#[trigger] grid_view(board@)[t]).len() == BOARD_WIDTH,
        0 <= p.0 < BOARD_WIDTH,
        0 <= p.1 < BOARD_HEIGHT,
        0 <= p.2 < rot_count_spec(k as int),
    ensures
        edges_match(res@, succ_list(grid_view(board@), k as int, (p.0 as int, p.1 as int, p.2 as int))),
{
    let ghost g = grid_view(board@);
    let ghost pi = (p.0 as int, p.1 as int, p.2 as int);
    let n = rot_count(k);
    let mut res: Vec<(Action, (i32, i32, i32))> = Vec::new();
    proof {
        assert(succ_upto(g, k as int, pi, 0) == Seq::<(Action, (int, int, int))>::empty());
        assert(edges_match(res@, succ_upto(g, k as int, pi, 0)));
    }

    let q0 = (p.0 - 1, p.1, p.2);
    if !check_collision(board, k, p.2 as usize, q0.0, q0.1) {
        res.push((Action::MoveLeft, q0));
    }
    proof {
        assert(edges_match(res@, succ_upto(g, k as int, pi, 1)));
    }

    let q1 = (p.0 + 1, p.1, p.2);
    if !check_collision(board, k, p.2 as usize, q1.0, q1.1) {
        res.push((Action::MoveRight, q1));
    }
    proof {
        assert(edges_match(res@, succ_upto(g, k as int, pi, 2)));
    }

    let q2 = (p.0, p.1 + 1, p.2);
    if !check_collision(board, k, p.2 as usize, q2.0, q2.1) {
        res.push((Action::SoftDrop, q2));
    }
    proof {
        assert(edges_match(res@, succ_upto(g, k as int, pi, 3)));
    }

    // Rotate counterclockwise: undo the clockwise transition into p.2.
    let r2 = wrap_rot(p.2 - 1, n as i32);
    let o2 = kick_offset(k, r2 as usize);
    let q3 = (p.0 - o2.0, p.1 - o2.1, r2);
    if !check_collision(board, k, q3.2 as usize, q3.0, q3.1) {
        res.push((Action::RotateCounterclockwise, q3));
    }
    proof {
        assert(edges_match(res@, succ_upto(g, k as int, pi, 4)));
    }

    // Rotate clockwise: apply the transition out of p.2.
    let o1 = kick_offset(k, p.2 as usize);
    let r1 = wrap_rot(p.2 + 1, n as i32);
    let q4 = (p.0 + o1.0, p.1 + o1.1, r1);
    if !check_collision(board, k, q4.2 as usize, q4.0, q4.1) {
        res.push((Action::RotateClockwise, q4));
    }
    proof {
        assert(edges_match(res@, succ_upto(g, k as int, pi, 5)));
    }
    res
}

/// The pose of a search edge destination, as mathematical integers.
pub open spec fn pose_ints(p: (i32, i32, i32)) -> (int, int, int) {
    (p.0 as int, p.1 as int, p.2 as int)
}

/// Returns the flat index of an in-box pose.
pub fn pose_index_of(p: (i32, i32, i32)) -> (i: usize)
    requires
        pose_in_box(pose_ints(p)),
    ensures
        i == pose_idx(pose_ints(p)),
        i < POSE_COUNT,
{
    ((p.1 as usize) * BOARD_WIDTH + (p.0 as usize)) * 4 + (p.2 as usize)
}

/// Returns an independent copy of an action list.
pub fn copy_actions(v: &Vec<Action>) -> (r: Vec<Action>)
    ensures
        r@ == v@,
{
    let mut r: Vec<Action> = Vec::new();
    let mut i: usize = 0;
    while i < v.len()
        invariant
            i <= v@.len(),
            r@.len() == i,
            forall|t: int| 0 <= t < i ==> #[trigger] r@[t] == v@[t],
        decreases v@.len() - i,
    {
        r.push(v[i]);
        i = i + 1;
    }
    proof {
        assert(r@ =~= v@);
    }
    r
}

/// The number of `false` entries among the first `n` of `s`; the
/// termination measure of the search.
pub open spec fn count_false(s: Seq<bool>, n: int) -> int
    decreases n,
{
    if n <= 0 {
        0
    } else {
        count_false(s, n - 1) + if s[n - 1] {
            0int
        } else {
            1int
        }
    }
}

proof fn lemma_count_false_nonneg(s: Seq<bool>, n: int)
    ensures
        0 <= count_false(s, n),
    decreases n,
{
    if n > 0 {
        lemma_count_false_nonneg(s, n - 1);
    }
}

proof fn lemma_count_false_congr(s1: Seq<bool>, s2: Seq<bool>, n: int)
    requires
        forall|m: int| 0 <= m < n ==> s1[m] == s2[m],
    ensures
        count_false(s1, n) == count_false(s2, n),
    decreases n,
{
    if n > 0 {
        lemma_count_false_congr(s1, s2, n - 1);
    }
}

proof fn lemma_count_false_update(s: Seq<bool>, i: int, n: int)
    requires
        0 <= i < n <= s.len(),
        !s[i],
    ensures
        count_false(s.update(i, true), n) == count_false(s, n) - 1,
    decreases n,
{
    if n - 1 == i {
        lemma_count_false_congr(s.update(i, true), s, n - 1);
    } else {
        lemma_count_false_update(s, i, n - 1);
    }
}

/// Every entry of the successor list is a valid step out of `p`.
proof fn lemma_succ_entries(g: Seq<Seq<Color>>, k: int, p: (int, int, int), n: int)
    requires
        0 <= k < 7,
        0 <= p.2 < rot_count_spec(k),
        0 <= n <= 5,
    ensures
        forall|t: int|
            0 <= t < succ_upto(g, k, p, n).len() ==> {
                let e = #[trigger] succ_upto(g, k, p, n)[t];
                &&& step_pose(g, k, p, e.0) == Option::Some(e.1)
                &&& e.0 != Action::NoMove
                &&& pose_in_box(e.1)
                &&& 0 <= e.1.2 < rot_count_spec(k)
            },
    decreases n,
{
    if n > 0 {
        lemma_succ_entries(g, k, p, n - 1);
        if step_pose(g, k, p, act_order(n - 1)) is Some {
            lemma_step_valid(g, k, p, act_order(n - 1));
        }
    }
}

/// An action list free of the idle action: the search records only the
/// five primitive actions.
pub open spec fn no_idle(acts: Seq<Action>) -> bool {
    forall|i: int| 0 <= i < acts.len() ==> acts[i] != Action::NoMove
}

/// Every visited pose carries a recorded list of primitive actions that
/// replays to it.
pub open spec fn inv_sound(
    g: Seq<Seq<Color>>,
    k: int,
    vis: Seq<bool>,
    acts: Seq<Vec<Action>>,
) -> bool {
    forall|p: (int, int, int)|
        pose_in_box(p) && vis[#[trigger] pose_idx(p)] ==> replay(g, k, acts[pose_idx(p)]@)
            == Option::Some(p) && no_idle(acts[pose_idx(p)]@)
}

/// Every frontier entry holds a visited, in-box pose with a rotation
/// state of the piece.
pub open spec fn inv_frontier(k: int, vis: Seq<bool>, frontier: Seq<OrderedMove>) -> bool {
    forall|i: int|
        0 <= i < frontier.len() ==> {
            let p = pose_ints((#[trigger] frontier[i]).mv.dest);
            &&& pose_in_box(p)
            &&& 0 <= p.2 < rot_count_spec(k)
            &&& vis[pose_idx(p)]
        }
}

/// Every step out of `p` leads to a visited pose.
pub open spec fn expanded(g: Seq<Seq<Color>>, k: int, vis: Seq<bool>, p: (int, int, int)) -> bool {
    forall|a: Action|
        (#[trigger] step_pose(g, k, p, a)) matches Some(q) ==> pose_in_box(q) && vis[pose_idx(q)]
}

/// Every visited pose except `ex` either waits in the frontier or is
/// fully expanded.
pub open spec fn inv_closure_except(
    g: Seq<Seq<Color>>,
    k: int,
    vis: Seq<bool>,
    frontier: Seq<OrderedMove>,
    ex: (int, int, int),
) -> bool {
    forall|p: (int, int, int)|
        pose_in_box(p) && vis[#[trigger] pose_idx(p)] ==> {
            ||| p == ex
            ||| exists|i: int| 0 <= i < frontier.len() && pose_ints((#[trigger] frontier[i]).mv.dest) == p
            ||| expanded(g, k, vis, p)
        }
}

/// A sequence that cannot be a pose: used to state the exception-free
/// closure invariant.
pub open spec fn no_pose() -> (int, int, int) {
    (-1, -1, -1)
}

/// Replaying any action list lands on a visited pose, provided the spawn
/// is visited and the visited set is closed under steps.
proof fn lemma_replay_in_vis(
    g: Seq<Seq<Color>>,
    k: int,
    vis: Seq<bool>,
    acts: Seq<Action>,
)
    requires
        0 <= k < 7,
        vis.len() == POSE_COUNT,
        pose_in_box(spawn_of(k)),
        vis[pose_idx(spawn_of(k))],
        forall|p: (int, int, int)|
            pose_in_box(p) && vis[#[trigger] pose_idx(p)] ==> expanded(g, k, vis, p),
        replay(g, k, acts) is Some,
    ensures
        pose_in_box(replay(g, k, acts)->Some_0),
        vis[pose_idx(replay(g, k, acts)->Some_0)],
    decreases acts.len(),
{
    if acts.len() == 0 {
    } else {
        lemma_replay_in_vis(g, k, vis, acts.drop_last());
        let p = replay(g, k, acts.drop_last())->Some_0;
        assert(expanded(g, k, vis, p));
        assert(step_pose(g, k, p, acts.last()) is Some);
    }
}

/// Explores the pose space of `kind` on `board` from the spawn pose.
/// Returns the visited-set over the pose box, exact for reachability, and
/// for every visited pose an action list that replays to it. Expansion
/// order is best-first by accumulated action cost (a soft drop costs 1,
/// any other action one more than its destination row) plus the heuristic
/// distance to `target`; the order affects which action list is found,
/// never which poses are.
#[verifier::rlimit(100)]
pub fn explore(board: &Vec<Vec<Color>>, kind: Color, target: (i32, i32, i32)) -> (res: (
    Vec<bool>,
    Vec<Vec<Action>>,
))
    requires
        board_ok(grid_view(board@)),
        is_piece(kind),
        -1000 <= target.0 <= 1000,
        -1000 <= target.2 <= 1000,
    ensures
        res.0@.len() == POSE_COUNT,
        res.1@.len() == POSE_COUNT,
        forall|p: (int, int, int)|
            pose_in_box(p) ==> (res.0@[#[trigger] pose_idx(p)] <==> reachable(
                grid_view(board@),
                piece_index_spec(kind),
                p,
            )),
        inv_sound(grid_view(board@), piece_index_spec(kind), res.0@, res.1@),
        ({
            let si = pose_idx(spawn_of(piece_index_spec(kind)));
            res.0@[si] ==> res.1@[si]@ == Seq::<Action>::empty()
        }),
{
    let ghost g = grid_view(board@);
    let ki = piece_index(kind);
    let rc = rot_count(ki);
    let mut vis: Vec<bool> = Vec::new();
    let mut acts: Vec<Vec<Action>> = Vec::new();
    let mut costs: Vec<u32> = Vec::new();
    let mut ii: usize = 0;
    while ii < POSE_COUNT
        invariant
            ii <= POSE_COUNT,
            vis@.len() == ii,
            acts@.len() == ii,
            costs@.len() == ii,
            forall|t: int| 0 <= t < ii ==> !(#[trigger] vis@[t]),
            forall|t: int| 0 <= t < ii ==> (#[trigger] acts@[t])@.len() == 0,
            forall|t: int| 0 <= t < ii ==> (#[trigger] costs@[t]) == 0,
        decreases POSE_COUNT - ii,
    {
        vis.push(false);
        acts.push(Vec::new());
        costs.push(0);
        ii = ii + 1;
    }
    let sp = spawn_pose(ki);
    if check_collision(board, ki, 0, sp.0, sp.1) {
        proof {
            lemma_spawn_blocked(g, ki as int);
            assert(pose_in_box(spawn_of(ki as int)));
            assert(!vis@[pose_idx(spawn_of(ki as int))]);
        }
        return (vis, acts);
    }
    let spidx = pose_index_of(sp);
    vis[spidx] = true;
    let mut frontier: Vec<OrderedMove> = Vec::new();
    frontier.push(OrderedMove::new(Move::new(Action::NoMove, sp), 0));
    proof {
        let spp = pose_ints(sp);
        assert(replay(g, ki as int, acts@[pose_idx(spp)]@) == Option::Some(spp));
        assert forall|p: (int, int, int)|
            pose_in_box(p) && vis@[#[trigger] pose_idx(p)] implies replay(
            g,
            ki as int,
            acts@[pose_idx(p)]@,
        ) == Option::Some(p) && no_idle(acts@[pose_idx(p)]@) by {
            lemma_pose_idx_inj(p, spp);
        };
        assert(acts@[pose_idx(spp)]@.len() == 0);
        lemma_count_false_nonneg(vis@, POSE_COUNT as int);
        assert(pose_ints(frontier@[0].mv.dest) == spp);
        assert forall|pz: (int, int, int)|
            pose_in_box(pz) && vis@[#[trigger] pose_idx(pz)] implies {
            ||| pz == no_pose()
            ||| exists|i: int|
                0 <= i < frontier@.len() && pose_ints((#[trigger] frontier@[i]).mv.dest) == pz
            ||| expanded(g, ki as int, vis@, pz)
        } by {
            lemma_pose_idx_inj(pz, spp);
            assert(0 <= 0 < frontier@.len() && pose_ints(frontier@[0].mv.dest) == pz);
        };
        assert(inv_closure_except(g, ki as int, vis@, frontier@, no_pose()));
    }
    while frontier.len() > 0
        invariant
            vis@.len() == POSE_COUNT,
            acts@.len() == POSE_COUNT,
            costs@.len() == POSE_COUNT,
            ki < 7,
            ki == piece_index_spec(kind),
            1 <= rc <= 4,
            rc == rot_count_spec(ki as int),
            board_ok(g),
            g == grid_view(board@),
            -1000 <= target.0 <= 1000,
            -1000 <= target.2 <= 1000,
            pose_in_box(pose_ints(sp)),
            pose_ints(sp) == spawn_of(ki as int),
            vis@[pose_idx(pose_ints(sp))],
            acts@[pose_idx(pose_ints(sp))]@.len() == 0,
            forall|t: int| 0 <= t < POSE_COUNT ==> (#[trigger] costs@[t]) <= 1000000,
            inv_sound(g, ki as int, vis@, acts@),
            inv_frontier(ki as int, vis@, frontier@),
            inv_closure_except(g, ki as int, vis@, frontier@, no_pose()),
            0 <= count_false(vis@, POSE_COUNT as int),
        decreases count_false(vis@, POSE_COUNT as int) * 6 + frontier@.len(),
    {
        let ghost m0 = count_false(vis@, POSE_COUNT as int) * 6 + frontier@.len();
        // Pop the frontier entry with the least priority; on ties the
        // earliest pushed wins, keeping expansion deterministic.
        let mut best: usize = 0;
        let mut fi: usize = 1;
        while fi < frontier.len()
            invariant
                frontier@.len() > 0,
                best < frontier@.len(),
                fi <= frontier@.len(),
            decreases frontier@.len() - fi,
        {
            if frontier[fi].priority < frontier[best].priority {
                best = fi;
            }
            fi = fi + 1;
        }
        let ghost fr0 = frontier@;
        let popped = frontier.swap_remove(best);
        let p = popped.mv.dest;
        let ghost pp = pose_ints(p);
        proof {
            assert(fr0[best as int] == popped);
            assert(pose_in_box(pp) && 0 <= pp.2 < rot_count_spec(ki as int) && vis@[pose_idx(pp)]);
            // Visited poses other than the popped one keep a frontier
            // witness or are already expanded.
            assert forall|q: (int, int, int)|
                pose_in_box(q) && vis@[#[trigger] pose_idx(q)] implies {
                ||| q == pp
                ||| exists|i: int|
                    0 <= i < frontier@.len() && pose_ints((#[trigger] frontier@[i]).mv.dest) == q
                ||| expanded(g, ki as int, vis@, q)
            } by {
                if q != pp && !expanded(g, ki as int, vis@, q) {
                    let i0 = choose|i: int|
                        0 <= i < fr0.len() && pose_ints((#[trigger] fr0[i]).mv.dest) == q;
                    if i0 == best {
                        lemma_pose_idx_inj(q, pp);
                        assert(false);
                    }
                    if i0 == fr0.len() - 1 {
                        // That entry moved into the vacated slot.
                        assert(frontier@[best as int] == fr0[i0]);
                    } else {
                        assert(frontier@[i0] == fr0[i0]);
                    }
                }
            };
            assert(inv_closure_except(g, ki as int, vis@, frontier@, pp));
        }
        let pidx = pose_index_of(p);
        let base = copy_actions(&acts[pidx]);
        let c0 = costs[pidx];
        let succ = successors(board, ki, p);
        proof {
            lemma_succ_entries(g, ki as int, pp, 5);
        }
        let mut si: usize = 0;
        while si < succ.len()
            invariant
                si <= succ@.len(),
                vis@.len() == POSE_COUNT,
                acts@.len() == POSE_COUNT,
                costs@.len() == POSE_COUNT,
                ki < 7,
                ki == piece_index_spec(kind),
                1 <= rc <= 4,
                rc == rot_count_spec(ki as int),
                board_ok(g),
                g == grid_view(board@),
                -1000 <= target.0 <= 1000,
                -1000 <= target.2 <= 1000,
                pose_in_box(pose_ints(sp)),
                pose_ints(sp) == spawn_of(ki as int),
                vis@[pose_idx(pose_ints(sp))],
                acts@[pose_idx(pose_ints(sp))]@.len() == 0,
                pose_in_box(pp),
                0 <= pp.2 < rot_count_spec(ki as int),
                vis@[pose_idx(pp)],
                replay(g, ki as int, base@) == Option::Some(pp),
                no_idle(base@),
                c0 <= 1000000,
                edges_match(succ@, succ_list(g, ki as int, pp)),
                forall|t: int|
                    0 <= t < succ_list(g, ki as int, pp).len() ==> {
                        let e = #[trigger] succ_list(g, ki as int, pp)[t];
                        &&& step_pose(g, ki as int, pp, e.0) == Option::Some(e.1)
                        &&& e.0 != Action::NoMove
                        &&& pose_in_box(e.1)
                        &&& 0 <= e.1.2 < rot_count_spec(ki as int)
                    },
                forall|t: int|
                    0 <= t < si ==> vis@[pose_idx(
                        (#[trigger] succ_list(g, ki as int, pp)[t]).1,
                    )],
                forall|t: int| 0 <= t < POSE_COUNT ==> (#[trigger] costs@[t]) <= 1000000,
                inv_sound(g, ki as int, vis@, acts@),
                inv_frontier(ki as int, vis@, frontier@),
                inv_closure_except(g, ki as int, vis@, frontier@, pp),
                0 <= count_false(vis@, POSE_COUNT as int),
                count_false(vis@, POSE_COUNT as int) * 6 + frontier@.len() <= m0 - 1,
            decreases succ@.len() - si,
        {
            let (a, q) = succ[si];
            let ghost qq = pose_ints(q);
            proof {
                assert(succ_list(g, ki as int, pp)[si as int].0 == a);
                assert(succ_list(g, ki as int, pp)[si as int].1 == qq);
                assert(pose_in_box(qq));
            }
            let qidx = pose_index_of(q);
            if !vis[qidx] {
                let mut na = copy_actions(&base);
                na.push(a);
                proof {
                    lemma_count_false_update(vis@, qidx as int, POSE_COUNT as int);
                    lemma_count_false_nonneg(vis@.update(qidx as int, true), POSE_COUNT as int);
                    assert(na@.drop_last() =~= base@);
                    assert(na@.last() == a);
                    assert(replay(g, ki as int, na@) == Option::Some(qq));
                    assert(a != Action::NoMove);
                    assert(no_idle(na@));
                }
                let ghost vis0 = vis@;
                let ghost acts0 = acts@;
                let ghost fr1 = frontier@;
                vis[qidx] = true;
                acts[qidx] = na;
                let edge: u32 = if matches!(a, Action::SoftDrop) {
                    1
                } else {
                    (q.1 + 1) as u32
                };
                let nc: u32 = if c0 > 999978 {
                    1000000
                } else {
                    c0 + edge
                };
                costs[qidx] = nc;
                let pr: i32 = (nc as i32) + proximity(target, q, rc as i32);
                frontier.push(OrderedMove::new(Move::new(a, q), pr));
                proof {
                    assert forall|pz: (int, int, int)|
                        pose_in_box(pz) && vis@[#[trigger] pose_idx(pz)] implies replay(
                        g,
                        ki as int,
                        acts@[pose_idx(pz)]@,
                    ) == Option::Some(pz) && no_idle(acts@[pose_idx(pz)]@) by {
                        if pose_idx(pz) == qidx as int {
                            lemma_pose_idx_inj(pz, qq);
                        } else {
                            assert(vis0[pose_idx(pz)]);
                            assert(acts@[pose_idx(pz)] == acts0[pose_idx(pz)]);
                        }
                    };
                    assert(inv_sound(g, ki as int, vis@, acts@));
                    // The spawn entry is never overwritten: only unvisited
                    // slots are written, and the spawn is visited.
                    assert(acts@[pose_idx(pose_ints(sp))]@.len() == 0) by {
                        if qidx as int == pose_idx(pose_ints(sp)) {
                            lemma_pose_idx_inj(qq, pose_ints(sp));
                        }
                    };
                    assert forall|pz: (int, int, int)|
                        pose_in_box(pz) && vis@[#[trigger] pose_idx(pz)] implies {
                        ||| pz == pp
                        ||| exists|i: int|
                            0 <= i < frontier@.len() && pose_ints(
                                (#[trigger] frontier@[i]).mv.dest,
                            ) == pz
                        ||| expanded(g, ki as int, vis@, pz)
                    } by {
                        if pose_idx(pz) == qidx as int {
                            lemma_pose_idx_inj(pz, qq);
                            assert(pose_ints(frontier@[frontier@.len() - 1].mv.dest) == qq);
                        } else {
                            assert(vis0[pose_idx(pz)]);
                            if pz != pp && !expanded(g, ki as int, vis0, pz) {
                                let i0 = choose|i: int|
                                    0 <= i < fr1.len() && pose_ints(
                                        (#[trigger] fr1[i]).mv.dest,
                                    ) == pz;
                                assert(frontier@[i0] == fr1[i0]);
                                assert(0 <= i0 < frontier@.len() && pose_ints(
                                    frontier@[i0].mv.dest,
                                ) == pz);
                            } else if expanded(g, ki as int, vis0, pz) {
                                assert forall|az: Action|
                                    (#[trigger] step_pose(g, ki as int, pz, az)) is Some
                                        implies pose_in_box(step_pose(g, ki as int, pz, az)->Some_0)
                                        && vis@[pose_idx(
                                        step_pose(g, ki as int, pz, az)->Some_0,
                                    )] by {
                                    assert(vis0[pose_idx(
                                        step_pose(g, ki as int, pz, az)->Some_0,
                                    )]);
                                };
                            }
                        }
                    };
                    assert(inv_closure_except(g, ki as int, vis@, frontier@, pp));
                }
            }
            si = si + 1;
        }
        proof {
            // The popped pose is now fully expanded: the idle action stays
            // in place, and every other applicable action appears in the
            // successor list, whose targets are all visited.
            assert forall|a: Action|
                (#[trigger] step_pose(g, ki as int, pp, a)) is Some implies pose_in_box(
                step_pose(g, ki as int, pp, a)->Some_0,
            ) && vis@[pose_idx(step_pose(g, ki as int, pp, a)->Some_0)] by {
                let q = step_pose(g, ki as int, pp, a)->Some_0;
                if a == Action::NoMove {
                    assert(q == pp);
                } else {
                    lemma_succ_complete(g, ki as int, pp, a);
                    let t = choose|t: int|
                        0 <= t < succ_list(g, ki as int, pp).len() && #[trigger] succ_list(
                            g,
                            ki as int,
                            pp,
                        )[t] == (a, q);
                    assert(vis@[pose_idx(succ_list(g, ki as int, pp)[t].1)]);
                }
            };
            assert(expanded(g, ki as int, vis@, pp));
            assert forall|pz: (int, int, int)|
                pose_in_box(pz) && vis@[#[trigger] pose_idx(pz)] implies {
                ||| pz == no_pose()
                ||| exists|i: int|
                    0 <= i < frontier@.len() && pose_ints((#[trigger] frontier@[i]).mv.dest) == pz
                ||| expanded(g, ki as int, vis@, pz)
            } by {};
            assert(inv_closure_except(g, ki as int, vis@, frontier@, no_pose()));
        }
    }
    proof {
        assert forall|p2: (int, int, int)|
            pose_in_box(p2) && vis@[#[trigger] pose_idx(p2)] implies expanded(
            g,
            ki as int,
            vis@,
            p2,
        ) by {
            assert(p2 != no_pose());
        };
        assert forall|p2: (int, int, int)| pose_in_box(p2) implies (vis@[#[trigger] pose_idx(p2)]
            <==> reachable(g, ki as int, p2)) by {
            if vis@[pose_idx(p2)] {
                assert(replay(g, ki as int, acts@[pose_idx(p2)]@) == Option::Some(p2));
            }
            if reachable(g, ki as int, p2) {
                let w = choose|w: Seq<Action>| replay(g, ki as int, w) == Option::Some(p2);
                lemma_replay_in_vis(g, ki as int, vis@, w);
            }
        };
        assert(acts@[pose_idx(spawn_of(ki as int))]@ =~= Seq::<Action>::empty());
    }
    (vis, acts)
}

} // verus!
