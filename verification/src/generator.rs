use vstd::math::abs;
use vstd::prelude::*;

use crate::algorithm::Child;
use crate::cost::{cost_wf, Cost, COST_CAP};
use crate::maze::{maze_wf, spec_is_free, spec_is_wall, spec_valid, Maze};
use crate::paths::{
    dense_seg, diag_steps, is_aligned_path, is_aligned_seg, is_king_path, spec_dense,
    straight_steps, MazePath, PathInfo,
};
use crate::position::{sgn, Pos};

verus! {

/// The position `p` displaced by `(dx, dy)`.
pub open spec fn pos_offset(p: Pos, dx: int, dy: int) -> Pos {
    Pos { x: (p.x + dx) as i16, y: (p.y + dy) as i16 }
}

/// The exact cost of the straight or diagonal displacement from `a` to `b`:
/// its Euclidean length, which is whole cells along an axis and
/// `cells * sqrt(2)` along a diagonal.
pub open spec fn spec_step_cost(a: Pos, b: Pos) -> Cost {
    if a.x == b.x || a.y == b.y {
        Cost {
            straight_millis: (1000 * vstd::math::max(
                abs(b.x - a.x) as int,
                abs(b.y - a.y) as int,
            )) as u64,
            diag_millis: 0,
        }
    } else {
        Cost { straight_millis: 0, diag_millis: (1000 * (abs(b.x - a.x) as int)) as u64 }
    }
}

/// Computes [`spec_step_cost`].
pub fn step_cost(a: Pos, b: Pos) -> (r: Cost)
    ensures
        r == spec_step_cost(a, b),
        cost_wf(r),
{
    let dx: i32 = b.x as i32 - a.x as i32;
    let dy: i32 = b.y as i32 - a.y as i32;
    let ax: u64 = if dx < 0 {
        (-dx) as u64
    } else {
        dx as u64
    };
    let ay: u64 = if dy < 0 {
        (-dy) as u64
    } else {
        dy as u64
    };
    if dx == 0 || dy == 0 {
        let m: u64 = if ax < ay {
            ay
        } else {
            ax
        };
        Cost { straight_millis: 1000 * m, diag_millis: 0 }
    } else {
        Cost { straight_millis: 0, diag_millis: 1000 * ax }
    }
}

/// One natural-neighbour candidate: the cell one king step from `cur` in
/// direction `(dx, dy)`, kept when it is free.
pub open spec fn opt_child(m: &Maze, cur: Pos, dx: int, dy: int) -> Seq<Child> {
    let n = pos_offset(cur, dx, dy);
    if spec_is_free(m, n) {
        seq![Child { node: n, weight: spec_step_cost(cur, n) }]
    } else {
        Seq::empty()
    }
}

/// The free natural neighbours of `cur`, in a fixed order: the four straight
/// ones, then the four diagonal ones.
pub open spec fn spec_natural(m: &Maze, cur: Pos) -> Seq<Child> {
    opt_child(m, cur, 0, -1) + opt_child(m, cur, 0, 1) + opt_child(m, cur, -1, 0) + opt_child(
        m,
        cur,
        1,
        0,
    ) + opt_child(m, cur, -1, -1) + opt_child(m, cur, 1, -1) + opt_child(m, cur, -1, 1)
        + opt_child(m, cur, 1, 1)
}

/// One forced-neighbour candidate: when the cell one step `(dx, dy)` from
/// `base` is a wall, the cell one further step `(ax, ay)` beyond it is
/// forced.
pub open spec fn opt_forced(m: &Maze, base: Pos, dx: int, dy: int, ax: int, ay: int) -> Seq<Pos> {
    let n = pos_offset(base, dx, dy);
    if spec_is_wall(m, n) {
        seq![pos_offset(n, ax, ay)]
    } else {
        Seq::empty()
    }
}

/// Forced neighbours for a straight move `mv` at `base`: for each
/// perpendicular offset `d`, a wall at `base + d` forces `base + d + mv`.
pub open spec fn spec_forced_straight(m: &Maze, base: Pos, mv: Pos) -> Seq<Pos> {
    opt_forced(m, base, mv.y as int, mv.x as int, mv.x as int, mv.y as int) + opt_forced(
        m,
        base,
        -mv.y as int,
        -mv.x as int,
        mv.x as int,
        mv.y as int,
    )
}

/// Forced neighbours for a diagonal move `mv` relative to `base`: for each
/// axis component `c` of `mv`, a wall at `base + c` forces `base + 2c`.
pub open spec fn spec_forced_diag(m: &Maze, base: Pos, mv: Pos) -> Seq<Pos> {
    opt_forced(m, base, mv.x as int, 0, mv.x as int, 0) + opt_forced(
        m,
        base,
        0,
        mv.y as int,
        0,
        mv.y as int,
    )
}

/// The positions a pruned neighbour may occupy after a move `mv` into `cur`:
/// the forward cell, for a diagonal move its two axis projections, and the
/// forced neighbours. For a diagonal move the forced rule looks back from
/// the entering cell `cur - mv`.
pub open spec fn spec_pruned_list(m: &Maze, cur: Pos, mv: Pos) -> Seq<Pos> {
    if mv.x != 0 && mv.y != 0 {
        seq![
            pos_offset(cur, mv.x as int, mv.y as int),
            pos_offset(cur, mv.x as int, 0),
            pos_offset(cur, 0, mv.y as int),
        ] + spec_forced_diag(m, pos_offset(cur, -mv.x as int, -mv.y as int), mv)
    } else {
        seq![pos_offset(cur, mv.x as int, mv.y as int)] + spec_forced_straight(m, cur, mv)
    }
}

/// The members of `s` whose node stands in `list`, in order.
pub open spec fn kept_children(s: Seq<Child>, list: Seq<Pos>) -> Seq<Child>
    decreases s.len(),
{
    if s.len() == 0 {
        Seq::empty()
    } else {
        kept_children(s.drop_last(), list) + if list.contains(s.last().node) {
            seq![s.last()]
        } else {
            Seq::empty()
        }
    }
}

/// Is `dir` a unit king direction?
pub open spec fn dir_ok(dir: Pos) -> bool {
    (-1 <= dir.x <= 1) && (-1 <= dir.y <= 1) && !(dir.x == 0 && dir.y == 0)
}

/// How many cells remain before `x` leaves `[0, w)` when moving with the
/// sign of `dx`.
pub open spec fn axis_budget(x: int, dx: int, w: int) -> int {
    if dx > 0 {
        w - x
    } else if dx < 0 {
        x + 1
    } else {
        0
    }
}

/// A termination measure for the jump walk: cells remaining to the border
/// along the moving axes.
pub open spec fn jump_measure(m: &Maze, cur: Pos, dir: Pos) -> int {
    axis_budget(cur.x as int, dir.x as int, m.w as int) + axis_budget(
        cur.y as int,
        dir.y as int,
        m.h as int,
    )
}

/// The jump-point walk from `cur` in unit direction `dir`:
/// - a blocked next cell stops the walk;
/// - the goal is a jump point;
/// - a diagonal move with both axis projections blocked stops the walk;
/// - a free forced neighbour makes the next cell a jump point;
/// - a diagonal walk whose straight sub-walks find a jump point makes the
///   next cell a jump point;
/// - otherwise the walk continues from the next cell.
pub open spec fn spec_jump(m: &Maze, cur: Pos, dir: Pos) -> Option<Pos>
    decreases jump_measure(m, cur, dir),
        when dir_ok(dir) && maze_wf(m) && spec_valid(m, cur)
{
    let next = pos_offset(cur, dir.x as int, dir.y as int);
    if !spec_is_free(m, next) {
        None
    } else if next == m.goal {
        Some(next)
    } else if dir.x != 0 && dir.y != 0 {
        if !spec_is_free(m, pos_offset(cur, dir.x as int, 0)) && !spec_is_free(
            m,
            pos_offset(cur, 0, dir.y as int),
        ) {
            None
        } else if exists_free(m, spec_forced_diag(m, cur, dir)) {
            Some(next)
        } else if spec_jump(m, next, Pos { x: dir.x, y: 0 }) is Some || spec_jump(
            m,
            next,
            Pos { x: 0, y: dir.y },
        ) is Some {
            Some(next)
        } else {
            spec_jump(m, next, dir)
        }
    } else {
        if exists_free(m, spec_forced_straight(m, next, dir)) {
            Some(next)
        } else {
            spec_jump(m, next, dir)
        }
    }
}

/// Does `list` hold a free cell?
pub open spec fn exists_free(m: &Maze, list: Seq<Pos>) -> bool {
    exists|i: int| 0 <= i < list.len() && spec_is_free(m, #[trigger] list[i])
}

/// A successful jump lands a whole number of `dir` steps away from `cur`, on
/// a free cell.
pub proof fn lemma_jump_props(m: &Maze, cur: Pos, dir: Pos)
    requires
        dir_ok(dir),
        maze_wf(m),
        spec_valid(m, cur),
        spec_jump(m, cur, dir) is Some,
    ensures
        ({
            let j = spec_jump(m, cur, dir)->0;
            &&& spec_is_free(m, j)
            &&& exists|k: int|
                1 <= k && j.x == cur.x + #[trigger] (k * dir.x) && j.y == cur.y + k * dir.y && k
                    <= abs(j.x - cur.x) + abs(j.y - cur.y)
        }),
    decreases jump_measure(m, cur, dir),
{
    let next = pos_offset(cur, dir.x as int, dir.y as int);
    let j = spec_jump(m, cur, dir)->0;
    assert(spec_is_free(m, next));
    assert(next.x == cur.x + dir.x && next.y == cur.y + dir.y);
    if j == next {
        assert(1 <= 1 && j.x == cur.x + 1 * dir.x && j.y == cur.y + 1 * dir.y && 1 <= abs(j.x
            - cur.x) + abs(j.y - cur.y)) by (nonlinear_arith)
            requires
                j.x == cur.x + dir.x,
                j.y == cur.y + dir.y,
                dir_ok(dir),
        ;
    } else {
        assert(spec_jump(m, next, dir) == Some(j));
        lemma_jump_props(m, next, dir);
        let k0 = choose|k: int|
            1 <= k && j.x == next.x + #[trigger] (k * dir.x) && j.y == next.y + k * dir.y && k
                <= abs(j.x - next.x) + abs(j.y - next.y);
        assert(1 <= k0 + 1 && j.x == cur.x + (k0 + 1) * dir.x && j.y == cur.y + (k0 + 1) * dir.y
            && k0 + 1 <= abs(j.x - cur.x) + abs(j.y - cur.y)) by (nonlinear_arith)
            requires
                1 <= k0,
                dir_ok(dir),
                next.x == cur.x + dir.x,
                next.y == cur.y + dir.y,
                j.x == next.x + k0 * dir.x,
                j.y == next.y + k0 * dir.y,
                k0 <= abs(j.x - next.x) + abs(j.y - next.y),
        ;
    }
}

/// Every cell the jump walk passes, up to and including the jump point, is
/// free.
pub proof fn lemma_jump_cells_free(m: &Maze, cur: Pos, dir: Pos)
    requires
        dir_ok(dir),
        maze_wf(m),
        spec_valid(m, cur),
        spec_jump(m, cur, dir) is Some,
    ensures
        seg_cells_free(m, cur, spec_jump(m, cur, dir)->0),
    decreases jump_measure(m, cur, dir),
{
    let j = spec_jump(m, cur, dir)->0;
    let next = pos_offset(cur, dir.x as int, dir.y as int);
    assert(spec_is_free(m, next));
    lemma_jump_props(m, cur, dir);
    let k = choose|k: int|
        1 <= k && j.x == cur.x + #[trigger] (k * dir.x) && j.y == cur.y + k * dir.y && k <= abs(
            j.x - cur.x,
        ) + abs(j.y - cur.y);
    assert((dir.x == 0 ==> j.x == cur.x) && (dir.x == 1 ==> j.x > cur.x) && (dir.x == -1 ==> j.x
        < cur.x) && (dir.y == 0 ==> j.y == cur.y) && (dir.y == 1 ==> j.y > cur.y) && (dir.y == -1
        ==> j.y < cur.y)) by (nonlinear_arith)
        requires
            1 <= k,
            dir_ok(dir),
            j.x == cur.x + k * dir.x,
            j.y == cur.y + k * dir.y,
    ;
    assert(sgn(j.x - cur.x) == dir.x && sgn(j.y - cur.y) == dir.y);
    assert(cur != j);
    let step = Pos {
        x: (cur.x + sgn(j.x - cur.x)) as i16,
        y: (cur.y + sgn(j.y - cur.y)) as i16,
    };
    assert(step == next);
    assert(dense_seg(cur, j) == seq![next] + dense_seg(next, j));
    if j == next {
        assert(dense_seg(next, j) =~= Seq::<Pos>::empty());
        assert(dense_seg(cur, j) =~= seq![next]);
    } else {
        assert(spec_jump(m, next, dir) == Some(j));
        lemma_jump_cells_free(m, next, dir);
        assert forall|t: int| 0 <= t < dense_seg(cur, j).len() implies spec_is_free(
            m,
            #[trigger] dense_seg(cur, j)[t],
        ) by {
            if t == 0 {
                assert(dense_seg(cur, j)[0] == next);
            } else {
                assert(dense_seg(cur, j)[t] == dense_seg(next, j)[t - 1]);
            }
        }
    }
}

/// The jump results of a list of pruned neighbours of `cur`, each weighted
/// by its displacement from `cur`.
pub open spec fn spec_jump_children(m: &Maze, cur: Pos, s: Seq<Child>) -> Seq<Child>
    decreases s.len(),
{
    if s.len() == 0 {
        Seq::empty()
    } else {
        let dir = Pos {
            x: (s.last().node.x - cur.x) as i16,
            y: (s.last().node.y - cur.y) as i16,
        };
        spec_jump_children(m, cur, s.drop_last()) + match spec_jump(m, cur, dir) {
            Some(j) => seq![Child { node: j, weight: spec_step_cost(cur, j) }],
            None => Seq::empty(),
        }
    }
}

/// The full successor rule of the jump-point generator: the natural
/// neighbours for the start node, and the jumped pruned neighbours
/// everywhere else.
pub open spec fn spec_children(m: &Maze, cur: Pos, parent: Option<Pos>) -> Seq<Child> {
    match parent {
        None => spec_natural(m, cur),
        Some(p) => {
            let mv = Pos { x: sgn(cur.x - p.x) as i16, y: sgn(cur.y - p.y) as i16 };
            spec_jump_children(m, cur, kept_children(spec_natural(m, cur), spec_pruned_list(m, cur, mv)))
        },
    }
}

/// A generator of weighted successors for the search, and the expander of
/// compressed paths back to dense ones.
pub trait ChildrenGenerator {
    /// Is the generator ready to answer queries?
    spec fn wf(&self) -> bool;

    /// The nodes the generator may be asked to expand and may produce.
    spec fn node_ok(&self, p: Pos) -> bool;

    /// What `generate_children` returns.
    spec fn children_spec(&self, current: Pos, parent: Option<Pos>) -> Seq<Child>;

    /// The weighted successors of `current`, reached from `parent`.
    fn generate_children(&self, current: Pos, parent: Option<Pos>) -> (r: Vec<Child>)
        requires
            self.wf(),
            self.node_ok(current),
            parent matches Some(p) ==> p != current,
        ensures
            r@ == self.children_spec(current, parent),
            forall|i: int|
                0 <= i < r@.len() ==> {
                    let c = #[trigger] r@[i];
                    &&& self.node_ok(c.node)
                    &&& is_aligned_seg(current, c.node)
                    &&& c.weight == spec_step_cost(current, c.node)
                    &&& cost_wf(c.weight)
                    &&& forall|t: int|
                        0 <= t < dense_seg(current, c.node).len() ==> self.node_ok(
                            #[trigger] dense_seg(current, c.node)[t],
                        )
                },
    ;

    /// Expands a path of aligned segments to the dense path that walks every
    /// unit step, with its exact cost (componentwise capped).
    fn reconstruct_path(&self, path: &MazePath) -> (r: PathInfo)
        requires
            is_aligned_path(path@),
        ensures
            r.path@ == spec_dense(path@),
            r.cost == capped_cost(straight_steps(r.path@), diag_steps(r.path@)),
            path@.len() == 0 ==> r.path@.len() == 0,
            path@.len() > 0 ==> r.path@.len() >= 1 && r.path@[0] == path@[0] && r.path@[r.path@.len()
                - 1] == path@[path@.len() - 1],
            is_king_path(r.path@),
    ;
}

/// `1000 * s + 1000 * d * sqrt(2)` millis when both components stay under
/// the cap, and the all-cap sentinel otherwise.
pub open spec fn capped_cost(s: int, d: int) -> Cost {
    if 1000 * s <= COST_CAP && 1000 * d <= COST_CAP {
        Cost { straight_millis: (1000 * s) as u64, diag_millis: (1000 * d) as u64 }
    } else {
        Cost { straight_millis: COST_CAP, diag_millis: COST_CAP }
    }
}

/// Appending a king step to a king path keeps it one.
proof fn lemma_king_push(s: Seq<Pos>, n: Pos)
    requires
        is_king_path(s),
        s.len() >= 1,
        crate::paths::is_king_step(s[s.len() - 1], n),
    ensures
        is_king_path(s.push(n)),
{
    let t = s.push(n);
    assert forall|i: int| 0 <= i < t.len() - 1 implies crate::paths::is_king_step(
        t[i],
        #[trigger] t[i + 1],
    ) by {
        if i < s.len() - 1 {
            assert(t[i] == s[i] && t[i + 1] == s[i + 1]);
            assert(crate::paths::is_king_step(s[i], s[i + 1]));
        } else {
            assert(t[i] == s[s.len() - 1] && t[i + 1] == n);
        }
    }
}

/// Generates successors by Jump Point Search over a fixed grid.
pub struct JpsGenerator<'a> {
    pub maze: &'a Maze,
}

impl<'a> JpsGenerator<'a> {
    /// A generator over `maze`.
    pub fn new(maze: &'a Maze) -> (r: JpsGenerator<'a>)
        ensures
            r.maze == maze,
    {
        JpsGenerator { maze }
    }

    /// The free natural neighbours of `current`, with unit weights.
    #[verifier::rlimit(50)]
    fn natural_neighbors(&self, current: Pos) -> (r: Vec<Child>)
        requires
            maze_wf(self.maze),
            spec_is_free(self.maze, current),
        ensures
            r@ == spec_natural(self.maze, current),
    {
        let m = self.maze;
        let mut out: Vec<Child> = Vec::new();
        let ghost mut acc: Seq<Child> = Seq::empty();
        proof {
            assert(out@ =~= acc);
        }
        let n = current.up();
        if m.is_free(n) {
            out.push(Child { node: n, weight: Cost::straight(1) });
        }
        proof {
            assert(out@ =~= acc + opt_child(m, current, 0, -1));
            acc = acc + opt_child(m, current, 0, -1);
        }
        let n = current.down();
        if m.is_free(n) {
            out.push(Child { node: n, weight: Cost::straight(1) });
        }
        proof {
            assert(out@ =~= acc + opt_child(m, current, 0, 1));
            acc = acc + opt_child(m, current, 0, 1);
        }
        let n = current.left();
        if m.is_free(n) {
            out.push(Child { node: n, weight: Cost::straight(1) });
        }
        proof {
            assert(out@ =~= acc + opt_child(m, current, -1, 0));
            acc = acc + opt_child(m, current, -1, 0);
        }
        let n = current.right();
        if m.is_free(n) {
            out.push(Child { node: n, weight: Cost::straight(1) });
        }
        proof {
            assert(out@ =~= acc + opt_child(m, current, 1, 0));
            acc = acc + opt_child(m, current, 1, 0);
        }
        let n = current.up_left();
        if m.is_free(n) {
            out.push(Child { node: n, weight: Cost::diagonal(1) });
        }
        proof {
            assert(out@ =~= acc + opt_child(m, current, -1, -1));
            acc = acc + opt_child(m, current, -1, -1);
        }
        let n = current.up_right();
        if m.is_free(n) {
            out.push(Child { node: n, weight: Cost::diagonal(1) });
        }
        proof {
            assert(out@ =~= acc + opt_child(m, current, 1, -1));
            acc = acc + opt_child(m, current, 1, -1);
        }
        let n = current.down_left();
        if m.is_free(n) {
            out.push(Child { node: n, weight: Cost::diagonal(1) });
        }
        proof {
            assert(out@ =~= acc + opt_child(m, current, -1, 1));
            acc = acc + opt_child(m, current, -1, 1);
        }
        let n = current.down_right();
        if m.is_free(n) {
            out.push(Child { node: n, weight: Cost::diagonal(1) });
        }
        proof {
            assert(out@ =~= acc + opt_child(m, current, 1, 1));
            acc = acc + opt_child(m, current, 1, 1);
            assert(out@ =~= spec_natural(m, current));
        }
        out
    }

    /// Does `list` hold a free cell?
    fn any_free(&self, list: &Vec<Pos>) -> (r: bool)
        ensures
            r == exists_free(self.maze, list@),
    {
        let mut i: usize = 0;
        while i < list.len()
            invariant
                0 <= i <= list@.len(),
                forall|j: int| 0 <= j < i ==> !spec_is_free(self.maze, #[trigger] list@[j]),
            decreases list@.len() - i,
        {
            if self.maze.is_free(list[i]) {
                return true;
            }
            i = i + 1;
        }
        false
    }

    /// The forced neighbours for a straight move `mv` at `base`.
    fn forced_straight(&self, base: Pos, mv: Pos) -> (r: Vec<Pos>)
        requires
            maze_wf(self.maze),
            dir_ok(mv),
            mv.x == 0 || mv.y == 0,
            spec_valid(self.maze, base),
        ensures
            r@ == spec_forced_straight(self.maze, base, mv),
    {
        let m = self.maze;
        let mut out: Vec<Pos> = Vec::new();
        let ghost f1 = opt_forced(m, base, mv.y as int, mv.x as int, mv.x as int, mv.y as int);
        let n1 = Pos { x: base.x + mv.y, y: base.y + mv.x };
        if m.is_wall(n1) {
            out.push(Pos { x: n1.x + mv.x, y: n1.y + mv.y });
        }
        proof {
            assert(out@ =~= f1);
        }
        let n2 = Pos { x: base.x - mv.y, y: base.y - mv.x };
        if m.is_wall(n2) {
            out.push(Pos { x: n2.x + mv.x, y: n2.y + mv.y });
        }
        proof {
            assert(out@ =~= spec_forced_straight(m, base, mv));
        }
        out
    }

    /// The forced neighbours for a diagonal move `mv` relative to `base`.
    fn forced_diag(&self, base: Pos, mv: Pos) -> (r: Vec<Pos>)
        requires
            maze_wf(self.maze),
            dir_ok(mv),
            mv.x != 0 && mv.y != 0,
            -1 <= base.x && base.x as int <= self.maze.w as int,
            -1 <= base.y && base.y as int <= self.maze.h as int,
        ensures
            r@ == spec_forced_diag(self.maze, base, mv),
    {
        let m = self.maze;
        let mut out: Vec<Pos> = Vec::new();
        let ghost f1 = opt_forced(m, base, mv.x as int, 0, mv.x as int, 0);
        let n1 = Pos { x: base.x + mv.x, y: base.y };
        if m.is_wall(n1) {
            out.push(Pos { x: n1.x + mv.x, y: n1.y });
        }
        proof {
            assert(out@ =~= f1);
        }
        let n2 = Pos { x: base.x, y: base.y + mv.y };
        if m.is_wall(n2) {
            out.push(Pos { x: n2.x, y: n2.y + mv.y });
        }
        proof {
            assert(out@ =~= spec_forced_diag(m, base, mv));
        }
        out
    }

    /// The jump-point walk; see [`spec_jump`].
    fn jump_rec(&self, current: Pos, direction: Pos, goal: Pos) -> (r: Option<Pos>)
        requires
            maze_wf(self.maze),
            dir_ok(direction),
            spec_valid(self.maze, current),
            goal == self.maze.goal,
        ensures
            r == spec_jump(self.maze, current, direction),
        decreases jump_measure(self.maze, current, direction),
    {
        let m = self.maze;
        let next = Pos { x: current.x + direction.x, y: current.y + direction.y };
        if !m.is_free(next) {
            return None;
        }
        if next.x == goal.x && next.y == goal.y {
            return Some(next);
        }
        if direction.x != 0 && direction.y != 0 {
            let ahead_x = Pos { x: current.x + direction.x, y: current.y };
            let ahead_y = Pos { x: current.x, y: current.y + direction.y };
            if !m.is_free(ahead_x) && !m.is_free(ahead_y) {
                return None;
            }
            let forced = self.forced_diag(current, direction);
            if self.any_free(&forced) {
                return Some(next);
            }
            let comp_x = Pos { x: direction.x, y: 0 };
            let comp_y = Pos { x: 0, y: direction.y };
            if self.jump_rec(next, comp_x, goal).is_some() {
                return Some(next);
            }
            if self.jump_rec(next, comp_y, goal).is_some() {
                return Some(next);
            }
            self.jump_rec(next, direction, goal)
        } else {
            let forced = self.forced_straight(next, direction);
            if self.any_free(&forced) {
                return Some(next);
            }
            self.jump_rec(next, direction, goal)
        }
    }
}


/// Every cell of the unit walk from `a` (excluded) to `b` (included) is
/// free.
pub open spec fn seg_cells_free(m: &Maze, a: Pos, b: Pos) -> bool {
    forall|t: int|
        0 <= t < dense_seg(a, b).len() ==> spec_is_free(m, #[trigger] dense_seg(a, b)[t])
}

/// All members of `s` are free king-neighbours of `cur`, correctly weighted.
pub open spec fn children_ok(m: &Maze, cur: Pos, s: Seq<Child>) -> bool {
    forall|i: int|
        0 <= i < s.len() ==> {
            let c = #[trigger] s[i];
            &&& spec_is_free(m, c.node)
            &&& crate::paths::is_king_step(cur, c.node)
            &&& c.weight == spec_step_cost(cur, c.node)
            &&& cost_wf(c.weight)
            &&& seg_cells_free(m, cur, c.node)
        }
}

/// `children_ok` is closed under concatenation.
proof fn lemma_children_ok_concat(m: &Maze, cur: Pos, a: Seq<Child>, b: Seq<Child>)
    requires
        children_ok(m, cur, a),
        children_ok(m, cur, b),
    ensures
        children_ok(m, cur, a + b),
{
    assert forall|i: int| 0 <= i < (a + b).len() implies {
        let c = #[trigger] (a + b)[i];
        &&& spec_is_free(m, c.node)
        &&& crate::paths::is_king_step(cur, c.node)
        &&& c.weight == spec_step_cost(cur, c.node)
        &&& cost_wf(c.weight)
    } by {
        if i < a.len() {
            assert((a + b)[i] == a[i]);
        } else {
            assert((a + b)[i] == b[i - a.len()]);
        }
    }
}

/// Each natural-neighbour candidate satisfies `children_ok`.
proof fn lemma_opt_child_ok(m: &Maze, cur: Pos, dx: int, dy: int)
    requires
        maze_wf(m),
        spec_valid(m, cur),
        -1 <= dx <= 1,
        -1 <= dy <= 1,
        !(dx == 0 && dy == 0),
    ensures
        children_ok(m, cur, opt_child(m, cur, dx, dy)),
{
    let n = pos_offset(cur, dx, dy);
    assert(n.x == cur.x + dx && n.y == cur.y + dy);
    if spec_is_free(m, n) {
        lemma_unit_seg(m, cur, n);
    }
}

/// The unit walk to a free king-neighbour is that single free cell.
proof fn lemma_unit_seg(m: &Maze, cur: Pos, n: Pos)
    requires
        crate::paths::is_king_step(cur, n),
        spec_is_free(m, n),
    ensures
        dense_seg(cur, n) =~= seq![n],
        seg_cells_free(m, cur, n),
{
    let step = Pos {
        x: (cur.x + sgn(n.x - cur.x)) as i16,
        y: (cur.y + sgn(n.y - cur.y)) as i16,
    };
    assert(step == n);
    assert(dense_seg(n, n) =~= Seq::<Pos>::empty());
    assert(dense_seg(cur, n) =~= seq![n]);
}

/// The natural neighbours satisfy `children_ok`.
proof fn lemma_natural_ok(m: &Maze, cur: Pos)
    requires
        maze_wf(m),
        spec_valid(m, cur),
    ensures
        children_ok(m, cur, spec_natural(m, cur)),
{
    lemma_opt_child_ok(m, cur, 0, -1);
    lemma_opt_child_ok(m, cur, 0, 1);
    lemma_opt_child_ok(m, cur, -1, 0);
    lemma_opt_child_ok(m, cur, 1, 0);
    lemma_opt_child_ok(m, cur, -1, -1);
    lemma_opt_child_ok(m, cur, 1, -1);
    lemma_opt_child_ok(m, cur, -1, 1);
    lemma_opt_child_ok(m, cur, 1, 1);
    let s1 = opt_child(m, cur, 0, -1);
    let s2 = opt_child(m, cur, 0, 1);
    let s3 = opt_child(m, cur, -1, 0);
    let s4 = opt_child(m, cur, 1, 0);
    let s5 = opt_child(m, cur, -1, -1);
    let s6 = opt_child(m, cur, 1, -1);
    let s7 = opt_child(m, cur, -1, 1);
    let s8 = opt_child(m, cur, 1, 1);
    lemma_children_ok_concat(m, cur, s1, s2);
    lemma_children_ok_concat(m, cur, s1 + s2, s3);
    lemma_children_ok_concat(m, cur, s1 + s2 + s3, s4);
    lemma_children_ok_concat(m, cur, s1 + s2 + s3 + s4, s5);
    lemma_children_ok_concat(m, cur, s1 + s2 + s3 + s4 + s5, s6);
    lemma_children_ok_concat(m, cur, s1 + s2 + s3 + s4 + s5 + s6, s7);
    lemma_children_ok_concat(m, cur, s1 + s2 + s3 + s4 + s5 + s6 + s7, s8);
}

/// Keeping a sublist preserves `children_ok`.
proof fn lemma_kept_ok(m: &Maze, cur: Pos, s: Seq<Child>, list: Seq<Pos>)
    requires
        children_ok(m, cur, s),
    ensures
        children_ok(m, cur, kept_children(s, list)),
    decreases s.len(),
{
    if s.len() > 0 {
        assert(children_ok(m, cur, s.drop_last())) by {
            assert(forall|i: int|
                0 <= i < s.len() - 1 ==> #[trigger] s.drop_last()[i] == s[i]);
        }
        lemma_kept_ok(m, cur, s.drop_last(), list);
        if list.contains(s.last().node) {
            assert(s.last() == s[s.len() - 1]);
            lemma_children_ok_concat(m, cur, kept_children(s.drop_last(), list), seq![s.last()]);
        } else {
            assert(kept_children(s, list) =~= kept_children(s.drop_last(), list));
        }
    }
}

/// Jumped successors are free, aligned with the expanded node, and weighted
/// by their exact displacement cost.
pub open spec fn jumped_ok(m: &Maze, cur: Pos, s: Seq<Child>) -> bool {
    forall|i: int|
        0 <= i < s.len() ==> {
            let c = #[trigger] s[i];
            &&& spec_is_free(m, c.node)
            &&& is_aligned_seg(cur, c.node)
            &&& c.weight == spec_step_cost(cur, c.node)
            &&& cost_wf(c.weight)
            &&& seg_cells_free(m, cur, c.node)
        }
}

/// One jump result is aligned with its origin.
proof fn lemma_jump_result_aligned(m: &Maze, cur: Pos, dir: Pos)
    requires
        maze_wf(m),
        spec_valid(m, cur),
        dir_ok(dir),
        spec_jump(m, cur, dir) is Some,
    ensures
        ({
            let j = spec_jump(m, cur, dir)->0;
            spec_is_free(m, j) && is_aligned_seg(cur, j)
        }),
{
    lemma_jump_props(m, cur, dir);
    let j = spec_jump(m, cur, dir)->0;
    let k = choose|k: int|
        1 <= k && j.x == cur.x + #[trigger] (k * dir.x) && j.y == cur.y + k * dir.y && k <= abs(j.x
            - cur.x) + abs(j.y - cur.y);
    assert(j != cur && (j.x == cur.x || j.y == cur.y || abs(j.x - cur.x) == abs(
        j.y - cur.y,
    ))) by (nonlinear_arith)
        requires
            1 <= k,
            dir_ok(dir),
            j.x == cur.x + k * dir.x,
            j.y == cur.y + k * dir.y,
    ;
}

/// The jump results of a `children_ok` list satisfy `jumped_ok`.
proof fn lemma_jump_children_ok(m: &Maze, cur: Pos, s: Seq<Child>)
    requires
        maze_wf(m),
        spec_valid(m, cur),
        children_ok(m, cur, s),
    ensures
        jumped_ok(m, cur, spec_jump_children(m, cur, s)),
    decreases s.len(),
{
    if s.len() > 0 {
        assert(children_ok(m, cur, s.drop_last())) by {
            assert(forall|i: int|
                0 <= i < s.len() - 1 ==> #[trigger] s.drop_last()[i] == s[i]);
        }
        lemma_jump_children_ok(m, cur, s.drop_last());
        let prev = spec_jump_children(m, cur, s.drop_last());
        let c = s.last();
        assert(c == s[s.len() - 1]);
        let dir = Pos { x: (c.node.x - cur.x) as i16, y: (c.node.y - cur.y) as i16 };
        assert(dir_ok(dir));
        match spec_jump(m, cur, dir) {
            Some(j) => {
                lemma_jump_result_aligned(m, cur, dir);
                lemma_jump_cells_free(m, cur, dir);
                let added = seq![Child { node: j, weight: spec_step_cost(cur, j) }];
                assert forall|i: int| 0 <= i < (prev + added).len() implies {
                    let cc = #[trigger] (prev + added)[i];
                    &&& spec_is_free(m, cc.node)
                    &&& is_aligned_seg(cur, cc.node)
                    &&& cc.weight == spec_step_cost(cur, cc.node)
                    &&& cost_wf(cc.weight)
                    &&& seg_cells_free(m, cur, cc.node)
                } by {
                    if i < prev.len() {
                        assert((prev + added)[i] == prev[i]);
                    } else {
                        assert((prev + added)[i] == added[0]);
                    }
                }
            },
            None => {
                assert(spec_jump_children(m, cur, s) =~= prev);
            },
        }
    }
}

impl<'a> JpsGenerator<'a> {
    /// Appends every member of `more` to `out`.
    fn extend_pos(out: &mut Vec<Pos>, more: &Vec<Pos>)
        ensures
            final(out)@ == old(out)@ + more@,
    {
        let mut k: usize = 0;
        proof {
            assert(out@ =~= old(out)@ + more@.take(0));
        }
        while k < more.len()
            invariant
                0 <= k <= more@.len(),
                out@ == old(out)@ + more@.take(k as int),
            decreases more@.len() - k,
        {
            out.push(more[k]);
            proof {
                assert(out@ =~= old(out)@ + more@.take(k + 1 as int));
            }
            k = k + 1;
        }
        proof {
            assert(more@.take(more@.len() as int) =~= more@);
        }
    }

    /// The positions a pruned neighbour may occupy; see [`spec_pruned_list`].
    fn pruned_list(&self, current: Pos, mv: Pos) -> (r: Vec<Pos>)
        requires
            maze_wf(self.maze),
            dir_ok(mv),
            spec_valid(self.maze, current),
        ensures
            r@ == spec_pruned_list(self.maze, current, mv),
    {
        let m = self.maze;
        let mut out: Vec<Pos> = Vec::new();
        if mv.x != 0 && mv.y != 0 {
            out.push(Pos { x: current.x + mv.x, y: current.y + mv.y });
            out.push(Pos { x: current.x + mv.x, y: current.y });
            out.push(Pos { x: current.x, y: current.y + mv.y });
            let base = Pos { x: current.x - mv.x, y: current.y - mv.y };
            let forced = self.forced_diag(base, mv);
            Self::extend_pos(&mut out, &forced);
            proof {
                assert(out@ =~= spec_pruned_list(m, current, mv));
            }
        } else {
            out.push(Pos { x: current.x + mv.x, y: current.y + mv.y });
            let forced = self.forced_straight(current, mv);
            Self::extend_pos(&mut out, &forced);
            proof {
                assert(out@ =~= spec_pruned_list(m, current, mv));
            }
        }
        out
    }

    /// Keeps the children whose node stands in `list`.
    fn retain_kept(vec: &mut Vec<Child>, list: &Vec<Pos>)
        ensures
            final(vec)@ == kept_children(old(vec)@, list@),
    {
        let mut out: Vec<Child> = Vec::new();
        let mut i: usize = 0;
        proof {
            assert(vec@.take(0) =~= Seq::<Child>::empty());
        }
        while i < vec.len()
            invariant
                0 <= i <= vec@.len(),
                vec@ == old(vec)@,
                out@ == kept_children(vec@.take(i as int), list@),
            decreases vec@.len() - i,
        {
            let c = vec[i];
            let keep = crate::paths::vec_contains_pos(list, c.node);
            proof {
                assert(vec@.take(i + 1 as int).drop_last() =~= vec@.take(i as int));
                assert(vec@.take(i + 1 as int).last() == vec@[i as int]);
            }
            if keep {
                out.push(c);
            }
            i = i + 1;
        }
        proof {
            assert(vec@.take(vec@.len() as int) =~= vec@);
        }
        *vec = out;
    }

    /// Jumps from `current` along the direction of each pruned neighbour.
    fn do_jump(&self, current: Pos, vec: Vec<Child>) -> (r: Vec<Child>)
        requires
            maze_wf(self.maze),
            spec_is_free(self.maze, current),
            forall|i: int|
                0 <= i < vec@.len() ==> crate::paths::is_king_step(
                    current,
                    (#[trigger] vec@[i]).node,
                ),
        ensures
            r@ == spec_jump_children(self.maze, current, vec@),
    {
        let mut out: Vec<Child> = Vec::new();
        let mut i: usize = 0;
        proof {
            assert(vec@.take(0) =~= Seq::<Child>::empty());
        }
        while i < vec.len()
            invariant
                0 <= i <= vec@.len(),
                maze_wf(self.maze),
                spec_is_free(self.maze, current),
                forall|j: int|
                    0 <= j < vec@.len() ==> crate::paths::is_king_step(
                        current,
                        (#[trigger] vec@[j]).node,
                    ),
                out@ == spec_jump_children(self.maze, current, vec@.take(i as int)),
            decreases vec@.len() - i,
        {
            let c = vec[i];
            let dir = Pos { x: c.node.x - current.x, y: c.node.y - current.y };
            proof {
                assert(vec@.take(i + 1 as int).drop_last() =~= vec@.take(i as int));
                assert(vec@.take(i + 1 as int).last() == vec@[i as int]);
            }
            match self.jump_rec(current, dir, self.maze.goal()) {
                Some(j) => {
                    let w = step_cost(current, j);
                    out.push(Child { node: j, weight: w });
                },
                None => {},
            }
            i = i + 1;
        }
        proof {
            assert(vec@.take(vec@.len() as int) =~= vec@);
        }
        out
    }
}

impl<'a> ChildrenGenerator for JpsGenerator<'a> {
    open spec fn wf(&self) -> bool {
        maze_wf(self.maze)
    }

    open spec fn node_ok(&self, p: Pos) -> bool {
        spec_is_free(self.maze, p)
    }

    open spec fn children_spec(&self, current: Pos, parent: Option<Pos>) -> Seq<Child> {
        spec_children(self.maze, current, parent)
    }

    fn generate_children(&self, current: Pos, parent: Option<Pos>) -> (r: Vec<Child>)
        ensures
            r@ == self.children_spec(current, parent),
            forall|i: int|
                0 <= i < r@.len() ==> {
                    let c = #[trigger] r@[i];
                    &&& self.node_ok(c.node)
                    &&& is_aligned_seg(current, c.node)
                    &&& c.weight == spec_step_cost(current, c.node)
                    &&& cost_wf(c.weight)
                    &&& forall|t: int|
                        0 <= t < dense_seg(current, c.node).len() ==> self.node_ok(
                            #[trigger] dense_seg(current, c.node)[t],
                        )
                },
    {
        let m = self.maze;
        match parent {
            None => {
                let r = self.natural_neighbors(current);
                proof {
                    lemma_natural_ok(m, current);
                    assert forall|i: int| 0 <= i < r@.len() implies {
                        let c = #[trigger] r@[i];
                        &&& self.node_ok(c.node)
                        &&& is_aligned_seg(current, c.node)
                        &&& c.weight == spec_step_cost(current, c.node)
                        &&& cost_wf(c.weight)
                        &&& forall|t: int|
                            0 <= t < dense_seg(current, c.node).len() ==> self.node_ok(
                                #[trigger] dense_seg(current, c.node)[t],
                            )
                    } by {
                        assert(spec_is_free(m, r@[i].node) && crate::paths::is_king_step(
                            current,
                            r@[i].node,
                        ) && seg_cells_free(m, current, r@[i].node));
                    }
                }
                r
            },
            Some(par) => {
                let dx: i32 = current.x as i32 - par.x as i32;
                let dy: i32 = current.y as i32 - par.y as i32;
                let sx: i16 = if dx > 0 {
                    1
                } else if dx < 0 {
                    -1
                } else {
                    0
                };
                let sy: i16 = if dy > 0 {
                    1
                } else if dy < 0 {
                    -1
                } else {
                    0
                };
                let mv = Pos { x: sx, y: sy };
                let mut kids = self.natural_neighbors(current);
                let list = self.pruned_list(current, mv);
                Self::retain_kept(&mut kids, &list);
                proof {
                    lemma_natural_ok(m, current);
                    lemma_kept_ok(m, current, spec_natural(m, current), list@);
                    assert forall|i: int|
                        0 <= i < kids@.len() implies crate::paths::is_king_step(
                        current,
                        (#[trigger] kids@[i]).node,
                    ) by {
                        assert(spec_is_free(m, kids@[i].node) && crate::paths::is_king_step(
                            current,
                            kids@[i].node,
                        ));
                    }
                }
                let r = self.do_jump(current, kids);
                proof {
                    lemma_jump_children_ok(
                        m,
                        current,
                        kept_children(spec_natural(m, current), list@),
                    );
                }
                r
            },
        }
    }

    fn reconstruct_path(&self, path: &MazePath) -> (r: PathInfo)
        ensures
            r.path@ == spec_dense(path@),
            r.cost == capped_cost(straight_steps(r.path@), diag_steps(r.path@)),
            path@.len() == 0 ==> r.path@.len() == 0,
            path@.len() > 0 ==> r.path@.len() >= 1 && r.path@[0] == path@[0] && r.path@[r.path@.len()
                - 1] == path@[path@.len() - 1],
            is_king_path(r.path@),
    {
        let mut result: Vec<Pos> = Vec::new();
        if path.len() == 0 {
            return PathInfo::new(result, Cost::zero());
        }
        result.push(path[0]);
        proof {
            assert(path@.take(1).len() == 1 && path@.take(1)[0] == path@[0]);
            assert(result@ =~= spec_dense(path@.take(1)));
        }
        let mut scnt: u64 = 0;
        let mut dcnt: u64 = 0;
        let mut i: usize = 0;
        while i < path.len() - 1
            invariant
                0 <= i <= path@.len() - 1,
                path@.len() >= 1,
                result@ == spec_dense(path@.take(i + 1 as int)),
                result@.len() >= 1,
                result@[0] == path@[0],
                result@[result@.len() - 1] == path@[i as int],
                is_king_path(result@),
                scnt == straight_steps(result@),
                dcnt == diag_steps(result@),
                scnt + dcnt + 1 == result@.len(),
            decreases path@.len() - i,
        {
            let target = path[i + 1];
            let mut cur = path[i];
            proof {
                assert(path@.take(i + 2 as int).drop_last() =~= path@.take(i + 1 as int));
                assert(path@.take(i + 2 as int).last() == path@[i + 1 as int]);
                assert(spec_dense(path@.take(i + 2 as int)) == spec_dense(path@.take(i + 1 as int))
                    + dense_seg(path@[i as int], path@[i + 1 as int]));
            }
            while cur != target
                invariant
                    spec_dense(path@.take(i + 2 as int)) == result@ + dense_seg(cur, target),
                    result@.len() >= 1,
                    result@[0] == path@[0],
                    result@[result@.len() - 1] == cur,
                    is_king_path(result@),
                    scnt == straight_steps(result@),
                    dcnt == diag_steps(result@),
                    scnt + dcnt + 1 == result@.len(),
                decreases abs(target.x - cur.x) + abs(target.y - cur.y),
            {
                let sdx: i16 = if target.x > cur.x {
                    1
                } else if target.x < cur.x {
                    -1
                } else {
                    0
                };
                let sdy: i16 = if target.y > cur.y {
                    1
                } else if target.y < cur.y {
                    -1
                } else {
                    0
                };
                let n = Pos { x: cur.x + sdx, y: cur.y + sdy };
                proof {
                    assert(dense_seg(cur, target) == seq![n] + dense_seg(n, target));
                    lemma_king_push(result@, n);
                    assert(result@.push(n).drop_last() =~= result@);
                    assert((result@ + seq![n]) =~= result@.push(n));
                    assert((result@ + seq![n]) + dense_seg(n, target) =~= result@ + (seq![n]
                        + dense_seg(n, target)));
                }
                let ghost prev = result@;
                result.push(n);
                let rl = result.len();
                proof {
                    assert(result@ == prev.push(n));
                    assert(result@.len() == rl);
                }
                if sdx != 0 && sdy != 0 {
                    dcnt = dcnt + 1;
                } else {
                    scnt = scnt + 1;
                }
                cur = n;
            }
        proof {
                assert(dense_seg(cur, target) =~= Seq::<Pos>::empty());
                assert(result@ =~= spec_dense(path@.take(i + 2 as int)));
            }
            i = i + 1;
        }
        proof {
            assert(path@.take(path@.len() as int) =~= path@);
        }
        let cost = if scnt <= MAX_STEP_COUNT && dcnt <= MAX_STEP_COUNT {
            Cost { straight_millis: 1000 * scnt, diag_millis: 1000 * dcnt }
        } else {
            Cost { straight_millis: COST_CAP, diag_millis: COST_CAP }
        };
        PathInfo::new(result, cost)
    }
}

/// The largest step count whose millis stay under the cost cap.
pub const MAX_STEP_COUNT: u64 = COST_CAP / 1000;

} // verus!
