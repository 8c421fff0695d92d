use vstd::math::{abs, max, min};
use vstd::prelude::*;

use crate::cost::{lemma_nonneg_rt2_scale, lemma_rt2_le_trans, rt2_le, Cost};
use crate::position::{sgn, Pos};

verus! {

/// A path through the grid, as an ordered list of positions.
pub type MazePath = Vec<Pos>;

/// One 8-connected unit step from `a` to `b`.
pub open spec fn is_king_step(a: Pos, b: Pos) -> bool {
    &&& a != b
    &&& -1 <= b.x - a.x <= 1
    &&& -1 <= b.y - a.y <= 1
}

/// A unit step that moves on both axes.
pub open spec fn is_diag_step(a: Pos, b: Pos) -> bool {
    is_king_step(a, b) && b.x != a.x && b.y != a.y
}

/// Every consecutive pair of the sequence is a unit king step.
pub open spec fn is_king_path(s: Seq<Pos>) -> bool {
    forall|i: int| 0 <= i < s.len() - 1 ==> is_king_step(s[i], #[trigger] s[i + 1])
}

/// A straight or diagonal displacement from `a` to `b`: at least one cell
/// along an axis or an exact diagonal. These are the only displacements the
/// jump search produces between consecutive jump points.
pub open spec fn is_aligned_seg(a: Pos, b: Pos) -> bool {
    &&& a != b
    &&& (b.x == a.x || b.y == a.y || abs(b.x - a.x) == abs(b.y - a.y))
}

/// Every consecutive pair of the sequence is an aligned segment.
pub open spec fn is_aligned_path(s: Seq<Pos>) -> bool {
    forall|i: int| 0 <= i < s.len() - 1 ==> is_aligned_seg(s[i], #[trigger] s[i + 1])
}

/// How many of the steps of `s` are straight.
pub open spec fn straight_steps(s: Seq<Pos>) -> int
    decreases s.len(),
{
    if s.len() <= 1 {
        0
    } else {
        straight_steps(s.drop_last()) + if is_diag_step(s[s.len() - 2], s[s.len() - 1]) {
            0int
        } else {
            1int
        }
    }
}

/// How many of the steps of `s` are diagonal.
pub open spec fn diag_steps(s: Seq<Pos>) -> int
    decreases s.len(),
{
    if s.len() <= 1 {
        0
    } else {
        diag_steps(s.drop_last()) + if is_diag_step(s[s.len() - 2], s[s.len() - 1]) {
            1int
        } else {
            0int
        }
    }
}

/// The exact cost of a king path: its step counts, in millis.
pub open spec fn king_path_cost(s: Seq<Pos>) -> Cost {
    Cost {
        straight_millis: (1000 * straight_steps(s)) as u64,
        diag_millis: (1000 * diag_steps(s)) as u64,
    }
}

/// The cells of the straight or diagonal segment from `a` (excluded) to `b`
/// (included), walking one signum step at a time.
pub open spec fn dense_seg(a: Pos, b: Pos) -> Seq<Pos>
    decreases abs(b.x - a.x) + abs(b.y - a.y),
{
    if a == b {
        Seq::empty()
    } else {
        let n = Pos { x: (a.x + sgn(b.x - a.x)) as i16, y: (a.y + sgn(b.y - a.y)) as i16 };
        seq![n] + dense_seg(n, b)
    }
}

/// The dense expansion of a path of aligned segments: the first cell, and
/// then every unit-step cell of each segment in order.
pub open spec fn spec_dense(s: Seq<Pos>) -> Seq<Pos>
    decreases s.len(),
{
    if s.len() == 0 {
        Seq::empty()
    } else if s.len() == 1 {
        seq![s[0]]
    } else {
        spec_dense(s.drop_last()) + dense_seg(s[s.len() - 2], s[s.len() - 1])
    }
}

/// Is `p` a member of `list`?
pub(crate) fn vec_contains_pos(list: &Vec<Pos>, p: Pos) -> (r: bool)
    ensures
        r == list@.contains(p),
{
    let mut i: usize = 0;
    while i < list.len()
        invariant
            0 <= i <= list@.len(),
            forall|j: int| 0 <= j < i ==> list@[j] != p,
        decreases list@.len() - i,
    {
        if list[i] == p {
            return true;
        }
        i = i + 1;
    }
    false
}

/// A found path and its exact cost.
#[derive(Clone, Debug)]
pub struct PathInfo {
    pub path: MazePath,
    pub cost: Cost,
}

impl PathInfo {
    /// Pairs a path with its cost.
    pub fn new(path: MazePath, cost: Cost) -> (r: PathInfo)
        ensures
            r.path == path && r.cost == cost,
    {
        PathInfo { path, cost }
    }

    /// The number of cells on the path.
    pub fn path_len(&self) -> (r: usize)
        ensures
            r == self.path@.len(),
    {
        self.path.len()
    }
}

/// Step counts are never negative.
pub proof fn lemma_steps_nonneg(s: Seq<Pos>)
    ensures
        straight_steps(s) >= 0,
        diag_steps(s) >= 0,
        straight_steps(s) + diag_steps(s) == if s.len() <= 1 {
            0
        } else {
            s.len() - 1
        },
    decreases s.len(),
{
    if s.len() > 1 {
        lemma_steps_nonneg(s.drop_last());
    }
}

/// The diagonal-distance estimate from `p` to `g`, in whole steps: its
/// straight component.
pub open spec fn diag_dist_s(p: Pos, g: Pos) -> int {
    max(abs(g.x - p.x) as int, abs(g.y - p.y) as int) - min(
        abs(g.x - p.x) as int,
        abs(g.y - p.y) as int,
    )
}

/// The diagonal-distance estimate from `p` to `g`: its diagonal component.
pub open spec fn diag_dist_d(p: Pos, g: Pos) -> int {
    min(abs(g.x - p.x) as int, abs(g.y - p.y) as int)
}

/// Extending a king path by one step from `b` to `c` raises the
/// diagonal-distance estimate from a fixed origin by at most the step cost.
proof fn lemma_diag_dist_step(a: Pos, b: Pos, c: Pos)
    requires
        is_king_step(b, c),
    ensures
        rt2_le(
            diag_dist_s(a, c),
            diag_dist_d(a, c),
            diag_dist_s(a, b) + if is_diag_step(b, c) {
                0int
            } else {
                1int
            },
            diag_dist_d(a, b) + if is_diag_step(b, c) {
                1int
            } else {
                0int
            },
        ),
{
    let p1 = abs(b.x - a.x) as int;
    let q1 = abs(b.y - a.y) as int;
    let p2 = abs(c.x - a.x) as int;
    let q2 = abs(c.y - a.y) as int;
    let ss = if is_diag_step(b, c) {
        0int
    } else {
        1int
    };
    let sd = if is_diag_step(b, c) {
        1int
    } else {
        0int
    };
    let da = (max(p1, q1) - min(p1, q1)) + ss - (max(p2, q2) - min(p2, q2));
    let db = min(p1, q1) + sd - min(p2, q2);
    assert(p1 - 1 <= p2 <= p1 + 1 && q1 - 1 <= q2 <= q1 + 1);
    if is_diag_step(b, c) {
        assert(p2 == p1 - 1 || p2 == p1 + 1);
        assert(q2 == q1 - 1 || q2 == q1 + 1);
    } else {
        assert((p2 == q2 && p1 == q1) || (p2 == p1 && (q2 == q1 - 1 || q2 == q1 + 1)) || (q2 == q1
            && (p2 == p1 - 1 || p2 == p1 + 1)));
    }
    assert((da == 0 && db == 0) || (da == 0 && db == 1) || (da == 1 && db == 0) || (da == 2 && db
        == -1) || (da == 2 && db == 0) || (da == -2 && db == 2) || (da == 0 && db == 2) || (da == 2
        && db == 1) || (da == 1 && db == 1));
    assert(crate::cost::nonneg_rt2(da, db)) by (nonlinear_arith)
        requires
            (da == 0 && db == 0) || (da == 0 && db == 1) || (da == 1 && db == 0) || (da == 2 && db
                == -1) || (da == 2 && db == 0) || (da == -2 && db == 2) || (da == 0 && db == 2) || (
            da == 2 && db == 1) || (da == 1 && db == 1),
    ;
}

/// The diagonal distance from the first to the last cell of a king path
/// never exceeds the step count of the path: the estimate is a lower bound
/// on the cost of every 8-connected route.
pub proof fn lemma_diag_dist_le_path(s: Seq<Pos>)
    requires
        is_king_path(s),
        s.len() >= 1,
    ensures
        rt2_le(
            diag_dist_s(s[0], s[s.len() - 1]),
            diag_dist_d(s[0], s[s.len() - 1]),
            straight_steps(s),
            diag_steps(s),
        ),
    decreases s.len(),
{
    if s.len() == 1 {
    } else {
        let prefix = s.drop_last();
        assert(is_king_path(prefix)) by {
            assert(forall|i: int|
                0 <= i < prefix.len() - 1 ==> prefix[i] == s[i] && #[trigger] prefix[i + 1] == s[i
                    + 1]);
        }
        lemma_diag_dist_le_path(prefix);
        lemma_steps_nonneg(prefix);
        let b = s[s.len() - 2];
        let c = s[s.len() - 1];
        assert(is_king_step(s[s.len() - 2], s[(s.len() - 2) + 1]));
        lemma_diag_dist_step(s[0], b, c);
        let ss = if is_diag_step(b, c) {
            0int
        } else {
            1int
        };
        let sd = if is_diag_step(b, c) {
            1int
        } else {
            0int
        };
        assert(prefix[0] == s[0] && prefix[prefix.len() - 1] == b);
        lemma_rt2_le_trans(
            diag_dist_s(s[0], c),
            diag_dist_d(s[0], c),
            diag_dist_s(s[0], b) + ss,
            diag_dist_d(s[0], b) + sd,
            straight_steps(s),
            diag_steps(s),
        );
    }
}

/// Scaling both sides of a `rt2_le` bound by a common non-negative factor
/// preserves it.
pub proof fn lemma_rt2_le_scale(k: int, a1: int, b1: int, a2: int, b2: int)
    requires
        k >= 0,
        rt2_le(a1, b1, a2, b2),
    ensures
        rt2_le(k * a1, k * b1, k * a2, k * b2),
{
    lemma_nonneg_rt2_scale(k, a2 - a1, b2 - b1);
    assert(k * (a2 - a1) == k * a2 - k * a1 && k * (b2 - b1) == k * b2 - k * b1) by (nonlinear_arith
    );
}


/// The cost order is reflexive.
pub proof fn lemma_rt2_le_refl(a: int, b: int)
    ensures
        rt2_le(a, b, a, b),
{
}

/// Walking a king path only accumulates cost: the step counts of any prefix
/// stay below the step counts of the whole path in the cost order. Together
/// with the exact cost contract of path expansion, expanding a compressed
/// path is monotone in cost.
pub proof fn lemma_king_path_cost_monotone(s: Seq<Pos>, k: int)
    requires
        0 <= k <= s.len(),
    ensures
        rt2_le(
            straight_steps(s.take(k)),
            diag_steps(s.take(k)),
            straight_steps(s),
            diag_steps(s),
        ),
    decreases s.len(),
{
    if k == s.len() {
        assert(s.take(k) =~= s);
        lemma_rt2_le_refl(straight_steps(s), diag_steps(s));
    } else {
        let prefix = s.drop_last();
        assert(prefix.take(k) =~= s.take(k));
        lemma_king_path_cost_monotone(prefix, k);
        assert(rt2_le(
            straight_steps(prefix),
            diag_steps(prefix),
            straight_steps(s),
            diag_steps(s),
        )) by {
            assert(s.len() >= 1);
            if s.len() == 1 {
                assert(prefix =~= s.take(0));
                assert(straight_steps(s) == 0 && diag_steps(s) == 0 && straight_steps(prefix) == 0
                    && diag_steps(prefix) == 0);
            }
        }
        lemma_rt2_le_trans(
            straight_steps(s.take(k)),
            diag_steps(s.take(k)),
            straight_steps(prefix),
            diag_steps(prefix),
            straight_steps(s),
            diag_steps(s),
        );
    }
}

/// Every cell of a dense expansion is the first cell of the compressed path
/// or lies on the unit walk of one of its segments.
pub proof fn lemma_dense_membership(s: Seq<Pos>)
    ensures
        forall|q: Pos|
            spec_dense(s).contains(q) ==> q == s[0] || exists|i: int|
                0 <= i < s.len() - 1 && #[trigger] dense_seg(s[i], s[i + 1]).contains(q),
    decreases s.len(),
{
    if s.len() > 1 {
        let prefix = s.drop_last();
        lemma_dense_membership(prefix);
        let cur = spec_dense(s);
        let prev = spec_dense(prefix);
        let last_seg = dense_seg(s[s.len() - 2], s[s.len() - 1]);
        assert forall|q: Pos| cur.contains(q) implies q == s[0] || exists|i: int|
            0 <= i < s.len() - 1 && #[trigger] dense_seg(s[i], s[i + 1]).contains(q) by {
            let t = choose|t: int| 0 <= t < cur.len() && cur[t] == q;
            if t < prev.len() {
                assert(prev[t] == q);
                assert(prev.contains(q));
                if q != prefix[0] {
                    let i = choose|i: int|
                        0 <= i < prefix.len() - 1 && #[trigger] dense_seg(
                            prefix[i],
                            prefix[i + 1],
                        ).contains(q);
                    assert(prefix[i] == s[i] && prefix[i + 1] == s[i + 1]);
                    assert(dense_seg(s[i], s[i + 1]).contains(q));
                }
            } else {
                assert(last_seg[t - prev.len()] == q);
                assert(dense_seg(s[s.len() - 2], s[(s.len() - 2) + 1]).contains(q));
            }
        }
    }
}
} // verus!
