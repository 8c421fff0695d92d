use vstd::prelude::*;

use crate::cost::{cost_wf, rt2_le, Cost};
use crate::maze::Maze;
use crate::paths::{
    diag_dist_d, diag_dist_s, diag_steps, is_king_path, lemma_diag_dist_le_path,
    lemma_rt2_le_scale, straight_steps,
};
use crate::position::Pos;

verus! {

/// An estimate of the remaining cost from a cell to the goal of the search.
pub trait MazeHeuristic {
    /// The value the estimate computes.
    spec fn h_spec(&self, node: Pos) -> Cost;

    /// Computes the estimate for `node`.
    fn compute_heuristic(&self, node: Pos) -> (r: Cost)
        ensures
            r == self.h_spec(node),
            cost_wf(r),
    ;
}

/// The straight component of the weighted diagonal-distance estimate, in
/// millis: `1001 * (max - min)` over the componentwise distances to the goal.
pub open spec fn spec_heuristic_s(p: Pos, g: Pos) -> int {
    1001 * diag_dist_s(p, g)
}

/// The diagonal component of the weighted diagonal-distance estimate, in
/// millis: `1001 * min` over the componentwise distances to the goal.
pub open spec fn spec_heuristic_d(p: Pos, g: Pos) -> int {
    1001 * diag_dist_d(p, g)
}

/// The diagonal-distance heuristic, bound to the goal of a grid. For
/// `dx = |node.x - goal.x|`, `dy = |node.y - goal.y|` it estimates
/// `(min(dx,dy)*(sqrt(2)-1) + max(dx,dy)) * 1.001`: the exact remaining cost
/// on an empty grid, weighted a thousandth above it to break ties toward the
/// goal. The weight makes the search bounded-suboptimal by that factor.
pub struct DiagonalHeuristic {
    pub goal: Pos,
}

impl DiagonalHeuristic {
    /// A heuristic bound to the goal of `maze`.
    pub fn new(maze: &Maze) -> (r: DiagonalHeuristic)
        ensures
            r.goal == maze.goal,
    {
        DiagonalHeuristic { goal: maze.goal() }
    }
}

impl MazeHeuristic for DiagonalHeuristic {
    open spec fn h_spec(&self, node: Pos) -> Cost {
        Cost {
            straight_millis: spec_heuristic_s(node, self.goal) as u64,
            diag_millis: spec_heuristic_d(node, self.goal) as u64,
        }
    }

    fn compute_heuristic(&self, node: Pos) -> (r: Cost)
        ensures
            r == self.h_spec(node),
            cost_wf(r),
    {
        let dx: i32 = node.x as i32 - self.goal.x as i32;
        let dy: i32 = node.y as i32 - self.goal.y as i32;
        let ax: u64 = if dx < 0 {
            (-dx) as u64
        } else {
            dx as u64
        };
        let ay: u64 = if dy < 0 {
            (-dy) as u64
        } else {
            dy as u64
        };
        let mn: u64 = if ax < ay {
            ax
        } else {
            ay
        };
        let mx: u64 = if ax < ay {
            ay
        } else {
            ax
        };
        Cost { straight_millis: 1001 * (mx - mn), diag_millis: 1001 * mn }
    }
}

/// The estimate from any cell is at most `1.001` times the cost of every
/// 8-connected path from that cell to the goal, and so at most `1.001` times
/// the optimal cost. In millis, a path of `S` straight and `D` diagonal
/// steps costs `1000*S + 1000*D*sqrt(2)`, and `1.001` times that is
/// `1001*S + 1001*D*sqrt(2)`, the right-hand side of the bound.
pub proof fn lemma_heuristic_admissible(h: &DiagonalHeuristic, path: Seq<Pos>)
    requires
        is_king_path(path),
        path.len() >= 1,
        path[path.len() - 1] == h.goal,
    ensures
        rt2_le(
            h.h_spec(path[0]).straight_millis as int,
            h.h_spec(path[0]).diag_millis as int,
            1001 * straight_steps(path),
            1001 * diag_steps(path),
        ),
{
    lemma_diag_dist_le_path(path);
    lemma_rt2_le_scale(
        1001,
        diag_dist_s(path[0], h.goal),
        diag_dist_d(path[0], h.goal),
        straight_steps(path),
        diag_steps(path),
    );
}

} // verus!
