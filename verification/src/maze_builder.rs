use vstd::prelude::*;

use crate::maze::{maze_wf, spec_valid, Maze, MAX_SIDE};
use crate::paths::vec_contains_pos;
use crate::position::Pos;

verus! {

broadcast use vstd::string::group_string_axioms;

/// A single-use accumulator for grid construction. Width, height, start and
/// goal may each be set at most once (a second call records an error); wall
/// positions accumulate as a set. [`MazeBuilder::build`] validates the whole
/// configuration and either emits a grid satisfying the grid invariant or
/// reports every violation found.
pub struct MazeBuilder {
    pub width: Option<u32>,
    pub height: Option<u32>,
    pub start: Option<Pos>,
    pub goal: Option<Pos>,
    pub walls: Vec<Pos>,
    pub errors: Vec<String>,
}

/// The wall list of a builder never holds duplicates.
pub open spec fn builder_wf(b: &MazeBuilder) -> bool {
    b.walls@.no_duplicates()
}

/// The configurations that `build` accepts: no duplicate setter calls, all
/// four singleton options set, sides in `[1, MAX_SIDE]`, start and goal in
/// bounds, distinct and not walls, and every wall in bounds.
pub open spec fn valid_config(b: &MazeBuilder) -> bool {
    &&& b.errors@.len() == 0
    &&& b.width matches Some(w) && 1 <= w <= MAX_SIDE
    &&& b.height matches Some(h) && 1 <= h <= MAX_SIDE
    &&& b.start matches Some(s) && 0 <= s.x < b.width->0 && 0 <= s.y < b.height->0
    &&& b.goal matches Some(g) && 0 <= g.x < b.width->0 && 0 <= g.y < b.height->0
    &&& b.start->0 != b.goal->0
    &&& !b.walls@.contains(b.start->0)
    &&& !b.walls@.contains(b.goal->0)
    &&& forall|i: int|
        0 <= i < b.walls@.len() ==> 0 <= (#[trigger] b.walls@[i]).x < b.width->0 && 0
            <= b.walls@[i].y < b.height->0
}

/// The views of a list of messages.
pub open spec fn views_of(es: Seq<String>) -> Seq<Seq<char>> {
    es.map_values(|s: String| s@)
}

/// One diagnostic, present when its condition holds.
pub open spec fn msg_if(cond: bool, m: Seq<char>) -> Seq<Seq<char>> {
    if cond {
        seq![m]
    } else {
        Seq::empty()
    }
}

/// Are both sides set and in range?
pub open spec fn dims_ok(b: &MazeBuilder) -> bool {
    b.width is Some && 1 <= b.width->0 <= MAX_SIDE && b.height is Some && 1 <= b.height->0
        <= MAX_SIDE
}

/// The diagnostics `build` reports, in order: the duplicate-setter messages
/// already recorded, then one message per violated validation rule.
pub open spec fn spec_report(b: &MazeBuilder) -> Seq<Seq<char>> {
    views_of(b.errors@) + msg_if(b.width is None, "width not set"@) + msg_if(
        b.height is None,
        "height not set"@,
    ) + msg_if(b.start is None, "start not set"@) + msg_if(b.goal is None, "goal not set"@)
        + msg_if(
        b.width is Some && !(1 <= b.width->0 <= MAX_SIDE),
        "width out of range"@,
    ) + msg_if(b.height is Some && !(1 <= b.height->0 <= MAX_SIDE), "height out of range"@)
        + msg_if(
        dims_ok(b) && b.start is Some && !(0 <= (b.start->0).x < b.width->0 && 0 <= (b.start->0).y
            < b.height->0),
        "start out of bounds"@,
    ) + msg_if(
        dims_ok(b) && b.goal is Some && !(0 <= (b.goal->0).x < b.width->0 && 0 <= (b.goal->0).y
            < b.height->0),
        "goal out of bounds"@,
    ) + msg_if(
        dims_ok(b) && !(forall|i: int|
            0 <= i < b.walls@.len() ==> 0 <= (#[trigger] b.walls@[i]).x < b.width->0 && 0
                <= b.walls@[i].y < b.height->0),
        "wall out of bounds"@,
    ) + msg_if(
        b.start is Some && b.goal is Some && b.start->0 == b.goal->0,
        "start and goal coincide"@,
    ) + msg_if(
        b.start is Some && b.goal is Some && b.walls@.contains(b.start->0),
        "start is a wall"@,
    ) + msg_if(b.start is Some && b.goal is Some && b.walls@.contains(b.goal->0), "goal is a wall"@)
}

impl MazeBuilder {
    /// A fresh builder with nothing set.
    pub fn new() -> (r: MazeBuilder)
        ensures
            r.width is None && r.height is None && r.start is None && r.goal is None,
            r.walls@ =~= Seq::<Pos>::empty(),
            r.errors@ =~= Seq::<String>::empty(),
            builder_wf(&r),
    {
        MazeBuilder {
            width: None,
            height: None,
            start: None,
            goal: None,
            walls: Vec::new(),
            errors: Vec::new(),
        }
    }

    /// Sets the width once; a second call records an error instead.
    pub fn width(self, arg: u32) -> (r: MazeBuilder)
        requires
            builder_wf(&self),
        ensures
            builder_wf(&r),
            self.width is None ==> r == (MazeBuilder { width: Some(arg), ..self }),
            self.width is Some ==> r.width == self.width && r.errors@.drop_last() == self.errors@
                && r.errors@.last()@ == "width already set"@ && r.errors@.len() == self.errors@.len()
                + 1 && r.height == self.height && r.start == self.start && r.goal == self.goal
                && r.walls == self.walls,
    {
        let mut b = self;
        match b.width {
            Some(_) => b.errors.push("width already set".to_string()),
            None => b.width = Some(arg),
        }
        b
    }

    /// Sets the height once; a second call records an error instead.
    pub fn height(self, arg: u32) -> (r: MazeBuilder)
        requires
            builder_wf(&self),
        ensures
            builder_wf(&r),
            self.height is None ==> r == (MazeBuilder { height: Some(arg), ..self }),
            self.height is Some ==> r.height == self.height && r.errors@.drop_last()
                == self.errors@ && r.errors@.last()@ == "height already set"@ && r.errors@.len()
                == self.errors@.len() + 1 && r.width == self.width && r.start == self.start
                && r.goal == self.goal && r.walls == self.walls,
    {
        let mut b = self;
        match b.height {
            Some(_) => b.errors.push("height already set".to_string()),
            None => b.height = Some(arg),
        }
        b
    }

    /// Sets the start cell once; a second call records an error instead.
    pub fn start(self, arg: Pos) -> (r: MazeBuilder)
        requires
            builder_wf(&self),
        ensures
            builder_wf(&r),
            self.start is None ==> r == (MazeBuilder { start: Some(arg), ..self }),
            self.start is Some ==> r.start == self.start && r.errors@.drop_last() == self.errors@
                && r.errors@.last()@ == "start already set"@ && r.errors@.len() == self.errors@.len()
                + 1 && r.width == self.width && r.height == self.height && r.goal == self.goal
                && r.walls == self.walls,
    {
        let mut b = self;
        match b.start {
            Some(_) => b.errors.push("start already set".to_string()),
            None => b.start = Some(arg),
        }
        b
    }

    /// Sets the goal cell once; a second call records an error instead.
    pub fn goal(self, arg: Pos) -> (r: MazeBuilder)
        requires
            builder_wf(&self),
        ensures
            builder_wf(&r),
            self.goal is None ==> r == (MazeBuilder { goal: Some(arg), ..self }),
            self.goal is Some ==> r.goal == self.goal && r.errors@.drop_last() == self.errors@
                && r.errors@.last()@ == "goal already set"@ && r.errors@.len() == self.errors@.len() + 1
                && r.width == self.width && r.height == self.height && r.start == self.start
                && r.walls == self.walls,
    {
        let mut b = self;
        match b.goal {
            Some(_) => b.errors.push("goal already set".to_string()),
            None => b.goal = Some(arg),
        }
        b
    }

    /// Adds a wall; duplicates collapse silently.
    pub fn add_wall(self, pos: Pos) -> (r: MazeBuilder)
        requires
            builder_wf(&self),
        ensures
            builder_wf(&r),
            r.walls@.to_set() =~= self.walls@.to_set().insert(pos),
            r.width == self.width && r.height == self.height && r.start == self.start && r.goal
                == self.goal && r.errors == self.errors,
    {
        let mut b = self;
        if !vec_contains_pos(&b.walls, pos) {
            let ghost old_walls = b.walls@;
            b.walls.push(pos);
            proof {
                assert(b.walls@.drop_last() == old_walls);
                assert(b.walls@.to_set() =~= old_walls.to_set().insert(pos)) by {
                    assert forall|q: Pos| b.walls@.to_set().contains(q) implies old_walls
                        .to_set().insert(pos).contains(q) by {
                        let i = choose|i: int| 0 <= i < b.walls@.len() && b.walls@[i] == q;
                        if i < old_walls.len() {
                            assert(old_walls[i] == q);
                        }
                    }
                    assert forall|q: Pos| old_walls.to_set().insert(pos).contains(q) implies b
                        .walls@.to_set().contains(q) by {
                        if q == pos {
                            assert(b.walls@.last() == pos);
                        } else {
                            let i = choose|i: int| 0 <= i < old_walls.len() && old_walls[i] == q;
                            assert(b.walls@[i] == q);
                        }
                    }
                }
            }
        } else {
            proof {
                assert(b.walls@.to_set() =~= b.walls@.to_set().insert(pos));
            }
        }
        b
    }

    /// Validates the accumulated configuration. On success the frozen grid
    /// comes back; on failure, the exact list of everything wrong with it
    /// (see [`spec_report`]). Partial grids are never exposed.
    #[verifier::rlimit(60)]
    pub fn build(self) -> (r: Result<Maze, Vec<String>>)
        requires
            builder_wf(&self),
        ensures
            r is Ok <==> valid_config(&self),
            r matches Ok(m) ==> {
                &&& maze_wf(&m)
                &&& m.w == self.width->0
                &&& m.h == self.height->0
                &&& m.start == self.start->0
                &&& m.goal == self.goal->0
                &&& m.walls@ == self.walls@
            },
            r matches Err(es) ==> es@.len() > 0 && views_of(es@) == spec_report(&self),
    {
        let MazeBuilder { width, height, start, goal, walls, errors } = self;
        let mut errors = errors;
        let ghost mut acc: Seq<Seq<char>> = views_of(self.errors@);

        if width.is_none() {
            errors.push("width not set".to_string());
        }
        proof {
            assert(views_of(errors@) =~= acc + msg_if(self.width is None, "width not set"@));
            acc = acc + msg_if(self.width is None, "width not set"@);
        }
        if height.is_none() {
            errors.push("height not set".to_string());
        }
        proof {
            assert(views_of(errors@) =~= acc + msg_if(self.height is None, "height not set"@));
            acc = acc + msg_if(self.height is None, "height not set"@);
        }
        if start.is_none() {
            errors.push("start not set".to_string());
        }
        proof {
            assert(views_of(errors@) =~= acc + msg_if(self.start is None, "start not set"@));
            acc = acc + msg_if(self.start is None, "start not set"@);
        }
        if goal.is_none() {
            errors.push("goal not set".to_string());
        }
        proof {
            assert(views_of(errors@) =~= acc + msg_if(self.goal is None, "goal not set"@));
            acc = acc + msg_if(self.goal is None, "goal not set"@);
        }
        let ghost c_w = self.width is Some && !(1 <= self.width->0 <= MAX_SIDE);
        if let Some(w) = width {
            if w < 1 || w > MAX_SIDE {
                errors.push("width out of range".to_string());
            }
        }
        proof {
            assert(views_of(errors@) =~= acc + msg_if(c_w, "width out of range"@));
            acc = acc + msg_if(c_w, "width out of range"@);
        }
        let ghost c_h = self.height is Some && !(1 <= self.height->0 <= MAX_SIDE);
        if let Some(h) = height {
            if h < 1 || h > MAX_SIDE {
                errors.push("height out of range".to_string());
            }
        }
        proof {
            assert(views_of(errors@) =~= acc + msg_if(c_h, "height out of range"@));
            acc = acc + msg_if(c_h, "height out of range"@);
        }
        let sides_ok = match (width, height) {
            (Some(w), Some(h)) => 1 <= w && w <= MAX_SIDE && 1 <= h && h <= MAX_SIDE,
            _ => false,
        };
        proof {
            assert(sides_ok == dims_ok(&self));
        }
        let ghost c_s = dims_ok(&self) && self.start is Some && !(0 <= (self.start->0).x
            < self.width->0 && 0 <= (self.start->0).y < self.height->0);
        let ghost c_g = dims_ok(&self) && self.goal is Some && !(0 <= (self.goal->0).x
            < self.width->0 && 0 <= (self.goal->0).y < self.height->0);
        let ghost c_walls = dims_ok(&self) && !(forall|i: int|
            0 <= i < self.walls@.len() ==> 0 <= (#[trigger] self.walls@[i]).x < self.width->0 && 0
                <= self.walls@[i].y < self.height->0);
        if sides_ok {
            let w = match width {
                Some(w) => w,
                None => 1,
            };
            let h = match height {
                Some(h) => h,
                None => 1,
            };
            if let Some(s) = start {
                if !(s.x >= 0 && s.y >= 0 && (s.x as u32) < w && (s.y as u32) < h) {
                    errors.push("start out of bounds".to_string());
                }
            }
            proof {
                assert(views_of(errors@) =~= acc + msg_if(c_s, "start out of bounds"@));
                acc = acc + msg_if(c_s, "start out of bounds"@);
            }
            if let Some(g) = goal {
                if !(g.x >= 0 && g.y >= 0 && (g.x as u32) < w && (g.y as u32) < h) {
                    errors.push("goal out of bounds".to_string());
                }
            }
            proof {
                assert(views_of(errors@) =~= acc + msg_if(c_g, "goal out of bounds"@));
                acc = acc + msg_if(c_g, "goal out of bounds"@);
            }
            let mut i: usize = 0;
            let mut walls_ok = true;
            while i < walls.len()
                invariant
                    0 <= i <= walls@.len(),
                    walls_ok <==> (forall|j: int|
                        0 <= j < i ==> 0 <= (#[trigger] walls@[j]).x < w && 0 <= walls@[j].y < h),
                decreases walls@.len() - i,
            {
                let q = walls[i];
                if !(q.x >= 0 && q.y >= 0 && (q.x as u32) < w && (q.y as u32) < h) {
                    walls_ok = false;
                }
                i = i + 1;
            }
            if !walls_ok {
                errors.push("wall out of bounds".to_string());
            }
            proof {
                assert(views_of(errors@) =~= acc + msg_if(c_walls, "wall out of bounds"@));
                acc = acc + msg_if(c_walls, "wall out of bounds"@);
            }
        } else {
            proof {
                assert(views_of(errors@) =~= acc + msg_if(c_s, "start out of bounds"@) + msg_if(
                    c_g,
                    "goal out of bounds"@,
                ) + msg_if(c_walls, "wall out of bounds"@));
                acc = acc + msg_if(c_s, "start out of bounds"@) + msg_if(
                    c_g,
                    "goal out of bounds"@,
                ) + msg_if(c_walls, "wall out of bounds"@);
            }
        }
        let ghost c_eq = self.start is Some && self.goal is Some && self.start->0 == self.goal->0;
        let ghost c_sw = self.start is Some && self.goal is Some && self.walls@.contains(
            self.start->0,
        );
        let ghost c_gw = self.start is Some && self.goal is Some && self.walls@.contains(
            self.goal->0,
        );
        match (start, goal) {
            (Some(s), Some(g)) => {
                if s == g {
                    errors.push("start and goal coincide".to_string());
                }
                proof {
                    assert(views_of(errors@) =~= acc + msg_if(c_eq, "start and goal coincide"@));
                    acc = acc + msg_if(c_eq, "start and goal coincide"@);
                }
                if vec_contains_pos(&walls, s) {
                    errors.push("start is a wall".to_string());
                }
                proof {
                    assert(views_of(errors@) =~= acc + msg_if(c_sw, "start is a wall"@));
                    acc = acc + msg_if(c_sw, "start is a wall"@);
                }
                if vec_contains_pos(&walls, g) {
                    errors.push("goal is a wall".to_string());
                }
                proof {
                    assert(views_of(errors@) =~= acc + msg_if(c_gw, "goal is a wall"@));
                    acc = acc + msg_if(c_gw, "goal is a wall"@);
                }
            },
            _ => {
                proof {
                    assert(views_of(errors@) =~= acc + msg_if(c_eq, "start and goal coincide"@)
                        + msg_if(c_sw, "start is a wall"@) + msg_if(c_gw, "goal is a wall"@));
                    acc = acc + msg_if(c_eq, "start and goal coincide"@) + msg_if(
                        c_sw,
                        "start is a wall"@,
                    ) + msg_if(c_gw, "goal is a wall"@);
                }
            },
        }
        proof {
            assert(views_of(errors@) == acc);
            assert(acc == spec_report(&self));
        }

        if errors.len() > 0 {
            return Err(errors);
        }
        match (width, height, start, goal) {
            (Some(w), Some(h), Some(s), Some(g)) => {
                let m = Maze { w, h, start: s, goal: g, walls };
                Ok(m)
            },
            _ => Err(errors),  // unreachable: a missing option was recorded above
        }
    }
}

} // verus!
