use vstd::prelude::*;

use crate::position::Pos;

verus! {

/// What a grid cell holds.
#[derive(Clone, Copy, PartialEq, Eq, Structural, Debug)]
pub enum CellStatus {
    Wall,
    Empty,
}

/// The largest accepted grid side. Coordinates are 16-bit signed and the jump
/// search probes up to two cells past a border cell, so sides stay below
/// `i16::MAX`: every cell of the grid and every probed cell around it then
/// fits the coordinate type.
pub const MAX_SIDE: u32 = 0x7ffe;

/// A bounded rectangular grid: `width x height` cells, a set of impassable
/// wall cells, one start cell and one goal cell.
///
/// Invariants (see [`maze_wf`]): sides are in `[1, MAX_SIDE]`, start and goal
/// are in bounds, distinct and not walls, and the wall list holds in-bounds
/// positions without duplicates.
pub struct Maze {
    pub w: u32,
    pub h: u32,
    pub start: Pos,
    pub goal: Pos,
    pub walls: Vec<Pos>,
}

/// Is `p` inside the rectangle of `m`?
pub open spec fn spec_valid(m: &Maze, p: Pos) -> bool {
    0 <= p.x < m.w && 0 <= p.y < m.h
}

/// Is `p` an in-bounds wall cell of `m`?
pub open spec fn spec_is_wall(m: &Maze, p: Pos) -> bool {
    spec_valid(m, p) && m.walls@.contains(p)
}

/// Is `p` an in-bounds non-wall cell of `m`? Out-of-bounds positions are
/// neither free nor walls; the jump search relies on that to stop at borders.
pub open spec fn spec_is_free(m: &Maze, p: Pos) -> bool {
    spec_valid(m, p) && !m.walls@.contains(p)
}

/// The grid invariant.
pub open spec fn maze_wf(m: &Maze) -> bool {
    &&& 1 <= m.w <= MAX_SIDE
    &&& 1 <= m.h <= MAX_SIDE
    &&& spec_valid(m, m.start)
    &&& spec_valid(m, m.goal)
    &&& m.start != m.goal
    &&& !m.walls@.contains(m.start)
    &&& !m.walls@.contains(m.goal)
    &&& forall|i: int| 0 <= i < m.walls@.len() ==> spec_valid(m, #[trigger] m.walls@[i])
    &&& m.walls@.no_duplicates()
}

impl Maze {
    /// Builds a wall-less grid. The caller supplies dimensions and endpoints
    /// that already satisfy the grid invariant; the validated construction
    /// path is [`crate::maze_builder::MazeBuilder`].
    pub fn new(width: u32, height: u32, start: Pos, goal: Pos) -> (r: Maze)
        requires
            1 <= width <= MAX_SIDE,
            1 <= height <= MAX_SIDE,
            0 <= start.x < width,
            0 <= start.y < height,
            0 <= goal.x < width,
            0 <= goal.y < height,
            start != goal,
        ensures
            r.w == width && r.h == height && r.start == start && r.goal == goal,
            r.walls@ =~= Seq::<Pos>::empty(),
            maze_wf(&r),
    {
        Maze { w: width, h: height, start, goal, walls: Vec::new() }
    }

    /// The start cell.
    pub fn start(&self) -> (r: Pos)
        ensures
            r == self.start,
    {
        self.start
    }

    /// The goal cell.
    pub fn goal(&self) -> (r: Pos)
        ensures
            r == self.goal,
    {
        self.goal
    }

    /// The number of columns.
    pub fn width(&self) -> (r: u32)
        ensures
            r == self.w,
    {
        self.w
    }

    /// The number of rows.
    pub fn height(&self) -> (r: u32)
        ensures
            r == self.h,
    {
        self.h
    }

    /// Is `pos` inside the rectangle?
    pub fn valid(&self, pos: Pos) -> (r: bool)
        ensures
            r == spec_valid(self, pos),
    {
        pos.x >= 0 && pos.y >= 0 && (pos.x as u32) < self.w && (pos.y as u32) < self.h
    }

    /// Is `pos` inside the rectangle? Synonym of [`Maze::valid`].
    pub fn contains(&self, pos: Pos) -> (r: bool)
        ensures
            r == spec_valid(self, pos),
    {
        self.valid(pos)
    }

    /// Does the wall list hold `pos`?
    fn wall_listed(&self, pos: Pos) -> (r: bool)
        ensures
            r == self.walls@.contains(pos),
    {
        let mut i: usize = 0;
        while i < self.walls.len()
            invariant
                0 <= i <= self.walls@.len(),
                forall|j: int| 0 <= j < i ==> self.walls@[j] != pos,
            decreases self.walls@.len() - i,
        {
            if self.walls[i] == pos {
                return true;
            }
            i = i + 1;
        }
        false
    }

    /// The cell status of an in-bounds position, `None` outside the grid.
    pub fn get(&self, pos: Pos) -> (r: Option<CellStatus>)
        ensures
            r is Some <==> spec_valid(self, pos),
            r == Some(CellStatus::Wall) <==> spec_is_wall(self, pos),
            r == Some(CellStatus::Empty) <==> spec_is_free(self, pos),
    {
        if self.valid(pos) {
            if self.wall_listed(pos) {
                Some(CellStatus::Wall)
            } else {
                Some(CellStatus::Empty)
            }
        } else {
            None
        }
    }

    /// Is `pos` an in-bounds wall?
    pub fn is_wall(&self, pos: Pos) -> (r: bool)
        ensures
            r == spec_is_wall(self, pos),
    {
        self.valid(pos) && self.wall_listed(pos)
    }

    /// Is `pos` an in-bounds free cell?
    pub fn is_free(&self, pos: Pos) -> (r: bool)
        ensures
            r == spec_is_free(self, pos),
    {
        self.valid(pos) && !self.wall_listed(pos)
    }

    /// Turns the cell at `pos` into a wall (`wall == true`) or clears it.
    /// Rejected outside the grid and on the start and goal cells, which the
    /// grid invariant keeps free.
    pub fn set(&mut self, pos: Pos, wall: bool) -> (r: Result<(), String>)
        requires
            maze_wf(old(self)),
        ensures
            maze_wf(final(self)),
            final(self).w == old(self).w && final(self).h == old(self).h,
            final(self).start == old(self).start && final(self).goal == old(self).goal,
            r is Ok <==> (spec_valid(old(self), pos) && (!wall || (pos != old(self).start && pos
                != old(self).goal))),
            r is Err ==> final(self).walls@ == old(self).walls@,
            r is Ok && wall ==> final(self).walls@.to_set() =~= old(self).walls@.to_set().insert(
                pos,
            ),
            r is Ok && !wall ==> final(self).walls@.to_set() =~= old(self).walls@.to_set().remove(
                pos,
            ),
    {
        if !self.valid(pos) {
            return Err("Invalid position provided".to_string());
        }
        if wall {
            if pos == self.start || pos == self.goal {
                return Err("Cannot wall the start or goal cell".to_string());
            }
            if !self.wall_listed(pos) {
                self.walls.push(pos);
                proof {
                    assert(self.walls@.drop_last() == old(self).walls@);
                    assert(self.walls@.to_set() =~= old(self).walls@.to_set().insert(pos)) by {
                        assert forall|q: Pos| self.walls@.to_set().contains(q) implies old(
                            self,
                        ).walls@.to_set().insert(pos).contains(q) by {
                            let i = choose|i: int|
                                0 <= i < self.walls@.len() && self.walls@[i] == q;
                            if i < old(self).walls@.len() {
                                assert(old(self).walls@[i] == q);
                            }
                        }
                        assert forall|q: Pos|
                            old(self).walls@.to_set().insert(pos).contains(q) implies self
                            .walls@.to_set().contains(q) by {
                            if q == pos {
                                assert(self.walls@.last() == pos);
                            } else {
                                let i = choose|i: int|
                                    0 <= i < old(self).walls@.len() && old(self).walls@[i] == q;
                                assert(self.walls@[i] == q);
                            }
                        }
                    }
                }
            } else {
                proof {
                    assert(self.walls@.to_set() =~= old(self).walls@.to_set().insert(pos));
                }
            }
            Ok(())
        } else {
            let mut i: usize = 0;
            while i < self.walls.len()
                invariant
                    0 <= i <= self.walls@.len(),
                    forall|j: int| 0 <= j < i ==> self.walls@[j] != pos,
                    self == old(self),
                    maze_wf(old(self)),
                    !wall,
                    spec_valid(old(self), pos),
                decreases self.walls@.len() - i,
            {
                if self.walls[i] == pos {
                    let ghost old_walls = self.walls@;
                    let ghost idx = i as int;
                    self.walls.remove(i);
                    proof {
                        old_walls.remove_ensures(idx);
                        lemma_remove_at(old_walls, idx, self.walls@);
                        assert(self.walls@.to_set() =~= old(self).walls@.to_set().remove(pos));
                        assert forall|j: int| 0 <= j < self.walls@.len() implies spec_valid(
                            self,
                            #[trigger] self.walls@[j],
                        ) by {
                            assert(self.walls@.contains(self.walls@[j]));
                            let k = choose|k: int|
                                0 <= k < old_walls.len() && old_walls[k] == self.walls@[j];
                        }
                    }
                    return Ok(());
                }
                i = i + 1;
            }
            proof {
                assert(self.walls@.to_set() =~= old(self).walls@.to_set().remove(pos)) by {
                    assert(!old(self).walls@.contains(pos));
                }
            }
            Ok(())
        }
    }

    /// The wall cells, as a list without duplicates.
    pub fn walls(&self) -> (r: Vec<Pos>)
        ensures
            r@ == self.walls@,
    {
        let mut out: Vec<Pos> = Vec::new();
        let mut i: usize = 0;
        while i < self.walls.len()
            invariant
                0 <= i <= self.walls@.len(),
                out@ == self.walls@.take(i as int),
            decreases self.walls@.len() - i,
        {
            proof {
                assert(self.walls@.take(i + 1 as int).drop_last() == self.walls@.take(i as int));
            }
            out.push(self.walls[i]);
            i = i + 1;
        }
        proof {
            assert(self.walls@.take(self.walls@.len() as int) == self.walls@);
        }
        out
    }
}

/// Removing the only occurrence of a value keeps exactly the other members
/// and keeps the sequence duplicate-free.
proof fn lemma_remove_at(s: Seq<Pos>, idx: int, r: Seq<Pos>)
    requires
        s.no_duplicates(),
        0 <= idx < s.len(),
        r == s.remove(idx),
    ensures
        r.no_duplicates(),
        forall|q: Pos| r.contains(q) <==> (s.contains(q) && q != s[idx]),
{
    s.remove_ensures(idx);
    assert forall|m: int, n: int| 0 <= m < r.len() && 0 <= n < r.len() && m != n implies r[m]
        != r[n] by {
        let sm = if m < idx { m } else { m + 1 };
        let sn = if n < idx { n } else { n + 1 };
        assert(r[m] == s[sm] && r[n] == s[sn]);
    }
    assert forall|q: Pos| s.contains(q) && q != s[idx] implies r.contains(q) by {
        let i = choose|i: int| 0 <= i < s.len() && s[i] == q;
        if i < idx {
            assert(r[i] == q);
        } else {
            assert(r[i - 1] == q);
        }
    }
    assert forall|q: Pos| r.contains(q) implies s.contains(q) && q != s[idx] by {
        let k = choose|k: int| 0 <= k < r.len() && r[k] == q;
        let sk = if k < idx { k } else { k + 1 };
        assert(s[sk] == q);
    }
}

/// A cursor over the wall cells of a grid.
pub struct WallsIterator {
    pub items: Vec<Pos>,
    pub idx: usize,
}

impl WallsIterator {
    /// The walls this cursor still yields.
    pub open spec fn remaining(&self) -> Seq<Pos> {
        self.items@.skip(self.idx as int)
    }

    /// The cursor index never passes the end of the list.
    pub open spec fn wf(&self) -> bool {
        self.idx <= self.items@.len()
    }

    /// Starts a cursor over the walls of `maze`.
    pub fn new(maze: &Maze) -> (r: WallsIterator)
        ensures
            r.remaining() == maze.walls@,
            r.wf(),
    {
        let items = maze.walls();
        proof {
            assert(items@.skip(0) == items@);
        }
        WallsIterator { items, idx: 0 }
    }

    /// The next wall cell, or `None` when the cursor is exhausted.
    pub fn next(&mut self) -> (r: Option<Pos>)
        requires
            old(self).wf(),
        ensures
            final(self).wf(),
            old(self).remaining().len() == 0 ==> r is None && final(self).remaining()
                == old(self).remaining(),
            old(self).remaining().len() > 0 ==> r == Some(old(self).remaining()[0])
                && final(self).remaining() == old(self).remaining().skip(1),
    {
        if self.idx < self.items.len() {
            let p = self.items[self.idx];
            self.idx = self.idx + 1;
            proof {
                assert(old(self).remaining().skip(1) =~= self.items@.skip(self.idx as int));
            }
            Some(p)
        } else {
            None
        }
    }
}

} // verus!
