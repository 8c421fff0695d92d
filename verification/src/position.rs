use vstd::prelude::*;

verus! {

/// A 2D grid coordinate or displacement with signed 16-bit components.
/// Screen conventions: `x` grows rightward, `y` grows downward, so `up`
/// subtracts from `y`.
#[derive(Clone, Copy, PartialEq, Eq, Structural, Hash, Debug)]
pub struct Pos {
    pub x: i16,
    pub y: i16,
}

/// Mathematical signum of an integer.
pub open spec fn sgn(v: int) -> int {
    if v > 0 {
        1
    } else if v < 0 {
        -1
    } else {
        0
    }
}

impl Pos {
    /// Builds the position `(x, y)`.
    pub fn new(x: i16, y: i16) -> (r: Pos)
        ensures
            r == (Pos { x, y }),
    {
        Pos { x, y }
    }

    /// Fallible conversion from wide integers; fails when either component
    /// does not fit the 16-bit coordinate type.
    pub fn from(x: i64, y: i64) -> (r: Result<Pos, String>)
        ensures
            r is Ok <==> (i16::MIN <= x <= i16::MAX && i16::MIN <= y <= i16::MAX),
            r matches Ok(p) ==> p.x == x && p.y == y,
    {
        if x < i16::MIN as i64 || x > i16::MAX as i64 {
            Err("Error while converting x".to_string())
        } else if y < i16::MIN as i64 || y > i16::MAX as i64 {
            Err("Error while converting y".to_string())
        } else {
            Ok(Pos { x: x as i16, y: y as i16 })
        }
    }

    /// Componentwise sum of two positions.
    pub fn add(self, o: Pos) -> (r: Pos)
        requires
            i16::MIN <= self.x + o.x <= i16::MAX,
            i16::MIN <= self.y + o.y <= i16::MAX,
        ensures
            r.x == self.x + o.x,
            r.y == self.y + o.y,
    {
        Pos { x: self.x + o.x, y: self.y + o.y }
    }

    /// Componentwise difference of two positions.
    pub fn sub(self, o: Pos) -> (r: Pos)
        requires
            i16::MIN <= self.x - o.x <= i16::MAX,
            i16::MIN <= self.y - o.y <= i16::MAX,
        ensures
            r.x == self.x - o.x,
            r.y == self.y - o.y,
    {
        Pos { x: self.x - o.x, y: self.y - o.y }
    }

    /// Componentwise negation.
    pub fn neg(self) -> (r: Pos)
        requires
            self.x > i16::MIN,
            self.y > i16::MIN,
        ensures
            r.x == -self.x,
            r.y == -self.y,
    {
        Pos { x: -self.x, y: -self.y }
    }

    /// A displacement is diagonal when both components are non-zero.
    pub fn is_diagonal(&self) -> (r: bool)
        ensures
            r == (self.x != 0 && self.y != 0),
    {
        self.x != 0 && self.y != 0
    }

    /// A displacement is straight when at least one component is zero.
    pub fn is_straight(&self) -> (r: bool)
        ensures
            r == (self.x == 0 || self.y == 0),
    {
        !self.is_diagonal()
    }

    /// The two axis projections `[(x, 0), (0, y)]` of a displacement.
    pub fn components(&self) -> (r: [Pos; 2])
        ensures
            r[0] == (Pos { x: self.x, y: 0 }),
            r[1] == (Pos { x: 0, y: self.y }),
    {
        [Pos { x: self.x, y: 0 }, Pos { x: 0, y: self.y }]
    }

    /// The two perpendiculars `[(y, x), (-y, -x)]` of a displacement.
    pub fn orthogonal(&self) -> (r: [Pos; 2])
        requires
            self.x > i16::MIN,
            self.y > i16::MIN,
        ensures
            r[0] == (Pos { x: self.y, y: self.x }),
            r[1].x == -self.y && r[1].y == -self.x,
    {
        [Pos { x: self.y, y: self.x }, Pos { x: -self.y, y: -self.x }]
    }

    /// Componentwise signum, each component in `{-1, 0, 1}`.
    pub fn sign(&self) -> (r: Pos)
        ensures
            r.x == sgn(self.x as int),
            r.y == sgn(self.y as int),
    {
        let sx: i16 = if self.x > 0 { 1 } else if self.x < 0 { -1 } else { 0 };
        let sy: i16 = if self.y > 0 { 1 } else if self.y < 0 { -1 } else { 0 };
        Pos { x: sx, y: sy }
    }

    /// One step up: `(0, -1)` added.
    pub fn up(&self) -> (r: Pos)
        requires
            self.y > i16::MIN,
        ensures
            r.x == self.x && r.y == self.y - 1,
    {
        Pos { x: self.x, y: self.y - 1 }
    }

    /// One step down: `(0, 1)` added.
    pub fn down(&self) -> (r: Pos)
        requires
            self.y < i16::MAX,
        ensures
            r.x == self.x && r.y == self.y + 1,
    {
        Pos { x: self.x, y: self.y + 1 }
    }

    /// One step left: `(-1, 0)` added.
    pub fn left(&self) -> (r: Pos)
        requires
            self.x > i16::MIN,
        ensures
            r.x == self.x - 1 && r.y == self.y,
    {
        Pos { x: self.x - 1, y: self.y }
    }

    /// One step right: `(1, 0)` added.
    pub fn right(&self) -> (r: Pos)
        requires
            self.x < i16::MAX,
        ensures
            r.x == self.x + 1 && r.y == self.y,
    {
        Pos { x: self.x + 1, y: self.y }
    }

    /// One step up and one step left.
    pub fn up_left(&self) -> (r: Pos)
        requires
            self.x > i16::MIN,
            self.y > i16::MIN,
        ensures
            r.x == self.x - 1 && r.y == self.y - 1,
    {
        self.up().left()
    }

    /// One step up and one step right.
    pub fn up_right(&self) -> (r: Pos)
        requires
            self.x < i16::MAX,
            self.y > i16::MIN,
        ensures
            r.x == self.x + 1 && r.y == self.y - 1,
    {
        self.up().right()
    }

    /// One step down and one step left.
    pub fn down_left(&self) -> (r: Pos)
        requires
            self.x > i16::MIN,
            self.y < i16::MAX,
        ensures
            r.x == self.x - 1 && r.y == self.y + 1,
    {
        self.down().left()
    }

    /// One step down and one step right.
    pub fn down_right(&self) -> (r: Pos)
        requires
            self.x < i16::MAX,
            self.y < i16::MAX,
        ensures
            r.x == self.x + 1 && r.y == self.y + 1,
    {
        self.down().right()
    }
}

} // verus!
