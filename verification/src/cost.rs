use vstd::prelude::*;

verus! {

/// Path costs on an 8-connected grid are sums of unit straight steps and unit
/// diagonal steps, so every cost has the exact form `(s + d*sqrt(2)) / 1000`
/// cell units, with natural `s` and `d` counted in thousandths ("millis").
/// Storing the two components keeps the arithmetic exact; floating point is
/// never needed. Comparisons go through the sign of `a + b*sqrt(2)`, decided
/// by integer arithmetic alone.
///
/// Components are capped so that differences of sums of two costs can be
/// squared in `i128` without overflow.
pub const COST_CAP: u64 = 0x2000_0000_0000;

/// Does `a + b*sqrt(2) >= 0` hold? Decided exactly over the integers:
/// whichever of the two magnitudes `|a|` and `|b|*sqrt(2)` is larger fixes
/// the sign, and comparing the magnitudes is comparing `a*a` with `2*(b*b)`.
pub open spec fn nonneg_rt2(a: int, b: int) -> bool {
    (a >= 0 && a * a >= 2 * (b * b)) || (b >= 0 && 2 * (b * b) >= a * a)
}

/// Does `a1 + b1*sqrt(2) <= a2 + b2*sqrt(2)` hold?
pub open spec fn rt2_le(a1: int, b1: int, a2: int, b2: int) -> bool {
    nonneg_rt2(a2 - a1, b2 - b1)
}

/// Does `a1 + b1*sqrt(2) < a2 + b2*sqrt(2)` hold?
pub open spec fn rt2_lt(a1: int, b1: int, a2: int, b2: int) -> bool {
    !rt2_le(a2, b2, a1, b1)
}

/// An exact non-negative path cost: `(straight_millis + diag_millis*sqrt(2))`
/// thousandths of a cell unit.
#[derive(Clone, Copy, PartialEq, Eq, Structural, Debug)]
pub struct Cost {
    pub straight_millis: u64,
    pub diag_millis: u64,
}

/// Both components of a well-formed cost stay under the cap.
pub open spec fn cost_wf(c: Cost) -> bool {
    c.straight_millis <= COST_CAP && c.diag_millis <= COST_CAP
}

/// `c1 <= c2` as real-valued costs.
pub open spec fn cost_le(c1: Cost, c2: Cost) -> bool {
    rt2_le(
        c1.straight_millis as int,
        c1.diag_millis as int,
        c2.straight_millis as int,
        c2.diag_millis as int,
    )
}

/// `c1 < c2` as real-valued costs.
pub open spec fn cost_lt(c1: Cost, c2: Cost) -> bool {
    !cost_le(c2, c1)
}

/// Decides `a + b*sqrt(2) >= 0` for arguments bounded enough that the
/// squares fit `i128`.
pub(crate) fn nonneg_rt2_exec(a: i128, b: i128) -> (r: bool)
    requires
        -0x4000_0000_0000 <= a <= 0x4000_0000_0000,
        -0x4000_0000_0000 <= b <= 0x4000_0000_0000,
    ensures
        r == nonneg_rt2(a as int, b as int),
{
    proof {
        assert(a * a <= 0x1000_0000_0000_0000_0000_0000_0000 && a * a >= 0) by (nonlinear_arith)
            requires
                -0x4000_0000_0000 <= a <= 0x4000_0000_0000,
        ;
        assert(b * b <= 0x1000_0000_0000_0000_0000_0000_0000 && b * b >= 0) by (nonlinear_arith)
            requires
                -0x4000_0000_0000 <= b <= 0x4000_0000_0000,
        ;
    }
    (a >= 0 && a * a >= 2 * (b * b)) || (b >= 0 && 2 * (b * b) >= a * a)
}

impl Cost {
    /// The zero cost.
    pub fn zero() -> (r: Cost)
        ensures
            r.straight_millis == 0 && r.diag_millis == 0,
            cost_wf(r),
    {
        Cost { straight_millis: 0, diag_millis: 0 }
    }

    /// The cost of `k` unit straight steps.
    pub fn straight(k: u16) -> (r: Cost)
        ensures
            r.straight_millis == 1000 * k && r.diag_millis == 0,
            cost_wf(r),
    {
        Cost { straight_millis: 1000 * (k as u64), diag_millis: 0 }
    }

    /// The cost of `k` unit diagonal steps.
    pub fn diagonal(k: u16) -> (r: Cost)
        ensures
            r.straight_millis == 0 && r.diag_millis == 1000 * k,
            cost_wf(r),
    {
        Cost { straight_millis: 0, diag_millis: 1000 * (k as u64) }
    }

    /// Componentwise sum; `None` when a component would pass the cap.
    pub fn checked_add(&self, o: &Cost) -> (r: Option<Cost>)
        requires
            cost_wf(*self),
            cost_wf(*o),
        ensures
            r is Some <==> (self.straight_millis + o.straight_millis <= COST_CAP
                && self.diag_millis + o.diag_millis <= COST_CAP),
            r matches Some(c) ==> c.straight_millis == self.straight_millis + o.straight_millis
                && c.diag_millis == self.diag_millis + o.diag_millis && cost_wf(c),
    {
        if self.straight_millis <= COST_CAP - o.straight_millis
            && self.diag_millis <= COST_CAP - o.diag_millis {
            Some(
                Cost {
                    straight_millis: self.straight_millis + o.straight_millis,
                    diag_millis: self.diag_millis + o.diag_millis,
                },
            )
        } else {
            None
        }
    }

    /// Exact comparison `self <= o`.
    pub fn le(&self, o: &Cost) -> (r: bool)
        requires
            cost_wf(*self),
            cost_wf(*o),
        ensures
            r == cost_le(*self, *o),
    {
        nonneg_rt2_exec(
            o.straight_millis as i128 - self.straight_millis as i128,
            o.diag_millis as i128 - self.diag_millis as i128,
        )
    }

    /// Exact comparison `self < o`.
    pub fn lt(&self, o: &Cost) -> (r: bool)
        requires
            cost_wf(*self),
            cost_wf(*o),
        ensures
            r == cost_lt(*self, *o),
    {
        !o.le(self)
    }
}

/// Squaring a negation changes nothing.
proof fn lemma_sq_neg(m: int)
    ensures
        (-m) * (-m) == m * m,
{
    assert((-m) * (-m) == m * m) by (nonlinear_arith);
}

/// A product of negations is the product itself.
proof fn lemma_mul_neg_neg(m: int, n: int)
    ensures
        (-m) * (-n) == m * n,
{
    assert((-m) * (-n) == m * n) by (nonlinear_arith);
}

/// Squaring preserves order on non-negative integers.
proof fn lemma_sq_mono(m: int, n: int)
    requires
        0 <= m <= n,
    ensures
        m * m <= n * n,
{
    assert(m * m <= n * n) by (nonlinear_arith)
        requires
            0 <= m <= n,
    ;
}

/// Squaring preserves strict order on non-negative integers.
proof fn lemma_sq_mono_strict(m: int, n: int)
    requires
        0 <= m < n,
    ensures
        m * m < n * n,
{
    assert(m * m < n * n) by (nonlinear_arith)
        requires
            0 <= m < n,
    ;
}

/// Order of squares gives order of non-negative integers.
proof fn lemma_sq_le(m: int, n: int)
    requires
        m >= 0,
        n >= 0,
        m * m <= n * n,
    ensures
        m <= n,
{
    if m > n {
        lemma_sq_mono_strict(n, m);
    }
}

/// From `x <= sqrt(2)*p` and `y <= sqrt(2)*q` (all non-negative, stated over
/// squares), the product bound `x*y <= 2*(p*q)` follows.
proof fn lemma_cross_le(x: int, y: int, p: int, q: int)
    requires
        x >= 0,
        y >= 0,
        p >= 0,
        q >= 0,
        x * x <= 2 * (p * p),
        y * y <= 2 * (q * q),
    ensures
        x * y <= 2 * (p * q),
{
    assert((x * y) * (x * y) <= (2 * (p * q)) * (2 * (p * q)) && x * y >= 0 && 2 * (p * q)
        >= 0) by (nonlinear_arith)
        requires
            x >= 0,
            y >= 0,
            p >= 0,
            q >= 0,
            x * x <= 2 * (p * p),
            y * y <= 2 * (q * q),
    ;
    lemma_sq_le(x * y, 2 * (p * q));
}

/// From `x >= sqrt(2)*u` and `y >= sqrt(2)*v` (all non-negative, stated over
/// squares), the product bound `x*y >= 2*(u*v)` follows.
proof fn lemma_cross_ge(x: int, y: int, u: int, v: int)
    requires
        x >= 0,
        y >= 0,
        u >= 0,
        v >= 0,
        x * x >= 2 * (u * u),
        y * y >= 2 * (v * v),
    ensures
        x * y >= 2 * (u * v),
{
    assert((x * y) * (x * y) >= (2 * (u * v)) * (2 * (u * v)) && x * y >= 0 && 2 * (u * v)
        >= 0) by (nonlinear_arith)
        requires
            x >= 0,
            y >= 0,
            u >= 0,
            v >= 0,
            x * x >= 2 * (u * u),
            y * y >= 2 * (v * v),
    ;
    lemma_sq_le(2 * (u * v), x * y);
}

/// The mixed case of `lemma_nonneg_rt2_add`: the first value is dominated by
/// its integer part, the second by its `sqrt(2)` part.
proof fn lemma_nonneg_rt2_add_mixed(a1: int, b1: int, a2: int, b2: int)
    requires
        a1 >= 0,
        a1 * a1 >= 2 * (b1 * b1),
        b2 >= 0,
        2 * (b2 * b2) >= a2 * a2,
    ensures
        nonneg_rt2(a1 + a2, b1 + b2),
{
    let za = a1 + a2;
    let zb = b1 + b2;
    if za >= 0 && zb >= 0 {
        // One of the two disjuncts of `nonneg_rt2` holds outright.
        assert(za * za >= 2 * (zb * zb) || 2 * (zb * zb) >= za * za);
    } else if za < 0 && zb < 0 {
        // Impossible: it would make each magnitude strictly larger than the
        // other. `za < 0` forces `a2 < -a1 <= 0`; `zb < 0` forces
        // `b1 < -b2 <= 0`.
        lemma_sq_neg(a2);
        lemma_sq_neg(b1);
        lemma_sq_mono(a1, -a2);
        lemma_sq_mono_strict(b2, -b1);
        assert(false);
    } else if za >= 0 && zb < 0 {
        // Show the integer part dominates: `za*za >= 2*(zb*zb)`.
        let u = -b1;
        assert(b1 < 0 && u > b2);
        lemma_sq_neg(b1);
        lemma_sq_neg(zb);
        if a2 >= 0 {
            lemma_sq_mono(a1, za);
            lemma_sq_mono(u - b2, u);
            assert(za * za >= 2 * (zb * zb));
        } else {
            let s = -a2;
            lemma_sq_neg(a2);
            // By contradiction: a bound on the cross term `s * za` squeezes
            // `a1*a1` strictly under `2*(u*u)`.
            if !(za * za >= 2 * (zb * zb)) {
                lemma_cross_le(s, za, b2, u - b2);
                assert(a1 * a1 < 2 * (u * u)) by (nonlinear_arith)
                    requires
                        a1 == za + s,
                        za >= 0,
                        s >= 0,
                        u - b2 > 0,
                        b2 >= 0,
                        za * za < 2 * ((u - b2) * (u - b2)),
                        s * s <= 2 * (b2 * b2),
                        s * za <= 2 * (b2 * (u - b2)),
                ;
                assert(false);
            }
        }
    } else {
        // `za < 0 && zb >= 0`: show the `sqrt(2)` part dominates.
        let s = -a2;
        assert(a2 < 0 && s > a1);
        lemma_sq_neg(a2);
        lemma_sq_neg(za);
        if b1 >= 0 {
            lemma_sq_mono(b2, zb);
            lemma_sq_mono(s - a1, s);
            assert(2 * (zb * zb) >= za * za);
        } else {
            let u = -b1;
            lemma_sq_neg(b1);
            assert(zb == b2 - u && b2 >= u);
            if !(2 * (zb * zb) >= za * za) {
                lemma_cross_ge(a1, s - a1, u, b2 - u);
                assert(s * s > 2 * (b2 * b2)) by (nonlinear_arith)
                    requires
                        s == a1 + (s - a1),
                        s - a1 > 0,
                        a1 >= 0,
                        u >= 0,
                        b2 - u >= 0,
                        (s - a1) * (s - a1) > 2 * ((b2 - u) * (b2 - u)),
                        a1 * a1 >= 2 * (u * u),
                        a1 * (s - a1) >= 2 * (u * (b2 - u)),
                ;
                assert(false);
            }
        }
    }
}

/// Non-negative `a + b*sqrt(2)` values are closed under addition. This is the
/// workhorse behind transitivity and compatibility of the cost order.
pub proof fn lemma_nonneg_rt2_add(a1: int, b1: int, a2: int, b2: int)
    requires
        nonneg_rt2(a1, b1),
        nonneg_rt2(a2, b2),
    ensures
        nonneg_rt2(a1 + a2, b1 + b2),
{
    let d1_first = a1 >= 0 && a1 * a1 >= 2 * (b1 * b1);
    let d1_second = a2 >= 0 && a2 * a2 >= 2 * (b2 * b2);
    if d1_first && d1_second {
        // Both dominated by the integer part; so is the sum.
        if b1 >= 0 && b2 >= 0 {
            lemma_cross_ge(a1, a2, b1, b2);
            assert((a1 + a2) * (a1 + a2) >= 2 * ((b1 + b2) * (b1 + b2))) by (nonlinear_arith)
                requires
                    a1 * a1 >= 2 * (b1 * b1),
                    a2 * a2 >= 2 * (b2 * b2),
                    a1 * a2 >= 2 * (b1 * b2),
            ;
        } else if b1 <= 0 && b2 <= 0 {
            lemma_sq_neg(b1);
            lemma_sq_neg(b2);
            lemma_mul_neg_neg(b1, b2);
            lemma_cross_ge(a1, a2, -b1, -b2);
            assert((a1 + a2) * (a1 + a2) >= 2 * ((b1 + b2) * (b1 + b2))) by (nonlinear_arith)
                requires
                    a1 * a1 >= 2 * (b1 * b1),
                    a2 * a2 >= 2 * (b2 * b2),
                    a1 * a2 >= 2 * ((-b1) * (-b2)),
                    (-b1) * (-b2) == b1 * b2,
            ;
        } else {
            assert(b1 * b2 <= 0) by (nonlinear_arith)
                requires
                    !(b1 >= 0 && b2 >= 0),
                    !(b1 <= 0 && b2 <= 0),
            ;
            assert((a1 + a2) * (a1 + a2) >= 2 * ((b1 + b2) * (b1 + b2))) by (nonlinear_arith)
                requires
                    a1 >= 0,
                    a2 >= 0,
                    a1 * a1 >= 2 * (b1 * b1),
                    a2 * a2 >= 2 * (b2 * b2),
                    b1 * b2 <= 0,
            ;
        }
    } else if !d1_first && !d1_second {
        // Both dominated by the sqrt(2) part; so is the sum.
        assert(b1 >= 0 && 2 * (b1 * b1) >= a1 * a1);
        assert(b2 >= 0 && 2 * (b2 * b2) >= a2 * a2);
        if a1 >= 0 && a2 >= 0 {
            lemma_cross_le(a1, a2, b1, b2);
            assert(2 * ((b1 + b2) * (b1 + b2)) >= (a1 + a2) * (a1 + a2)) by (nonlinear_arith)
                requires
                    2 * (b1 * b1) >= a1 * a1,
                    2 * (b2 * b2) >= a2 * a2,
                    a1 * a2 <= 2 * (b1 * b2),
            ;
        } else if a1 <= 0 && a2 <= 0 {
            lemma_sq_neg(a1);
            lemma_sq_neg(a2);
            lemma_mul_neg_neg(a1, a2);
            lemma_cross_le(-a1, -a2, b1, b2);
            assert(2 * ((b1 + b2) * (b1 + b2)) >= (a1 + a2) * (a1 + a2)) by (nonlinear_arith)
                requires
                    2 * (b1 * b1) >= a1 * a1,
                    2 * (b2 * b2) >= a2 * a2,
                    (-a1) * (-a2) <= 2 * (b1 * b2),
                    (-a1) * (-a2) == a1 * a2,
            ;
        } else {
            assert(a1 * a2 <= 0) by (nonlinear_arith)
                requires
                    !(a1 >= 0 && a2 >= 0),
                    !(a1 <= 0 && a2 <= 0),
            ;
            assert(2 * ((b1 + b2) * (b1 + b2)) >= (a1 + a2) * (a1 + a2)) by (nonlinear_arith)
                requires
                    b1 >= 0,
                    b2 >= 0,
                    2 * (b1 * b1) >= a1 * a1,
                    2 * (b2 * b2) >= a2 * a2,
                    a1 * a2 <= 0,
            ;
        }
    } else if d1_first {
        assert(b2 >= 0 && 2 * (b2 * b2) >= a2 * a2);
        lemma_nonneg_rt2_add_mixed(a1, b1, a2, b2);
    } else {
        assert(b1 >= 0 && 2 * (b1 * b1) >= a1 * a1);
        lemma_nonneg_rt2_add_mixed(a2, b2, a1, b1);
    }
}

/// Every `a + b*sqrt(2)` is non-negative or non-positive: the order is total.
pub proof fn lemma_nonneg_rt2_total(a: int, b: int)
    ensures
        nonneg_rt2(a, b) || nonneg_rt2(-a, -b),
{
    lemma_sq_neg(a);
    lemma_sq_neg(b);
    if a * a >= 2 * (b * b) {
        if a < 0 {
            assert(nonneg_rt2(-a, -b));
        }
    } else {
        if b < 0 {
            assert(nonneg_rt2(-a, -b));
        }
    }
}

/// The value order on component pairs is transitive.
pub proof fn lemma_rt2_le_trans(a1: int, b1: int, a2: int, b2: int, a3: int, b3: int)
    requires
        rt2_le(a1, b1, a2, b2),
        rt2_le(a2, b2, a3, b3),
    ensures
        rt2_le(a1, b1, a3, b3),
{
    lemma_nonneg_rt2_add(a2 - a1, b2 - b1, a3 - a2, b3 - b2);
}

/// The value order on component pairs is total.
pub proof fn lemma_rt2_le_total(a1: int, b1: int, a2: int, b2: int)
    ensures
        rt2_le(a1, b1, a2, b2) || rt2_le(a2, b2, a1, b1),
{
    lemma_nonneg_rt2_total(a2 - a1, b2 - b1);
}

/// Scaling both components by a common non-negative factor preserves
/// non-negativity of the value.
pub proof fn lemma_nonneg_rt2_scale(k: int, a: int, b: int)
    requires
        k >= 0,
        nonneg_rt2(a, b),
    ensures
        nonneg_rt2(k * a, k * b),
{
    if a >= 0 && a * a >= 2 * (b * b) {
        assert(k * a >= 0 && (k * a) * (k * a) >= 2 * ((k * b) * (k * b))) by (nonlinear_arith)
            requires
                k >= 0,
                a >= 0,
                a * a >= 2 * (b * b),
        ;
    } else {
        assert(k * b >= 0 && 2 * ((k * b) * (k * b)) >= (k * a) * (k * a)) by (nonlinear_arith)
            requires
                k >= 0,
                b >= 0,
                2 * (b * b) >= a * a,
        ;
    }
}

} // verus!
