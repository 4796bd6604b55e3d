use crate::points::Point2d;
use vstd::arithmetic::div_mod::{lemma_fundamental_div_mod, lemma_fundamental_div_mod_converse};
use vstd::prelude::*;

verus! {

/// The absolute value of an integer.
pub open spec fn iabs(v: int) -> int {
    if v < 0 {
        -v
    } else {
        v
    }
}

/// The minor-axis offset the midpoint walk has accumulated after i steps
/// along the dominant axis, for a line with dominant extent dp and minor
/// extent m: the nearest integer to the ideal offset m*i/dp, with exact
/// halves rounded down.
pub open spec fn minor_at(m: int, dp: int, i: int) -> int {
    if dp == 0 {
        0
    } else {
        (2 * m * i + dp - 1) / (2 * dp)
    }
}

/// The walk's minor offset never leaves 0 ..= m.
proof fn lemma_minor_bounds(m: int, dp: int, i: int)
    requires
        0 <= m <= dp,
        0 <= i,
    ensures
        0 <= minor_at(m, dp, i),
        i <= dp ==> minor_at(m, dp, i) <= m,
{
    if dp > 0 {
        let nn = 2 * m * i + dp - 1;
        assert(0 <= 2 * m * i) by (nonlinear_arith)
            requires
                0 <= m,
                0 <= i,
        ;
        lemma_fundamental_div_mod(nn, 2 * dp);
        vstd::arithmetic::div_mod::lemma_mod_bound(nn, 2 * dp);
        let u = nn / (2 * dp);
        assert(0 <= u) by (nonlinear_arith)
            requires
                2 * dp * u + nn % (2 * dp) == nn,
                0 <= nn,
                0 <= nn % (2 * dp) < 2 * dp,
                0 < dp,
        ;
        if i <= dp {
            assert(nn < 2 * dp * (m + 1)) by (nonlinear_arith)
                requires
                    nn == 2 * m * i + dp - 1,
                    i <= dp,
                    0 <= m,
                    0 < dp,
            ;
            assert(u <= m) by (nonlinear_arith)
                requires
                    2 * dp * u + nn % (2 * dp) == nn,
                    nn < 2 * dp * (m + 1),
                    0 <= nn % (2 * dp),
                    0 < dp,
            ;
        }
    }
}

/// One step of the midpoint walk: the minor offset grows by one exactly
/// when the decision value e is positive, and stays otherwise.
proof fn lemma_minor_step(m: int, dp: int, i: int)
    requires
        0 <= m <= dp,
        1 <= dp,
        0 <= i,
    ensures
        ({
            let u = minor_at(m, dp, i);
            let e = 2 * m * i + 2 * m - dp - 2 * dp * u;
            minor_at(m, dp, i + 1) == u + (if e > 0 {
                1int
            } else {
                0int
            })
        }),
{
    let u = minor_at(m, dp, i);
    let nn = 2 * m * i + dp - 1;
    assert(0 <= 2 * m * i) by (nonlinear_arith)
        requires
            0 <= m,
            0 <= i,
    ;
    lemma_fundamental_div_mod(nn, 2 * dp);
    vstd::arithmetic::div_mod::lemma_mod_bound(nn, 2 * dp);
    let r = nn % (2 * dp);
    let e = 2 * m * i + 2 * m - dp - 2 * dp * u;
    assert(e == r + 2 * m + 1 - 2 * dp);
    let nn2 = 2 * m * (i + 1) + dp - 1;
    assert(nn2 == nn + 2 * m) by (nonlinear_arith)
        requires
            nn == 2 * m * i + dp - 1,
            nn2 == 2 * m * (i + 1) + dp - 1,
    ;
    if r + 2 * m < 2 * dp {
        assert(nn2 == u * (2 * dp) + (r + 2 * m)) by (nonlinear_arith)
            requires
                nn == 2 * dp * u + r,
                nn2 == nn + 2 * m,
        ;
        lemma_fundamental_div_mod_converse(nn2, 2 * dp, u, r + 2 * m);
        assert(minor_at(m, dp, i + 1) == u);
        assert(e <= 0);
    } else {
        assert(nn2 == (u + 1) * (2 * dp) + (r + 2 * m - 2 * dp)) by (nonlinear_arith)
            requires
                nn == 2 * dp * u + r,
                nn2 == nn + 2 * m,
        ;
        lemma_fundamental_div_mod_converse(nn2, 2 * dp, u + 1, r + 2 * m - 2 * dp);
        assert(minor_at(m, dp, i + 1) == u + 1);
        assert(e > 0);
    }
}

/// Integer division truncating toward zero, as Rust's `/` computes it on
/// signed integers; meaningful only for b != 0.
pub open spec fn trunc_div(a: int, b: int) -> int {
    if (a < 0) == (b < 0) {
        iabs(a) / iabs(b)
    } else {
        -(iabs(a) / iabs(b))
    }
}

/// Which line rasterization strategy a draw call uses.
#[derive(Debug, Clone, Copy, PartialEq, Eq, Structural)]
pub enum LineDrawMethod {
    Incremental,
    MiddlePoint,
}

/// The walk's extents are consistent: the minor extent never exceeds the
/// dominant one, and the emitted count is the dominant extent plus one.
proof fn lemma_norm_extents(l: Line2d)
    ensures
        0 <= l.minor_extent() <= l.dom_steps(),
        l.midpoint_len() == l.dom_steps() + 1,
{
}

/// Law: midpoint rasterization emits exactly one point per integer value
/// of the dominant axis between begin and end inclusive. The i-th point's
/// dominant coordinate is the lower endpoint's plus i, so the emitted
/// points are pairwise distinct on that axis and cover its whole span,
/// and the count is max(|dx|, |dy|) + 1.
pub proof fn lemma_midpoint_covers_dominant_axis(l: Line2d, i: int)
    requires
        0 <= i < l.midpoint_len(),
    ensures
        l.midpoint_len() == 1 + (if iabs(l.spec_dx()) >= iabs(l.spec_dy()) {
            iabs(l.spec_dx())
        } else {
            iabs(l.spec_dy())
        }),
        l.transposed() ==> l.midpoint_at(i).1 == (if l.beg_point.y <= l.end_point.y {
            l.beg_point.y as int
        } else {
            l.end_point.y as int
        }) + i,
        !l.transposed() ==> l.midpoint_at(i).0 == (if l.beg_point.x <= l.end_point.x {
            l.beg_point.x as int
        } else {
            l.end_point.x as int
        }) + i,
{
}

/// Law: the midpoint raster starts at one endpoint of the line and ends
/// at the other, exactly; swapped() tells which end it starts from.
pub proof fn lemma_midpoint_endpoints(l: Line2d)
    ensures
        l.midpoint_at(0) == (if l.swapped() {
            (l.end_point.x as int, l.end_point.y as int)
        } else {
            (l.beg_point.x as int, l.beg_point.y as int)
        }),
        l.midpoint_at(l.midpoint_len() - 1) == (if l.swapped() {
            (l.beg_point.x as int, l.beg_point.y as int)
        } else {
            (l.end_point.x as int, l.end_point.y as int)
        }),
{
    let dp = l.dom_steps();
    let m = l.minor_extent();
    lemma_norm_extents(l);
    if dp > 0 {
        lemma_fundamental_div_mod_converse(dp - 1, 2 * dp, 0, dp - 1);
        assert(2 * m * dp + dp - 1 == m * (2 * dp) + (dp - 1)) by (nonlinear_arith);
        lemma_fundamental_div_mod_converse(2 * m * dp + dp - 1, 2 * dp, m, dp - 1);
    }
    assert(minor_at(m, dp, 0) == 0);
    assert(minor_at(m, dp, dp) == m);
    let (sp, sq, tp, tq) = l.norm();
    assert(l.minor_dir() * m == tq - sq) by {
        if sq >= tq {
            assert(l.minor_dir() == -1);
            assert((-1) * m == -m) by (nonlinear_arith);
        } else {
            assert(l.minor_dir() == 1);
            assert(1 * m == m) by (nonlinear_arith);
        }
    }
}

/// Law: consecutive midpoint raster points have no gaps. Each step moves
/// exactly one unit along the dominant axis and zero or one unit along
/// the minor axis, always in the same minor direction.
pub proof fn lemma_midpoint_no_gaps(l: Line2d, i: int)
    requires
        0 <= i,
        i + 1 < l.midpoint_len(),
    ensures
        ({
            let (x0, y0) = l.midpoint_at(i);
            let (x1, y1) = l.midpoint_at(i + 1);
            &&& iabs(x1 - x0) <= 1
            &&& iabs(y1 - y0) <= 1
            &&& iabs(x1 - x0) + iabs(y1 - y0) >= 1
        }),
{
    let dp = l.dom_steps();
    let m = l.minor_extent();
    lemma_norm_extents(l);
    if dp > 0 {
        lemma_minor_step(m, dp, i);
    }
    let u0 = minor_at(m, dp, i);
    let u1 = minor_at(m, dp, i + 1);
    assert(u0 <= u1 <= u0 + 1);
    assert(l.minor_dir() * u1 - l.minor_dir() * u0 == l.minor_dir() * (u1 - u0))
        by (nonlinear_arith);
}

/// A line segment between two integer points.
#[derive(Debug, Clone)]
pub struct Line2d {
    pub beg_point: Point2d,
    pub end_point: Point2d,
}

impl Line2d {
    pub fn new(begin: Point2d, end: Point2d) -> (l: Self)
        ensures
            l.beg_point == begin && l.end_point == end,
    {
        Self { beg_point: begin, end_point: end }
    }

    /// The signed x extent, end minus begin.
    pub open spec fn spec_dx(self) -> int {
        self.end_point.x - self.beg_point.x
    }

    /// The signed y extent, end minus begin.
    pub open spec fn spec_dy(self) -> int {
        self.end_point.y - self.beg_point.y
    }

    /// Whether the midpoint walk swaps the roles of the axes: it steps
    /// along y when the line is steeper than the diagonal.
    pub open spec fn transposed(self) -> bool {
        iabs(self.spec_dy()) > iabs(self.spec_dx())
    }

    /// Whether the midpoint walk swaps the endpoints so that the step
    /// coordinate increases.
    pub open spec fn swapped(self) -> bool {
        if self.transposed() {
            self.beg_point.y > self.end_point.y
        } else {
            self.beg_point.x > self.end_point.x
        }
    }

    /// The endpoints in walk order and walk axes: (sp, sq, tp, tq), where
    /// p is the step (dominant) axis, q the minor axis, and sp <= tp.
    pub open spec fn norm(self) -> (int, int, int, int) {
        let (p0, q0, p1, q1) = if self.transposed() {
            (self.beg_point.y as int, self.beg_point.x as int, self.end_point.y as int, self.end_point.x as int)
        } else {
            (self.beg_point.x as int, self.beg_point.y as int, self.end_point.x as int, self.end_point.y as int)
        };
        if p0 > p1 {
            (p1, q1, p0, q0)
        } else {
            (p0, q0, p1, q1)
        }
    }

    /// How many steps the midpoint walk takes: the dominant extent.
    pub open spec fn dom_steps(self) -> int {
        self.norm().2 - self.norm().0
    }

    /// The minor extent of the walk, at most dom_steps().
    pub open spec fn minor_extent(self) -> int {
        iabs(self.norm().3 - self.norm().1)
    }

    /// The direction the minor coordinate moves in, +1 or -1.
    pub open spec fn minor_dir(self) -> int {
        if self.norm().1 >= self.norm().3 {
            -1
        } else {
            1
        }
    }

    /// How many points the midpoint rasterization of this line emits:
    /// one per integer value of the dominant axis, inclusive.
    pub open spec fn midpoint_len(self) -> int {
        1 + if iabs(self.spec_dx()) >= iabs(self.spec_dy()) {
            iabs(self.spec_dx())
        } else {
            iabs(self.spec_dy())
        }
    }

    /// The i-th point of the midpoint rasterization, as (x, y).
    pub open spec fn midpoint_at(self, i: int) -> (int, int) {
        let (sp, sq, tp, tq) = self.norm();
        let p = sp + i;
        let q = sq + self.minor_dir() * minor_at(self.minor_extent(), self.dom_steps(), i);
        if self.transposed() {
            (q, p)
        } else {
            (p, q)
        }
    }

    /// Rasterizes the line with the midpoint (Bresenham) strategy: walks
    /// the dominant axis from its lower end to its upper end inclusive,
    /// one point per step, moving the minor axis by at most one per step.
    pub fn middle_point_draw(&self) -> (pts: Vec<Point2d>)
        ensures
            pts@.len() == self.midpoint_len(),
            forall|i: int|
                0 <= i < pts@.len() ==> ((#[trigger] pts@[i]).x as int, pts@[i].y as int)
                    == self.midpoint_at(i),
    {
        let bx: i64 = self.beg_point.x as i64;
        let by: i64 = self.beg_point.y as i64;
        let ex: i64 = self.end_point.x as i64;
        let ey: i64 = self.end_point.y as i64;
        let transposed: bool = (if ey >= by {
            ey - by
        } else {
            by - ey
        }) > (if ex >= bx {
            ex - bx
        } else {
            bx - ex
        });
        let (p0, q0, p1, q1): (i64, i64, i64, i64) = if transposed {
            (by, bx, ey, ex)
        } else {
            (bx, by, ex, ey)
        };
        let (sp, sq, tp, tq): (i64, i64, i64, i64) = if p0 > p1 {
            (p1, q1, p0, q0)
        } else {
            (p0, q0, p1, q1)
        };
        proof {
            assert(transposed == self.transposed());
            assert((sp as int, sq as int, tp as int, tq as int) == self.norm());
        }
        let dp: i64 = tp - sp;
        let m: i64 = if tq >= sq {
            tq - sq
        } else {
            sq - tq
        };
        let incq: i64 = if sq >= tq {
            -1
        } else {
            1
        };
        proof {
            assert(dp as int == self.dom_steps());
            assert(m as int == self.minor_extent());
            assert(incq as int == self.minor_dir());
            assert(0 <= m <= dp);
            assert(self.midpoint_len() == dp + 1);
        }
        let mut e: i64 = 2 * m - dp;
        let mut q: i64 = sq;
        let mut i: i64 = 0;
        let mut pts: Vec<Point2d> = Vec::new();
        proof {
            if dp > 0 {
                lemma_fundamental_div_mod_converse(dp - 1, 2 * (dp as int), 0, dp - 1);
            }
            assert(minor_at(m as int, dp as int, 0) == 0);
            assert((incq as int) * 0 == 0) by (nonlinear_arith);
            assert(2 * (m as int) * 0 == 0) by (nonlinear_arith);
            assert(2 * (dp as int) * 0 == 0) by (nonlinear_arith);
        }
        while i <= dp
            invariant
                self.transposed() == transposed,
                self.norm() == (sp as int, sq as int, tp as int, tq as int),
                dp as int == self.dom_steps(),
                m as int == self.minor_extent(),
                incq as int == self.minor_dir(),
                0 <= m <= dp,
                self.midpoint_len() == dp + 1,
                i32::MIN <= sp <= i32::MAX,
                i32::MIN <= tp <= i32::MAX,
                i32::MIN <= sq <= i32::MAX,
                i32::MIN <= tq <= i32::MAX,
                0 <= i <= dp + 1,
                q as int == sq + incq * minor_at(m as int, dp as int, i as int),
                e as int == 2 * (m as int) * (i as int) + 2 * m - dp - 2 * (dp as int) * minor_at(
                    m as int,
                    dp as int,
                    i as int,
                ),
                dp > 0 ==> -2 * dp < e <= 2 * dp,
                dp == 0 ==> e == 0,
                pts@.len() == i,
                forall|j: int|
                    0 <= j < i ==> ((#[trigger] pts@[j]).x as int, pts@[j].y as int)
                        == self.midpoint_at(j),
            decreases dp + 1 - i,
        {
            proof {
                lemma_minor_bounds(m as int, dp as int, i as int);
                if incq == 1 {
                    assert(sq <= q <= tq);
                } else {
                    assert(tq <= q <= sq);
                }
            }
            let (px, py): (i64, i64) = if transposed {
                (q, sp + i)
            } else {
                (sp + i, q)
            };
            pts.push(Point2d { x: px as i32, y: py as i32 });
            proof {
                let u = minor_at(m as int, dp as int, i as int);
                if dp > 0 {
                    lemma_minor_step(m as int, dp as int, i as int);
                }
                assert(2 * (m as int) * (i as int + 1) == 2 * (m as int) * (i as int) + 2 * (
                m as int)) by (nonlinear_arith);
                assert(2 * (dp as int) * (u + 1) == 2 * (dp as int) * u + 2 * (dp as int))
                    by (nonlinear_arith);
                assert((incq as int) * (u + 1) == (incq as int) * u + incq) by (nonlinear_arith);
            }
            if e <= 0 {
                e = e + 2 * m;
            } else {
                e = e + 2 * (m - dp);
                q = q + incq;
            }
            i = i + 1;
        }
        pts
    }

    /// The number of points the incremental rasterization emits: one per
    /// x value from begin.x for |dx| + 1 steps, always walking upward.
    pub open spec fn incremental_len(self) -> int {
        1 + iabs(self.spec_dx())
    }

    /// The i-th point of the incremental rasterization: x walks up from
    /// begin.x, y follows the truncated integer slope.
    pub open spec fn incremental_at(self, i: int) -> (int, int) {
        (self.beg_point.x + i, self.beg_point.y + trunc_div(self.spec_dy(), self.spec_dx()) * i)
    }

    /// The lines the incremental strategy accepts: not vertical (its slope
    /// divides by dx), and every point it would emit fits the coordinate
    /// type. The emitted y is linear in the step, so bounding the last
    /// step bounds them all.
    pub open spec fn incremental_ok(self) -> bool {
        &&& self.spec_dx() != 0
        &&& self.beg_point.x + iabs(self.spec_dx()) <= i32::MAX
        &&& i32::MIN <= self.beg_point.y + trunc_div(self.spec_dy(), self.spec_dx()) * iabs(
            self.spec_dx(),
        ) <= i32::MAX
    }

    /// Rasterizes the line with the incremental strategy: one point per
    /// step along x, with y advanced by the truncated integer slope
    /// dy / dx. Shallow lines therefore flatten to slope 0, and the walk
    /// runs in increasing x even when end.x < begin.x; both quirks are
    /// part of this strategy's contract. Vertical lines are rejected by
    /// the precondition.
    pub fn incremental_draw(&self) -> (pts: Vec<Point2d>)
        requires
            self.incremental_ok(),
        ensures
            pts@.len() == self.incremental_len(),
            forall|i: int|
                0 <= i < pts@.len() ==> ((#[trigger] pts@[i]).x as int, pts@[i].y as int)
                    == self.incremental_at(i),
    {
        let bx: i64 = self.beg_point.x as i64;
        let by: i64 = self.beg_point.y as i64;
        let dx: i64 = self.end_point.x as i64 - bx;
        let dy: i64 = self.end_point.y as i64 - by;
        let num: u64 = (if dy >= 0 {
            dy
        } else {
            -dy
        }) as u64;
        let den: u64 = (if dx >= 0 {
            dx
        } else {
            -dx
        }) as u64;
        let qmag: i64 = (num / den) as i64;
        let slope: i64 = if (dy < 0) == (dx < 0) {
            qmag
        } else {
            -qmag
        };
        proof {
            assert(slope as int == trunc_div(self.spec_dy(), self.spec_dx()));
        }
        let steps: i64 = den as i64;
        proof {
            lemma_fundamental_div_mod(num as int, den as int);
            vstd::arithmetic::div_mod::lemma_mod_bound(num as int, den as int);
            let q0 = (num as int) / (den as int);
            let r0 = (num as int) % (den as int);
            assert(q0 * (steps as int) <= num) by (nonlinear_arith)
                requires
                    num == den * q0 + r0,
                    0 <= r0,
                    steps == den,
                    0 <= q0,
            ;
        }
        let mut i: i64 = 0;
        let mut pts: Vec<Point2d> = Vec::new();
        while i <= steps
            invariant
                slope as int == trunc_div(self.spec_dy(), self.spec_dx()),
                bx == self.beg_point.x as int,
                by == self.beg_point.y as int,
                steps == iabs(self.spec_dx()),
                1 <= steps <= u32::MAX,
                iabs(slope as int) == qmag,
                qmag * steps <= num,
                num <= u32::MAX,
                num == iabs(self.spec_dy()),
                self.incremental_ok(),
                0 <= i <= steps + 1,
                pts@.len() == i,
                forall|j: int|
                    0 <= j < i ==> ((#[trigger] pts@[j]).x as int, pts@[j].y as int)
                        == self.incremental_at(j),
            decreases steps + 1 - i,
        {
            proof {
                assert(qmag * i <= qmag * steps && 0 <= qmag * i) by (nonlinear_arith)
                    requires
                        0 <= i <= steps,
                        0 <= qmag,
                ;
                if slope >= 0 {
                    assert((slope as int) * i <= (slope as int) * steps) by (nonlinear_arith)
                        requires
                            0 <= i <= steps,
                            0 <= slope,
                    ;
                    assert(0 <= (slope as int) * i) by (nonlinear_arith)
                        requires
                            0 <= i,
                            0 <= slope,
                    ;
                } else {
                    assert((slope as int) * steps <= (slope as int) * i) by (nonlinear_arith)
                        requires
                            0 <= i <= steps,
                            slope < 0,
                    ;
                    assert((slope as int) * i <= 0) by (nonlinear_arith)
                        requires
                            0 <= i,
                            slope < 0,
                    ;
                }
                assert(iabs((slope as int) * i) == qmag * i) by (nonlinear_arith)
                    requires
                        iabs(slope as int) == qmag,
                        0 <= i,
                ;
            }
            let y: i64 = by + slope * i;
            pts.push(Point2d { x: (bx + i) as i32, y: y as i32 });
            i = i + 1;
        }
        pts
    }

    /// How many points the chosen strategy emits for this line.
    pub open spec fn raster_len(self, method: LineDrawMethod) -> int {
        match method {
            LineDrawMethod::Incremental => self.incremental_len(),
            LineDrawMethod::MiddlePoint => self.midpoint_len(),
        }
    }

    /// The i-th point the chosen strategy emits for this line.
    pub open spec fn raster_at(self, method: LineDrawMethod, i: int) -> (int, int) {
        match method {
            LineDrawMethod::Incremental => self.incremental_at(i),
            LineDrawMethod::MiddlePoint => self.midpoint_at(i),
        }
    }

    /// Rasterizes the line with the chosen strategy.
    pub fn draw(&self, method: LineDrawMethod) -> (pts: Vec<Point2d>)
        requires
            method is Incremental ==> self.incremental_ok(),
        ensures
            pts@.len() == self.raster_len(method),
            forall|i: int|
                0 <= i < pts@.len() ==> ((#[trigger] pts@[i]).x as int, pts@[i].y as int)
                    == self.raster_at(method, i),
    {
        match method {
            LineDrawMethod::Incremental => self.incremental_draw(),
            LineDrawMethod::MiddlePoint => self.middle_point_draw(),
        }
    }

    pub fn translate_x(&mut self, dist: i32)
        requires
            i32::MIN <= old(self).beg_point.x + dist <= i32::MAX,
            i32::MIN <= old(self).end_point.x + dist <= i32::MAX,
        ensures
            final(self).beg_point.x == old(self).beg_point.x + dist,
            final(self).beg_point.y == old(self).beg_point.y,
            final(self).end_point.x == old(self).end_point.x + dist,
            final(self).end_point.y == old(self).end_point.y,
    {
        self.beg_point = self.beg_point.translate_x(dist);
        self.end_point = self.end_point.translate_x(dist);
    }

    pub fn translate_y(&mut self, dist: i32)
        requires
            i32::MIN <= old(self).beg_point.y + dist <= i32::MAX,
            i32::MIN <= old(self).end_point.y + dist <= i32::MAX,
        ensures
            final(self).beg_point.x == old(self).beg_point.x,
            final(self).beg_point.y == old(self).beg_point.y + dist,
            final(self).end_point.x == old(self).end_point.x,
            final(self).end_point.y == old(self).end_point.y + dist,
    {
        self.beg_point = self.beg_point.translate_y(dist);
        self.end_point = self.end_point.translate_y(dist);
    }

    /// Translates both endpoints by the same distance on both axes.
    pub fn translate(&mut self, dist: i32)
        requires
            i32::MIN <= old(self).beg_point.x + dist <= i32::MAX,
            i32::MIN <= old(self).end_point.x + dist <= i32::MAX,
            i32::MIN <= old(self).beg_point.y + dist <= i32::MAX,
            i32::MIN <= old(self).end_point.y + dist <= i32::MAX,
        ensures
            final(self).beg_point.x == old(self).beg_point.x + dist,
            final(self).beg_point.y == old(self).beg_point.y + dist,
            final(self).end_point.x == old(self).end_point.x + dist,
            final(self).end_point.y == old(self).end_point.y + dist,
    {
        self.translate_x(dist);
        self.translate_y(dist);
    }
}

/// Whether pts is exactly the raster of line l under the given strategy.
pub open spec fn matches_raster(pts: Seq<Point2d>, l: Line2d, method: LineDrawMethod) -> bool {
    &&& pts.len() == l.raster_len(method)
    &&& forall|j: int|
        0 <= j < pts.len() ==> ((#[trigger] pts[j]).x as int, pts[j].y as int) == l.raster_at(
            method,
            j,
        )
}

/// A closed polygon over integer points: edge i joins points[i] to
/// points[(i + 1) % n], so the last edge closes the cycle.
#[derive(Debug, Clone)]
pub struct Shape2d {
    pub points: Vec<Point2d>,
}

impl Shape2d {
    /// Edge i of the polygon's cycle.
    pub open spec fn edge(self, i: int) -> Line2d {
        Line2d {
            beg_point: self.points@[i],
            end_point: self.points@[
                if i + 1 == self.points@.len() {
                    0
                } else {
                    i + 1
                }
            ],
        }
    }

    /// How many edges a draw call rasterizes: one per point when the
    /// polygon has at least 3 points, and none below that.
    pub open spec fn edge_count(self) -> int {
        if self.points@.len() < 3 {
            0
        } else {
            self.points@.len() as int
        }
    }

    pub fn new(points: &[Point2d]) -> (s: Self)
        ensures
            s.points@ == points@,
    {
        let mut v: Vec<Point2d> = Vec::new();
        let n = points.len();
        let mut i: usize = 0;
        while i < n
            invariant
                n == points@.len(),
                0 <= i <= n,
                v@ == points@.take(i as int),
            decreases n - i,
        {
            v.push(points[i]);
            proof {
                assert(v@ =~= points@.take(i + 1));
            }
            i += 1;
        }
        proof {
            assert(points@.take(n as int) =~= points@);
        }
        Self { points: v }
    }

    pub fn add_point(&mut self, point: &Point2d)
        ensures
            final(self).points@ == old(self).points@.push(*point),
    {
        self.points.push(*point);
    }

    pub fn translate_x(&mut self, dist: i32)
        requires
            forall|i: int|
                0 <= i < old(self).points@.len() ==> i32::MIN <= (
                #[trigger] old(self).points@[i]).x + dist <= i32::MAX,
        ensures
            final(self).points@.len() == old(self).points@.len(),
            forall|i: int|
                0 <= i < old(self).points@.len() ==> {
                    let p = #[trigger] final(self).points@[i];
                    p.x == old(self).points@[i].x + dist && p.y == old(self).points@[i].y
                },
    {
        let n = self.points.len();
        let mut i: usize = 0;
        while i < n
            invariant
                n == self.points@.len(),
                self.points@.len() == old(self).points@.len(),
                0 <= i <= n,
                forall|k: int|
                    0 <= k < n ==> i32::MIN <= (#[trigger] old(self).points@[k]).x + dist
                        <= i32::MAX,
                forall|k: int|
                    i <= k < n ==> #[trigger] self.points@[k] == old(self).points@[k],
                forall|k: int|
                    0 <= k < i ==> {
                        let p = #[trigger] self.points@[k];
                        p.x == old(self).points@[k].x + dist && p.y == old(self).points@[k].y
                    },
            decreases n - i,
        {
            let p = self.points[i].translate_x(dist);
            self.points.set(i, p);
            i += 1;
        }
    }

    pub fn translate_y(&mut self, dist: i32)
        requires
            forall|i: int|
                0 <= i < old(self).points@.len() ==> i32::MIN <= (
                #[trigger] old(self).points@[i]).y + dist <= i32::MAX,
        ensures
            final(self).points@.len() == old(self).points@.len(),
            forall|i: int|
                0 <= i < old(self).points@.len() ==> {
                    let p = #[trigger] final(self).points@[i];
                    p.x == old(self).points@[i].x && p.y == old(self).points@[i].y + dist
                },
    {
        let n = self.points.len();
        let mut i: usize = 0;
        while i < n
            invariant
                n == self.points@.len(),
                self.points@.len() == old(self).points@.len(),
                0 <= i <= n,
                forall|k: int|
                    0 <= k < n ==> i32::MIN <= (#[trigger] old(self).points@[k]).y + dist
                        <= i32::MAX,
                forall|k: int|
                    i <= k < n ==> #[trigger] self.points@[k] == old(self).points@[k],
                forall|k: int|
                    0 <= k < i ==> {
                        let p = #[trigger] self.points@[k];
                        p.x == old(self).points@[k].x && p.y == old(self).points@[k].y + dist
                    },
            decreases n - i,
        {
            let p = self.points[i].translate_y(dist);
            self.points.set(i, p);
            i += 1;
        }
    }

    /// Translates every point by the same distance on both axes.
    pub fn translate(&mut self, dist: i32)
        requires
            forall|i: int|
                0 <= i < old(self).points@.len() ==> {
                    let p = #[trigger] old(self).points@[i];
                    i32::MIN <= p.x + dist <= i32::MAX && i32::MIN <= p.y + dist <= i32::MAX
                },
        ensures
            final(self).points@.len() == old(self).points@.len(),
            forall|i: int|
                0 <= i < old(self).points@.len() ==> {
                    let p = #[trigger] final(self).points@[i];
                    p.x == old(self).points@[i].x + dist && p.y == old(self).points@[i].y + dist
                },
    {
        let n = self.points.len();
        let mut i: usize = 0;
        while i < n
            invariant
                n == self.points@.len(),
                self.points@.len() == old(self).points@.len(),
                0 <= i <= n,
                forall|k: int|
                    0 <= k < n ==> {
                        let p = #[trigger] old(self).points@[k];
                        i32::MIN <= p.x + dist <= i32::MAX && i32::MIN <= p.y + dist <= i32::MAX
                    },
                forall|k: int|
                    i <= k < n ==> #[trigger] self.points@[k] == old(self).points@[k],
                forall|k: int|
                    0 <= k < i ==> {
                        let p = #[trigger] self.points@[k];
                        p.x == old(self).points@[k].x + dist && p.y == old(self).points@[k].y
                            + dist
                    },
            decreases n - i,
        {
            let p = self.points[i].translate(dist);
            self.points.set(i, p);
            i += 1;
        }
    }

    /// Rasterizes the polygon's edge cycle: a polygon with fewer than 3
    /// points draws nothing; otherwise every edge, the closing one
    /// included, is rasterized with the chosen strategy, one raster per
    /// edge in cycle order.
    pub fn draw(&self, method: LineDrawMethod) -> (edges: Vec<Vec<Point2d>>)
        requires
            method is Incremental ==> forall|i: int|
                0 <= i < self.edge_count() ==> (#[trigger] self.edge(i)).incremental_ok(),
        ensures
            edges@.len() == self.edge_count(),
            forall|i: int|
                0 <= i < edges@.len() ==> matches_raster(
                    (#[trigger] edges@[i])@,
                    self.edge(i),
                    method,
                ),
    {
        let n = self.points.len();
        let mut edges: Vec<Vec<Point2d>> = Vec::new();
        if n < 3 {
            return edges;
        }
        let mut i: usize = 0;
        while i < n
            invariant
                n == self.points@.len(),
                3 <= n,
                method is Incremental ==> forall|k: int|
                    0 <= k < self.edge_count() ==> (#[trigger] self.edge(k)).incremental_ok(),
                0 <= i <= n,
                edges@.len() == i,
                forall|k: int|
                    0 <= k < i ==> matches_raster(
                        (#[trigger] edges@[k])@,
                        self.edge(k),
                        method,
                    ),
            decreases n - i,
        {
            let next: usize = if i + 1 == n {
                0
            } else {
                i + 1
            };
            let line = Line2d::new(self.points[i], self.points[next]);
            proof {
                assert(line == self.edge(i as int));
            }
            let pts = line.draw(method);
            edges.push(pts);
            i += 1;
        }
        edges
    }
}

/// The offsets (a, b) relative to the origin that the midpoint circle
/// walk emits from state (a, b, d): while b >= a it emits (a, b), then
/// advances a, dropping b by one exactly when the decision value d is
/// non-negative.
pub open spec fn circle_walk(a: int, b: int, d: int) -> Seq<(int, int)>
    decreases b + 2 - a,
{
    if b < a {
        Seq::empty()
    } else if d < 0 {
        seq![(a, b)] + circle_walk(a + 1, b, d + 2 * a + 3)
    } else {
        seq![(a, b)] + circle_walk(a + 1, b - 1, d + 2 * (a - b) + 5)
    }
}

/// The offsets the midpoint circle walk emits for radius r: it starts at
/// (0, r) with decision value 1 - r.
pub open spec fn circle_offsets(r: int) -> Seq<(int, int)> {
    circle_walk(0, r, 1 - r)
}

/// The v-th of the 8 symmetric reflections of offset (a, b) around the
/// origin (xo, yo), in emission order: the four sign choices of (a, b),
/// then the four sign choices with the offsets swapped.
pub open spec fn reflect(xo: int, yo: int, a: int, b: int, v: int) -> (int, int) {
    if v == 0 {
        (xo + a, yo + b)
    } else if v == 1 {
        (xo + a, yo - b)
    } else if v == 2 {
        (xo - a, yo + b)
    } else if v == 3 {
        (xo - a, yo - b)
    } else if v == 4 {
        (xo + b, yo + a)
    } else if v == 5 {
        (xo + b, yo - a)
    } else if v == 6 {
        (xo - b, yo + a)
    } else {
        (xo - b, yo - a)
    }
}

/// The full point sequence the circle rasterizer emits: 8 reflections of
/// each walk offset, group by group.
pub open spec fn circle_points(xo: int, yo: int, r: int) -> Seq<(int, int)> {
    Seq::new(
        (8 * circle_offsets(r).len()) as nat,
        |j: int|
            {
                let (a, b) = circle_offsets(r)[j / 8];
                reflect(xo, yo, a, b, j % 8)
            },
    )
}

/// The ring property, proved along the walk: from a state satisfying the
/// decision-value invariants, every emitted offset stays in the first
/// octant and within one pixel of the ideal circle of radius r.
proof fn lemma_circle_walk_ring(a: int, b: int, d: int, r: int, j: int)
    requires
        0 <= a,
        -1 <= b <= r,
        d == (a + 1) * (a + 1) + b * b - b - r * r,
        b >= a ==> d <= 2 * a + 2 * (r - b) + 2,
        (r >= 1 && b >= a) ==> d >= 2 * a - b - 2 * r + 2,
        0 <= j < circle_walk(a, b, d).len(),
    ensures
        ({
            let (aa, bb) = circle_walk(a, b, d)[j];
            &&& 0 <= aa <= bb <= r
            &&& aa * aa + bb * bb <= (r + 1) * (r + 1)
            &&& r >= 1 ==> aa * aa + bb * bb >= (r - 1) * (r - 1)
        }),
    decreases b + 2 - a,
{
    assert(b >= a);
    if j == 0 {
        assert(a * a + b * b - r * r == d - 2 * a - 1 + b) by (nonlinear_arith)
            requires
                d == (a + 1) * (a + 1) + b * b - b - r * r,
        ;
        assert((r + 1) * (r + 1) == r * r + 2 * r + 1) by (nonlinear_arith);
        assert((r - 1) * (r - 1) == r * r - 2 * r + 1) by (nonlinear_arith);
    } else {
        if d < 0 {
            assert((a + 2) * (a + 2) + b * b - b - r * r == ((a + 1) * (a + 1) + b * b - b - r * r)
                + 2 * a + 3) by (nonlinear_arith);
            lemma_circle_walk_ring(a + 1, b, d + 2 * a + 3, r, j - 1);
        } else {
            assert((a + 2) * (a + 2) + (b - 1) * (b - 1) - (b - 1) - r * r == ((a + 1) * (a + 1)
                + b * b - b - r * r) + 2 * (a - b) + 5) by (nonlinear_arith);
            lemma_circle_walk_ring(a + 1, b - 1, d + 2 * (a - b) + 5, r, j - 1);
        }
    }
}

/// Law: every offset the midpoint circle walk emits for radius r lies in
/// the first octant, 0 <= a <= b <= r, and within one pixel of the ideal
/// circle: a^2 + b^2 is between (r-1)^2 and (r+1)^2. (The lower bound
/// holds for r >= 1; radius 0 emits only the center itself.)
pub proof fn lemma_circle_offsets_ring(r: int, j: int)
    requires
        0 <= r,
        0 <= j < circle_offsets(r).len(),
    ensures
        ({
            let (aa, bb) = circle_offsets(r)[j];
            &&& 0 <= aa <= bb <= r
            &&& aa * aa + bb * bb <= (r + 1) * (r + 1)
            &&& r >= 1 ==> aa * aa + bb * bb >= (r - 1) * (r - 1)
        }),
{
    assert(1 - r == (0 + 1) * (0 + 1) + r * r - r - r * r) by (nonlinear_arith);
    lemma_circle_walk_ring(0, r, 1 - r, r, j);
}

/// Law: the point set a circle rasterization emits is symmetric around
/// its center: mirroring an emitted point's offset on either axis, or
/// swapping its two offsets, yields another emitted point.
pub proof fn lemma_circle_points_symmetric(xo: int, yo: int, r: int, dx: int, dy: int)
    requires
        circle_points(xo, yo, r).contains((xo + dx, yo + dy)),
    ensures
        circle_points(xo, yo, r).contains((xo - dx, yo + dy)),
        circle_points(xo, yo, r).contains((xo + dx, yo - dy)),
        circle_points(xo, yo, r).contains((xo + dy, yo + dx)),
{
    let s = circle_points(xo, yo, r);
    let j = choose|j: int| 0 <= j < s.len() && s[j] == (xo + dx, yo + dy);
    lemma_fundamental_div_mod(j, 8);
    vstd::arithmetic::div_mod::lemma_mod_bound(j, 8);
    let g = j / 8;
    let v = j % 8;
    assert(0 <= g < circle_offsets(r).len());
    let (a, b) = circle_offsets(r)[g];
    assert(s[j] == reflect(xo, yo, a, b, v));
    let w1: int = if v == 0 {
        2
    } else if v == 1 {
        3
    } else if v == 2 {
        0
    } else if v == 3 {
        1
    } else if v == 4 {
        6
    } else if v == 5 {
        7
    } else if v == 6 {
        4
    } else {
        5
    };
    lemma_fundamental_div_mod_converse(8 * g + w1, 8, g, w1);
    assert(s[8 * g + w1] == reflect(xo, yo, a, b, w1));
    assert(s[8 * g + w1] == (xo - dx, yo + dy));
    assert(s.contains((xo - dx, yo + dy)));
    let w2: int = if v % 2 == 0 {
        v + 1
    } else {
        v - 1
    };
    lemma_fundamental_div_mod_converse(8 * g + w2, 8, g, w2);
    assert(s[8 * g + w2] == reflect(xo, yo, a, b, w2));
    assert(s[8 * g + w2] == (xo + dx, yo - dy));
    assert(s.contains((xo + dx, yo - dy)));
    let w3: int = if v == 0 {
        4
    } else if v == 1 {
        6
    } else if v == 2 {
        5
    } else if v == 3 {
        7
    } else if v == 4 {
        0
    } else if v == 5 {
        2
    } else if v == 6 {
        1
    } else {
        3
    };
    lemma_fundamental_div_mod_converse(8 * g + w3, 8, g, w3);
    assert(s[8 * g + w3] == reflect(xo, yo, a, b, w3));
    assert(s[8 * g + w3] == (xo + dy, yo + dx));
    assert(s.contains((xo + dy, yo + dx)));
}

/// A circle given by an integer center and a radius.
#[derive(Debug, Clone)]
pub struct Circle2d {
    pub origin: Point2d,
    pub radius: u32,
}

impl Circle2d {
    pub fn new(origin: Point2d, radius: u32) -> (c: Self)
        ensures
            c.origin == origin && c.radius == radius,
    {
        Self { origin, radius }
    }

    /// Every point of the rasterization lies within radius of the center
    /// on each axis; this asks that they all fit the coordinate type.
    pub open spec fn fits(self) -> bool {
        &&& i32::MIN <= self.origin.x - self.radius
        &&& self.origin.x + self.radius <= i32::MAX
        &&& i32::MIN <= self.origin.y - self.radius
        &&& self.origin.y + self.radius <= i32::MAX
    }

    /// Rasterizes the circle with the midpoint circle algorithm: walks
    /// the first octant from (0, radius) toward the diagonal and emits
    /// the 8 symmetric reflections of every visited offset around the
    /// center. Radius 0 collapses to the center point repeated 8 times.
    pub fn draw(&self) -> (pts: Vec<Point2d>)
        requires
            self.fits(),
        ensures
            pts@.len() == circle_points(
                self.origin.x as int,
                self.origin.y as int,
                self.radius as int,
            ).len(),
            forall|j: int|
                0 <= j < pts@.len() ==> ((#[trigger] pts@[j]).x as int, pts@[j].y as int)
                    == circle_points(
                    self.origin.x as int,
                    self.origin.y as int,
                    self.radius as int,
                )[j],
    {
        let xo: i64 = self.origin.x as i64;
        let yo: i64 = self.origin.y as i64;
        let r: i64 = self.radius as i64;
        let mut a: i64 = 0;
        let mut b: i64 = r;
        let mut d: i64 = 1 - r;
        let mut pts: Vec<Point2d> = Vec::new();
        let ghost mut emitted: Seq<(int, int)> = Seq::empty();
        proof {
            assert(circle_offsets(r as int) =~= emitted + circle_walk(
                a as int,
                b as int,
                d as int,
            ));
        }
        while b >= a
            invariant
                xo == self.origin.x as int,
                yo == self.origin.y as int,
                r == self.radius as int,
                self.fits(),
                0 <= a <= r + 1,
                -1 <= b <= r,
                d as int == (a + 1) * (a + 1) + b * b - b - r * r,
                b >= a ==> d <= 2 * a + 2 * (r - b) + 2,
                (r >= 1 && b >= a) ==> d >= 2 * a - b - 2 * r + 2,
                -5 * r - 10 <= d <= 4 * r + 10,
                circle_offsets(r as int) == emitted + circle_walk(a as int, b as int, d as int),
                pts@.len() == 8 * emitted.len(),
                forall|j: int|
                    0 <= j < pts@.len() ==> ((#[trigger] pts@[j]).x as int, pts@[j].y as int)
                        == ({
                        let (aa, bb) = emitted[j / 8];
                        reflect(xo as int, yo as int, aa, bb, j % 8)
                    }),
            decreases b + 2 - a,
        {
            let ghost old_pts = pts@;
            let ghost old_emitted = emitted;
            let ghost gl = emitted.len() as int;
            let ghost a0 = a as int;
            let ghost b0 = b as int;
            let ghost d0 = d as int;
            pts.push(Point2d { x: (xo + a) as i32, y: (yo + b) as i32 });
            pts.push(Point2d { x: (xo + a) as i32, y: (yo - b) as i32 });
            pts.push(Point2d { x: (xo - a) as i32, y: (yo + b) as i32 });
            pts.push(Point2d { x: (xo - a) as i32, y: (yo - b) as i32 });
            pts.push(Point2d { x: (xo + b) as i32, y: (yo + a) as i32 });
            pts.push(Point2d { x: (xo + b) as i32, y: (yo - a) as i32 });
            pts.push(Point2d { x: (xo - b) as i32, y: (yo + a) as i32 });
            pts.push(Point2d { x: (xo - b) as i32, y: (yo - a) as i32 });
            proof {
                emitted = emitted.push((a0, b0));
                assert forall|j: int|
                    0 <= j < pts@.len() implies ((#[trigger] pts@[j]).x as int,
                pts@[j].y as int) == ({
                    let (aa, bb) = emitted[j / 8];
                    reflect(xo as int, yo as int, aa, bb, j % 8)
                }) by {
                    if j < 8 * gl {
                        lemma_fundamental_div_mod(j, 8);
                        vstd::arithmetic::div_mod::lemma_mod_bound(j, 8);
                        assert(pts@[j] == old_pts[j]);
                        assert(0 <= j / 8 < gl);
                        assert(emitted[j / 8] == old_emitted[j / 8]);
                    } else {
                        lemma_fundamental_div_mod_converse(j, 8, gl, j - 8 * gl);
                        assert(j / 8 == gl && j % 8 == j - 8 * gl);
                        assert(emitted[gl] == (a0, b0));
                    }
                }
            }
            if d < 0 {
                proof {
                    assert((a0 + 2) * (a0 + 2) + b0 * b0 - b0 - (r as int) * r == ((a0 + 1) * (a0
                        + 1) + b0 * b0 - b0 - (r as int) * r) + 2 * a0 + 3) by (nonlinear_arith);
                }
                d = d + 2 * a + 3;
                a = a + 1;
            } else {
                proof {
                    assert((a0 + 2) * (a0 + 2) + (b0 - 1) * (b0 - 1) - (b0 - 1) - (r as int) * r
                        == ((a0 + 1) * (a0 + 1) + b0 * b0 - b0 - (r as int) * r) + 2 * (a0 - b0)
                        + 5) by (nonlinear_arith);
                }
                d = d + 2 * (a - b) + 5;
                a = a + 1;
                b = b - 1;
            }
            proof {
                assert(circle_walk(a0, b0, d0) == seq![(a0, b0)] + circle_walk(
                    a as int,
                    b as int,
                    d as int,
                ));
                assert(circle_offsets(r as int) =~= emitted + circle_walk(
                    a as int,
                    b as int,
                    d as int,
                ));
            }
        }
        proof {
            assert(circle_walk(a as int, b as int, d as int) =~= Seq::empty());
            assert(circle_offsets(r as int) =~= emitted);
        }
        pts
    }
}

} // verus!
