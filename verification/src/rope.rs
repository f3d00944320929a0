//! The rope: a chain of joints advanced by Verlet integration and pulled
//! toward its rest length by position-based relaxation.
//!
//! Joint 0 is the anchor. Integration and relaxation never move it; only a
//! caller that sets its position does. Every other joint, the free end
//! included, is integrated and corrected.
//!
//! A pass corrects every segment once, from the anchor outward. The
//! constraint step runs `CONSTRAIN_PASSES` passes; `relax` runs as many as
//! it is asked for. A correction restores only part of the missing length,
//! so the rope is stiff without ever being rigid: on a rope of two joints
//! every pass takes the error to five eighths of itself, up to rounding.

use crate::fixed::{
    abs_of, clamp, fx_add, fx_div_int, fx_sub, in_range, lemma_isqrt_above,
    lemma_isqrt_monotonic, lemma_quot_sign, quot, saturate, LIMIT, SCALE,
};
use crate::geometry::{
    lemma_coordinate_sum, lemma_lead_growth, lemma_lead_shrink, lemma_length_bounds,
    lemma_normalized_reach, lemma_null_vector, lemma_push_at_least, lemma_push_within_ratio,
    lemma_scaled_negated, lemma_scaled_reach, lemma_shrink_bound, lemma_shrink_ceiling,
    lemma_spread_bound, lemma_spread_floor, lemma_square_order, Vec2,
};
use vstd::prelude::*;

verus! {

/// Thickness of a rope at creation: four units.
pub const DEFAULT_THICKNESS: i64 = 262144;

/// Numerator of the softness of a segment. A correction restores the
/// fraction `SOFTNESS_DEN / SOFTNESS_NUM` of the missing length, so a
/// segment is never made exactly rigid in one step.
pub const SOFTNESS_NUM: i64 = 6;

/// Denominator of the softness of a segment.
pub const SOFTNESS_DEN: i64 = 5;

/// Passes of corrections that one constraint step runs.
pub const CONSTRAIN_PASSES: u32 = 3;

/// Why a rope could not be laid out.
#[derive(Clone, Copy, Debug, PartialEq, Eq, Structural)]
pub enum RopeError {
    /// A segment needs two endpoints: fewer than two joints were asked for.
    TooFewJoints,
}

/// A chain of joints with the length each segment tends to.
pub struct Rope {
    points: Vec<Vec2>,
    prev_points: Vec<Vec2>,
    segment_length: i64,
    thickness: i64,
    gravity: Vec2,
}

/// What a rope is, as mathematics sees it.
pub struct RopeView {
    /// Where each joint is.
    pub points: Seq<Vec2>,
    /// Where each joint was one integration step ago.
    pub prev_points: Seq<Vec2>,
    /// The distance two neighbouring joints tend to.
    pub segment_length: i64,
    /// Visual thickness, which also offsets joint contacts.
    pub thickness: i64,
    /// Displacement that every integration step adds to each free joint.
    pub gravity: Vec2,
}

/// Position of a joint after one Verlet step: it keeps the displacement of
/// the step before and adds the constant acceleration term.
pub open spec fn verlet(position: Vec2, previous: Vec2, gravity: Vec2) -> Vec2 {
    position.plus(position.minus(previous)).plus(gravity)
}

/// Half of the softened correction for the segment from `a` to `b`. It points
/// from `a` to `b` where the segment is too short and back where it is too
/// long, and is null where the two joints coincide.
pub open spec fn spec_correction(a: Vec2, b: Vec2, rest: i64) -> Vec2 {
    let delta = b.minus(a);
    let difference = clamp(rest - delta.length());
    let half = clamp(quot(difference * SOFTNESS_DEN, 2 * SOFTNESS_NUM));
    delta.normalized().scaled(half)
}

/// Rest length of each segment of a chain of `count` joints from `start`
/// to `end`: the distance divided by the number of segments.
pub open spec fn rest_length(start: Vec2, end: Vec2, count: nat) -> i64 {
    clamp(quot(end.minus(start).length() as int, count - 1))
}

/// Joint `i` of a chain laid out from `start` toward `end`: `i` rest lengths
/// along the direction from `start` to `end`.
pub open spec fn chain_point(start: Vec2, end: Vec2, count: nat, i: int) -> Vec2 {
    start.plus(
        end.minus(start).normalized().scaled(clamp(rest_length(start, end, count) * i)),
    )
}

/// The joints of a chain laid out evenly from `start` toward `end`.
pub open spec fn even_chain(start: Vec2, end: Vec2, count: nat) -> Seq<Vec2> {
    Seq::new(count, |i: int| chain_point(start, end, count, i))
}

impl RopeView {
    /// Validity: at least two joints, a previous position for each, and
    /// every coordinate in the representable range.
    pub open spec fn wf(self) -> bool {
        &&& self.points.len() >= 2
        &&& self.prev_points.len() == self.points.len()
        &&& forall|i: int| 0 <= i < self.points.len() ==> (#[trigger] self.points[i]).in_world()
        &&& forall|i: int|
            0 <= i < self.prev_points.len() ==> (#[trigger] self.prev_points[i]).in_world()
    }

    /// A rope at rest, laid out evenly from `start` toward `end`.
    pub open spec fn laid_out(
        start: Vec2,
        end: Vec2,
        count: nat,
        thickness: i64,
        gravity: Vec2,
    ) -> RopeView {
        RopeView {
            points: even_chain(start, end, count),
            prev_points: even_chain(start, end, count),
            segment_length: rest_length(start, end, count),
            thickness,
            gravity,
        }
    }
}

impl RopeView {
    /// Whether `self` is a valid rope with as many joints as `before`, the
    /// same anchor and the same parameters.
    pub open spec fn keeps_frame(self, before: RopeView) -> bool {
        &&& self.wf()
        &&& self.points.len() == before.points.len()
        &&& self.points[0] == before.points[0]
        &&& self.segment_length == before.segment_length
        &&& self.thickness == before.thickness
        &&& self.gravity == before.gravity
    }

    /// What segment `i` measures: the length of the displacement from joint
    /// `i` to joint `i + 1`.
    pub open spec fn segment_measure(self, i: int) -> i64 {
        self.points[i + 1].minus(self.points[i]).length()
    }

    /// Whether the rope is at rest: no joint has moved in its last step,
    /// there is no gravity, and every segment measures the rest length.
    pub open spec fn at_rest(self) -> bool {
        &&& self.prev_points == self.points
        &&& self.gravity == Vec2::zero()
        &&& forall|i: int|
            0 <= i < self.points.len() - 1 ==> #[trigger] self.segment_measure(i)
                == self.segment_length
    }

    /// One Verlet step of every joint but the anchor.
    pub open spec fn integrate(self) -> RopeView {
        RopeView {
            points: Seq::new(
                self.points.len(),
                |i: int|
                    if i == 0 {
                        self.points[0]
                    } else {
                        verlet(self.points[i], self.prev_points[i], self.gravity)
                    },
            ),
            prev_points: Seq::new(
                self.points.len(),
                |i: int|
                    if i == 0 {
                        self.prev_points[0]
                    } else {
                        self.points[i]
                    },
            ),
            ..self
        }
    }

    /// Corrects segment `i`: joint `i + 1` gains the half correction and
    /// joint `i` loses it, unless joint `i` is the anchor.
    pub open spec fn constrain_segment(self, i: int) -> RopeView {
        let a = self.points[i];
        let b = self.points[i + 1];
        let c = spec_correction(a, b, self.segment_length);
        let lower = if i == 0 {
            self.points
        } else {
            self.points.update(i, a.minus(c))
        };
        RopeView { points: lower.update(i + 1, b.plus(c)), ..self }
    }

    /// Corrects the first `n` segments, from the anchor outward, each on the
    /// positions that the corrections before it left.
    pub open spec fn constrain_upto(self, n: nat) -> RopeView
        decreases n,
    {
        if n == 0 {
            self
        } else {
            self.constrain_upto((n - 1) as nat).constrain_segment(n - 1)
        }
    }

    /// One pass of corrections over every segment.
    pub open spec fn constrain_pass(self) -> RopeView {
        self.constrain_upto((self.points.len() - 1) as nat)
    }

    /// `iterations` passes of corrections.
    pub open spec fn relax(self, iterations: nat) -> RopeView
        decreases iterations,
    {
        if iterations == 0 {
            self
        } else {
            self.relax((iterations - 1) as nat).constrain_pass()
        }
    }

    /// The constraint step: `CONSTRAIN_PASSES` passes of corrections.
    pub open spec fn constrain_points(self) -> RopeView {
        self.relax(CONSTRAIN_PASSES as nat)
    }

    /// One cycle: a Verlet step, then `iterations` passes of corrections.
    pub open spec fn update_rope(self, iterations: nat) -> RopeView {
        self.integrate().relax(iterations)
    }

    /// `substeps` cycles in a row.
    pub open spec fn update(self, substeps: nat, iterations: nat) -> RopeView
        decreases substeps,
    {
        if substeps == 0 {
            self
        } else {
            self.update((substeps - 1) as nat, iterations).update_rope(iterations)
        }
    }

    /// Radius of the disc that shows joint `i`: the thickness, doubled for
    /// the anchor and for the free end.
    pub open spec fn joint_radius(self, i: int) -> i64 {
        if i == 0 || i == self.points.len() - 1 {
            clamp(self.thickness + self.thickness)
        } else {
            self.thickness
        }
    }

    /// The middle of every segment, from the anchor outward.
    pub open spec fn midpoints(self) -> Seq<Vec2> {
        Seq::new(
            (self.points.len() - 1) as nat,
            |i: int| self.points[i].midpoint(self.points[i + 1]),
        )
    }

    /// Where the free end would lie if the rope ran straight from the
    /// anchor toward its free end with `segments` segments of rest length.
    /// Where the free end sits on the anchor there is no such direction, and
    /// this is the anchor.
    pub open spec fn straight_end(self, segments: nat) -> Vec2 {
        let anchor = self.points[0];
        let end = self.points[self.points.len() - 1];
        anchor.plus(end.minus(anchor).normalized().scaled(clamp(self.segment_length * segments)))
    }

    /// The rope that growing to `count` joints with the free end at `end`
    /// gives: laid out afresh from the anchor, at rest.
    pub open spec fn grown(self, count: nat, end: Vec2) -> RopeView {
        RopeView::laid_out(self.points[0], end, count, self.thickness, self.gravity)
    }
}

/// A Verlet step keeps the rope valid and its anchor in place.
pub proof fn lemma_integrate_keeps_frame(v: RopeView)
    requires
        v.wf(),
    ensures
        v.integrate().keeps_frame(v),
{
}

/// Correcting the first `n` segments keeps the rope valid and its anchor in
/// place.
pub proof fn lemma_constrain_keeps_frame(v: RopeView, n: nat)
    requires
        v.wf(),
        n <= v.points.len() - 1,
    ensures
        v.constrain_upto(n).keeps_frame(v),
    decreases n,
{
    if n > 0 {
        lemma_constrain_keeps_frame(v, (n - 1) as nat);
    }
}

/// Any number of passes keeps the rope valid and its anchor in place.
pub proof fn lemma_relax_keeps_frame(v: RopeView, iterations: nat)
    requires
        v.wf(),
    ensures
        v.relax(iterations).keeps_frame(v),
    decreases iterations,
{
    if iterations > 0 {
        lemma_relax_keeps_frame(v, (iterations - 1) as nat);
        let w = v.relax((iterations - 1) as nat);
        lemma_constrain_keeps_frame(w, (w.points.len() - 1) as nat);
    }
}

/// Anchor invariance: however many cycles of integration and relaxation
/// run, the rope stays valid, keeps its number of joints and its parameters,
/// and joint 0 stays exactly where it was.
pub proof fn lemma_update_keeps_frame(v: RopeView, substeps: nat, iterations: nat)
    requires
        v.wf(),
    ensures
        v.update(substeps, iterations).keeps_frame(v),
        v.update(substeps, iterations).points[0] == v.points[0],
    decreases substeps,
{
    if substeps > 0 {
        lemma_update_keeps_frame(v, (substeps - 1) as nat, iterations);
        let w = v.update((substeps - 1) as nat, iterations);
        lemma_integrate_keeps_frame(w);
        lemma_relax_keeps_frame(w.integrate(), iterations);
    }
}

/// A chain laid out with at least two joints is valid.
pub proof fn lemma_laid_out_wf(start: Vec2, end: Vec2, count: nat, thickness: i64, gravity: Vec2)
    requires
        count >= 2,
    ensures
        RopeView::laid_out(start, end, count, thickness, gravity).wf(),
        RopeView::laid_out(start, end, count, thickness, gravity).points.len() == count,
{
}

/// A pass over segments that all measure the rest length changes nothing.
pub proof fn lemma_constrain_at_rest(v: RopeView, n: nat)
    requires
        v.wf(),
        v.at_rest(),
        n <= v.points.len() - 1,
    ensures
        v.constrain_upto(n) == v,
    decreases n,
{
    if n > 0 {
        lemma_constrain_at_rest(v, (n - 1) as nat);
        let i = n - 1;
        let a = v.points[i];
        let b = v.points[i + 1];
        assert(v.segment_measure(i) == v.segment_length);
        assert(b.in_world() && a.in_world());
        lemma_null_vector(b.minus(a).normalized(), 0);
        lemma_null_vector(a, 0);
        lemma_null_vector(b, 0);
        assert(spec_correction(a, b, v.segment_length) == Vec2::zero());
        assert(v.constrain_segment(i).points =~= v.points);
    }
}

/// A rope at rest stays exactly as it is through any number of passes of
/// corrections.
pub proof fn lemma_relax_at_rest(v: RopeView, iterations: nat)
    requires
        v.wf(),
        v.at_rest(),
    ensures
        v.relax(iterations) == v,
    decreases iterations,
{
    if iterations > 0 {
        lemma_relax_at_rest(v, (iterations - 1) as nat);
        lemma_constrain_at_rest(v, (v.points.len() - 1) as nat);
    }
}

/// A rope at rest stays exactly as it is through any number of cycles of
/// integration and relaxation.
pub proof fn lemma_update_at_rest(v: RopeView, substeps: nat, iterations: nat)
    requires
        v.wf(),
        v.at_rest(),
    ensures
        v.update(substeps, iterations) == v,
    decreases substeps,
{
    if substeps > 0 {
        lemma_update_at_rest(v, (substeps - 1) as nat, iterations);
        assert forall|i: int| 0 <= i < v.points.len() implies #[trigger] v.integrate().points[i]
            == v.points[i] by {
            lemma_null_vector(v.points[i], 0);
        }
        assert(v.integrate().points =~= v.points);
        assert(v.integrate().prev_points =~= v.prev_points);
        assert(v.integrate() == v);
        lemma_relax_at_rest(v, iterations);
    }
}

/// How far a measured length is from the rest length.
pub open spec fn gap(rest: i64, measure: i64) -> int {
    abs_of(rest - measure)
}

/// Whether correcting the segment from the anchor `a` to the joint `b`
/// saturates nowhere: the rest length is a length, and the displacement
/// from `a` to `b`, its norm, the joint's new position and the new
/// displacement all lie in the representable range.
pub open spec fn anchored_fits(a: Vec2, b: Vec2, rest: i64) -> bool {
    let c = spec_correction(a, b, rest);
    &&& 0 <= rest <= LIMIT
    &&& in_range(b.x - a.x)
    &&& in_range(b.y - a.y)
    &&& b.minus(a).norm() <= LIMIT
    &&& in_range(b.x + c.x)
    &&& in_range(b.y + c.y)
    &&& in_range(b.x + c.x - a.x)
    &&& in_range(b.y + c.y - a.y)
}

/// The measured length of the anchored segment once the joint `b` has
/// received its correction.
pub open spec fn corrected_measure(a: Vec2, b: Vec2, rest: i64) -> i64 {
    b.plus(spec_correction(a, b, rest)).minus(a).length()
}

/// A correction of the segment at the anchor, where only the far joint
/// moves, never overshoots: the segment's measured length moves toward the
/// rest length and never past it. Unless the joint sits on the anchor, the
/// length comes strictly closer to the rest length as long as it is twenty
/// raw steps or more away from it, and its distance from the rest length
/// shrinks to five eighths of what it was, plus nine raw steps at most.
pub proof fn lemma_anchored_correction(a: Vec2, b: Vec2, rest: i64)
    requires
        anchored_fits(a, b, rest),
    ensures
        b.minus(a).length() <= rest ==> b.minus(a).length() <= corrected_measure(a, b, rest)
            <= rest,
        b.minus(a).length() >= rest ==> rest <= corrected_measure(a, b, rest) <= b.minus(
            a,
        ).length(),
        gap(rest, corrected_measure(a, b, rest)) <= gap(rest, b.minus(a).length()),
        b != a && gap(rest, b.minus(a).length()) >= 20 ==> gap(
            rest,
            corrected_measure(a, b, rest),
        ) < gap(rest, b.minus(a).length()),
        b != a ==> 8 * gap(rest, corrected_measure(a, b, rest)) <= 5 * gap(
            rest,
            b.minus(a).length(),
        ) + 72,
{
    let delta = b.minus(a);
    let n = delta.norm();
    lemma_length_bounds(delta);
    if n == 0 {
        assert(delta.norm_sq() < 1) by (nonlinear_arith)
            requires
                delta.norm_sq() < (n + 1) * (n + 1),
                n == 0,
        ;
        assert(delta == Vec2::zero()) by (nonlinear_arith)
            requires
                delta.x * delta.x + delta.y * delta.y < 1,
        ;
        let half = clamp(quot(clamp(rest - delta.length()) * SOFTNESS_DEN, 2 * SOFTNESS_NUM));
        lemma_null_vector(delta, half);
        assert(spec_correction(a, b, rest) == Vec2::zero());
        assert(b == a);
    } else if rest >= n {
        lemma_short_segment(a, b, rest);
    } else {
        lemma_long_segment(a, b, rest);
    }
}

/// Half of a softened error that is not negative is not negative, is at
/// most five twelfths of the error, and reaches eight raw steps once the
/// error reaches twenty.
proof fn lemma_softened_half(e: int)
    requires
        0 <= e,
    ensures
        0 <= quot(e * SOFTNESS_DEN, 2 * SOFTNESS_NUM) <= e,
        12 * quot(e * SOFTNESS_DEN, 2 * SOFTNESS_NUM) <= 5 * e,
        12 * quot(e * SOFTNESS_DEN, 2 * SOFTNESS_NUM) >= 5 * e - 11,
        e >= 20 ==> quot(e * SOFTNESS_DEN, 2 * SOFTNESS_NUM) >= 8,
{
    assert(e * SOFTNESS_DEN == 5 * e && 2 * SOFTNESS_NUM == 12);
    vstd::arithmetic::div_mod::lemma_fundamental_div_mod(5 * e, 12);
    vstd::arithmetic::div_mod::lemma_mod_bound(5 * e, 12);
    lemma_quot_sign(5 * e, 12);
    if e >= 20 {
        crate::fixed::lemma_quot_lower_bound(5 * e, 12, 8);
    }
}

/// A vector with a norm is not the null vector.
proof fn lemma_not_null(v: Vec2)
    requires
        v.norm() >= 1,
    ensures
        v != Vec2::zero(),
{
    lemma_length_bounds(v);
    if v == Vec2::zero() {
        lemma_null_vector(v, 0);
        crate::fixed::lemma_isqrt_eq(0, 0);
        assert(v.norm_sq() == 0);
    }
}

/// The case of a segment that measures no more than the rest length.
proof fn lemma_short_segment(a: Vec2, b: Vec2, rest: i64)
    requires
        anchored_fits(a, b, rest),
        1 <= b.minus(a).norm() <= rest,
    ensures
        b.minus(a).length() <= corrected_measure(a, b, rest) <= rest,
        rest - b.minus(a).length() >= 20 ==> corrected_measure(a, b, rest) > b.minus(a).length(),
        8 * (rest - corrected_measure(a, b, rest)) <= 5 * (rest - b.minus(a).length()) + 72,
        corrected_measure(a, b, rest) == b.plus(spec_correction(a, b, rest)).minus(a).norm(),
{
    let delta = b.minus(a);
    let n = delta.norm();
    let e = rest - n;
    let h = quot(e * SOFTNESS_DEN, 2 * SOFTNESS_NUM);
    let c = spec_correction(a, b, rest);
    let after = b.plus(c).minus(a);
    let m = after.norm();
    let dx = b.x - a.x;
    let dy = b.y - a.y;
    lemma_length_bounds(delta);
    lemma_length_bounds(after);
    assert(delta.length() == n);
    lemma_softened_half(e);
    assert(c == delta.normalized().scaled(h as i64));
    lemma_push_within_ratio(delta, h as i64);
    assert(after.x == dx + c.x && after.y == dy + c.y);
    let ax = abs_of(dx);
    let ay = abs_of(dy);
    let cx = abs_of(c.x as int);
    let cy = abs_of(c.y as int);
    assert(after.norm_sq() == (ax + cx) * (ax + cx) + (ay + cy) * (ay + cy) && ax * ax + ay * ay
        == delta.norm_sq() && after.norm_sq() >= delta.norm_sq()) by (nonlinear_arith)
        requires
            after.norm_sq() == (dx + c.x) * (dx + c.x) + (dy + c.y) * (dy + c.y),
            delta.norm_sq() == dx * dx + dy * dy,
            (dx == ax && c.x == cx) || (dx == -ax && c.x == -cx),
            (dy == ay && c.y == cy) || (dy == -ay && c.y == -cy),
            0 <= ax,
            0 <= ay,
            0 <= cx,
            0 <= cy,
    ;
    lemma_isqrt_monotonic(delta.norm_sq(), after.norm_sq());
    lemma_spread_bound(ax, ay, cx, cy, n, h, m);
    assert(h * (n + 1) <= n * e) by (nonlinear_arith)
        requires
            12 * h <= 5 * e,
            0 <= h,
            0 <= e,
            1 <= n,
    ;
    assert(m <= n + e) by (nonlinear_arith)
        requires
            n * m < (n + 1) * (n + h),
            h * (n + 1) <= n * e,
            1 <= n,
            0 <= m,
    ;
    if e >= 20 {
        assert(h >= 8);
        lemma_not_null(delta);
        lemma_normalized_reach(delta);
        lemma_scaled_reach(delta.normalized(), h as i64, 4);
        lemma_lead_growth(dx, dy, c.x as int, c.y as int, n);
        lemma_isqrt_above(after.norm_sq(), n);
    }
    if e >= 24 {
        let w = quot(h, SCALE as int) + 2;
        lemma_quot_sign(h, SCALE as int);
        vstd::arithmetic::div_mod::lemma_fundamental_div_mod(h, SCALE as int);
        vstd::arithmetic::div_mod::lemma_mod_bound(h, SCALE as int);
        assert(SCALE * quot(h, SCALE as int) <= h);
        lemma_push_at_least(delta, h as i64);
        lemma_coordinate_sum(ax, ay, n);
        assert(n * (ax + cx) >= ax * (n + h) - n * w && n * (ay + cy) >= ay * (n + h) - n * w)
            by (nonlinear_arith)
            requires
                cx * n >= ax * h - n * w,
                cy * n >= ay * h - n * w,
        ;
        lemma_spread_floor(ax, ay, ax + cx, ay + cy, n, h, w);
        lemma_isqrt_above(after.norm_sq(), n + h - 4 * w - 1);
        assert(m >= n + h - 4 * w);
    }
}

/// The case of a segment that measures more than the rest length.
proof fn lemma_long_segment(a: Vec2, b: Vec2, rest: i64)
    requires
        anchored_fits(a, b, rest),
        rest < b.minus(a).norm(),
    ensures
        rest <= corrected_measure(a, b, rest) <= b.minus(a).length(),
        b.minus(a).length() - rest >= 20 ==> corrected_measure(a, b, rest) < b.minus(a).length(),
        8 * (corrected_measure(a, b, rest) - rest) <= 5 * (b.minus(a).length() - rest) + 72,
        corrected_measure(a, b, rest) == b.plus(spec_correction(a, b, rest)).minus(a).norm(),
        corrected_measure(a, b, rest) >= 1,
{
    let delta = b.minus(a);
    let n = delta.norm();
    let e = n - rest;
    let g = quot(e * SOFTNESS_DEN, 2 * SOFTNESS_NUM);
    let c = spec_correction(a, b, rest);
    let back = delta.normalized().scaled(g as i64);
    let after = b.plus(c).minus(a);
    let m = after.norm();
    let dx = b.x - a.x;
    let dy = b.y - a.y;
    lemma_length_bounds(delta);
    lemma_length_bounds(after);
    assert(delta.length() == n);
    lemma_softened_half(e);
    assert((rest - n) * SOFTNESS_DEN == -(e * SOFTNESS_DEN)) by (nonlinear_arith)
        requires
            e == n - rest,
    ;
    lemma_quot_sign(e * SOFTNESS_DEN, 2 * SOFTNESS_NUM);
    assert(quot((rest - n) * SOFTNESS_DEN, 2 * SOFTNESS_NUM) == -g);
    lemma_scaled_negated(delta.normalized(), g as i64);
    assert(c.x == -back.x && c.y == -back.y);
    lemma_push_within_ratio(delta, g as i64);
    assert(after.x == dx - back.x && after.y == dy - back.y);
    let ax = abs_of(dx);
    let ay = abs_of(dy);
    let ux = abs_of(back.x as int);
    let uy = abs_of(back.y as int);
    assert(ax * ax + ay * ay == delta.norm_sq()) by (nonlinear_arith)
        requires
            delta.norm_sq() == dx * dx + dy * dy,
            dx == ax || dx == -ax,
            dy == ay || dy == -ay,
    ;
    lemma_shrink_bound(ax, ay, ux, uy, n, g);
    assert(after.norm_sq() == (ax - ux) * (ax - ux) + (ay - uy) * (ay - uy) && after.norm_sq()
        <= delta.norm_sq()) by (nonlinear_arith)
        requires
            after.norm_sq() == (dx - back.x) * (dx - back.x) + (dy - back.y) * (dy - back.y),
            delta.norm_sq() == dx * dx + dy * dy,
            (dx == ax && back.x == ux) || (dx == -ax && back.x == -ux),
            (dy == ay && back.y == uy) || (dy == -ay && back.y == -uy),
            0 <= ux <= ax,
            0 <= uy <= ay,
    ;
    lemma_isqrt_monotonic(after.norm_sq(), delta.norm_sq());
    if n - g >= 1 {
        lemma_isqrt_above(after.norm_sq(), n - g - 1);
    }
    assert(m >= n - g);
    if e >= 20 {
        assert(g >= 8);
        lemma_not_null(delta);
        lemma_normalized_reach(delta);
        lemma_scaled_reach(delta.normalized(), g as i64, 4);
        assert(ax * ax == dx * dx && ay * ay == dy * dy) by (nonlinear_arith)
            requires
                dx == ax || dx == -ax,
                dy == ay || dy == -ay,
        ;
        if dx * dx >= dy * dy {
            assert(ay <= ax) by (nonlinear_arith)
                requires
                    ax * ax >= ay * ay,
                    0 <= ax,
                    0 <= ay,
            ;
            lemma_lead_shrink(ax, ay, ux, uy, n);
        } else {
            assert(ax <= ay) by (nonlinear_arith)
                requires
                    ay * ay >= ax * ax,
                    0 <= ax,
                    0 <= ay,
            ;
            lemma_lead_shrink(ay, ax, uy, ux, n);
        }
        lemma_square_order(m, n);
    }
    let w = quot(g, SCALE as int) + 2;
    lemma_quot_sign(g, SCALE as int);
    vstd::arithmetic::div_mod::lemma_fundamental_div_mod(g, SCALE as int);
    vstd::arithmetic::div_mod::lemma_mod_bound(g, SCALE as int);
    assert(SCALE * quot(g, SCALE as int) <= g);
    lemma_push_at_least(delta, g as i64);
    lemma_coordinate_sum(ax, ay, n);
    assert(n * (ax - ux) <= ax * (n - g) + n * w && n * (ay - uy) <= ay * (n - g) + n * w)
        by (nonlinear_arith)
        requires
            ux * n >= ax * g - n * w,
            uy * n >= ay * g - n * w,
    ;
    lemma_shrink_ceiling(ax, ay, ax - ux, ay - uy, n, g, w);
    lemma_square_order(m, n - g + 1 + 2 * w);
    assert(m <= n - g + 2 * w);
}

/// Whether a rope of two joints has room for its one segment to be
/// corrected without saturation, whatever the correction: the anchor lies
/// in the inner half of the world, the rest length is a length of at most
/// half the limit, and the free joint lies off the anchor, no farther from
/// it than half the limit.
pub open spec fn two_joint_room(v: RopeView) -> bool {
    &&& v.wf()
    &&& v.points.len() == 2
    &&& 0 <= v.segment_length <= LIMIT / 2
    &&& -(LIMIT / 2) <= v.points[0].x <= LIMIT / 2
    &&& -(LIMIT / 2) <= v.points[0].y <= LIMIT / 2
    &&& 1 <= v.points[1].minus(v.points[0]).norm() <= LIMIT / 2
}

/// The bound that `k` passes put on an error that began as `g`: each pass
/// takes it to five eighths of itself plus nine.
pub open spec fn decay(g: int, k: nat) -> int
    decreases k,
{
    if k == 0 {
        g
    } else {
        (5 * decay(g, (k - 1) as nat) + 72) / 8
    }
}

/// With room, the correction of the anchored segment saturates nowhere.
proof fn lemma_room_fits(a: Vec2, b: Vec2, rest: i64)
    requires
        a.in_world(),
        b.in_world(),
        0 <= rest <= LIMIT / 2,
        -(LIMIT / 2) <= a.x <= LIMIT / 2,
        -(LIMIT / 2) <= a.y <= LIMIT / 2,
        1 <= b.minus(a).norm() <= LIMIT / 2,
    ensures
        anchored_fits(a, b, rest),
        b != a,
{
    let delta = b.minus(a);
    let n = delta.norm();
    lemma_length_bounds(delta);
    lemma_not_null(delta);
    assert(abs_of(delta.x as int) <= n && abs_of(delta.y as int) <= n) by (nonlinear_arith)
        requires
            delta.x * delta.x + delta.y * delta.y < (n + 1) * (n + 1),
            0 <= n,
    ;
    assert(delta.x == b.x - a.x && delta.y == b.y - a.y);
    let c = spec_correction(a, b, rest);
    let ax = abs_of(delta.x as int);
    let ay = abs_of(delta.y as int);
    if rest >= n {
        let e = rest - n;
        let h = quot(e * SOFTNESS_DEN, 2 * SOFTNESS_NUM);
        lemma_softened_half(e);
        assert(c == delta.normalized().scaled(h as i64));
        lemma_push_within_ratio(delta, h as i64);
        assert(abs_of(c.x as int) <= h && abs_of(c.y as int) <= h) by (nonlinear_arith)
            requires
                abs_of(c.x as int) * n <= ax * h,
                abs_of(c.y as int) * n <= ay * h,
                0 <= ax <= n,
                0 <= ay <= n,
                1 <= n,
                0 <= h,
        ;
    } else {
        let e = n - rest;
        let g = quot(e * SOFTNESS_DEN, 2 * SOFTNESS_NUM);
        lemma_softened_half(e);
        assert((rest - n) * SOFTNESS_DEN == -(e * SOFTNESS_DEN)) by (nonlinear_arith)
            requires
                e == n - rest,
        ;
        lemma_quot_sign(e * SOFTNESS_DEN, 2 * SOFTNESS_NUM);
        lemma_scaled_negated(delta.normalized(), g as i64);
        let back = delta.normalized().scaled(g as i64);
        assert(c.x == -back.x && c.y == -back.y);
        lemma_push_within_ratio(delta, g as i64);
        assert(abs_of(back.x as int) <= g && abs_of(back.y as int) <= g) by (nonlinear_arith)
            requires
                abs_of(back.x as int) * n <= ax * g,
                abs_of(back.y as int) * n <= ay * g,
                0 <= ax <= n,
                0 <= ay <= n,
                1 <= n,
                0 <= g,
        ;
    }
}

/// Passes add up: `j` passes after `i` passes are `i + j` passes.
pub proof fn lemma_relax_adds(v: RopeView, i: nat, j: nat)
    ensures
        v.relax(i).relax(j) == v.relax(i + j),
    decreases j,
{
    if j > 0 {
        lemma_relax_adds(v, i, (j - 1) as nat);
    }
}

/// Rest-length convergence on a rope of two joints with room. However many
/// passes run, the anchor stays, and the distance of the segment's measured
/// length from the rest length is bounded by `decay`: every pass takes it to
/// five eighths of what it was, plus nine raw steps at most.
pub proof fn lemma_two_joint_relax(v: RopeView, k: nat)
    requires
        two_joint_room(v),
    ensures
        two_joint_room(v.relax(k)),
        v.relax(k).points[0] == v.points[0],
        v.relax(k).segment_length == v.segment_length,
        gap(v.segment_length, v.relax(k).segment_measure(0)) <= decay(
            gap(v.segment_length, v.segment_measure(0)),
            k,
        ),
    decreases k,
{
    if k > 0 {
        lemma_two_joint_relax(v, (k - 1) as nat);
        let u = v.relax((k - 1) as nat);
        let a = u.points[0];
        let b = u.points[1];
        let rest = u.segment_length;
        lemma_room_fits(a, b, rest);
        lemma_anchored_correction(a, b, rest);
        lemma_constrain_keeps_frame(u, 1);
        assert(u.constrain_pass() == u.constrain_upto(0).constrain_segment(0));
        let w = u.constrain_pass();
        assert(w.points[1] == b.plus(spec_correction(a, b, rest)));
        assert(w.segment_measure(0) == corrected_measure(a, b, rest));
        lemma_length_bounds(b.minus(a));
        lemma_length_bounds(w.points[1].minus(w.points[0]));
        if rest >= b.minus(a).norm() {
            lemma_short_segment(a, b, rest);
        } else {
            lemma_long_segment(a, b, rest);
        }
    }
}

/// Fifteen passes, which are five constraint steps, leave of an error no
/// more than its 1024th part and twenty-five raw steps.
pub proof fn lemma_decay_fifteen(g: int)
    requires
        0 <= g,
    ensures
        decay(g, 15) <= g / 1024 + 25,
{
    lemma_decay_three(g, 0);
    lemma_decay_three(g, 3);
    lemma_decay_three(g, 6);
    lemma_decay_three(g, 9);
    lemma_decay_three(g, 12);
}

/// Three passes leave of a bound no more than a quarter and nineteen.
proof fn lemma_decay_three(g: int, k: nat)
    requires
        0 <= g,
    ensures
        0 <= decay(g, k),
        decay(g, k + 3) <= decay(g, k) / 4 + 19,
        4 * decay(g, k + 3) <= decay(g, k) + 73,
    decreases k,
{
    reveal_with_fuel(decay, 4);
    if k > 0 {
        lemma_decay_three(g, (k - 1) as nat);
    }
}

/// Rest-length convergence on a rope of two joints with room: five
/// constraint steps, or fifteen passes run in any other way, bring the
/// segment within two hundredths of its rest length, provided the rest
/// length is 4096 raw steps or more and the segment began no farther from
/// it than ten times the rest length.
pub proof fn lemma_two_joint_convergence(v: RopeView)
    requires
        two_joint_room(v),
        v.segment_length >= 4096,
        gap(v.segment_length, v.segment_measure(0)) <= 10 * v.segment_length,
    ensures
        v.relax(15).points[0] == v.points[0],
        50 * gap(v.segment_length, v.relax(15).segment_measure(0)) <= v.segment_length,
        v.constrain_points().constrain_points().constrain_points().constrain_points()
            .constrain_points() == v.relax(15),
{
    lemma_two_joint_relax(v, 15);
    lemma_decay_fifteen(gap(v.segment_length, v.segment_measure(0)));
    lemma_relax_adds(v, 3, 3);
    lemma_relax_adds(v, 6, 3);
    lemma_relax_adds(v, 9, 3);
    lemma_relax_adds(v, 12, 3);
}

/// On a rope of two joints a pass corrects the one segment at the anchor:
/// the anchor stays, and the measured length of the segment moves toward the
/// rest length without passing it, strictly as long as it is twenty raw
/// steps or more away and the free joint does not sit on the anchor.
pub proof fn lemma_two_joint_pass(v: RopeView)
    requires
        v.wf(),
        v.points.len() == 2,
        anchored_fits(v.points[0], v.points[1], v.segment_length),
    ensures
        v.constrain_pass().points[0] == v.points[0],
        v.constrain_pass().segment_measure(0) == corrected_measure(
            v.points[0],
            v.points[1],
            v.segment_length,
        ),
        gap(v.segment_length, v.constrain_pass().segment_measure(0)) <= gap(
            v.segment_length,
            v.segment_measure(0),
        ),
        v.points[1] != v.points[0] && gap(v.segment_length, v.segment_measure(0)) >= 20 ==> gap(
            v.segment_length,
            v.constrain_pass().segment_measure(0),
        ) < gap(v.segment_length, v.segment_measure(0)),
{
    lemma_anchored_correction(v.points[0], v.points[1], v.segment_length);
    assert(v.constrain_pass() == v.constrain_upto(0).constrain_segment(0));
}

/// Dividing one length among more segments gives no longer segments, and
/// strictly shorter ones unless the length is tiny.
pub proof fn lemma_more_segments_are_shorter(length: int, segments: int)
    requires
        0 <= length,
        1 <= segments,
    ensures
        quot(length, segments + 1) <= quot(length, segments),
        length >= segments * segments ==> quot(length, segments + 1) < quot(length, segments),
        length >= segments + 1 ==> quot(length, segments + 1) >= 1,
{
    if length >= segments + 1 {
        crate::fixed::lemma_quot_lower_bound(length, segments + 1, 1);
    }
    let q = length / segments;
    let r = length % segments;
    let p = length / (segments + 1);
    vstd::arithmetic::div_mod::lemma_div_is_ordered_by_denominator(length, segments, segments + 1);
    vstd::arithmetic::div_mod::lemma_fundamental_div_mod(length, segments);
    vstd::arithmetic::div_mod::lemma_fundamental_div_mod(length, segments + 1);
    if length >= segments * segments {
        assert(q >= segments) by (nonlinear_arith)
            requires
                length == segments * q + r,
                0 <= r < segments,
                length >= segments * segments,
                segments >= 1,
        ;
        assert(p < q) by (nonlinear_arith)
            requires
                length == segments * q + r,
                0 <= r < segments,
                q >= segments,
                length == (segments + 1) * p + length % (segments + 1),
                0 <= length % (segments + 1),
                segments >= 1,
        ;
    }
}

/// One joint more over the same distance: a chain of `count + 1` joints from
/// `start` to `end` has a rest length that is positive and strictly below
/// that of a chain of `count` joints, as soon as the distance in raw steps
/// reaches both `count + 1` and the square of `count - 1`. Below that the
/// quotients, which are rounded toward zero, can coincide or vanish.
pub proof fn lemma_one_more_joint(start: Vec2, end: Vec2, count: nat)
    requires
        count >= 2,
        end.minus(start).length() >= count + 1,
        end.minus(start).length() >= (count - 1) * (count - 1),
    ensures
        0 < rest_length(start, end, count + 1) < rest_length(start, end, count),
{
    let length = end.minus(start).length();
    lemma_length_bounds(end.minus(start));
    lemma_more_segments_are_shorter(length as int, count - 1);
    crate::fixed::lemma_quot_sign(length as int, count - 1);
    crate::fixed::lemma_quot_sign(length as int, count as int);
}

/// Growth by one joint: the grown rope has one joint more, and its rest
/// length is the distance from the anchor to the new end divided among its
/// segments. Where that distance is the one the rope's rest length was
/// taken from, the rest length does not increase, and it strictly decreases
/// as soon as the distance, in raw steps, reaches the square of the number
/// of segments the rope had.
pub proof fn lemma_grow_by_one(v: RopeView, end: Vec2)
    requires
        v.wf(),
    ensures
        v.grown(v.points.len() + 1, end).wf(),
        v.grown(v.points.len() + 1, end).points.len() == v.points.len() + 1,
        v.grown(v.points.len() + 1, end).segment_length == rest_length(
            v.points[0],
            end,
            v.points.len() + 1,
        ),
        v.segment_length == rest_length(v.points[0], end, v.points.len()) ==> v.grown(
            v.points.len() + 1,
            end,
        ).segment_length <= v.segment_length,
        v.segment_length == rest_length(v.points[0], end, v.points.len()) && end.minus(
            v.points[0],
        ).length() >= (v.points.len() - 1) * (v.points.len() - 1) ==> v.grown(
            v.points.len() + 1,
            end,
        ).segment_length < v.segment_length,
{
    let n = v.points.len();
    let length = end.minus(v.points[0]).length();
    lemma_laid_out_wf(v.points[0], end, n + 1, v.thickness, v.gravity);
    lemma_length_bounds(end.minus(v.points[0]));
    lemma_more_segments_are_shorter(length as int, n - 1);
    vstd::arithmetic::div_mod::lemma_div_is_ordered_by_denominator(length as int, 1, n - 1);
    vstd::arithmetic::div_mod::lemma_div_is_ordered_by_denominator(length as int, 1, n as int);
    vstd::arithmetic::div_mod::lemma_div_pos_is_pos(length as int, n - 1);
    vstd::arithmetic::div_mod::lemma_div_pos_is_pos(length as int, n as int);
}

/// Half of the softened correction for the segment from `a` to `b`.
fn correction(a: Vec2, b: Vec2, rest: i64) -> (c: Vec2)
    ensures
        c == spec_correction(a, b, rest),
{
    let delta = b.minus(a);
    let difference = fx_sub(rest, delta.length());
    let softened = (difference as i128) * (SOFTNESS_DEN as i128);
    let half = saturate(softened / (2 * (SOFTNESS_NUM as i128)));
    delta.normalized().scaled(half)
}

/// Scalar product of a rest length with a joint index, saturated.
fn along(segment_length: i64, i: usize) -> (r: i64)
    ensures
        r == clamp(segment_length * i),
{
    assert(-0x8000_0000_0000_0000 * 0xffff_ffff_ffff_ffff <= (segment_length as int) * (i as int)
        <= 0x8000_0000_0000_0000 * 0xffff_ffff_ffff_ffff) by (nonlinear_arith)
        requires
            -0x8000_0000_0000_0000 <= segment_length <= 0x8000_0000_0000_0000,
            0 <= i <= 0xffff_ffff_ffff_ffff,
    ;
    saturate((segment_length as i128) * (i as i128))
}

/// Lays out the joints of a chain and returns them with the rest length.
fn lay_out(start: Vec2, end: Vec2, count: usize) -> (r: (Vec<Vec2>, i64))
    requires
        count >= 2,
    ensures
        r.0@ == even_chain(start, end, count as nat),
        r.1 == rest_length(start, end, count as nat),
{
    let delta = end.minus(start);
    let segment_length = fx_div_int(delta.length(), (count - 1) as u64);
    let direction = delta.normalized();
    let mut points: Vec<Vec2> = Vec::new();
    let mut i: usize = 0;
    while i < count
        invariant
            i <= count,
            count >= 2,
            segment_length == rest_length(start, end, count as nat),
            direction == end.minus(start).normalized(),
            points@.len() == i,
            forall|j: int| 0 <= j < i ==> points@[j] == chain_point(start, end, count as nat, j),
        decreases count - i,
    {
        points.push(start.plus(direction.scaled(along(segment_length, i))));
        i += 1;
    }
    assert(points@ =~= even_chain(start, end, count as nat));
    (points, segment_length)
}

impl View for Rope {
    type V = RopeView;

    /// The rope, field by field.
    closed spec fn view(&self) -> RopeView {
        RopeView {
            points: self.points@,
            prev_points: self.prev_points@,
            segment_length: self.segment_length,
            thickness: self.thickness,
            gravity: self.gravity,
        }
    }
}

impl Rope {
    /// Validity of the rope: that of its view.
    pub open spec fn wf(&self) -> bool {
        self@.wf()
    }

    /// A rope of `count` joints at rest, laid out evenly from `start` toward
    /// `end`, with the default thickness and no gravity. Fewer than two
    /// joints are refused.
    pub fn new(start: Vec2, end: Vec2, count: usize) -> (r: Result<Rope, RopeError>)
        ensures
            count < 2 <==> r is Err,
            r matches Err(e) ==> e == RopeError::TooFewJoints,
            r matches Ok(rope) ==> rope.wf() && rope@ == RopeView::laid_out(
                start,
                end,
                count as nat,
                DEFAULT_THICKNESS,
                Vec2::zero(),
            ),
    {
        if count < 2 {
            return Err(RopeError::TooFewJoints);
        }
        let (points, segment_length) = lay_out(start, end, count);
        let prev_points = points.clone();
        proof {
            lemma_laid_out_wf(start, end, count as nat, DEFAULT_THICKNESS, Vec2::zero());
            assert(prev_points@ =~= points@);
        }
        Ok(
            Rope {
                points,
                prev_points,
                segment_length,
                thickness: DEFAULT_THICKNESS,
                gravity: Vec2::zero(),
            },
        )
    }

    /// The joints, anchor first.
    pub fn points(&self) -> (r: &Vec<Vec2>)
        ensures
            r@ == self@.points,
    {
        &self.points
    }

    /// The position each joint had one integration step ago.
    pub fn prev_points(&self) -> (r: &Vec<Vec2>)
        ensures
            r@ == self@.prev_points,
    {
        &self.prev_points
    }

    /// Number of joints.
    pub fn len(&self) -> (n: usize)
        ensures
            n == self@.points.len(),
    {
        self.points.len()
    }

    /// The distance two neighbouring joints tend to.
    pub fn segment_length(&self) -> (r: i64)
        ensures
            r == self@.segment_length,
    {
        self.segment_length
    }

    /// Visual thickness.
    pub fn thickness(&self) -> (r: i64)
        ensures
            r == self@.thickness,
    {
        self.thickness
    }

    /// Radius of the disc that shows joint `i`. The two ends of the rope
    /// are shown larger.
    pub fn joint_radius(&self, i: usize) -> (r: i64)
        requires
            i < self@.points.len(),
        ensures
            r == self@.joint_radius(i as int),
    {
        if i == 0 || i == self.points.len() - 1 {
            fx_add(self.thickness, self.thickness)
        } else {
            self.thickness
        }
    }

    /// Where the free end would lie if the rope ran straight from the
    /// anchor toward its free end with `segments` segments of rest length.
    pub fn straight_end(&self, segments: usize) -> (r: Vec2)
        requires
            self.wf(),
        ensures
            r == self@.straight_end(segments as nat),
    {
        let anchor = self.points[0];
        let end = self.points[self.points.len() - 1];
        let direction = end.minus(anchor).normalized();
        anchor.plus(direction.scaled(along(self.segment_length, segments)))
    }

    /// Displacement added to each free joint at every integration step.
    pub fn gravity(&self) -> (r: Vec2)
        ensures
            r == self@.gravity,
    {
        self.gravity
    }

    /// Sets the displacement that every integration step adds to each free
    /// joint, saturated to the world. The null vector switches gravity off.
    pub fn set_gravity(&mut self, gravity: Vec2)
        ensures
            final(self)@ == (RopeView { gravity: gravity.clamped(), ..old(self)@ }),
    {
        self.gravity = gravity.clamped();
    }

    /// Sets the visual thickness.
    pub fn set_thickness(&mut self, thickness: i64)
        ensures
            final(self)@ == (RopeView { thickness, ..old(self)@ }),
    {
        self.thickness = thickness;
    }

    /// Puts joint `i` at `position`, saturated to the world, and leaves its
    /// previous position alone: the joint gains the velocity of the move.
    pub fn set_point(&mut self, i: usize, position: Vec2)
        requires
            old(self).wf(),
            i < old(self)@.points.len(),
        ensures
            final(self).wf(),
            final(self)@ == (RopeView {
                points: old(self)@.points.update(i as int, position.clamped()),
                ..old(self)@
            }),
    {
        self.points.set(i, position.clamped());
    }

    /// Advances every joint but the anchor by one Verlet step: each keeps
    /// the displacement of its last step, gains the gravity term, and
    /// remembers where it was.
    pub fn integrate(&mut self)
        requires
            old(self).wf(),
        ensures
            final(self)@ == old(self)@.integrate(),
            final(self)@.keeps_frame(old(self)@),
    {
        let ghost before = self@;
        let n = self.points.len();
        let mut i: usize = 1;
        while i < n
            invariant
                before.wf(),
                n == before.points.len(),
                1 <= i <= n,
                self.points@.len() == n,
                self.prev_points@.len() == n,
                self.segment_length == before.segment_length,
                self.thickness == before.thickness,
                self.gravity == before.gravity,
                forall|j: int|
                    0 <= j < i ==> self.points@[j] == before.integrate().points[j]
                        && self.prev_points@[j] == before.integrate().prev_points[j],
                forall|j: int|
                    i <= j < n ==> self.points@[j] == before.points[j] && self.prev_points@[j]
                        == before.prev_points[j],
            decreases n - i,
        {
            let current = self.points[i];
            let previous = self.prev_points[i];
            let next = current.plus(current.minus(previous)).plus(self.gravity);
            self.prev_points.set(i, current);
            self.points.set(i, next);
            i += 1;
        }
        proof {
            assert(self@.points =~= before.integrate().points);
            assert(self@.prev_points =~= before.integrate().prev_points);
            lemma_integrate_keeps_frame(before);
        }
    }

    /// One pass of corrections over every segment, from the anchor outward.
    /// Each segment is corrected on the positions that the corrections
    /// before it left. The anchor is never moved.
    pub fn constrain_pass(&mut self)
        requires
            old(self).wf(),
        ensures
            final(self)@ == old(self)@.constrain_pass(),
            final(self)@.keeps_frame(old(self)@),
    {
        let ghost before = self@;
        let n = self.points.len();
        let mut i: usize = 0;
        while i < n - 1
            invariant
                before.wf(),
                n == before.points.len(),
                i <= n - 1,
                self@ == before.constrain_upto(i as nat),
                self@.keeps_frame(before),
            decreases n - i,
        {
            let a = self.points[i];
            let b = self.points[i + 1];
            let c = correction(a, b, self.segment_length);
            if i != 0 {
                self.points.set(i, a.minus(c));
            }
            self.points.set(i + 1, b.plus(c));
            i += 1;
            proof {
                assert(self@.points =~= before.constrain_upto(i as nat).points);
                lemma_constrain_keeps_frame(before, i as nat);
            }
        }
    }

    /// `iterations` passes of corrections. More passes make the rope
    /// stiffer; none makes it exactly rigid.
    pub fn relax(&mut self, iterations: u32)
        requires
            old(self).wf(),
        ensures
            final(self)@ == old(self)@.relax(iterations as nat),
            final(self)@.keeps_frame(old(self)@),
    {
        let ghost before = self@;
        let mut k: u32 = 0;
        while k < iterations
            invariant
                before.wf(),
                k <= iterations,
                self@ == before.relax(k as nat),
                self@.keeps_frame(before),
            decreases iterations - k,
        {
            self.constrain_pass();
            k += 1;
            proof {
                lemma_relax_keeps_frame(before, k as nat);
            }
        }
    }

    /// The constraint step: `CONSTRAIN_PASSES` passes of corrections over
    /// every segment. The anchor is never moved.
    pub fn constrain_points(&mut self)
        requires
            old(self).wf(),
        ensures
            final(self)@ == old(self)@.constrain_points(),
            final(self)@ == old(self)@.relax(CONSTRAIN_PASSES as nat),
            final(self)@.keeps_frame(old(self)@),
    {
        self.relax(CONSTRAIN_PASSES);
    }

    /// One cycle: a Verlet step, then `iterations` passes of corrections.
    pub fn update_rope(&mut self, iterations: u32)
        requires
            old(self).wf(),
        ensures
            final(self)@ == old(self)@.update_rope(iterations as nat),
            final(self)@.keeps_frame(old(self)@),
    {
        self.integrate();
        self.relax(iterations);
    }

    /// Runs `substeps` cycles of integration and relaxation. Splitting a
    /// frame into several cycles keeps the rope from overshooting its rest
    /// length when it moves fast.
    pub fn update(&mut self, substeps: u32, iterations: u32)
        requires
            old(self).wf(),
        ensures
            final(self)@ == old(self)@.update(substeps as nat, iterations as nat),
            final(self)@.keeps_frame(old(self)@),
    {
        let ghost before = self@;
        let mut k: u32 = 0;
        while k < substeps
            invariant
                before.wf(),
                k <= substeps,
                self@ == before.update(k as nat, iterations as nat),
                self@.keeps_frame(before),
            decreases substeps - k,
        {
            self.update_rope(iterations);
            k += 1;
        }
    }

    /// The middle of every segment, from the anchor outward, computed
    /// afresh from the joints as they are now.
    pub fn get_segment_midpoints(&self) -> (r: Vec<Vec2>)
        requires
            self.wf(),
        ensures
            r@ == self@.midpoints(),
    {
        let n = self.points.len();
        let mut midpoints: Vec<Vec2> = Vec::new();
        let mut i: usize = 0;
        while i < n - 1
            invariant
                n == self.points@.len(),
                n >= 2,
                i <= n - 1,
                midpoints@.len() == i,
                forall|j: int| 0 <= j < i ==> midpoints@[j] == self@.midpoints()[j],
            decreases n - i,
        {
            midpoints.push(self.points[i].midpoint(self.points[i + 1]));
            i += 1;
        }
        assert(midpoints@ =~= self@.midpoints());
        midpoints
    }

    /// Rebuilds the rope with `new_count` joints, laid out evenly from the
    /// anchor toward `new_end`, with the rest length that this distance
    /// and count give. The rebuild puts every joint at rest, so the momentum
    /// the rope had is lost: growth shows as a snap. Fewer than two joints
    /// are refused, and the rope is then left as it was.
    pub fn grow(&mut self, new_count: usize, new_end: Vec2) -> (r: Result<(), RopeError>)
        requires
            old(self).wf(),
        ensures
            final(self).wf(),
            new_count < 2 <==> r is Err,
            r matches Err(e) ==> e == RopeError::TooFewJoints && final(self)@ == old(self)@,
            r is Ok ==> final(self)@ == old(self)@.grown(new_count as nat, new_end)
                && final(self)@.points.len() == new_count,
    {
        if new_count < 2 {
            return Err(RopeError::TooFewJoints);
        }
        let anchor = self.points[0];
        let (points, segment_length) = lay_out(anchor, new_end, new_count);
        let prev_points = points.clone();
        proof {
            lemma_laid_out_wf(anchor, new_end, new_count as nat, self.thickness, self.gravity);
            assert(prev_points@ =~= points@);
        }
        self.points = points;
        self.prev_points = prev_points;
        self.segment_length = segment_length;
        Ok(())
    }
}

} // verus!
