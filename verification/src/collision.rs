//! Collisions of the enemies with the rope and with each other.
//!
//! Overlaps are resolved in a fixed order: each enemy in turn against every
//! joint and then against the middle of every segment, and after that every
//! pair of enemies. Each correction works on the positions that the
//! corrections before it left. Corrections are dampers: resolution runs once
//! per substep, so each moves a body by the overlap divided by the number of
//! substeps, halved.
//!
//! What an overlap of an enemy with a joint does is a policy chosen by the
//! caller: the two push each other apart, or the overlap is reported as a
//! hit and nothing moves. A joint counts as touched when the enemy's centre is
//! closer than its radius to the joint moved right by the rope's thickness;
//! the push itself separates the enemy from the joint proper.

use crate::enemy::{kept_in_world, Enemy};
use crate::fixed::{
    abs_of, clamp, fx_add, fx_div_int, fx_sub, in_range, lemma_isqrt_above,
    lemma_quot_lower_bound, lemma_quot_sign, quot,
};
use crate::geometry::{
    dist_sq, lemma_distance_monotonic, lemma_lead_growth, lemma_length_bounds,
    lemma_normalized_reach, lemma_normalized_sign, lemma_null_vector, lemma_push_within_ratio,
    lemma_scaled_not_null, lemma_scaled_sign, lemma_spread, lemma_spread_bound, points_along,
    Vec2,
};
use crate::rope::{Rope, RopeView};
use vstd::prelude::*;

verus! {

/// What an overlap of an enemy with a joint of the rope does.
#[derive(Clone, Copy, Debug, PartialEq, Eq, Structural)]
pub enum CollisionPolicy {
    /// The enemy and the joint push each other apart.
    SoftPush,
    /// The overlap is a hit, which ends the game; nothing is moved.
    Hazard,
}

/// State while one enemy meets the joints of the rope.
pub struct JointContact {
    pub enemy: Enemy,
    pub joints: Seq<Vec2>,
    pub hit: bool,
}

/// State while the enemies meet the rope, one after the other.
pub struct RopeContact {
    pub enemies: Seq<Enemy>,
    pub joints: Seq<Vec2>,
    pub hit: bool,
}

/// Outcome of one round of collision resolution.
pub struct Resolution {
    pub rope: RopeView,
    pub enemies: Seq<Enemy>,
    pub hit: bool,
}

/// Length of the push that answers an overlap: the overlap `reach -
/// distance`, divided by the number of substeps, halved.
pub open spec fn push_length(reach: i64, distance: i64, substeps: u32) -> i64 {
    clamp(quot(clamp(quot(clamp(reach - distance) as int, substeps as int)) as int, 2))
}

/// The distance that decides whether `e` touches `joint`: from the centre of
/// `e` to the joint moved right by the rope's thickness.
pub open spec fn joint_distance(e: Enemy, joint: Vec2, thickness: i64) -> i64 {
    e.position.distance(joint.plus(Vec2 { x: thickness, y: 0 }))
}

/// Whether `e` touches `joint`.
pub open spec fn joint_contact(e: Enemy, joint: Vec2, thickness: i64) -> bool {
    joint_distance(e, joint, thickness) < e.radius
}

/// The displacement that pushes `e` away from a joint it touches. The joint
/// moves by the opposite. Null where the enemy sits on the joint.
pub open spec fn joint_push(e: Enemy, joint: Vec2, thickness: i64, substeps: u32) -> Vec2 {
    e.position.minus(joint).normalized().scaled(
        push_length(e.radius, joint_distance(e, joint, thickness), substeps),
    )
}

/// `e` moved by `by`.
pub open spec fn pushed(e: Enemy, by: Vec2) -> Enemy {
    Enemy { position: e.position.plus(by), ..e }
}

/// `e` moved against `by`.
pub open spec fn pulled(e: Enemy, by: Vec2) -> Enemy {
    Enemy { position: e.position.minus(by), ..e }
}

/// One enemy against the first `k` joints, in order.
pub open spec fn collide_joints(
    e: Enemy,
    joints: Seq<Vec2>,
    thickness: i64,
    substeps: u32,
    policy: CollisionPolicy,
    k: nat,
) -> JointContact
    decreases k,
{
    if k == 0 {
        JointContact { enemy: e, joints, hit: false }
    } else {
        let before = collide_joints(e, joints, thickness, substeps, policy, (k - 1) as nat);
        let joint = before.joints[k - 1];
        if joint_contact(before.enemy, joint, thickness) {
            match policy {
                CollisionPolicy::SoftPush => {
                    let by = joint_push(before.enemy, joint, thickness, substeps);
                    JointContact {
                        enemy: pushed(before.enemy, by),
                        joints: before.joints.update(k - 1, joint.minus(by)),
                        hit: before.hit,
                    }
                },
                CollisionPolicy::Hazard => JointContact { hit: true, ..before },
            }
        } else {
            before
        }
    }
}

/// How close the centre of an enemy of radius `radius` may come to the
/// middle of a segment: its radius plus half the rest length.
pub open spec fn midpoint_reach(radius: i64, segment_length: i64) -> i64 {
    clamp(radius + clamp(quot(segment_length as int, 2)))
}

/// Whether `e` is too close to the middle of a segment.
pub open spec fn midpoint_contact(e: Enemy, midpoint: Vec2, segment_length: i64) -> bool {
    e.position.distance(midpoint) < midpoint_reach(e.radius, segment_length)
}

/// The displacement that pushes `e` away from the middle of a segment that
/// it is too close to. Middles are derived from the joints and do not move.
pub open spec fn midpoint_push(
    e: Enemy,
    midpoint: Vec2,
    segment_length: i64,
    substeps: u32,
) -> Vec2 {
    e.position.minus(midpoint).normalized().scaled(
        push_length(
            midpoint_reach(e.radius, segment_length),
            e.position.distance(midpoint),
            substeps,
        ),
    )
}

/// One enemy against the first `k` segment middles, in order.
pub open spec fn collide_midpoints(
    e: Enemy,
    midpoints: Seq<Vec2>,
    segment_length: i64,
    substeps: u32,
    k: nat,
) -> Enemy
    decreases k,
{
    if k == 0 {
        e
    } else {
        let before = collide_midpoints(e, midpoints, segment_length, substeps, (k - 1) as nat);
        let midpoint = midpoints[k - 1];
        if midpoint_contact(before, midpoint, segment_length) {
            pushed(before, midpoint_push(before, midpoint, segment_length, substeps))
        } else {
            before
        }
    }
}

/// The first `n` enemies against the rope: each meets every joint, then
/// every segment middle. The middles are those of the rope before the round.
pub open spec fn collide_rope(
    enemies: Seq<Enemy>,
    joints: Seq<Vec2>,
    midpoints: Seq<Vec2>,
    thickness: i64,
    segment_length: i64,
    substeps: u32,
    policy: CollisionPolicy,
    n: nat,
) -> RopeContact
    decreases n,
{
    if n == 0 {
        RopeContact { enemies, joints, hit: false }
    } else {
        let before = collide_rope(
            enemies,
            joints,
            midpoints,
            thickness,
            segment_length,
            substeps,
            policy,
            (n - 1) as nat,
        );
        let met = collide_joints(
            before.enemies[n - 1],
            before.joints,
            thickness,
            substeps,
            policy,
            before.joints.len(),
        );
        let enemy = collide_midpoints(
            met.enemy,
            midpoints,
            segment_length,
            substeps,
            midpoints.len(),
        );
        RopeContact {
            enemies: before.enemies.update(n - 1, enemy),
            joints: met.joints,
            hit: before.hit || met.hit,
        }
    }
}

/// How close the centres of two enemies may come: the sum of their radii.
pub open spec fn pair_reach(a: Enemy, b: Enemy) -> i64 {
    clamp(a.radius + b.radius)
}

/// Whether two enemies overlap.
pub open spec fn pair_contact(a: Enemy, b: Enemy) -> bool {
    a.position.distance(b.position) < pair_reach(a, b)
}

/// The displacement that pushes `a` away from `b`. `b` moves by the
/// opposite. Null where the two centres coincide.
pub open spec fn pair_push(a: Enemy, b: Enemy, substeps: u32) -> Vec2 {
    a.position.minus(b.position).normalized().scaled(
        push_length(pair_reach(a, b), a.position.distance(b.position), substeps),
    )
}

/// Enemies `i` and `j` pushed apart if they overlap.
pub open spec fn separate_pair(enemies: Seq<Enemy>, i: int, j: int, substeps: u32) -> Seq<Enemy> {
    let a = enemies[i];
    let b = enemies[j];
    if pair_contact(a, b) {
        let by = pair_push(a, b, substeps);
        enemies.update(i, pushed(a, by)).update(j, pulled(b, by))
    } else {
        enemies
    }
}

/// Enemy `i` against each later enemy before index `upto`, in order.
pub open spec fn separate_row(enemies: Seq<Enemy>, i: int, upto: int, substeps: u32) -> Seq<Enemy>
    decreases upto - i,
{
    if upto <= i + 1 {
        enemies
    } else {
        separate_pair(separate_row(enemies, i, upto - 1, substeps), i, upto - 1, substeps)
    }
}

/// Each of the first `n` enemies against all later ones.
pub open spec fn separate_rows(enemies: Seq<Enemy>, n: nat, substeps: u32) -> Seq<Enemy>
    decreases n,
{
    if n == 0 {
        enemies
    } else {
        let before = separate_rows(enemies, (n - 1) as nat, substeps);
        separate_row(before, n - 1, before.len() as int, substeps)
    }
}

/// One round of collision resolution.
pub open spec fn resolve(
    rope: RopeView,
    enemies: Seq<Enemy>,
    substeps: u32,
    policy: CollisionPolicy,
) -> Resolution {
    let met = collide_rope(
        enemies,
        rope.points,
        rope.midpoints(),
        rope.thickness,
        rope.segment_length,
        substeps,
        policy,
        enemies.len(),
    );
    Resolution {
        rope: RopeView { points: met.joints, ..rope },
        enemies: separate_rows(met.enemies, met.enemies.len(), substeps),
        hit: met.hit,
    }
}

/// The push that answers an overlap is never negative, and it is at least
/// two raw steps once the overlap reaches four raw steps per substep.
pub proof fn lemma_push_length_bounds(reach: i64, distance: i64, substeps: u32)
    requires
        substeps > 0,
        distance < reach,
    ensures
        push_length(reach, distance, substeps) >= 0,
        reach - distance >= 4 * substeps ==> push_length(reach, distance, substeps) >= 2,
{
    let overlap = clamp(reach - distance);
    lemma_quot_sign(overlap as int, substeps as int);
    let share = clamp(quot(overlap as int, substeps as int));
    lemma_quot_sign(share as int, 2);
    if reach - distance >= 4 * substeps {
        lemma_quot_lower_bound(overlap as int, substeps as int, 4);
        lemma_quot_lower_bound(share as int, 2, 2);
    }
}

/// Collision symmetry. Where enemies `i` and `j` overlap and neither is
/// pushed against the wall of the world, resolving the pair moves `i` by the
/// push and `j` by its exact negation. The push points along the separation
/// of the two, so their exact squared distance does not decrease, and
/// strictly increases unless the push is null; the distance they measure
/// from each other does not decrease either.
pub proof fn lemma_pair_push_symmetric(enemies: Seq<Enemy>, i: int, j: int, substeps: u32)
    requires
        0 <= i < j < enemies.len(),
        substeps > 0,
        pair_contact(enemies[i], enemies[j]),
        in_range(enemies[i].position.x + pair_push(enemies[i], enemies[j], substeps).x),
        in_range(enemies[i].position.y + pair_push(enemies[i], enemies[j], substeps).y),
        in_range(enemies[j].position.x - pair_push(enemies[i], enemies[j], substeps).x),
        in_range(enemies[j].position.y - pair_push(enemies[i], enemies[j], substeps).y),
    ensures
        ({
            let after = separate_pair(enemies, i, j, substeps);
            let by = pair_push(enemies[i], enemies[j], substeps);
            &&& after.len() == enemies.len()
            &&& after[i].position.x - enemies[i].position.x == by.x
            &&& after[i].position.y - enemies[i].position.y == by.y
            &&& after[j].position.x - enemies[j].position.x == -by.x
            &&& after[j].position.y - enemies[j].position.y == -by.y
            &&& dist_sq(after[i].position, after[j].position) >= dist_sq(
                enemies[i].position,
                enemies[j].position,
            )
            &&& by != Vec2::zero() ==> dist_sq(after[i].position, after[j].position) > dist_sq(
                enemies[i].position,
                enemies[j].position,
            )
            &&& after[i].position.distance(after[j].position) >= enemies[i].position.distance(
                enemies[j].position,
            )
        }),
{
    let a = enemies[i];
    let b = enemies[j];
    let by = pair_push(a, b, substeps);
    let after = separate_pair(enemies, i, j, substeps);
    lemma_pair_push_direction(a, b, substeps);
    let dx = a.position.x - b.position.x;
    let dy = a.position.y - b.position.y;
    lemma_spread(dx, dy, by);
    assert(after[i] == pushed(a, by));
    assert(after[j] == pulled(b, by));
    assert(after[i].position.x - after[j].position.x == dx + 2 * by.x);
    assert(after[i].position.y - after[j].position.y == dy + 2 * by.y);
    assert((dx + 2 * by.x) * (dx + 2 * by.x) >= dx * dx && (dy + 2 * by.y) * (dy + 2 * by.y) >= dy
        * dy) by (nonlinear_arith)
        requires
            points_along(by, dx, dy),
    ;
    lemma_distance_monotonic(a.position, b.position, after[i].position, after[j].position);
}

/// The push of a pair points from the second enemy to the first.
pub proof fn lemma_pair_push_direction(a: Enemy, b: Enemy, substeps: u32)
    requires
        substeps > 0,
        pair_contact(a, b),
    ensures
        points_along(
            pair_push(a, b, substeps),
            a.position.x - b.position.x,
            a.position.y - b.position.y,
        ),
{
    let d = a.position.minus(b.position);
    let h = push_length(pair_reach(a, b), a.position.distance(b.position), substeps);
    lemma_push_length_bounds(pair_reach(a, b), a.position.distance(b.position), substeps);
    lemma_normalized_sign(d);
    lemma_scaled_sign(d.normalized(), h);
}

/// Coincident centres have no separating direction: the push of such a
/// pair is null, and resolving the pair leaves enemies in the world where
/// they are.
pub proof fn lemma_coincident_pair_is_left(enemies: Seq<Enemy>, i: int, j: int, substeps: u32)
    requires
        0 <= i < j < enemies.len(),
        enemies[i].position == enemies[j].position,
    ensures
        pair_push(enemies[i], enemies[j], substeps) == Vec2::zero(),
        enemies[i].position.in_world() ==> separate_pair(enemies, i, j, substeps) == enemies,
{
    let a = enemies[i];
    let b = enemies[j];
    let h = push_length(pair_reach(a, b), a.position.distance(b.position), substeps);
    lemma_null_vector(a.position, h);
    if a.position.in_world() {
        assert(pushed(a, Vec2::zero()) == a);
        assert(pulled(b, Vec2::zero()) == b);
        assert(separate_pair(enemies, i, j, substeps) =~= enemies);
    }
}

/// An enemy whose centre sits on a joint has no direction to be pushed in:
/// the push is null, whatever the overlap. The same holds of an enemy on the
/// middle of a segment.
pub proof fn lemma_coincident_joint_is_left(
    e: Enemy,
    thickness: i64,
    segment_length: i64,
    substeps: u32,
)
    ensures
        joint_push(e, e.position, thickness, substeps) == Vec2::zero(),
        midpoint_push(e, e.position, segment_length, substeps) == Vec2::zero(),
{
    lemma_null_vector(
        e.position,
        push_length(e.radius, joint_distance(e, e.position, thickness), substeps),
    );
    lemma_null_vector(
        e.position,
        push_length(
            midpoint_reach(e.radius, segment_length),
            e.position.distance(e.position),
            substeps,
        ),
    );
}

/// Where an enemy touches a joint and neither is pushed against the wall of
/// the world, the soft push moves the enemy by the push and the joint by its
/// exact negation, and their exact squared distance does not decrease.
pub proof fn lemma_joint_push_symmetric(e: Enemy, joint: Vec2, thickness: i64, substeps: u32)
    requires
        substeps > 0,
        joint_contact(e, joint, thickness),
        in_range(e.position.x + joint_push(e, joint, thickness, substeps).x),
        in_range(e.position.y + joint_push(e, joint, thickness, substeps).y),
        in_range(joint.x - joint_push(e, joint, thickness, substeps).x),
        in_range(joint.y - joint_push(e, joint, thickness, substeps).y),
    ensures
        ({
            let by = joint_push(e, joint, thickness, substeps);
            &&& pushed(e, by).position.x - e.position.x == by.x
            &&& pushed(e, by).position.y - e.position.y == by.y
            &&& joint.minus(by).x - joint.x == -by.x
            &&& joint.minus(by).y - joint.y == -by.y
            &&& dist_sq(pushed(e, by).position, joint.minus(by)) >= dist_sq(e.position, joint)
        }),
{
    let d = e.position.minus(joint);
    let h = push_length(e.radius, joint_distance(e, joint, thickness), substeps);
    lemma_push_length_bounds(e.radius, joint_distance(e, joint, thickness), substeps);
    lemma_normalized_sign(d);
    lemma_scaled_sign(d.normalized(), h);
    lemma_spread(e.position.x - joint.x, e.position.y - joint.y, d.normalized().scaled(h));
}

/// Two enemies whose centres differ are pushed by more than nothing as soon
/// as they overlap by four raw steps per substep. By
/// `lemma_pair_push_symmetric`, resolving such a pair takes the two strictly
/// farther apart.
pub proof fn lemma_pair_push_not_null(a: Enemy, b: Enemy, substeps: u32)
    requires
        substeps > 0,
        a.position != b.position,
        pair_reach(a, b) - a.position.distance(b.position) >= 4 * substeps,
    ensures
        pair_push(a, b, substeps) != Vec2::zero(),
{
    let d = a.position.minus(b.position);
    let h = push_length(pair_reach(a, b), a.position.distance(b.position), substeps);
    lemma_push_length_bounds(pair_reach(a, b), a.position.distance(b.position), substeps);
    assert(d != Vec2::zero());
    lemma_normalized_reach(d);
    lemma_scaled_not_null(d.normalized(), h);
    assert(d.x * d.x >= d.y * d.y || d.y * d.y >= d.x * d.x);
}

/// With two substeps or more, the push that answers an overlap is at most a
/// quarter of the overlap.
pub proof fn lemma_push_length_quarter(reach: i64, distance: i64, substeps: u32)
    requires
        substeps >= 2,
        distance < reach,
        in_range(reach - distance),
    ensures
        0 <= 4 * push_length(reach, distance, substeps) <= reach - distance,
{
    let overlap = reach - distance;
    let share = quot(overlap, substeps as int);
    lemma_quot_sign(overlap, substeps as int);
    vstd::arithmetic::div_mod::lemma_fundamental_div_mod(overlap, substeps as int);
    assert(2 * share <= overlap) by (nonlinear_arith)
        requires
            overlap == substeps * share + overlap % (substeps as int),
            0 <= overlap % (substeps as int),
            0 <= share,
            substeps >= 2,
    ;
    lemma_quot_sign(share, 2);
}

/// Doubling the number of substeps halves the push that answers an overlap,
/// rounded toward zero.
pub proof fn lemma_push_length_doubling(reach: i64, distance: i64, substeps: u32, doubled: u32)
    requires
        substeps > 0,
        doubled == 2 * substeps,
        distance < reach,
        in_range(reach - distance),
    ensures
        push_length(reach, distance, doubled) == quot(
            push_length(reach, distance, substeps) as int,
            2,
        ),
{
    let overlap = reach - distance;
    lemma_quot_sign(overlap, substeps as int);
    lemma_quot_sign(overlap, doubled as int);
    let share = quot(overlap, substeps as int);
    lemma_quot_sign(share, 2);
    lemma_quot_sign(quot(share, 2), 2);
    lemma_quot_sign(quot(overlap, doubled as int), 2);
    vstd::arithmetic::div_mod::lemma_div_denominator(overlap, substeps as int, 2);
    assert(substeps * 2 == doubled);
}

/// Whether resolving the pair `a`, `b` saturates nowhere: the separation of
/// the two, their new positions and their new separation all lie in the
/// representable range.
pub open spec fn pair_push_fits(a: Enemy, b: Enemy, substeps: u32) -> bool {
    let by = pair_push(a, b, substeps);
    &&& in_range(a.position.x - b.position.x)
    &&& in_range(a.position.y - b.position.y)
    &&& in_range(a.position.x + by.x)
    &&& in_range(a.position.y + by.y)
    &&& in_range(b.position.x - by.x)
    &&& in_range(b.position.y - by.y)
    &&& in_range(a.position.x - b.position.x + 2 * by.x)
    &&& in_range(a.position.y - b.position.y + 2 * by.y)
}

/// Monotonic separation in the distance that the enemies measure. Two
/// overlapping enemies with different centres, resolved where nothing
/// saturates, measure a strictly larger distance afterwards as soon as they
/// overlap by four raw steps per substep. With two substeps or more they are
/// never pushed past touching: the new distance is at most the sum of their
/// radii. With one substep the rounding of the norm can carry a pair whose
/// centres are a few raw steps apart past touching.
pub proof fn lemma_pair_push_measured(a: Enemy, b: Enemy, substeps: u32)
    requires
        substeps > 0,
        pair_contact(a, b),
        a.position != b.position,
        pair_push_fits(a, b, substeps),
    ensures
        pair_reach(a, b) - a.position.distance(b.position) >= 4 * substeps ==> pushed(
            a,
            pair_push(a, b, substeps),
        ).position.distance(pulled(b, pair_push(a, b, substeps)).position) > a.position.distance(
            b.position,
        ),
        substeps >= 2 ==> pushed(a, pair_push(a, b, substeps)).position.distance(
            pulled(b, pair_push(a, b, substeps)).position,
        ) <= pair_reach(a, b),
{
    let reach = pair_reach(a, b);
    let d = a.position.distance(b.position);
    let delta = a.position.minus(b.position);
    let n = delta.norm();
    let h = push_length(reach, d, substeps);
    let by = pair_push(a, b, substeps);
    let after = pushed(a, by).position.minus(pulled(b, by).position);
    let m = after.norm();
    let dx = a.position.x - b.position.x;
    let dy = a.position.y - b.position.y;
    lemma_length_bounds(delta);
    lemma_length_bounds(after);
    lemma_push_length_bounds(reach, d, substeps);
    assert(delta.x == dx && delta.y == dy);
    assert(delta.norm_sq() >= 1) by (nonlinear_arith)
        requires
            delta.norm_sq() == dx * dx + dy * dy,
            dx != 0 || dy != 0,
    ;
    lemma_isqrt_above(delta.norm_sq(), 0);
    assert(d == n);
    lemma_push_within_ratio(delta, h);
    assert(by == delta.normalized().scaled(h));
    assert(after.x == dx + 2 * by.x && after.y == dy + 2 * by.y);
    let ax = abs_of(dx);
    let ay = abs_of(dy);
    let cx = abs_of(by.x as int);
    let cy = abs_of(by.y as int);
    assert(after.norm_sq() == (ax + 2 * cx) * (ax + 2 * cx) + (ay + 2 * cy) * (ay + 2 * cy)
        && ax * ax + ay * ay == dx * dx + dy * dy) by (nonlinear_arith)
        requires
            after.norm_sq() == (dx + 2 * by.x) * (dx + 2 * by.x) + (dy + 2 * by.y) * (dy + 2
                * by.y),
            (dx == ax && by.x == cx) || (dx == -ax && by.x == -cx),
            (dy == ay && by.y == cy) || (dy == -ay && by.y == -cy),
    ;
    if reach - d >= 4 * substeps {
        lemma_normalized_reach(delta);
        lemma_scaled_not_null(delta.normalized(), h);
        lemma_lead_growth(dx, dy, 2 * by.x, 2 * by.y, n);
        lemma_isqrt_above(after.norm_sq(), n);
    }
    if substeps >= 2 {
        lemma_push_length_quarter(reach, d, substeps);
        assert(2 * cx * n <= ax * (2 * h) && 2 * cy * n <= ay * (2 * h)) by (nonlinear_arith)
            requires
                cx * n <= ax * h,
                cy * n <= ay * h,
        ;
        lemma_spread_bound(ax, ay, 2 * cx, 2 * cy, n, 2 * h, m);
        assert(m <= reach) by (nonlinear_arith)
            requires
                n * m < (n + 1) * (n + 2 * h),
                1 <= n,
                0 <= h,
                0 <= m,
                4 * h <= reach - n,
        ;
    }
}

/// Whether some enemy touches some joint of the rope.
pub open spec fn touches_rope(rope: RopeView, enemies: Seq<Enemy>) -> bool {
    exists|i: int, j: int|
        0 <= i < enemies.len() && 0 <= j < rope.points.len() && #[trigger] joint_contact(
            enemies[i],
            rope.points[j],
            rope.thickness,
        )
}

/// Meeting the joints neither adds nor removes a joint, and under
/// `CollisionPolicy::SoftPush` it reports no hit.
pub proof fn lemma_collide_joints_shape(
    e: Enemy,
    joints: Seq<Vec2>,
    thickness: i64,
    substeps: u32,
    policy: CollisionPolicy,
    k: nat,
)
    requires
        k <= joints.len(),
    ensures
        collide_joints(e, joints, thickness, substeps, policy, k).joints.len() == joints.len(),
        policy == CollisionPolicy::SoftPush ==> !collide_joints(
            e,
            joints,
            thickness,
            substeps,
            policy,
            k,
        ).hit,
    decreases k,
{
    if k > 0 {
        lemma_collide_joints_shape(e, joints, thickness, substeps, policy, (k - 1) as nat);
    }
}

/// Under `CollisionPolicy::Hazard` meeting the joints moves nothing, and it
/// reports a hit exactly if the enemy touches one of the joints met.
pub proof fn lemma_collide_joints_hazard(
    e: Enemy,
    joints: Seq<Vec2>,
    thickness: i64,
    substeps: u32,
    k: nat,
)
    requires
        k <= joints.len(),
    ensures
        collide_joints(e, joints, thickness, substeps, CollisionPolicy::Hazard, k).enemy == e,
        collide_joints(e, joints, thickness, substeps, CollisionPolicy::Hazard, k).joints
            == joints,
        collide_joints(e, joints, thickness, substeps, CollisionPolicy::Hazard, k).hit <==> exists|
            j: int,
        | 0 <= j < k && #[trigger] joint_contact(e, joints[j], thickness),
    decreases k,
{
    if k > 0 {
        lemma_collide_joints_hazard(e, joints, thickness, substeps, (k - 1) as nat);
        let before = collide_joints(
            e,
            joints,
            thickness,
            substeps,
            CollisionPolicy::Hazard,
            (k - 1) as nat,
        );
        if before.hit {
            let j = choose|j: int|
                0 <= j < k - 1 && #[trigger] joint_contact(e, joints[j], thickness);
            assert(0 <= j < k && joint_contact(e, joints[j], thickness));
        }
    }
}

/// Meeting the rope keeps the number of enemies and of joints, and leaves
/// the enemies that it has not reached yet as they were.
pub proof fn lemma_collide_rope_shape(
    enemies: Seq<Enemy>,
    joints: Seq<Vec2>,
    midpoints: Seq<Vec2>,
    thickness: i64,
    segment_length: i64,
    substeps: u32,
    policy: CollisionPolicy,
    n: nat,
)
    requires
        n <= enemies.len(),
    ensures
        ({
            let met = collide_rope(
                enemies,
                joints,
                midpoints,
                thickness,
                segment_length,
                substeps,
                policy,
                n,
            );
            &&& met.enemies.len() == enemies.len()
            &&& met.joints.len() == joints.len()
            &&& forall|i: int| n <= i < enemies.len() ==> met.enemies[i] == enemies[i]
            &&& policy == CollisionPolicy::SoftPush ==> !met.hit
        }),
    decreases n,
{
    if n > 0 {
        lemma_collide_rope_shape(
            enemies,
            joints,
            midpoints,
            thickness,
            segment_length,
            substeps,
            policy,
            (n - 1) as nat,
        );
        let before = collide_rope(
            enemies,
            joints,
            midpoints,
            thickness,
            segment_length,
            substeps,
            policy,
            (n - 1) as nat,
        );
        lemma_collide_joints_shape(
            before.enemies[n - 1],
            before.joints,
            thickness,
            substeps,
            policy,
            before.joints.len(),
        );
    }
}

/// Under `CollisionPolicy::Hazard` meeting the rope leaves the joints where
/// they were, and it reports a hit exactly if one of the enemies met, where
/// it was before the round, touches a joint.
pub proof fn lemma_collide_rope_hazard(
    enemies: Seq<Enemy>,
    joints: Seq<Vec2>,
    midpoints: Seq<Vec2>,
    thickness: i64,
    segment_length: i64,
    substeps: u32,
    n: nat,
)
    requires
        n <= enemies.len(),
    ensures
        ({
            let met = collide_rope(
                enemies,
                joints,
                midpoints,
                thickness,
                segment_length,
                substeps,
                CollisionPolicy::Hazard,
                n,
            );
            &&& met.joints == joints
            &&& met.hit <==> exists|i: int, j: int|
                0 <= i < n && 0 <= j < joints.len() && #[trigger] joint_contact(
                    enemies[i],
                    joints[j],
                    thickness,
                )
        }),
    decreases n,
{
    if n > 0 {
        let policy = CollisionPolicy::Hazard;
        lemma_collide_rope_hazard(
            enemies,
            joints,
            midpoints,
            thickness,
            segment_length,
            substeps,
            (n - 1) as nat,
        );
        lemma_collide_rope_shape(
            enemies,
            joints,
            midpoints,
            thickness,
            segment_length,
            substeps,
            policy,
            (n - 1) as nat,
        );
        let before = collide_rope(
            enemies,
            joints,
            midpoints,
            thickness,
            segment_length,
            substeps,
            policy,
            (n - 1) as nat,
        );
        let met = collide_rope(
            enemies,
            joints,
            midpoints,
            thickness,
            segment_length,
            substeps,
            policy,
            n,
        );
        let e = enemies[n - 1];
        assert(before.enemies[n - 1] == e);
        lemma_collide_joints_hazard(e, joints, thickness, substeps, joints.len());
        let now = collide_joints(e, joints, thickness, substeps, policy, joints.len());
        if before.hit {
            let (i, j) = choose|i: int, j: int|
                0 <= i < n - 1 && 0 <= j < joints.len() && #[trigger] joint_contact(
                    enemies[i],
                    joints[j],
                    thickness,
                );
            assert(0 <= i < n && 0 <= j < joints.len() && joint_contact(
                enemies[i],
                joints[j],
                thickness,
            ));
        }
        if now.hit {
            let j = choose|j: int|
                0 <= j < joints.len() && #[trigger] joint_contact(e, joints[j], thickness);
            assert(0 <= n - 1 < n && 0 <= j < joints.len() && joint_contact(
                enemies[n - 1],
                joints[j],
                thickness,
            ));
        }
        if exists|i: int, j: int|
            0 <= i < n && 0 <= j < joints.len() && #[trigger] joint_contact(
                enemies[i],
                joints[j],
                thickness,
            ) {
            let (i, j) = choose|i: int, j: int|
                0 <= i < n && 0 <= j < joints.len() && #[trigger] joint_contact(
                    enemies[i],
                    joints[j],
                    thickness,
                );
            if i < n - 1 {
                assert(0 <= i < n - 1 && 0 <= j < joints.len() && joint_contact(
                    enemies[i],
                    joints[j],
                    thickness,
                ));
                assert(before.hit);
            } else {
                assert(joint_contact(e, joints[j], thickness));
                assert(now.hit);
            }
            assert(met.hit);
        }
    }
}

/// What a round reports. Under `CollisionPolicy::SoftPush` there is never a
/// hit. Under `CollisionPolicy::Hazard` the rope is left as it was, and
/// there is a hit exactly if some enemy, where it was before the round,
/// touches some joint.
pub proof fn lemma_resolve_hit(
    rope: RopeView,
    enemies: Seq<Enemy>,
    substeps: u32,
    policy: CollisionPolicy,
)
    ensures
        resolve(rope, enemies, substeps, policy).enemies.len() == enemies.len(),
        resolve(rope, enemies, substeps, policy).rope.points.len() == rope.points.len(),
        policy == CollisionPolicy::SoftPush ==> !resolve(rope, enemies, substeps, policy).hit,
        policy == CollisionPolicy::Hazard ==> resolve(rope, enemies, substeps, policy).rope == rope
            && (resolve(rope, enemies, substeps, policy).hit <==> touches_rope(rope, enemies)),
{
    lemma_collide_rope_shape(
        enemies,
        rope.points,
        rope.midpoints(),
        rope.thickness,
        rope.segment_length,
        substeps,
        policy,
        enemies.len(),
    );
    let met = collide_rope(
        enemies,
        rope.points,
        rope.midpoints(),
        rope.thickness,
        rope.segment_length,
        substeps,
        policy,
        enemies.len(),
    );
    lemma_separate_rows_len(met.enemies, met.enemies.len(), substeps);
    if policy == CollisionPolicy::Hazard {
        lemma_collide_rope_hazard(
            enemies,
            rope.points,
            rope.midpoints(),
            rope.thickness,
            rope.segment_length,
            substeps,
            enemies.len(),
        );
    }
}

/// Whether no enemy touches a joint of the rope or is too close to the
/// middle of one of its segments.
pub open spec fn clear_of_rope(rope: RopeView, enemies: Seq<Enemy>) -> bool {
    &&& forall|i: int, k: int|
        0 <= i < enemies.len() && 0 <= k < rope.points.len() ==> !#[trigger] joint_contact(
            enemies[i],
            rope.points[k],
            rope.thickness,
        )
    &&& forall|i: int, k: int|
        0 <= i < enemies.len() && 0 <= k < rope.midpoints().len() ==> !#[trigger] midpoint_contact(
            enemies[i],
            rope.midpoints()[k],
            rope.segment_length,
        )
}

/// An enemy that touches none of the first `k` joints meets them without
/// effect.
pub proof fn lemma_collide_joints_clear(
    e: Enemy,
    joints: Seq<Vec2>,
    thickness: i64,
    substeps: u32,
    policy: CollisionPolicy,
    k: nat,
)
    requires
        k <= joints.len(),
        forall|j: int| 0 <= j < k ==> !#[trigger] joint_contact(e, joints[j], thickness),
    ensures
        collide_joints(e, joints, thickness, substeps, policy, k) == (JointContact {
            enemy: e,
            joints,
            hit: false,
        }),
    decreases k,
{
    if k > 0 {
        lemma_collide_joints_clear(e, joints, thickness, substeps, policy, (k - 1) as nat);
        assert(!joint_contact(e, joints[k - 1], thickness));
    }
}

/// An enemy that is close to none of the first `k` segment middles meets
/// them without effect.
pub proof fn lemma_collide_midpoints_clear(
    e: Enemy,
    midpoints: Seq<Vec2>,
    segment_length: i64,
    substeps: u32,
    k: nat,
)
    requires
        k <= midpoints.len(),
        forall|j: int|
            0 <= j < k ==> !#[trigger] midpoint_contact(e, midpoints[j], segment_length),
    ensures
        collide_midpoints(e, midpoints, segment_length, substeps, k) == e,
    decreases k,
{
    if k > 0 {
        lemma_collide_midpoints_clear(e, midpoints, segment_length, substeps, (k - 1) as nat);
        assert(!midpoint_contact(e, midpoints[k - 1], segment_length));
    }
}

/// Enemies that are clear of the rope meet it without effect.
pub proof fn lemma_collide_rope_clear(
    rope: RopeView,
    enemies: Seq<Enemy>,
    substeps: u32,
    policy: CollisionPolicy,
    n: nat,
)
    requires
        n <= enemies.len(),
        clear_of_rope(rope, enemies),
    ensures
        collide_rope(
            enemies,
            rope.points,
            rope.midpoints(),
            rope.thickness,
            rope.segment_length,
            substeps,
            policy,
            n,
        ) == (RopeContact { enemies, joints: rope.points, hit: false }),
    decreases n,
{
    if n > 0 {
        lemma_collide_rope_clear(rope, enemies, substeps, policy, (n - 1) as nat);
        let e = enemies[n - 1];
        assert forall|j: int| 0 <= j < rope.points.len() implies !#[trigger] joint_contact(
            e,
            rope.points[j],
            rope.thickness,
        ) by {
            assert(!joint_contact(enemies[n - 1], rope.points[j], rope.thickness));
        }
        assert forall|j: int| 0 <= j < rope.midpoints().len() implies !#[trigger] midpoint_contact(
            e,
            rope.midpoints()[j],
            rope.segment_length,
        ) by {
            assert(!midpoint_contact(enemies[n - 1], rope.midpoints()[j], rope.segment_length));
        }
        lemma_collide_joints_clear(
            e,
            rope.points,
            rope.thickness,
            substeps,
            policy,
            rope.points.len(),
        );
        lemma_collide_midpoints_clear(
            e,
            rope.midpoints(),
            rope.segment_length,
            substeps,
            rope.midpoints().len(),
        );
        assert(enemies.update(n - 1, e) =~= enemies);
    }
}

/// A round among enemies that are clear of the rope leaves the rope as it
/// is, reports no hit and only pushes the pairs of enemies apart. Where
/// there are two enemies, the round is the resolution of that one pair.
pub proof fn lemma_resolve_clear_of_rope(
    rope: RopeView,
    enemies: Seq<Enemy>,
    substeps: u32,
    policy: CollisionPolicy,
)
    requires
        clear_of_rope(rope, enemies),
    ensures
        resolve(rope, enemies, substeps, policy) == (Resolution {
            rope,
            enemies: separate_rows(enemies, enemies.len(), substeps),
            hit: false,
        }),
        enemies.len() == 2 ==> resolve(rope, enemies, substeps, policy).enemies == separate_pair(
            enemies,
            0,
            1,
            substeps,
        ),
{
    lemma_collide_rope_clear(rope, enemies, substeps, policy, enemies.len());
    if enemies.len() == 2 {
        reveal_with_fuel(separate_rows, 3);
        reveal_with_fuel(separate_row, 3);
        let first = separate_rows(enemies, 1, substeps);
        assert(separate_rows(enemies, 0, substeps) == enemies);
        assert(separate_row(enemies, 0, 1, substeps) == enemies);
        assert(first == separate_pair(enemies, 0, 1, substeps));
        assert(first.len() == 2);
        assert(separate_row(first, 1, 2, substeps) == first);
    }
}

/// Pushing pairs apart keeps the number of enemies.
pub proof fn lemma_separate_row_len(enemies: Seq<Enemy>, i: int, upto: int, substeps: u32)
    requires
        0 <= i,
        upto <= enemies.len(),
    ensures
        separate_row(enemies, i, upto, substeps).len() == enemies.len(),
    decreases upto - i,
{
    if upto > i + 1 {
        lemma_separate_row_len(enemies, i, upto - 1, substeps);
    }
}

/// Pushing every pair apart keeps the number of enemies.
pub proof fn lemma_separate_rows_len(enemies: Seq<Enemy>, n: nat, substeps: u32)
    requires
        n <= enemies.len(),
    ensures
        separate_rows(enemies, n, substeps).len() == enemies.len(),
    decreases n,
{
    if n > 0 {
        lemma_separate_rows_len(enemies, (n - 1) as nat, substeps);
        let before = separate_rows(enemies, (n - 1) as nat, substeps);
        lemma_separate_row_len(before, n - 1, before.len() as int, substeps);
    }
}

/// Length of the push for an overlap.
fn push_by(reach: i64, distance: i64, substeps: u32) -> (r: i64)
    requires
        substeps > 0,
    ensures
        r == push_length(reach, distance, substeps),
{
    fx_div_int(fx_div_int(fx_sub(reach, distance), substeps as u64), 2)
}

/// One enemy against every joint of the rope.
fn meet_joints(
    enemy: &mut Enemy,
    rope: &mut Rope,
    substeps: u32,
    policy: CollisionPolicy,
) -> (hit: bool)
    requires
        old(rope).wf(),
        substeps > 0,
    ensures
        final(rope).wf(),
        (JointContact { enemy: *final(enemy), joints: final(rope)@.points, hit }) == collide_joints(
            *old(enemy),
            old(rope)@.points,
            old(rope)@.thickness,
            substeps,
            policy,
            old(rope)@.points.len(),
        ),
        final(rope)@ == (RopeView { points: final(rope)@.points, ..old(rope)@ }),
        final(rope)@.points.len() == old(rope)@.points.len(),
        old(enemy).in_world() ==> final(enemy).in_world(),
{
    let ghost enemy0 = *enemy;
    let ghost rope0 = rope@;
    let thickness = rope.thickness();
    let n = rope.len();
    let mut hit = false;
    let mut k: usize = 0;
    while k < n
        invariant
            k <= n,
            n == rope0.points.len(),
            substeps > 0,
            rope.wf(),
            rope0.wf(),
            thickness == rope0.thickness,
            rope@ == (RopeView { points: rope@.points, ..rope0 }),
            rope@.points.len() == n,
            (JointContact { enemy: *enemy, joints: rope@.points, hit }) == collide_joints(
                enemy0,
                rope0.points,
                thickness,
                substeps,
                policy,
                k as nat,
            ),
            enemy0.in_world() ==> enemy.in_world(),
        decreases n - k,
    {
        let joint = rope.points()[k];
        let distance = enemy.position.distance(joint.plus(Vec2 { x: thickness, y: 0 }));
        if distance < enemy.radius {
            match policy {
                CollisionPolicy::SoftPush => {
                    let by = enemy.position.minus(joint).normalized().scaled(
                        push_by(enemy.radius, distance, substeps),
                    );
                    enemy.position = enemy.position.plus(by);
                    rope.set_point(k, joint.minus(by));
                },
                CollisionPolicy::Hazard => {
                    hit = true;
                },
            }
        }
        k += 1;
    }
    hit
}

/// One enemy against the middle of every segment.
fn meet_midpoints(enemy: &mut Enemy, midpoints: &Vec<Vec2>, segment_length: i64, substeps: u32)
    requires
        substeps > 0,
    ensures
        *final(enemy) == collide_midpoints(
            *old(enemy),
            midpoints@,
            segment_length,
            substeps,
            midpoints@.len(),
        ),
        old(enemy).in_world() ==> final(enemy).in_world(),
{
    let ghost enemy0 = *enemy;
    let n = midpoints.len();
    let mut k: usize = 0;
    while k < n
        invariant
            k <= n,
            n == midpoints@.len(),
            substeps > 0,
            *enemy == collide_midpoints(enemy0, midpoints@, segment_length, substeps, k as nat),
            enemy0.in_world() ==> enemy.in_world(),
        decreases n - k,
    {
        let midpoint = midpoints[k];
        let distance = enemy.position.distance(midpoint);
        let reach = fx_add(enemy.radius, fx_div_int(segment_length, 2));
        if distance < reach {
            let by = enemy.position.minus(midpoint).normalized().scaled(
                push_by(reach, distance, substeps),
            );
            enemy.position = enemy.position.plus(by);
        }
        k += 1;
    }
}

/// Every enemy against the rope.
fn meet_rope(
    rope: &mut Rope,
    enemies: &mut Vec<Enemy>,
    substeps: u32,
    policy: CollisionPolicy,
) -> (hit: bool)
    requires
        old(rope).wf(),
        substeps > 0,
    ensures
        final(rope).wf(),
        (RopeContact { enemies: final(enemies)@, joints: final(rope)@.points, hit })
            == collide_rope(
            old(enemies)@,
            old(rope)@.points,
            old(rope)@.midpoints(),
            old(rope)@.thickness,
            old(rope)@.segment_length,
            substeps,
            policy,
            old(enemies)@.len(),
        ),
        final(rope)@ == (RopeView { points: final(rope)@.points, ..old(rope)@ }),
        final(rope)@.points.len() == old(rope)@.points.len(),
        kept_in_world(old(enemies)@, final(enemies)@),
{
    let ghost enemies0 = enemies@;
    let ghost rope0 = rope@;
    let midpoints = rope.get_segment_midpoints();
    let segment_length = rope.segment_length();
    let n = enemies.len();
    let mut hit = false;
    let mut i: usize = 0;
    while i < n
        invariant
            i <= n,
            n == enemies0.len(),
            enemies@.len() == n,
            substeps > 0,
            rope.wf(),
            rope0.wf(),
            midpoints@ == rope0.midpoints(),
            segment_length == rope0.segment_length,
            rope@ == (RopeView { points: rope@.points, ..rope0 }),
            rope@.points.len() == rope0.points.len(),
            (RopeContact { enemies: enemies@, joints: rope@.points, hit }) == collide_rope(
                enemies0,
                rope0.points,
                rope0.midpoints(),
                rope0.thickness,
                rope0.segment_length,
                substeps,
                policy,
                i as nat,
            ),
            forall|j: int| i <= j < n ==> enemies@[j] == enemies0[j],
            kept_in_world(enemies0, enemies@),
        decreases n - i,
    {
        let mut enemy = enemies[i];
        let met = meet_joints(&mut enemy, rope, substeps, policy);
        meet_midpoints(&mut enemy, &midpoints, segment_length, substeps);
        enemies.set(i, enemy);
        hit = hit || met;
        i += 1;
    }
    hit
}

/// Pushes enemies `i` and `j` apart if they overlap.
fn part(enemies: &mut Vec<Enemy>, i: usize, j: usize, substeps: u32)
    requires
        i < j < old(enemies)@.len(),
        substeps > 0,
    ensures
        final(enemies)@ == separate_pair(old(enemies)@, i as int, j as int, substeps),
        kept_in_world(old(enemies)@, final(enemies)@),
{
    let mut a = enemies[i];
    let mut b = enemies[j];
    let distance = a.position.distance(b.position);
    let reach = fx_add(a.radius, b.radius);
    if distance < reach {
        let by = a.position.minus(b.position).normalized().scaled(
            push_by(reach, distance, substeps),
        );
        a.position = a.position.plus(by);
        b.position = b.position.minus(by);
        enemies.set(i, a);
        enemies.set(j, b);
    }
}

/// Pushes every overlapping pair of enemies apart.
fn part_all(enemies: &mut Vec<Enemy>, substeps: u32)
    requires
        substeps > 0,
    ensures
        final(enemies)@ == separate_rows(old(enemies)@, old(enemies)@.len(), substeps),
        kept_in_world(old(enemies)@, final(enemies)@),
{
    let ghost enemies0 = enemies@;
    let n = enemies.len();
    let mut i: usize = 0;
    while i < n
        invariant
            i <= n,
            n == enemies0.len(),
            enemies@.len() == n,
            substeps > 0,
            enemies@ == separate_rows(enemies0, i as nat, substeps),
            kept_in_world(enemies0, enemies@),
        decreases n - i,
    {
        let ghost row0 = enemies@;
        let mut j: usize = i + 1;
        while j < n
            invariant
                i < n,
                i + 1 <= j <= n,
                n == row0.len(),
                enemies@.len() == n,
                substeps > 0,
                enemies@ == separate_row(row0, i as int, j as int, substeps),
                kept_in_world(row0, enemies@),
            decreases n - j,
        {
            part(enemies, i, j, substeps);
            j += 1;
        }
        i += 1;
    }
}

/// Resolves one round of collisions. `substeps` is the number of rounds
/// that a frame runs, by which each correction is divided. Under
/// `CollisionPolicy::Hazard` the result tells whether an enemy touched a
/// joint; under `CollisionPolicy::SoftPush` it is always `false`.
///
/// Coincident centres have no separating direction: such a pair is left
/// where it is. Every coordinate that was in the world stays in the world.
pub fn check_collisions(
    rope: &mut Rope,
    enemies: &mut Vec<Enemy>,
    substeps: u32,
    policy: CollisionPolicy,
) -> (hit: bool)
    requires
        old(rope).wf(),
        substeps > 0,
    ensures
        (Resolution { rope: final(rope)@, enemies: final(enemies)@, hit }) == resolve(
            old(rope)@,
            old(enemies)@,
            substeps,
            policy,
        ),
        final(rope).wf(),
        final(rope)@.points.len() == old(rope)@.points.len(),
        kept_in_world(old(enemies)@, final(enemies)@),
        policy == CollisionPolicy::SoftPush ==> !hit,
        policy == CollisionPolicy::Hazard ==> final(rope)@ == old(rope)@ && (hit <==> touches_rope(
            old(rope)@,
            old(enemies)@,
        )),
{
    proof {
        lemma_resolve_hit(rope@, enemies@, substeps, policy);
    }
    let hit = meet_rope(rope, enemies, substeps, policy);
    part_all(enemies, substeps);
    hit
}

} // verus!
