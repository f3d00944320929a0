//! The enemies: circles that seek a target, appear at the edges of the
//! viewport and disappear once they have left it far behind.

use crate::fixed::{clamp, fx_add, fx_mul, fx_sub, in_range, lemma_quot_sign, quot, SCALE};
use crate::geometry::{lemma_null_vector, Rect, Vec2};
use vstd::prelude::*;

verus! {

/// Speed at which an enemy seeks its target, in units per unit of time.
pub const SEEK_SPEED: i64 = 65536;

/// How far outside the viewport an enemy appears: one unit.
pub const SPAWN_MARGIN: i64 = 65536;

/// Smallest radius of a spawned enemy: ten units.
pub const MIN_RADIUS: i64 = 655360;

/// Bound that the radius of a spawned enemy stays below: twenty units.
pub const MAX_RADIUS: i64 = 1310720;

/// The scalar one half.
pub const HALF: i64 = 32768;

/// Number of colours: three channels of one byte each.
pub const COLOR_SPAN: u32 = 0x100_0000;

/// A circular body that moves by Verlet integration.
#[derive(Clone, Copy, Debug, PartialEq, Eq, Structural)]
pub struct Enemy {
    /// Centre of the circle.
    pub position: Vec2,
    /// Where the centre was one step ago.
    pub prev_position: Vec2,
    /// Radius of the circle.
    pub radius: i64,
    /// Colour for whoever draws the enemy; the simulation only carries it.
    pub color: u32,
}

/// The draws of the random source that one spawn consumes.
#[derive(Clone, Copy, Debug, PartialEq, Eq, Structural)]
pub struct SpawnRoll {
    /// A fraction of one. Below one half the enemy appears on the left or
    /// right edge, else on the bottom or top edge.
    pub axis: i64,
    /// A fraction of one. Below one half it is the left or bottom edge,
    /// else the right or top.
    pub edge: i64,
    /// How far along that edge, as a fraction of its length.
    pub along: i64,
    /// Radius of the enemy.
    pub radius: i64,
    /// Colour of the enemy.
    pub color: u32,
}

impl SpawnRoll {
    /// Whether the draws are such as the random source gives: the three
    /// fractions from zero up to but not including one, the radius from
    /// `MIN_RADIUS` up to but not including `MAX_RADIUS`, and a colour of
    /// three bytes.
    pub open spec fn wf(self) -> bool {
        &&& 0 <= self.axis < SCALE
        &&& 0 <= self.edge < SCALE
        &&& 0 <= self.along < SCALE
        &&& MIN_RADIUS <= self.radius < MAX_RADIUS
        &&& self.color < COLOR_SPAN
    }
}

impl Enemy {
    /// Whether the centre and its previous position lie in the world.
    pub open spec fn in_world(self) -> bool {
        self.position.in_world() && self.prev_position.in_world()
    }

    /// An enemy at rest at `position` brought into the world.
    pub open spec fn spec_new(position: Vec2, radius: i64, color: u32) -> Enemy {
        Enemy { position: position.clamped(), prev_position: position.clamped(), radius, color }
    }

    /// An enemy at rest at `position`, saturated to the world.
    #[verifier::when_used_as_spec(spec_new)]
    pub fn new(position: Vec2, radius: i64, color: u32) -> (e: Enemy)
        ensures
            e == Enemy::spec_new(position, radius, color),
            e.in_world(),
    {
        let position = position.clamped();
        Enemy { position, prev_position: position, radius, color }
    }

    /// The enemy one step later: it keeps the displacement of its last
    /// step and adds a step of length `SEEK_SPEED * delta_time` toward
    /// `target`. An enemy that sits on its target has no direction to seek
    /// in and only keeps its displacement.
    pub open spec fn stepped(self, target: Vec2, delta_time: i64) -> Enemy {
        let velocity = self.position.minus(self.prev_position);
        let direction = target.minus(self.position).normalized();
        let stride = clamp(quot(SEEK_SPEED * delta_time, SCALE as int));
        Enemy {
            position: self.position.plus(velocity).plus(direction.scaled(stride)),
            prev_position: self.position,
            ..self
        }
    }

    /// Advances the enemy by one step toward `target`.
    pub fn update(&mut self, target: Vec2, delta_time: i64)
        ensures
            *final(self) == old(self).stepped(target, delta_time),
            old(self).position.in_world() ==> final(self).in_world(),
    {
        let current = self.position;
        let velocity = current.minus(self.prev_position);
        self.prev_position = current;
        let direction = target.minus(current).normalized();
        let stride = fx_mul(SEEK_SPEED, delta_time);
        self.position = current.plus(velocity).plus(direction.scaled(stride));
    }

    /// Whether the square that bounds the circle lies entirely outside the
    /// viewport widened by `margin` on every side: to its left, to its
    /// right, below it or above it. The sums are exact.
    pub open spec fn is_outside(self, viewport: Rect, margin: i64) -> bool {
        ||| self.position.x + self.radius < viewport.left - margin
        ||| self.position.x - self.radius > viewport.right + margin
        ||| self.position.y + self.radius < viewport.bottom - margin
        ||| self.position.y - self.radius > viewport.top + margin
    }

    /// Tells whether the enemy has left the widened viewport.
    pub fn has_left(&self, viewport: Rect, margin: i64) -> (r: bool)
        ensures
            r == self.is_outside(viewport, margin),
    {
        let x = self.position.x as i128;
        let y = self.position.y as i128;
        let radius = self.radius as i128;
        let margin = margin as i128;
        x + radius < viewport.left as i128 - margin || x - radius > viewport.right as i128 + margin
            || y + radius < viewport.bottom as i128 - margin || y - radius > viewport.top as i128
            + margin
    }
}

/// An enemy that sits on its target has no direction to seek in: the step
/// only carries it on by the displacement of its last step.
pub proof fn lemma_step_on_target(e: Enemy, delta_time: i64)
    ensures
        e.stepped(e.position, delta_time).position == e.position.plus(
            e.position.minus(e.prev_position),
        ),
        e.stepped(e.position, delta_time).prev_position == e.position,
{
    let stride = clamp(quot(SEEK_SPEED * delta_time, SCALE as int));
    lemma_null_vector(e.position, stride);
}

/// Whether `after` holds as many enemies as `before`, and each one that was
/// in the world still is.
pub open spec fn kept_in_world(before: Seq<Enemy>, after: Seq<Enemy>) -> bool {
    &&& after.len() == before.len()
    &&& forall|i: int|
        0 <= i < before.len() && before[i].in_world() ==> (#[trigger] after[i]).in_world()
}

/// Every enemy of `enemies` one step later.
pub open spec fn stepped_all(enemies: Seq<Enemy>, target: Vec2, delta_time: i64) -> Seq<Enemy> {
    Seq::new(enemies.len(), |i: int| enemies[i].stepped(target, delta_time))
}

/// Advances every enemy by one step toward `target`.
pub fn update_all(enemies: &mut Vec<Enemy>, target: Vec2, delta_time: i64)
    ensures
        final(enemies)@ == stepped_all(old(enemies)@, target, delta_time),
{
    let ghost before = enemies@;
    let n = enemies.len();
    let mut i: usize = 0;
    while i < n
        invariant
            i <= n,
            n == before.len(),
            enemies@.len() == n,
            forall|j: int| 0 <= j < i ==> enemies@[j] == before[j].stepped(target, delta_time),
            forall|j: int| i <= j < n ==> enemies@[j] == before[j],
        decreases n - i,
    {
        let mut enemy = enemies[i];
        enemy.update(target, delta_time);
        enemies.set(i, enemy);
        i += 1;
    }
    assert(enemies@ =~= stepped_all(before, target, delta_time));
}

/// Where a spawn with the draws `roll` puts an enemy: on one of the four
/// edges of the viewport, moved outward by `SPAWN_MARGIN`, at the fraction
/// `roll.along` of that edge.
pub open spec fn spawn_position(viewport: Rect, roll: SpawnRoll) -> Vec2 {
    if roll.axis < HALF {
        Vec2 {
            x: if roll.edge < HALF {
                clamp(viewport.left - SPAWN_MARGIN)
            } else {
                clamp(viewport.right + SPAWN_MARGIN)
            },
            y: clamp(viewport.bottom + clamp(quot(roll.along * viewport.h(), SCALE as int))),
        }
    } else {
        Vec2 {
            x: clamp(viewport.left + clamp(quot(roll.along * viewport.w(), SCALE as int))),
            y: if roll.edge < HALF {
                clamp(viewport.bottom - SPAWN_MARGIN)
            } else {
                clamp(viewport.top + SPAWN_MARGIN)
            },
        }
    }
}

/// Whether the world can hold the viewport with the spawn margin around it:
/// its edges are in order, and moved outward by `SPAWN_MARGIN` they lie in
/// the representable range.
pub open spec fn holds_viewport(viewport: Rect) -> bool {
    &&& viewport.left <= viewport.right
    &&& viewport.bottom <= viewport.top
    &&& in_range(viewport.left - SPAWN_MARGIN)
    &&& in_range(viewport.right + SPAWN_MARGIN)
    &&& in_range(viewport.bottom - SPAWN_MARGIN)
    &&& in_range(viewport.top + SPAWN_MARGIN)
}

/// Whether `p` lies on an edge of the viewport moved outward by
/// `SPAWN_MARGIN`, between the ends of that edge.
pub open spec fn on_spawn_edge(viewport: Rect, p: Vec2) -> bool {
    ||| (p.x == viewport.left - SPAWN_MARGIN || p.x == viewport.right + SPAWN_MARGIN)
        && viewport.bottom <= p.y <= viewport.top
    ||| (p.y == viewport.bottom - SPAWN_MARGIN || p.y == viewport.top + SPAWN_MARGIN)
        && viewport.left <= p.x <= viewport.right
}

/// With draws such as the random source gives, an enemy spawns on an edge of
/// the viewport moved outward by the spawn margin.
pub proof fn lemma_spawn_on_edge(viewport: Rect, roll: SpawnRoll)
    requires
        roll.wf(),
        holds_viewport(viewport),
    ensures
        on_spawn_edge(viewport, spawn_position(viewport, roll)),
        spawn_enemy(viewport, roll).position == spawn_position(viewport, roll),
{
    lemma_fraction_of_span(roll.along, viewport.h());
    lemma_fraction_of_span(roll.along, viewport.w());
}

/// The fraction `along` of a span that is not negative lies within the span.
proof fn lemma_fraction_of_span(along: i64, span: i64)
    requires
        0 <= along < SCALE,
        0 <= span,
    ensures
        0 <= quot(along * span, SCALE as int) <= span,
{
    assert(0 <= along * span <= SCALE * span) by (nonlinear_arith)
        requires
            0 <= along < SCALE,
            0 <= span,
    ;
    lemma_quot_sign(along * span, SCALE as int);
    vstd::arithmetic::div_mod::lemma_div_is_ordered(along * span, SCALE * span, SCALE as int);
    vstd::arithmetic::div_mod::lemma_div_multiples_vanish(span as int, SCALE as int);
}

/// The enemy that a spawn with the draws `roll` creates.
pub open spec fn spec_spawn_enemy(viewport: Rect, roll: SpawnRoll) -> Enemy {
    Enemy::spec_new(spawn_position(viewport, roll), roll.radius, roll.color)
}

/// Creates an enemy at rest just outside an edge of the viewport, with the
/// radius and the colour that were drawn.
#[verifier::when_used_as_spec(spec_spawn_enemy)]
pub fn spawn_enemy(viewport: Rect, roll: SpawnRoll) -> (e: Enemy)
    ensures
        e == spec_spawn_enemy(viewport, roll),
        e.in_world(),
{
    let position = if roll.axis < HALF {
        let x = if roll.edge < HALF {
            fx_sub(viewport.left, SPAWN_MARGIN)
        } else {
            fx_add(viewport.right, SPAWN_MARGIN)
        };
        Vec2 { x, y: fx_add(viewport.bottom, fx_mul(roll.along, viewport.h())) }
    } else {
        let y = if roll.edge < HALF {
            fx_sub(viewport.bottom, SPAWN_MARGIN)
        } else {
            fx_add(viewport.top, SPAWN_MARGIN)
        };
        Vec2 { x: fx_add(viewport.left, fx_mul(roll.along, viewport.w())), y }
    };
    Enemy::new(position, roll.radius, roll.color)
}

/// Calls `nannou::rand::random_range` on 64-bit integers, which draws from
/// the random generator of the thread. Claimed of it, as its documentation
/// says: for `min < max` the result is at least `min` and less than `max`.
/// Which value comes is open, and two calls may differ.
#[verifier::external_body]
fn random_range(min: i64, max: i64) -> (r: i64)
    requires
        min < max,
    ensures
        min <= r < max,
{
    nannou::rand::random_range(min, max)
}

/// Draws what one spawn consumes from the random source.
pub fn roll_spawn() -> (roll: SpawnRoll)
    ensures
        roll.wf(),
{
    let axis = random_range(0, SCALE);
    let edge = random_range(0, SCALE);
    let along = random_range(0, SCALE);
    let radius = random_range(MIN_RADIUS, MAX_RADIUS);
    let color = random_range(0, COLOR_SPAN as i64);
    SpawnRoll { axis, edge, along, radius, color: color as u32 }
}

/// The test an enemy passes to stay: it has not left the widened viewport.
pub open spec fn stays(viewport: Rect, margin: i64) -> spec_fn(Enemy) -> bool {
    |e: Enemy| !e.is_outside(viewport, margin)
}

/// The enemies that a despawn keeps, in their order.
pub open spec fn survivors(enemies: Seq<Enemy>, viewport: Rect, margin: i64) -> Seq<Enemy> {
    enemies.filter(stays(viewport, margin))
}

/// Despawn boundary: every enemy that a despawn keeps has not left the
/// widened viewport, every enemy that has not left it is kept, and none
/// that has left it is.
pub proof fn lemma_despawn_boundary(enemies: Seq<Enemy>, viewport: Rect, margin: i64)
    ensures
        forall|e: Enemy| #[trigger]
            survivors(enemies, viewport, margin).contains(e) <==> enemies.contains(e)
                && !e.is_outside(viewport, margin),
        survivors(enemies, viewport, margin).len() <= enemies.len(),
{
    let pred = stays(viewport, margin);
    let kept = survivors(enemies, viewport, margin);
    enemies.lemma_filter_len(pred);
    assert forall|e: Enemy| #[trigger] kept.contains(e) <==> enemies.contains(e) && !e.is_outside(
        viewport,
        margin,
    ) by {
        if kept.contains(e) {
            let i = choose|i: int| 0 <= i < kept.len() && kept[i] == e;
            enemies.lemma_filter_pred(pred, i);
            enemies.lemma_filter_contains_rev(pred, e);
        }
        if enemies.contains(e) && !e.is_outside(viewport, margin) {
            let i = choose|i: int| 0 <= i < enemies.len() && enemies[i] == e;
            enemies.lemma_filter_contains(pred, i);
        }
    }
}

/// A despawn among enemies in the world leaves enemies in the world.
pub proof fn lemma_survivors_in_world(enemies: Seq<Enemy>, viewport: Rect, margin: i64)
    requires
        forall|i: int| 0 <= i < enemies.len() ==> (#[trigger] enemies[i]).in_world(),
    ensures
        forall|i: int|
            0 <= i < survivors(enemies, viewport, margin).len() ==> (#[trigger] survivors(
                enemies,
                viewport,
                margin,
            )[i]).in_world(),
{
    let kept = survivors(enemies, viewport, margin);
    lemma_despawn_boundary(enemies, viewport, margin);
    assert forall|i: int| 0 <= i < kept.len() implies (#[trigger] kept[i]).in_world() by {
        assert(kept.contains(kept[i]));
        let j = choose|j: int| 0 <= j < enemies.len() && enemies[j] == kept[i];
        assert(enemies[j].in_world());
    }
}

/// Removes every enemy that has left the viewport widened by `margin`, keeps
/// the others in their order, and returns how many were removed.
pub fn despawn(enemies: &mut Vec<Enemy>, viewport: Rect, margin: i64) -> (removed: usize)
    ensures
        final(enemies)@ == survivors(old(enemies)@, viewport, margin),
        removed == old(enemies)@.len() - final(enemies)@.len(),
{
    let ghost before = enemies@;
    let n = enemies.len();
    let mut kept: Vec<Enemy> = Vec::new();
    let mut i: usize = 0;
    while i < n
        invariant
            i <= n,
            n == before.len(),
            enemies@ == before,
            kept@ == survivors(before.subrange(0, i as int), viewport, margin),
            kept@.len() <= i,
        decreases n - i,
    {
        let enemy = enemies[i];
        proof {
            let longer = before.subrange(0, i + 1);
            assert(longer.drop_last() =~= before.subrange(0, i as int));
            assert(longer.last() == enemy);
            reveal(Seq::filter);
        }
        if !enemy.has_left(viewport, margin) {
            kept.push(enemy);
        }
        i += 1;
    }
    proof {
        assert(before.subrange(0, n as int) =~= before);
    }
    let removed = n - kept.len();
    *enemies = kept;
    removed
}

} // verus!
