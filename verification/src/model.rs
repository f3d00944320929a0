//! The game: one rope, the enemies that seek its anchor, and the score.
//!
//! A frame runs in a fixed order. The spawn timer advances. Then, in each of
//! `SUBSTEPS` substeps, the rope runs one cycle of integration and
//! relaxation, a drag pulls the dragged joint toward the pointer, every
//! enemy steps toward where the anchor was when the frame began, and
//! collisions are resolved. After the substeps an enemy may spawn, enemies
//! that left the viewport far behind despawn and score, the rope gains a
//! joint if the score passed a milestone, the spawn delay decays toward its
//! floor, and the camera follows the anchor.
//!
//! A hit under `CollisionPolicy::Hazard` makes the game terminal: the frame
//! in which it happens runs to its end, and no later frame changes anything.

use crate::collision::{check_collisions, resolve, CollisionPolicy};
use crate::enemy::{
    despawn, lemma_survivors_in_world, roll_spawn, spawn_enemy, stepped_all, survivors,
    update_all, Enemy, SpawnRoll, MIN_RADIUS,
};
use crate::fixed::{clamp, fx_add, fx_div_int, fx_mul, quot, SCALE};
use crate::geometry::{lerp_vec2, Rect, Vec2};
use crate::rope::{Rope, RopeView};
use vstd::prelude::*;

verus! {

/// Substeps per frame.
pub const SUBSTEPS: u32 = 5;

/// Passes of corrections in each substep.
pub const RELAX_ITERATIONS: u32 = 5;

/// Joints of the rope when the game begins.
pub const INITIAL_JOINTS: usize = 12;

/// Length of the rope when the game begins: a hundred units.
pub const INITIAL_LENGTH: i64 = 6553600;

/// Fraction of the way to the pointer that a dragged joint covers in each
/// substep: six hundredths.
pub const DRAG_LERP: i64 = 3932;

/// Fraction of the way to the anchor that the camera covers in each frame:
/// one tenth.
pub const CAMERA_LERP: i64 = 6554;

/// How far beyond the viewport an enemy must be to despawn: five hundred
/// units.
pub const DESPAWN_MARGIN: i64 = 32768000;

/// Spawn delay when the game begins: half a unit of time.
pub const INITIAL_SPAWN_DELAY: i64 = 32768;

/// Floor of the spawn delay: a tenth of a unit of time.
pub const SPAWN_DELAY_FLOOR: i64 = 6554;

/// Factor by which the spawn delay decays in each frame: a thousandth less
/// than one.
pub const SPAWN_DELAY_DECAY: i64 = 65470;

/// The rope gains a joint each time the score passes a multiple of this.
pub const GROWTH_INTERVAL: i32 = 3;

/// What one frame takes from outside.
#[derive(Clone, Copy, Debug, PartialEq, Eq, Structural)]
pub struct FrameInput {
    /// Time that the frame covers.
    pub dt: i64,
    /// Where the pointer is. It matters only while a drag is on.
    pub pointer: Vec2,
    /// The visible part of the world.
    pub viewport: Rect,
    /// The draws of the random source for a spawn in this frame.
    pub roll: SpawnRoll,
}

/// The state of the game.
pub struct Model {
    enemies: Vec<Enemy>,
    rope: Rope,
    is_dragging: bool,
    drag_index: Option<usize>,
    enemy_timer: i64,
    spawn_delay: i64,
    camera_position: Vec2,
    score: i32,
    policy: CollisionPolicy,
    is_terminal: bool,
}

/// What the state of the game is, as mathematics sees it.
pub struct ModelView {
    /// The enemies alive, oldest first.
    pub enemies: Seq<Enemy>,
    pub rope: RopeView,
    /// Whether a drag is on.
    pub is_dragging: bool,
    /// The joint that a drag moves.
    pub drag_index: Option<usize>,
    /// Time since the last spawn.
    pub enemy_timer: i64,
    /// Time that must pass between two spawns.
    pub spawn_delay: i64,
    /// Where the camera looks.
    pub camera_position: Vec2,
    /// Enemies that have despawned so far.
    pub score: i32,
    /// What an overlap of an enemy with a joint does.
    pub policy: CollisionPolicy,
    /// Whether the game is over.
    pub is_terminal: bool,
}

/// A score raised by `by`, saturating at the largest score.
pub open spec fn raised(score: i32, by: int) -> i32 {
    if score + by > i32::MAX {
        i32::MAX
    } else {
        (score + by) as i32
    }
}

impl ModelView {
    /// Validity: a valid rope, a spawn delay at or above its floor, a score
    /// that is not negative, a dragged joint that exists, and every enemy
    /// in the world.
    pub open spec fn wf(self) -> bool {
        &&& self.rope.wf()
        &&& self.spawn_delay >= SPAWN_DELAY_FLOOR
        &&& self.score >= 0
        &&& (self.drag_index matches Some(i) ==> i < self.rope.points.len())
        &&& forall|i: int| 0 <= i < self.enemies.len() ==> (#[trigger] self.enemies[i]).in_world()
    }

    /// The game as it begins.
    pub open spec fn initial(policy: CollisionPolicy) -> ModelView {
        ModelView {
            enemies: Seq::empty(),
            rope: RopeView::laid_out(
                Vec2::zero(),
                Vec2 { x: INITIAL_LENGTH, y: 0 },
                INITIAL_JOINTS as nat,
                crate::rope::DEFAULT_THICKNESS,
                Vec2::zero(),
            ),
            is_dragging: false,
            drag_index: Some(0),
            enemy_timer: 0,
            spawn_delay: INITIAL_SPAWN_DELAY,
            camera_position: Vec2::zero(),
            score: 0,
            policy,
            is_terminal: false,
        }
    }

    /// The game with one more enemy, at rest at `position`.
    pub open spec fn with_enemy(self, position: Vec2, radius: i64, color: u32) -> ModelView {
        ModelView { enemies: self.enemies.push(Enemy::new(position, radius, color)), ..self }
    }

    /// The game once a drag has begun: it moves the anchor.
    pub open spec fn pressed(self) -> ModelView {
        ModelView { is_dragging: true, drag_index: Some(0), ..self }
    }

    /// The game once the drag has ended.
    pub open spec fn released(self) -> ModelView {
        ModelView { is_dragging: false, drag_index: None, ..self }
    }

    /// The drag: while one is on, the dragged joint covers the fraction
    /// `DRAG_LERP` of the way to the pointer.
    pub open spec fn dragged(self, pointer: Vec2) -> ModelView {
        if self.is_dragging && self.drag_index is Some {
            let i = self.drag_index->0 as int;
            ModelView {
                rope: RopeView {
                    points: self.rope.points.update(
                        i,
                        lerp_vec2(self.rope.points[i], pointer, DRAG_LERP),
                    ),
                    ..self.rope
                },
                ..self
            }
        } else {
            self
        }
    }

    /// One substep: a cycle of the rope, the drag, a step of every enemy
    /// toward `target`, and a round of collisions. A hit makes the game
    /// terminal.
    pub open spec fn substep(self, pointer: Vec2, target: Vec2, delta_time: i64) -> ModelView {
        let cycled = ModelView { rope: self.rope.update_rope(RELAX_ITERATIONS as nat), ..self };
        let pulled = cycled.dragged(pointer);
        let resolution = resolve(
            pulled.rope,
            stepped_all(pulled.enemies, target, delta_time),
            SUBSTEPS,
            self.policy,
        );
        ModelView {
            rope: resolution.rope,
            enemies: resolution.enemies,
            is_terminal: self.is_terminal || resolution.hit,
            ..pulled
        }
    }

    /// `k` substeps in a row.
    pub open spec fn substeps(
        self,
        pointer: Vec2,
        target: Vec2,
        delta_time: i64,
        k: nat,
    ) -> ModelView
        decreases k,
    {
        if k == 0 {
            self
        } else {
            self.substeps(pointer, target, delta_time, (k - 1) as nat).substep(
                pointer,
                target,
                delta_time,
            )
        }
    }

    /// The spawn check: once the timer has reached the delay, an enemy
    /// spawns and the timer starts again from zero.
    pub open spec fn spawn_enemies(self, viewport: Rect, roll: SpawnRoll) -> ModelView {
        if self.enemy_timer >= self.spawn_delay {
            ModelView {
                enemies: self.enemies.push(spawn_enemy(viewport, roll)),
                enemy_timer: 0,
                ..self
            }
        } else {
            self
        }
    }

    /// The despawn check: enemies beyond the viewport widened by
    /// `DESPAWN_MARGIN` leave, and each one that leaves scores.
    pub open spec fn despawn_enemies(self, viewport: Rect) -> ModelView {
        let kept = survivors(self.enemies, viewport, DESPAWN_MARGIN);
        ModelView {
            enemies: kept,
            score: raised(self.score, self.enemies.len() - kept.len()),
            ..self
        }
    }

    /// Whether the score has passed a milestone since it was `earlier`.
    pub open spec fn passed_milestone(self, earlier: i32) -> bool {
        self.score / GROWTH_INTERVAL > earlier / GROWTH_INTERVAL
    }

    /// Whether the rope can gain a joint: it has a direction, from the
    /// anchor to a free end that does not sit on it, and fewer joints than
    /// the machine can count.
    pub open spec fn can_grow(self) -> bool {
        self.rope.points[self.rope.points.len() - 1] != self.rope.points[0]
            && self.rope.points.len() < usize::MAX
    }

    /// Growth: if the score has passed a milestone since it was `earlier`,
    /// the rope is rebuilt with one joint more, straight along the line from
    /// the anchor to the free end, and so long that its rest length stays
    /// what it was, up to rounding. A rope that cannot grow stays as it is.
    pub open spec fn grown_since(self, earlier: i32) -> ModelView {
        if self.passed_milestone(earlier) && self.can_grow() {
            let count = self.rope.points.len();
            ModelView {
                rope: self.rope.grown(count + 1, self.rope.straight_end(count)),
                ..self
            }
        } else {
            self
        }
    }

    /// Decay of the spawn delay by the factor `SPAWN_DELAY_DECAY`, never
    /// below `SPAWN_DELAY_FLOOR`.
    pub open spec fn decayed(self) -> ModelView {
        let next = clamp(quot(self.spawn_delay * SPAWN_DELAY_DECAY, SCALE as int));
        ModelView {
            spawn_delay: if next < SPAWN_DELAY_FLOOR {
                SPAWN_DELAY_FLOOR
            } else {
                next
            },
            ..self
        }
    }

    /// The first part of a frame: the spawn timer advances by `dt`, then
    /// `SUBSTEPS` substeps run, in which the enemies seek the place where the
    /// anchor is as the frame begins.
    pub open spec fn advanced(self, dt: i64, pointer: Vec2) -> ModelView {
        let timed = ModelView { enemy_timer: clamp(self.enemy_timer + dt), ..self };
        timed.substeps(
            pointer,
            self.rope.points[0],
            clamp(quot(dt as int, SUBSTEPS as int)),
            SUBSTEPS as nat,
        )
    }

    /// The last part of a frame: the despawn check, growth, the decay of the
    /// spawn delay, and the camera, which covers the fraction `CAMERA_LERP`
    /// of the way to `target`.
    pub open spec fn settled(self, viewport: Rect, target: Vec2) -> ModelView {
        let decayed = self.despawn_enemies(viewport).grown_since(self.score).decayed();
        ModelView {
            camera_position: lerp_vec2(self.camera_position, target, CAMERA_LERP),
            ..decayed
        }
    }

    /// One frame. A terminal game stays as it is.
    pub open spec fn tick(self, input: FrameInput) -> ModelView {
        if self.is_terminal {
            self
        } else {
            self.advanced(input.dt, input.pointer).spawn_enemies(
                input.viewport,
                input.roll,
            ).settled(input.viewport, self.rope.points[0])
        }
    }
}

impl View for Model {
    type V = ModelView;

    /// The state of the game, field by field.
    closed spec fn view(&self) -> ModelView {
        ModelView {
            enemies: self.enemies@,
            rope: self.rope@,
            is_dragging: self.is_dragging,
            drag_index: self.drag_index,
            enemy_timer: self.enemy_timer,
            spawn_delay: self.spawn_delay,
            camera_position: self.camera_position,
            score: self.score,
            policy: self.policy,
            is_terminal: self.is_terminal,
        }
    }
}

impl Model {
    /// Validity of the game: that of its view.
    pub open spec fn wf(&self) -> bool {
        self@.wf()
    }

    /// A new game with the given collision policy.
    pub fn new(policy: CollisionPolicy) -> (m: Model)
        ensures
            m.wf(),
            m@ == ModelView::initial(policy),
    {
        let end = Vec2 { x: INITIAL_LENGTH, y: 0 };
        let rope = Rope::new(Vec2::zero(), end, INITIAL_JOINTS).unwrap();
        let m = Model {
            enemies: Vec::new(),
            rope,
            is_dragging: false,
            drag_index: Some(0),
            enemy_timer: 0,
            spawn_delay: INITIAL_SPAWN_DELAY,
            camera_position: Vec2::zero(),
            score: 0,
            policy,
            is_terminal: false,
        };
        assert(m@.enemies =~= Seq::empty());
        m
    }

    /// The rope.
    pub fn rope(&self) -> (r: &Rope)
        ensures
            r@ == self@.rope,
    {
        &self.rope
    }

    /// The enemies alive, oldest first.
    pub fn enemies(&self) -> (r: &Vec<Enemy>)
        ensures
            r@ == self@.enemies,
    {
        &self.enemies
    }

    /// Enemies that have despawned so far.
    pub fn score(&self) -> (r: i32)
        ensures
            r == self@.score,
    {
        self.score
    }

    /// Whether the game is over.
    pub fn is_terminal(&self) -> (r: bool)
        ensures
            r == self@.is_terminal,
    {
        self.is_terminal
    }

    /// Whether a drag is on.
    pub fn is_dragging(&self) -> (r: bool)
        ensures
            r == self@.is_dragging,
    {
        self.is_dragging
    }

    /// The joint that a drag moves.
    pub fn drag_index(&self) -> (r: Option<usize>)
        ensures
            r == self@.drag_index,
    {
        self.drag_index
    }

    /// Time since the last spawn.
    pub fn enemy_timer(&self) -> (r: i64)
        ensures
            r == self@.enemy_timer,
    {
        self.enemy_timer
    }

    /// Time that must pass between two spawns.
    pub fn spawn_delay(&self) -> (r: i64)
        ensures
            r == self@.spawn_delay,
    {
        self.spawn_delay
    }

    /// Where the camera looks.
    pub fn camera_position(&self) -> (r: Vec2)
        ensures
            r == self@.camera_position,
    {
        self.camera_position
    }

    /// What an overlap of an enemy with a joint does.
    pub fn policy(&self) -> (r: CollisionPolicy)
        ensures
            r == self@.policy,
    {
        self.policy
    }

    /// Puts an enemy at rest at `position`, saturated to the world.
    pub fn add_enemy(&mut self, position: Vec2, radius: i64, color: u32)
        requires
            old(self).wf(),
        ensures
            final(self).wf(),
            final(self)@ == old(self)@.with_enemy(position, radius, color),
    {
        self.enemies.push(Enemy::new(position, radius, color));
    }
}

/// A new game in which enemies and joints push each other apart.
pub fn model() -> (m: Model)
    ensures
        m.wf(),
        m@ == ModelView::initial(CollisionPolicy::SoftPush),
{
    Model::new(CollisionPolicy::SoftPush)
}

/// A drag begins. It moves the anchor.
pub fn mouse_pressed(model: &mut Model)
    requires
        old(model).wf(),
    ensures
        final(model).wf(),
        final(model)@ == old(model)@.pressed(),
{
    model.is_dragging = true;
    model.drag_index = Some(0);
}

/// The drag ends.
pub fn mouse_released(model: &mut Model)
    requires
        old(model).wf(),
    ensures
        final(model).wf(),
        final(model)@ == old(model)@.released(),
{
    model.is_dragging = false;
    model.drag_index = None;
}

/// The spawn check with the draws `roll`. Once the timer has reached the
/// delay, the enemy that `roll` describes spawns and is returned, and the
/// timer starts again from zero. Before that nothing happens.
pub fn spawn_with(model: &mut Model, viewport: Rect, roll: SpawnRoll) -> (spawned: Option<Enemy>)
    requires
        old(model).wf(),
    ensures
        final(model).wf(),
        final(model)@ == old(model)@.spawn_enemies(viewport, roll),
        spawned is Some <==> old(model)@.enemy_timer >= old(model)@.spawn_delay,
        spawned matches Some(e) ==> e == spawn_enemy(viewport, roll),
{
    if model.enemy_timer >= model.spawn_delay {
        let enemy = spawn_enemy(viewport, roll);
        model.enemies.push(enemy);
        model.enemy_timer = 0;
        Some(enemy)
    } else {
        None
    }
}

/// The spawn check. Once the timer has reached the delay, an enemy spawns
/// as the random source has it and is returned: it is at rest in the world,
/// just outside an edge of the viewport, with a radius from `MIN_RADIUS` up
/// to but not including `MAX_RADIUS`. Before that nothing happens, and
/// nothing is drawn.
pub fn spawn_enemies(model: &mut Model, viewport: Rect) -> (spawned: Option<Enemy>)
    requires
        old(model).wf(),
    ensures
        final(model).wf(),
        spawned is Some <==> old(model)@.enemy_timer >= old(model)@.spawn_delay,
        spawned is None ==> final(model)@ == old(model)@,
        spawned matches Some(e) ==> exists|roll: SpawnRoll|
            roll.wf() && e == spawn_enemy(viewport, roll) && final(model)@
                == old(model)@.spawn_enemies(viewport, roll),
        spawned matches Some(e) ==> e.in_world() && MIN_RADIUS <= e.radius
            < crate::enemy::MAX_RADIUS,
{
    if model.enemy_timer >= model.spawn_delay {
        let roll = roll_spawn();
        spawn_with(model, viewport, roll)
    } else {
        None
    }
}

/// The despawn check. Returns how many enemies left; the score rises by
/// that number.
pub fn despawn_enemies(model: &mut Model, viewport: Rect) -> (removed: usize)
    requires
        old(model).wf(),
    ensures
        final(model).wf(),
        final(model)@ == old(model)@.despawn_enemies(viewport),
        removed == old(model)@.enemies.len() - final(model)@.enemies.len(),
        final(model)@.score >= old(model)@.score,
{
    proof {
        lemma_survivors_in_world(model@.enemies, viewport, DESPAWN_MARGIN);
    }
    let removed = despawn(&mut model.enemies, viewport, DESPAWN_MARGIN);
    let total = model.score as i128 + removed as i128;
    model.score = if total > i32::MAX as i128 {
        i32::MAX
    } else {
        total as i32
    };
    removed
}

/// One substep.
fn substep(model: &mut Model, pointer: Vec2, target: Vec2, delta_time: i64)
    requires
        old(model).wf(),
    ensures
        final(model).wf(),
        final(model)@ == old(model)@.substep(pointer, target, delta_time),
        final(model)@.is_terminal ==> old(model)@.is_terminal || old(model)@.policy
            == CollisionPolicy::Hazard,
{
    model.rope.update_rope(RELAX_ITERATIONS);
    if model.is_dragging {
        if let Some(index) = model.drag_index {
            let current = model.rope.points()[index];
            model.rope.set_point(index, lerp_vec2(current, pointer, DRAG_LERP));
        }
    }
    update_all(&mut model.enemies, target, delta_time);
    let hit = check_collisions(&mut model.rope, &mut model.enemies, SUBSTEPS, model.policy);
    if hit {
        model.is_terminal = true;
    }
}

/// Lets the rope grow if the score has passed a milestone.
fn grow_on_milestone(model: &mut Model, earlier: i32)
    requires
        old(model).wf(),
        earlier >= 0,
    ensures
        final(model).wf(),
        final(model)@ == old(model)@.grown_since(earlier),
{
    if model.score / GROWTH_INTERVAL > earlier / GROWTH_INTERVAL {
        let n = model.rope.len();
        if model.rope.points()[n - 1] != model.rope.points()[0] && n < usize::MAX {
            let new_end = model.rope.straight_end(n);
            let grown = model.rope.grow(n + 1, new_end);
            assert(grown is Ok);
        }
    }
}

/// Lets the spawn delay decay.
fn decay(model: &mut Model)
    requires
        old(model).wf(),
    ensures
        final(model).wf(),
        final(model)@ == old(model)@.decayed(),
{
    let next = fx_mul(model.spawn_delay, SPAWN_DELAY_DECAY);
    model.spawn_delay = if next < SPAWN_DELAY_FLOOR {
        SPAWN_DELAY_FLOOR
    } else {
        next
    };
}

/// The first part of a frame. Returns the place that the enemies sought:
/// where the anchor was as the frame began.
fn advance(model: &mut Model, dt: i64, pointer: Vec2) -> (target: Vec2)
    requires
        old(model).wf(),
    ensures
        final(model).wf(),
        final(model)@ == old(model)@.advanced(dt, pointer),
        target == old(model)@.rope.points[0],
        final(model)@.score == old(model)@.score,
        final(model)@.spawn_delay == old(model)@.spawn_delay,
        final(model)@.policy == old(model)@.policy,
        final(model)@.camera_position == old(model)@.camera_position,
        final(model)@.is_terminal ==> old(model)@.is_terminal || old(model)@.policy
            == CollisionPolicy::Hazard,
{
    let target = model.rope.points()[0];
    let delta_time = fx_div_int(dt, SUBSTEPS as u64);
    model.enemy_timer = fx_add(model.enemy_timer, dt);
    let ghost timed = model@;
    let mut k: u32 = 0;
    while k < SUBSTEPS
        invariant
            k <= SUBSTEPS,
            model.wf(),
            model@ == timed.substeps(pointer, target, delta_time, k as nat),
            model@.score == timed.score,
            model@.spawn_delay == timed.spawn_delay,
            model@.policy == timed.policy,
            model@.camera_position == timed.camera_position,
            model@.is_terminal ==> timed.is_terminal || timed.policy == CollisionPolicy::Hazard,
        decreases SUBSTEPS - k,
    {
        substep(model, pointer, target, delta_time);
        k += 1;
    }
    target
}

/// The last part of a frame.
fn settle(model: &mut Model, viewport: Rect, target: Vec2)
    requires
        old(model).wf(),
    ensures
        final(model).wf(),
        final(model)@ == old(model)@.settled(viewport, target),
        final(model)@.score >= old(model)@.score,
        final(model)@.policy == old(model)@.policy,
        final(model)@.is_terminal == old(model)@.is_terminal,
{
    let earlier = model.score;
    despawn_enemies(model, viewport);
    grow_on_milestone(model, earlier);
    decay(model);
    model.camera_position = lerp_vec2(model.camera_position, target, CAMERA_LERP);
}

/// Runs one frame with the draws that `input` brings. The score never
/// falls, the spawn delay never falls below its floor, a terminal game
/// stays terminal and unchanged, and only a hit under
/// `CollisionPolicy::Hazard` makes a game terminal.
pub fn tick(model: &mut Model, input: FrameInput)
    requires
        old(model).wf(),
    ensures
        final(model).wf(),
        final(model)@ == old(model)@.tick(input),
        final(model)@.score >= old(model)@.score,
        final(model)@.spawn_delay >= SPAWN_DELAY_FLOOR,
        old(model)@.is_terminal ==> final(model)@ == old(model)@,
        final(model)@.policy == old(model)@.policy,
        final(model)@.is_terminal && !old(model)@.is_terminal ==> old(model)@.policy
            == CollisionPolicy::Hazard,
{
    if model.is_terminal {
        return ;
    }
    let target = advance(model, input.dt, input.pointer);
    spawn_with(model, input.viewport, input.roll);
    settle(model, input.viewport, target);
}

/// Runs one frame of `dt` with the pointer at `pointer` and the viewport
/// `viewport`, and draws from the random source if an enemy is to spawn.
/// The frame is the one that `tick` runs with some draws that the random
/// source can give.
pub fn update(model: &mut Model, dt: i64, pointer: Vec2, viewport: Rect)
    requires
        old(model).wf(),
    ensures
        final(model).wf(),
        exists|roll: SpawnRoll|
            roll.wf() && final(model)@ == old(model)@.tick(
                (FrameInput { dt, pointer, viewport, roll }),
            ),
        final(model)@.score >= old(model)@.score,
        final(model)@.spawn_delay >= SPAWN_DELAY_FLOOR,
        old(model)@.is_terminal ==> final(model)@ == old(model)@,
        final(model)@.policy == old(model)@.policy,
        final(model)@.is_terminal && !old(model)@.is_terminal ==> old(model)@.policy
            == CollisionPolicy::Hazard,
{
    let ghost rest = SpawnRoll { axis: 0, edge: 0, along: 0, radius: MIN_RADIUS, color: 0 };
    if model.is_terminal {
        assert(rest.wf() && model@ == model@.tick(
            (FrameInput { dt, pointer, viewport, roll: rest }),
        ));
        return ;
    }
    let ghost before = model@;
    let target = advance(model, dt, pointer);
    let ghost advanced = model@;
    let spawned = spawn_enemies(model, viewport);
    let ghost roll = if spawned is Some {
        choose|roll: SpawnRoll|
            roll.wf() && model@ == advanced.spawn_enemies(viewport, roll)
    } else {
        rest
    };
    settle(model, viewport, target);
    assert(roll.wf() && model@ == before.tick((FrameInput { dt, pointer, viewport, roll })));
}

} // verus!
