use rope_sim::collision::CollisionPolicy;
use rope_sim::enemy::{SpawnRoll, HALF, MAX_RADIUS, MIN_RADIUS};
use rope_sim::fixed::SCALE;
use rope_sim::geometry::{Rect, Vec2};
use rope_sim::model::{
    despawn_enemies, model, mouse_pressed, mouse_released, spawn_enemies, spawn_with, tick,
    update, FrameInput, Model, DESPAWN_MARGIN, INITIAL_JOINTS, INITIAL_SPAWN_DELAY,
    SPAWN_DELAY_FLOOR, SUBSTEPS,
};

const U: i64 = SCALE;
const DT: i64 = 655;

fn viewport() -> Rect {
    Rect { left: -400 * U, right: 400 * U, bottom: -300 * U, top: 300 * U }
}

fn input(pointer: Vec2) -> FrameInput {
    FrameInput {
        dt: DT,
        pointer,
        viewport: viewport(),
        roll: SpawnRoll { axis: 0, edge: 0, along: HALF, radius: 15 * U, color: 0x112233 },
    }
}

#[test]
fn the_game_begins_with_a_rope_of_twelve_joints() {
    let m = model();
    assert_eq!(m.rope().len(), 12);
    assert_eq!(INITIAL_JOINTS, 12);
    assert_eq!(m.rope().segment_length(), 595781);
    assert_eq!(m.rope().points()[0], Vec2::new(0, 0));
    assert_eq!(m.rope().points()[1], Vec2::new(595781, 0));
    assert_eq!(m.rope().points()[11], Vec2::new(6553591, 0));
    assert!(m.enemies().is_empty());
    assert!(!m.is_dragging());
    assert_eq!(m.drag_index(), Some(0));
    assert_eq!(m.enemy_timer(), 0);
    assert_eq!(m.spawn_delay(), U / 2);
    assert_eq!(m.spawn_delay(), INITIAL_SPAWN_DELAY);
    assert_eq!(m.camera_position(), Vec2::zero());
    assert_eq!(m.score(), 0);
    assert!(!m.is_terminal());
    assert_eq!(m.policy(), CollisionPolicy::SoftPush);
    assert_eq!(Model::new(CollisionPolicy::Hazard).policy(), CollisionPolicy::Hazard);
    assert_eq!(SUBSTEPS, 5);
    assert_eq!(DESPAWN_MARGIN, 500 * U);
}

#[test]
fn the_mouse_starts_and_ends_a_drag_of_the_anchor() {
    let mut m = model();
    mouse_pressed(&mut m);
    assert!(m.is_dragging());
    assert_eq!(m.drag_index(), Some(0));
    mouse_released(&mut m);
    assert!(!m.is_dragging());
    assert_eq!(m.drag_index(), None);
    mouse_pressed(&mut m);
    assert!(m.is_dragging());
    assert_eq!(m.drag_index(), Some(0));
}

#[test]
fn a_frame_advances_the_timer_and_lets_the_delay_decay() {
    let mut m = model();
    tick(&mut m, input(Vec2::zero()));
    assert_eq!(m.enemy_timer(), 655);
    assert_eq!(m.spawn_delay(), 32735);
    assert_eq!(m.score(), 0);
    assert!(m.enemies().is_empty());
    assert_eq!(m.camera_position(), Vec2::zero());
    assert_eq!(m.rope().points()[0], Vec2::new(0, 0));
    assert_eq!(m.rope().points()[11], Vec2::new(6553591, 0));
}

#[test]
fn the_first_enemy_spawns_once_the_timer_reaches_the_delay() {
    let mut m = model();
    let mut frame = 0;
    while frame < 47 {
        tick(&mut m, input(Vec2::zero()));
        assert!(m.enemies().is_empty());
        frame += 1;
    }
    tick(&mut m, input(Vec2::zero()));
    assert_eq!(m.enemies().len(), 1);
    assert_eq!(m.enemy_timer(), 0);
    assert_eq!(m.spawn_delay(), 31201);
    let e = m.enemies()[0];
    assert_eq!(e.position, Vec2::new(-401 * U, 0));
    assert_eq!(e.prev_position, Vec2::new(-401 * U, 0));
    assert_eq!(e.radius, 15 * U);
    assert_eq!(e.color, 0x112233);
    tick(&mut m, input(Vec2::zero()));
    assert_eq!(m.enemies().len(), 1);
    assert_eq!(m.enemy_timer(), 655);
    assert_eq!(m.enemies()[0].position, Vec2::new(-26277971, 0));
    assert_eq!(m.enemies()[0].prev_position, Vec2::new(-26278626, 0));
}

#[test]
fn spawn_with_fires_only_when_the_timer_has_reached_the_delay() {
    let mut m = model();
    let roll = input(Vec2::zero()).roll;
    assert_eq!(spawn_with(&mut m, viewport(), roll), None);
    assert!(m.enemies().is_empty());
    let mut frame = 0;
    while m.enemy_timer() < m.spawn_delay() {
        tick(&mut m, FrameInput { dt: 4000, ..input(Vec2::zero()) });
        assert!(m.enemies().len() <= 1);
        if m.enemies().len() == 1 {
            break;
        }
        frame += 1;
    }
    assert!(frame < 20);
    assert_eq!(m.enemies().len(), 1);
    assert_eq!(m.enemy_timer(), 0);
    assert_eq!(spawn_with(&mut m, viewport(), roll), None);
    assert_eq!(m.enemies().len(), 1);
}

#[test]
fn spawn_enemies_draws_an_enemy_on_an_edge() {
    let mut m = model();
    assert_eq!(spawn_enemies(&mut m, viewport()), None);
    tick(&mut m, FrameInput { dt: 20000, ..input(Vec2::zero()) });
    while m.enemy_timer() < m.spawn_delay() {
        tick(&mut m, FrameInput { dt: 0, ..input(Vec2::zero()) });
    }
    assert!(m.enemies().is_empty());
    assert_eq!(m.enemy_timer(), 20000);
    let spawned = spawn_enemies(&mut m, viewport());
    assert!(spawned.is_some());
    let e = spawned.unwrap();
    assert_eq!(m.enemies().len(), 1);
    assert_eq!(m.enemies()[0], e);
    assert_eq!(m.enemy_timer(), 0);
    assert_eq!(e.position, e.prev_position);
    assert!(MIN_RADIUS <= e.radius && e.radius < MAX_RADIUS);
    let on_side = (e.position.x == -401 * U || e.position.x == 401 * U)
        && -300 * U <= e.position.y
        && e.position.y < 300 * U;
    let on_end = (e.position.y == -301 * U || e.position.y == 301 * U)
        && -400 * U <= e.position.x
        && e.position.x < 400 * U;
    assert!(on_side || on_end);
    assert_eq!(spawn_enemies(&mut m, viewport()), None);
}

#[test]
fn enemies_that_leave_score_and_the_rope_grows_at_the_third() {
    let mut m = model();
    m.add_enemy(Vec2::new(2000 * U, 0), 10 * U, 1);
    m.add_enemy(Vec2::new(2000 * U, U), 10 * U, 2);
    m.add_enemy(Vec2::new(2000 * U, 2 * U), 10 * U, 3);
    m.add_enemy(Vec2::new(300 * U, 200 * U), 10 * U, 4);
    tick(&mut m, input(Vec2::zero()));
    assert_eq!(m.score(), 3);
    assert_eq!(m.enemies().len(), 1);
    assert_eq!(m.enemies()[0].color, 4);
    assert_eq!(m.enemies()[0].position, Vec2::new(19659180, 13106120));
    assert_eq!(m.rope().len(), 13);
    assert_eq!(m.rope().segment_length(), 595781);
    assert_eq!(m.rope().points()[12], Vec2::new(7149372, 0));
    assert_eq!(m.rope().points()[1], Vec2::new(595781, 0));
    assert_eq!(m.rope().points(), m.rope().prev_points());
}

#[test]
fn the_rope_grows_only_when_a_milestone_is_passed() {
    let mut m = model();
    m.add_enemy(Vec2::new(2000 * U, 0), 10 * U, 1);
    m.add_enemy(Vec2::new(2000 * U, U), 10 * U, 2);
    tick(&mut m, input(Vec2::zero()));
    assert_eq!(m.score(), 2);
    assert_eq!(m.rope().len(), 12);
    tick(&mut m, input(Vec2::zero()));
    assert_eq!(m.score(), 2);
    assert_eq!(m.rope().len(), 12);
    m.add_enemy(Vec2::new(-2000 * U, 0), 10 * U, 3);
    tick(&mut m, input(Vec2::zero()));
    assert_eq!(m.score(), 3);
    assert_eq!(m.rope().len(), 13);
    tick(&mut m, input(Vec2::zero()));
    assert_eq!(m.score(), 3);
    assert_eq!(m.rope().len(), 13);
}

#[test]
fn despawn_enemies_counts_those_that_left() {
    let mut m = model();
    m.add_enemy(Vec2::new(901 * U, 0), U, 1);
    m.add_enemy(Vec2::new(900 * U, 0), 0, 2);
    m.add_enemy(Vec2::new(0, -802 * U), U, 3);
    m.add_enemy(Vec2::new(902 * U, 0), U, 4);
    assert_eq!(despawn_enemies(&mut m, viewport()), 2);
    assert_eq!(m.score(), 2);
    assert_eq!(m.enemies().len(), 2);
    assert_eq!(m.enemies()[0].color, 1);
    assert_eq!(m.enemies()[1].color, 2);
    assert_eq!(despawn_enemies(&mut m, viewport()), 0);
    assert_eq!(m.score(), 2);
}

#[test]
fn the_spawn_delay_never_falls_below_its_floor() {
    let mut m = model();
    let still = FrameInput { dt: 0, ..input(Vec2::zero()) };
    let mut frame = 0;
    let mut last = m.spawn_delay();
    while frame < 1541 {
        tick(&mut m, still);
        assert!(m.spawn_delay() < last);
        assert!(m.spawn_delay() > SPAWN_DELAY_FLOOR);
        last = m.spawn_delay();
        frame += 1;
    }
    tick(&mut m, still);
    assert_eq!(m.spawn_delay(), SPAWN_DELAY_FLOOR);
    tick(&mut m, still);
    assert_eq!(m.spawn_delay(), SPAWN_DELAY_FLOOR);
    assert_eq!(SPAWN_DELAY_FLOOR, 6554);
}

#[test]
fn under_hazard_a_hit_ends_the_game_for_good() {
    let mut m = Model::new(CollisionPolicy::Hazard);
    m.add_enemy(Vec2::new(0, 6 * U), 10 * U, 0);
    tick(&mut m, input(Vec2::zero()));
    assert!(m.is_terminal());
    assert_eq!(m.enemy_timer(), 655);
    assert_eq!(m.spawn_delay(), 32735);
    assert_eq!(m.rope().points()[0], Vec2::new(0, 0));
    assert_eq!(m.rope().points()[1], Vec2::new(595781, 0));
    assert_eq!(m.enemies()[0].position, Vec2::new(-286981, 770056));
    assert_eq!(m.enemies()[0].prev_position, Vec2::new(-214941, 675561));
    let enemies = m.enemies().clone();
    let points = m.rope().points().clone();
    let mut frame = 0;
    while frame < 100 {
        tick(&mut m, input(Vec2::new(50 * U, 50 * U)));
        update(&mut m, DT, Vec2::new(50 * U, 50 * U), viewport());
        frame += 1;
    }
    assert!(m.is_terminal());
    assert_eq!(m.enemy_timer(), 655);
    assert_eq!(m.spawn_delay(), 32735);
    assert_eq!(m.enemies(), &enemies);
    assert_eq!(m.rope().points(), &points);
    assert_eq!(m.score(), 0);
}

#[test]
fn under_soft_push_an_overlap_moves_both_and_the_game_goes_on() {
    let mut m = model();
    m.add_enemy(Vec2::new(0, 6 * U), 10 * U, 0);
    tick(&mut m, input(Vec2::zero()));
    assert!(!m.is_terminal());
    assert_eq!(m.enemies()[0].position, Vec2::new(-245880, 851343));
    assert_eq!(m.enemies()[0].prev_position, Vec2::new(-186587, 743811));
    assert_eq!(m.rope().points()[0], Vec2::new(478, -23049));
    assert_eq!(m.rope().points()[1], Vec2::new(595792, 0));
    assert_eq!(m.rope().points()[2], Vec2::new(1191559, 0));
}

#[test]
fn a_drag_pulls_the_anchor_toward_the_pointer() {
    let mut m = model();
    mouse_pressed(&mut m);
    tick(&mut m, input(Vec2::new(10 * U, 10 * U)));
    assert_eq!(m.rope().points()[0], Vec2::new(174380, 174380));
    assert_eq!(m.rope().points()[1], Vec2::new(683555, -85004));
    assert_eq!(m.rope().points()[2], Vec2::new(1263289, 16520));
    assert_eq!(m.camera_position(), Vec2::zero());
    tick(&mut m, input(Vec2::new(10 * U, 10 * U)));
    assert_eq!(m.rope().points()[0], Vec2::new(302359, 302359));
    assert_eq!(m.rope().points()[1], Vec2::new(706810, -137687));
    assert_eq!(m.camera_position(), Vec2::new(17439, 17439));
}

#[test]
fn without_a_drag_the_pointer_moves_nothing() {
    let mut m = model();
    tick(&mut m, input(Vec2::new(10 * U, 10 * U)));
    assert_eq!(m.rope().points()[0], Vec2::new(0, 0));
    assert_eq!(m.rope().points()[1], Vec2::new(595781, 0));
    assert_eq!(m.rope().points()[2], Vec2::new(1191562, 0));
    let mut released = model();
    mouse_pressed(&mut released);
    mouse_released(&mut released);
    tick(&mut released, input(Vec2::new(10 * U, 10 * U)));
    assert_eq!(released.rope().points()[0], Vec2::new(0, 0));
}

#[test]
fn update_runs_frames_with_random_spawns() {
    let mut m = model();
    let mut frame = 0;
    let mut score = 0;
    let mut delay = m.spawn_delay();
    while frame < 600 {
        update(&mut m, DT, Vec2::zero(), viewport());
        assert!(m.score() >= score);
        assert!(m.spawn_delay() <= delay);
        assert!(m.spawn_delay() >= SPAWN_DELAY_FLOOR);
        assert!(!m.is_terminal());
        assert!(m.rope().len() >= 12);
        assert!(m.rope().len() <= 12 + (m.score() / 3) as usize);
        score = m.score();
        delay = m.spawn_delay();
        frame += 1;
    }
    assert!(m.enemies().len() >= 10);
    let mut i = 0;
    while i < m.enemies().len() {
        let e = m.enemies()[i];
        assert!(MIN_RADIUS <= e.radius && e.radius < MAX_RADIUS);
        i += 1;
    }
}

#[test]
fn a_curled_rope_keeps_its_rest_length_when_it_grows() {
    let mut m = model();
    mouse_pressed(&mut m);
    let pull = input(Vec2::new(-90 * U, 40 * U));
    let mut frame = 0;
    while frame < 120 {
        tick(&mut m, pull);
        frame += 1;
    }
    assert_eq!(m.rope().len(), 12);
    assert_eq!(m.rope().segment_length(), 595781);
    assert_eq!(m.rope().points()[0], Vec2::new(-5898224, 2621424));
    assert_eq!(m.rope().points()[11], Vec2::new(-2416069, -2807133));
    assert_eq!(m.enemies().len(), 2);
    m.add_enemy(Vec2::new(2000 * U, 0), 10 * U, 1);
    m.add_enemy(Vec2::new(2000 * U, U), 10 * U, 2);
    m.add_enemy(Vec2::new(2000 * U, 2 * U), 10 * U, 3);
    tick(&mut m, pull);
    assert_eq!(m.score(), 3);
    assert_eq!(m.enemies().len(), 2);
    assert_eq!(m.rope().len(), 13);
    assert_eq!(m.rope().segment_length(), 595773);
    assert_eq!(m.rope().points()[0], Vec2::new(-5898224, 2621424));
    assert_eq!(m.rope().points()[12], Vec2::new(-2559983, -3700518));
}

fn draw(state: &mut u64) -> i64 {
    *state = state.wrapping_mul(6364136223846793005).wrapping_add(1442695040888963407);
    (*state >> 33) as i64
}

fn mix(acc: i128, terms: &[i64]) -> i128 {
    let mut sum = acc * 31;
    let mut i = 0;
    while i < terms.len() {
        sum += terms[i] as i128;
        i += 1;
    }
    sum.rem_euclid((1i128 << 61) - 1)
}

#[test]
fn four_hundred_frames_of_play_end_where_they_must() {
    let mut state: u64 = 0x9E3779B97F4A7C15;
    let mut m = model();
    mouse_pressed(&mut m);
    let mut k: i64 = 0;
    while k < 400 {
        if k == 250 {
            mouse_released(&mut m);
        }
        if k == 300 {
            mouse_pressed(&mut m);
        }
        if k % 40 == 7 {
            let x = (draw(&mut state) % 3000 - 1500) * U;
            let y = (draw(&mut state) % 3000 - 1500) * U;
            let radius = (draw(&mut state) % 30) * U;
            let color = (draw(&mut state) % 0x1000000) as u32;
            m.add_enemy(Vec2::new(x, y), radius, color);
        }
        if k % 25 == 3 {
            let x = (draw(&mut state) % 60) * U;
            let y = (draw(&mut state) % 40 - 20) * U;
            let radius = (5 + draw(&mut state) % 20) * U;
            m.add_enemy(Vec2::new(x, y), radius, 1);
        }
        let pointer = Vec2::new(((k * 37) % 200 - 100) * U, ((k * 53) % 160 - 80) * U);
        let axis = draw(&mut state) % SCALE;
        let edge = draw(&mut state) % SCALE;
        let along = draw(&mut state) % SCALE;
        let radius = 655360 + draw(&mut state) % 655360;
        let color = (draw(&mut state) % 0x1000000) as u32;
        let roll = SpawnRoll { axis, edge, along, radius, color };
        tick(&mut m, FrameInput { dt: DT, pointer, viewport: viewport(), roll });
        k += 1;
    }
    assert_eq!(m.score(), 15);
    assert_eq!(m.rope().len(), 17);
    assert_eq!(m.enemies().len(), 20);
    assert_eq!(m.enemy_timer(), 21615);
    assert_eq!(m.spawn_delay(), 21735);
    assert_eq!(m.camera_position(), Vec2::new(-118394, 342913));
    assert_eq!(m.rope().segment_length(), 595752);
    assert_eq!(m.rope().points()[0], Vec2::new(924523, -319163));
    assert_eq!(m.rope().points()[16], Vec2::new(2792473, -2082287));
    assert_eq!(m.enemies()[0].position, Vec2::new(-4717938, -9913879));
    assert_eq!(m.enemies()[0].prev_position, Vec2::new(-4668873, -9783799));
    assert_eq!(m.enemies()[0].radius, 1166146);
    assert!(!m.is_terminal());
    let mut acc: i128 = 0;
    let mut i = 0;
    while i < m.rope().len() {
        let p = m.rope().points()[i];
        acc = mix(acc, &[p.x * 7, p.y]);
        i += 1;
    }
    let mut i = 0;
    while i < m.rope().len() {
        let p = m.rope().prev_points()[i];
        acc = mix(acc, &[p.x * 7, p.y]);
        i += 1;
    }
    let mut i = 0;
    while i < m.enemies().len() {
        let e = m.enemies()[i];
        acc = mix(
            acc,
            &[
                e.position.x * 7,
                e.position.y * 5,
                e.prev_position.x * 3,
                e.prev_position.y,
                e.radius,
                e.color as i64,
            ],
        );
        i += 1;
    }
    assert_eq!(acc, 759803765447850599);
}
