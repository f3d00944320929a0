use rope_sim::collision::{check_collisions, CollisionPolicy};
use rope_sim::enemy::Enemy;
use rope_sim::fixed::{LIMIT, SCALE};
use rope_sim::geometry::Vec2;
use rope_sim::rope::Rope;

const U: i64 = SCALE;

fn far_rope() -> Rope {
    Rope::new(Vec2::new(1000 * U, 1000 * U), Vec2::new(1040 * U, 1000 * U), 2).unwrap()
}

fn long_rope() -> Rope {
    Rope::new(Vec2::new(0, 0), Vec2::new(200 * U, 0), 2).unwrap()
}

fn at(x: i64, y: i64) -> Enemy {
    Enemy::new(Vec2::new(x, y), 10 * U, 0)
}

#[test]
fn two_overlapping_enemies_are_pushed_apart_by_opposite_vectors() {
    let mut rope = far_rope();
    let mut enemies = vec![at(0, 0), at(15 * U, 0)];
    assert!(!check_collisions(&mut rope, &mut enemies, 5, CollisionPolicy::SoftPush));
    // overlap 5, over 5 substeps, halved: half a unit each
    assert_eq!(enemies[0].position, Vec2::new(-U / 2, 0));
    assert_eq!(enemies[1].position, Vec2::new(15 * U + U / 2, 0));
    assert_eq!(enemies[0].prev_position, Vec2::new(0, 0));
    assert_eq!(enemies[1].prev_position, Vec2::new(15 * U, 0));
    assert_eq!(rope.points(), &vec![Vec2::new(1000 * U, 1000 * U), Vec2::new(1040 * U, 1000 * U)]);
}

#[test]
fn the_push_is_divided_by_the_number_of_substeps() {
    let mut rope = far_rope();
    let mut enemies = vec![at(0, 0), at(15 * U, 0)];
    check_collisions(&mut rope, &mut enemies, 1, CollisionPolicy::SoftPush);
    assert_eq!(enemies[0].position, Vec2::new(-163840, 0));
    assert_eq!(enemies[1].position, Vec2::new(1146880, 0));
}

#[test]
fn the_push_follows_the_line_between_the_centres() {
    let mut rope = far_rope();
    let mut enemies = vec![at(0, 0), at(3 * U, 4 * U)];
    check_collisions(&mut rope, &mut enemies, 5, CollisionPolicy::SoftPush);
    assert_eq!(enemies[0].position, Vec2::new(-58981, -78642));
    assert_eq!(enemies[1].position, Vec2::new(255589, 340786));
    let moved_first = enemies[0].position.minus(Vec2::new(0, 0));
    let moved_second = enemies[1].position.minus(Vec2::new(3 * U, 4 * U));
    assert_eq!(moved_first.x, -moved_second.x);
    assert_eq!(moved_first.y, -moved_second.y);
    assert!(enemies[0].position.distance(enemies[1].position) > 5 * U);
}

#[test]
fn coincident_enemies_are_left_where_they_are() {
    let mut rope = far_rope();
    let mut enemies = vec![at(7 * U, 7 * U), at(7 * U, 7 * U)];
    assert!(!check_collisions(&mut rope, &mut enemies, 5, CollisionPolicy::SoftPush));
    assert_eq!(enemies[0].position, Vec2::new(7 * U, 7 * U));
    assert_eq!(enemies[1].position, Vec2::new(7 * U, 7 * U));
}

#[test]
fn enemies_that_only_touch_do_not_move() {
    let mut rope = far_rope();
    let mut enemies = vec![at(0, 0), at(20 * U, 0)];
    check_collisions(&mut rope, &mut enemies, 5, CollisionPolicy::SoftPush);
    assert_eq!(enemies[0].position, Vec2::new(0, 0));
    assert_eq!(enemies[1].position, Vec2::new(20 * U, 0));
}

#[test]
fn every_pair_is_resolved_in_order() {
    let mut rope = far_rope();
    let mut enemies = vec![at(0, 0), at(5 * U, 0), at(10 * U, 0)];
    check_collisions(&mut rope, &mut enemies, 5, CollisionPolicy::SoftPush);
    assert_eq!(enemies[0].position, Vec2::new(-154009, 0));
    assert_eq!(enemies[1].position, Vec2::new(323421, 0));
    assert_eq!(enemies[2].position, Vec2::new(813628, 0));
}

#[test]
fn an_enemy_and_a_joint_push_each_other_apart() {
    let mut rope = long_rope();
    let mut enemies = vec![at(0, 6 * U)];
    assert!(!check_collisions(&mut rope, &mut enemies, 5, CollisionPolicy::SoftPush));
    assert_eq!(rope.points(), &vec![Vec2::new(0, -18277), Vec2::new(200 * U, 0)]);
    assert_eq!(enemies[0].position, Vec2::new(-64118, 415518));
    assert_eq!(rope.prev_points(), &vec![Vec2::new(0, 0), Vec2::new(200 * U, 0)]);
}

#[test]
fn under_hazard_an_overlap_with_a_joint_is_a_hit_and_moves_no_joint() {
    let mut rope = long_rope();
    let mut enemies = vec![at(0, 6 * U)];
    assert!(check_collisions(&mut rope, &mut enemies, 5, CollisionPolicy::Hazard));
    assert_eq!(rope.points(), &vec![Vec2::new(0, 0), Vec2::new(200 * U, 0)]);
    assert_eq!(enemies[0].position, Vec2::new(-64241, 397070));
}

#[test]
fn the_thickness_shifts_the_contact_to_the_right() {
    let mut rope = long_rope();
    let mut left = vec![at(-8 * U, 0)];
    assert!(!check_collisions(&mut rope, &mut left, 5, CollisionPolicy::Hazard));
    let mut right = vec![at(12 * U, 0)];
    assert!(check_collisions(&mut rope, &mut right, 5, CollisionPolicy::Hazard));
    assert_eq!(left[0].position, Vec2::new(-537395, 0));
    assert_eq!(right[0].position, Vec2::new(642253, 0));
}

#[test]
fn under_hazard_no_overlap_is_no_hit() {
    let mut rope = far_rope();
    let mut enemies = vec![at(0, 0), at(15 * U, 0)];
    assert!(!check_collisions(&mut rope, &mut enemies, 5, CollisionPolicy::Hazard));
    assert_eq!(enemies[0].position, Vec2::new(-U / 2, 0));
}

#[test]
fn the_middle_of_a_segment_pushes_the_enemy_only() {
    let mut rope = Rope::new(Vec2::new(0, 0), Vec2::new(40 * U, 0), 2).unwrap();
    let mut enemies = vec![at(20 * U, 25 * U)];
    assert!(!check_collisions(&mut rope, &mut enemies, 5, CollisionPolicy::SoftPush));
    // reach 10 + 20, distance 25: overlap 5, over 5 substeps, halved
    assert_eq!(enemies[0].position, Vec2::new(20 * U, 25 * U + U / 2));
    assert_eq!(rope.points(), &vec![Vec2::new(0, 0), Vec2::new(40 * U, 0)]);
}

#[test]
fn an_enemy_on_the_middle_of_a_segment_is_left_there() {
    let mut rope = Rope::new(Vec2::new(0, 0), Vec2::new(40 * U, 0), 2).unwrap();
    let mut enemies = vec![at(20 * U, 0)];
    check_collisions(&mut rope, &mut enemies, 5, CollisionPolicy::SoftPush);
    assert_eq!(enemies[0].position, Vec2::new(20 * U, 0));
}

#[test]
fn an_enemy_on_a_joint_is_left_there_and_so_is_the_joint() {
    let mut rope = Rope::new(Vec2::new(0, 0), Vec2::new(0, 0), 2).unwrap();
    let mut enemies = vec![at(0, 0)];
    assert!(!check_collisions(&mut rope, &mut enemies, 5, CollisionPolicy::SoftPush));
    assert_eq!(enemies[0].position, Vec2::new(0, 0));
    assert_eq!(rope.points(), &vec![Vec2::new(0, 0), Vec2::new(0, 0)]);
}

#[test]
fn no_enemies_means_nothing_happens() {
    let mut rope = long_rope();
    let mut enemies: Vec<Enemy> = Vec::new();
    assert!(!check_collisions(&mut rope, &mut enemies, 5, CollisionPolicy::Hazard));
    assert_eq!(rope.points(), &vec![Vec2::new(0, 0), Vec2::new(200 * U, 0)]);
    assert!(enemies.is_empty());
}

fn pair(a: (i64, i64), b: (i64, i64), r0: i64, r1: i64, substeps: u32) -> (i64, Vec<Enemy>) {
    let mut rope = far_rope();
    let mut enemies = vec![
        Enemy::new(Vec2::new(a.0, a.1), r0, 0),
        Enemy::new(Vec2::new(b.0, b.1), r1, 0),
    ];
    let before = enemies[0].position.distance(enemies[1].position);
    check_collisions(&mut rope, &mut enemies, substeps, CollisionPolicy::SoftPush);
    (before, enemies)
}

#[test]
fn a_pair_parts_but_not_past_touching() {
    let (before, after) = pair((3 * U, -7 * U), (9 * U, U), 8 * U, 7 * U, 3);
    assert_eq!(before, 10 * U);
    assert_eq!(after[0].position, Vec2::new(163841, -502441));
    assert_eq!(after[1].position, Vec2::new(622591, 109225));
    let now = after[0].position.distance(after[1].position);
    assert_eq!(now, 764582);
    assert!(before < now && now <= 15 * U);
    let (before, after) = pair((0, 0), (15 * U, 0), 10 * U, 10 * U, 2);
    let now = after[0].position.distance(after[1].position);
    assert_eq!(now, 1146880);
    assert!(before < now && now <= 20 * U);
    let (before, after) = pair((-27, -22), (-23, -27), 36, 28, 2);
    let now = after[0].position.distance(after[1].position);
    assert_eq!((before, now), (6, 34));
    assert!(now <= 64);
}

#[test]
fn with_one_substep_rounding_can_carry_a_tiny_pair_past_touching() {
    let (before, after) = pair((-27, -22), (-23, -27), 36, 28, 1);
    assert_eq!(before, 6);
    assert_eq!(after[0].position, Vec2::new(-46, 2));
    assert_eq!(after[1].position, Vec2::new(-4, -51));
    assert_eq!(after[0].position.distance(after[1].position), 67);
    let (_, large) = pair((0, 0), (3 * U, 4 * U), 10 * U, 10 * U, 1);
    assert_eq!(large[0].position.distance(large[1].position), 1310704);
}

#[test]
fn doubling_the_substeps_halves_the_push() {
    let (_, two) = pair((0, 0), (15 * U, 0), 10 * U, 10 * U, 2);
    let (_, four) = pair((0, 0), (15 * U, 0), 10 * U, 10 * U, 4);
    assert_eq!(two[0].position, Vec2::new(-81920, 0));
    assert_eq!(four[0].position, Vec2::new(-40960, 0));
    assert_eq!(two[1].position, Vec2::new(1064960, 0));
    assert_eq!(four[1].position, Vec2::new(1024000, 0));
}

fn next(state: &mut u64) -> i64 {
    *state = state.wrapping_mul(6364136223846793005).wrapping_add(1442695040888963407);
    (*state >> 11) as i64
}

fn coordinate(state: &mut u64) -> i64 {
    match next(state) % 8 {
        0 => 0,
        1 => LIMIT,
        2 => -LIMIT,
        3 => LIMIT - next(state) % (4 * U),
        _ => next(state) % (200 * U) - 100 * U,
    }
}

fn point(state: &mut u64, pool: &[Vec2]) -> Vec2 {
    if !pool.is_empty() && next(state) % 3 == 0 {
        pool[(next(state) as usize) % pool.len()]
    } else {
        Vec2::new(coordinate(state), coordinate(state))
    }
}

fn in_world(v: Vec2) -> bool {
    -LIMIT <= v.x && v.x <= LIMIT && -LIMIT <= v.y && v.y <= LIMIT
}

#[test]
fn ten_thousand_random_rounds_keep_every_coordinate_in_the_world() {
    let mut state: u64 = 0x2545F4914F6CDD1D;
    let mut round = 0;
    while round < 10000 {
        let mut pool: Vec<Vec2> = Vec::new();
        let joints = 2 + (next(&mut state) % 4) as usize;
        let start = point(&mut state, &pool);
        pool.push(start);
        let end = point(&mut state, &pool);
        let mut rope = Rope::new(start, end, joints).unwrap();
        let mut j = 0;
        while j < joints {
            if next(&mut state) % 2 == 0 {
                let p = point(&mut state, &pool);
                rope.set_point(j, p);
            }
            pool.push(rope.points()[j]);
            j += 1;
        }
        let count = (next(&mut state) % 5) as usize;
        let mut enemies: Vec<Enemy> = Vec::new();
        while enemies.len() < count {
            let p = point(&mut state, &pool);
            pool.push(p);
            let radius = match next(&mut state) % 4 {
                0 => 0,
                1 => LIMIT,
                _ => next(&mut state) % (40 * U),
            };
            enemies.push(Enemy::new(p, radius, 0));
        }
        let substeps = 1 + (next(&mut state) % 8) as u32;
        let policy = if next(&mut state) % 2 == 0 {
            CollisionPolicy::SoftPush
        } else {
            CollisionPolicy::Hazard
        };
        check_collisions(&mut rope, &mut enemies, substeps, policy);
        assert_eq!(rope.len(), joints);
        assert_eq!(enemies.len(), count);
        let mut k = 0;
        while k < joints {
            assert!(in_world(rope.points()[k]));
            k += 1;
        }
        let mut k = 0;
        while k < count {
            assert!(in_world(enemies[k].position));
            assert!(in_world(enemies[k].prev_position));
            k += 1;
        }
        round += 1;
    }
}
