use rope_sim::fixed::{LIMIT, SCALE};
use rope_sim::geometry::{lerp, lerp_vec2, Rect, Vec2};

const U: i64 = SCALE;

#[test]
fn new_and_zero_build_vectors() {
    assert_eq!(Vec2::new(3, -4), Vec2 { x: 3, y: -4 });
    assert_eq!(Vec2::zero(), Vec2 { x: 0, y: 0 });
}

#[test]
fn plus_and_minus_work_by_coordinate() {
    let a = Vec2::new(3 * U, -4 * U);
    let b = Vec2::new(-U, 6 * U);
    assert_eq!(a.plus(b), Vec2::new(2 * U, 2 * U));
    assert_eq!(a.minus(b), Vec2::new(4 * U, -10 * U));
    assert_eq!(a.minus(a), Vec2::zero());
}

#[test]
fn plus_and_minus_saturate_at_the_walls() {
    assert_eq!(Vec2::new(LIMIT, 0).plus(Vec2::new(1, 0)), Vec2::new(LIMIT, 0));
    assert_eq!(Vec2::new(-LIMIT, 5).minus(Vec2::new(1, 0)), Vec2::new(-LIMIT, 5));
    assert_eq!(Vec2::new(LIMIT, -LIMIT).minus(Vec2::new(-LIMIT, LIMIT)), Vec2::new(LIMIT, -LIMIT));
}

#[test]
fn clamped_brings_a_vector_into_the_world() {
    assert_eq!(Vec2::new(i64::MAX, i64::MIN).clamped(), Vec2::new(LIMIT, -LIMIT));
    assert_eq!(Vec2::new(7, -9).clamped(), Vec2::new(7, -9));
}

#[test]
fn scaled_multiplies_in_fixed_point() {
    assert_eq!(Vec2::new(3 * U, -4 * U).scaled(U / 2), Vec2::new(98304, -131072));
    assert_eq!(Vec2::new(3 * U, -4 * U).scaled(-2 * U), Vec2::new(-6 * U, 8 * U));
    assert_eq!(Vec2::new(1, -1).scaled(U / 2), Vec2::zero());
    assert_eq!(Vec2::new(3 * U, -4 * U).scaled(0), Vec2::zero());
}

#[test]
fn length_of_a_three_four_five_triangle() {
    assert_eq!(Vec2::new(3 * U, 4 * U).length(), 5 * U);
    assert_eq!(Vec2::new(-3 * U, 4 * U).length(), 5 * U);
    assert_eq!(Vec2::zero().length(), 0);
    assert_eq!(Vec2::new(1, 1).length(), 1);
    assert_eq!(Vec2::new(2, 0).length(), 2);
}

#[test]
fn length_saturates() {
    assert_eq!(Vec2::new(LIMIT, LIMIT).length(), LIMIT);
    assert_eq!(Vec2::new(i64::MIN, i64::MIN).length(), LIMIT);
}

#[test]
fn normalized_has_length_one() {
    assert_eq!(Vec2::new(3 * U, 4 * U).normalized(), Vec2::new(39321, 52428));
    assert_eq!(Vec2::new(-3 * U, 4 * U).normalized(), Vec2::new(-39321, 52428));
    assert_eq!(Vec2::new(10 * U, 0).normalized(), Vec2::new(U, 0));
    assert_eq!(Vec2::new(0, -1).normalized(), Vec2::new(0, -U));
    assert_eq!(Vec2::new(i64::MIN, 0).normalized(), Vec2::new(-U, 0));
}

#[test]
fn normalized_of_the_null_vector_is_null() {
    assert_eq!(Vec2::zero().normalized(), Vec2::zero());
}

#[test]
fn distance_is_the_length_of_the_difference() {
    assert_eq!(Vec2::new(U, U).distance(Vec2::new(4 * U, 5 * U)), 5 * U);
    assert_eq!(Vec2::new(4 * U, 5 * U).distance(Vec2::new(U, U)), 5 * U);
    assert_eq!(Vec2::new(9, 9).distance(Vec2::new(9, 9)), 0);
}

#[test]
fn midpoint_halves_the_sum() {
    assert_eq!(
        Vec2::new(10 * U, 0).midpoint(Vec2::new(20 * U, 4 * U)),
        Vec2::new(983040, 131072)
    );
    assert_eq!(Vec2::new(0, 0).midpoint(Vec2::new(3, -3)), Vec2::new(1, -1));
    assert_eq!(Vec2::new(LIMIT, LIMIT).midpoint(Vec2::new(LIMIT, LIMIT)), Vec2::new(LIMIT, LIMIT));
}

#[test]
fn lerp_moves_a_fraction_of_the_way() {
    // six hundredths of the way from 0 to 100
    assert_eq!(lerp(0, 100 * U, 3932), 393200);
    assert_eq!(lerp(100 * U, 0, 3932), 6160400);
    assert_eq!(lerp(5, 5, 3932), 5);
    assert_eq!(lerp(-U, U, 0), -U);
    assert_eq!(lerp(-U, U, U), U);
    assert_eq!(lerp(-U, U, U / 2), 0);
}

#[test]
fn lerp_vec2_moves_each_coordinate() {
    assert_eq!(
        lerp_vec2(Vec2::zero(), Vec2::new(100 * U, -50 * U), 6554),
        Vec2::new(655400, -327700)
    );
    let a = Vec2::new(7, -7);
    assert_eq!(lerp_vec2(a, Vec2::new(1000, 1000), 0), a);
}

#[test]
fn rect_width_and_height() {
    let r = Rect { left: -400 * U, right: 400 * U, bottom: -300 * U, top: 300 * U };
    assert_eq!(r.w(), 800 * U);
    assert_eq!(r.h(), 600 * U);
    let wide = Rect { left: -LIMIT, right: LIMIT, bottom: 0, top: 0 };
    assert_eq!(wide.w(), LIMIT);
    assert_eq!(wide.h(), 0);
}

#[test]
fn a_drag_step_ends_between_the_point_and_the_pointer() {
    let point = Vec2::new(3 * U, -2 * U);
    let pointer = Vec2::new(-10 * U, 7 * U);
    let dragged = lerp_vec2(point, pointer, 3932);
    assert_eq!(dragged, Vec2::new(145492, -95684));
    assert!(pointer.x <= dragged.x && dragged.x <= point.x);
    assert!(point.y <= dragged.y && dragged.y <= pointer.y);
    assert_eq!(point.distance(pointer), 1036215);
    assert_eq!(dragged.distance(pointer), 974044);
    assert_eq!(lerp_vec2(pointer, pointer, 3932), pointer);
}
