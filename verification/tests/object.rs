use particles::object::{verlet_step, Config, Object, Rgba, RADIUS};
use particles::vector::Vec2;

fn at(x: i32, y: i32, radius: i32) -> Object {
    Object::with_radius(x, y, radius)
}

fn open_space(gravity: Vec2, dt: u32) -> Config {
    Config { gravity, bound: None, dt }
}

#[test]
fn new_particle_is_at_rest() {
    let o = Object::new(12, -7);
    assert_eq!(o.position, Vec2 { x: 12, y: -7 });
    assert_eq!(o.old_position, Vec2 { x: 12, y: -7 });
    assert_eq!(o.acceleration, Vec2 { x: 0, y: 0 });
    assert_eq!(o.radius, 20);
    assert_eq!(RADIUS, 20);
    assert_eq!(o.rgba, Rgba { r: 255, g: 255, b: 255, a: 255 });
}

#[test]
fn particle_of_a_given_radius() {
    let o = Object::with_radius(-3, 9, 1_310_720);
    assert_eq!(o.position, Vec2 { x: -3, y: 9 });
    assert_eq!(o.old_position, Vec2 { x: -3, y: 9 });
    assert_eq!(o.acceleration, Vec2 { x: 0, y: 0 });
    assert_eq!(o.radius, 1_310_720);
    assert_eq!(Object::with_radius(1, 2, 20), Object::new(1, 2));
}

#[test]
fn colour_is_carried_through_a_tick() {
    let cfg = Config { gravity: Vec2 { x: 0, y: -3 }, bound: Some(300), dt: 2 };
    let mut a = at(-5, 0, 20);
    a.rgba = Rgba { r: 1, g: 2, b: 3, a: 4 };
    let mut b = at(5, 0, 20);
    b.rgba = Rgba { r: 9, g: 8, b: 7, a: 6 };
    let mut others = vec![b];
    a.integrate(&cfg, &mut others);
    assert_eq!(a.rgba, Rgba { r: 1, g: 2, b: 3, a: 4 });
    assert_eq!(others[0].rgba, Rgba { r: 9, g: 8, b: 7, a: 6 });
}

#[test]
fn close_pair_on_a_slant_ends_in_touch() {
    let mut a = at(0, 0, 20);
    let mut b = at(1, 1, 20);
    a.resolve(&mut b);
    // 20 / sqrt(2) is 14.14 along each axis; 28 * sqrt(2) is 39.6.
    assert_eq!(a.position, Vec2 { x: -14, y: -14 });
    assert_eq!(b.position, Vec2 { x: 14, y: 14 });
}

#[test]
fn close_pair_of_large_radii() {
    let mut a = at(0, 0, 1_000_000);
    let mut b = at(2, 3, 1_000_000);
    a.resolve(&mut b);
    // The midpoint is (1, 1); 1e6 * 2 / sqrt(13) is 554700.19, 1e6 * 3 / sqrt(13) is 832050.29.
    assert_eq!(a.position, Vec2 { x: 1 - 554_700, y: 1 - 832_050 });
    assert_eq!(b.position, Vec2 { x: 1 + 554_700, y: 1 + 832_050 });
}

#[test]
fn wall_on_a_slant_loses_less_than_a_unit_along_each_axis() {
    let mut o = at(1_000_000, 1_000_000, 0);
    o.apply_bounds(100);
    // 100 / sqrt(2) is 70.71.
    assert_eq!(o.position, Vec2 { x: 70, y: 70 });
    let mut p = at(-7, 1_000, 0);
    p.apply_bounds(500);
    // 500 * 7 / sqrt(1000049) is 3.4999, 500 * 1000 / sqrt(1000049) is 499.98.
    assert_eq!(p.position, Vec2 { x: -3, y: 499 });
}

#[test]
fn accelerate_adds_up() {
    let mut o = Object::new(0, 0);
    o.accelerate(Vec2 { x: 3, y: -4 });
    o.accelerate(Vec2 { x: 1, y: 1 });
    assert_eq!(o.acceleration, Vec2 { x: 4, y: -3 });
    assert_eq!(o.position, Vec2 { x: 0, y: 0 });
}

#[test]
fn accelerate_saturates() {
    let mut o = Object::new(0, 0);
    o.accelerate(Vec2 { x: i32::MAX, y: i32::MIN });
    o.accelerate(Vec2 { x: 1, y: -1 });
    assert_eq!(o.acceleration, Vec2 { x: i32::MAX, y: i32::MIN });
}

#[test]
fn gravity_is_added_to_the_acceleration() {
    let mut o = Object::new(5, 5);
    o.apply_gravity(Vec2 { x: 0, y: -2 });
    assert_eq!(o.acceleration, Vec2 { x: 0, y: -2 });
    o.apply_gravity(Vec2 { x: 0, y: -2 });
    assert_eq!(o.acceleration, Vec2 { x: 0, y: -4 });
}

#[test]
fn wall_leaves_a_disk_inside_alone() {
    let mut o = at(100, 100, 20);
    let before = o;
    o.apply_bounds(300);
    assert_eq!(o, before);
}

#[test]
fn wall_leaves_a_disk_that_touches_alone() {
    let mut o = at(280, 0, 20);
    o.apply_bounds(300);
    assert_eq!(o.position, Vec2 { x: 280, y: 0 });
}

#[test]
fn wall_pulls_a_disk_back_along_its_ray() {
    let mut o = at(400, 0, 20);
    o.apply_bounds(300);
    assert_eq!(o.position, Vec2 { x: 280, y: 0 });
    assert_eq!(o.old_position, Vec2 { x: 400, y: 0 });

    let mut p = at(300, 400, 20);
    p.apply_bounds(300);
    assert_eq!(p.position, Vec2 { x: 168, y: 224 });

    let mut q = at(281, 0, 20);
    q.apply_bounds(300);
    assert_eq!(q.position, Vec2 { x: 280, y: 0 });
}

#[test]
fn wall_contains_every_disk_it_has_room_for() {
    let mut x: i32 = -500;
    while x <= 500 {
        let mut y: i32 = -500;
        while y <= 500 {
            let mut o = at(x, y, 20);
            o.apply_bounds(300);
            let px = o.position.x as i64;
            let py = o.position.y as i64;
            assert!(px * px + py * py <= 280 * 280);
            y += 23;
        }
        x += 17;
    }
}

#[test]
fn wall_pins_a_disk_too_large_at_the_origin() {
    let mut o = at(0, 0, 400);
    o.apply_bounds(300);
    assert_eq!(o.position, Vec2 { x: 0, y: 0 });
}

#[test]
fn wall_turns_round_a_disk_too_large_off_the_origin() {
    let mut o = at(30, 40, 400);
    o.apply_bounds(300);
    assert_eq!(o.position, Vec2 { x: -60, y: -80 });
}

#[test]
fn overlapping_pair_on_an_axis() {
    let mut a = at(-5, 0, 20);
    let mut b = at(5, 0, 20);
    a.resolve(&mut b);
    assert_eq!(a.position, Vec2 { x: -20, y: 0 });
    assert_eq!(b.position, Vec2 { x: 20, y: 0 });
    assert_eq!(b.position.x - a.position.x, 40);
    assert_eq!(a.position.x + b.position.x, 0);
    assert_eq!(-5 - a.position.x, 15);
    assert_eq!(b.position.x - 5, 15);
    assert_eq!(a.old_position, Vec2 { x: -5, y: 0 });
    assert_eq!(b.old_position, Vec2 { x: 5, y: 0 });
}

#[test]
fn overlapping_pair_through_the_collision_pass() {
    let mut a = at(-5, 0, 20);
    let mut others = vec![at(5, 0, 20)];
    a.apply_collisions(&mut others);
    assert_eq!(a.position, Vec2 { x: -20, y: 0 });
    assert_eq!(others.len(), 1);
    assert_eq!(others[0].position, Vec2 { x: 20, y: 0 });
}

#[test]
fn pair_of_different_radii() {
    let mut a = at(0, 0, 10);
    let mut b = at(0, 12, 30);
    a.resolve(&mut b);
    assert_eq!(a.position, Vec2 { x: 0, y: -4 });
    assert_eq!(b.position, Vec2 { x: 0, y: 36 });
}

#[test]
fn pair_on_a_slant() {
    let mut a = at(0, 0, 50);
    let mut b = at(30, 40, 50);
    a.resolve(&mut b);
    assert_eq!(a.position, Vec2 { x: -15, y: -20 });
    assert_eq!(b.position, Vec2 { x: 45, y: 60 });
}

#[test]
fn touching_pair_counts_as_overlapping() {
    let mut a = at(0, 0, 20);
    let mut b = at(40, 0, 20);
    a.resolve(&mut b);
    assert_eq!(a.position, Vec2 { x: 0, y: 0 });
    assert_eq!(b.position, Vec2 { x: 40, y: 0 });
}

#[test]
fn pair_apart_is_left_alone() {
    let mut a = at(0, 0, 20);
    let mut b = at(41, 0, 20);
    let (a0, b0) = (a, b);
    a.resolve(&mut b);
    assert_eq!(a, a0);
    assert_eq!(b, b0);
}

#[test]
fn coincident_pair_stays_coincident() {
    let mut a = at(7, -3, 20);
    let mut b = at(7, -3, 20);
    a.resolve(&mut b);
    assert_eq!(a.position, Vec2 { x: 7, y: -3 });
    assert_eq!(b.position, Vec2 { x: 7, y: -3 });
}

#[test]
fn pushed_pairs_end_as_far_apart_as_the_radii_add_up_to() {
    let mut dx: i32 = -39;
    while dx <= 39 {
        let mut dy: i32 = -39;
        while dy <= 39 {
            if dx != 0 || dy != 0 {
                let mut a = at(1000, 1000, 3000);
                let mut b = at(1000 + dx, 1000 + dy, 4000);
                a.resolve(&mut b);
                let u = ((a.position.x - b.position.x) as i64).abs();
                let v = ((a.position.y - b.position.y) as i64).abs();
                assert!(u * u + v * v <= 7000 * 7000);
                assert!((u + 3) * (u + 3) + (v + 3) * (v + 3) >= 7000 * 7000);
            }
            dy += 1;
        }
        dx += 1;
    }
}

#[test]
fn later_pairs_see_earlier_corrections() {
    let mut a = at(0, 0, 20);
    let mut others = vec![at(10, 0, 20), at(-30, 0, 20)];
    a.apply_collisions(&mut others);

    let mut m = at(0, 0, 20);
    let mut first = at(10, 0, 20);
    let mut second = at(-30, 0, 20);
    m.resolve(&mut first);
    assert_eq!(m.position, Vec2 { x: -15, y: 0 });
    assert_eq!(first.position, Vec2 { x: 25, y: 0 });
    m.resolve(&mut second);
    assert_eq!(m.position, Vec2 { x: -2, y: 0 });
    assert_eq!(second.position, Vec2 { x: -42, y: 0 });

    assert_eq!(a, m);
    assert_eq!(others, vec![first, second]);
}

#[test]
fn collision_pass_with_no_neighbours() {
    let mut a = at(3, 4, 20);
    let mut others: Vec<Object> = Vec::new();
    a.apply_collisions(&mut others);
    assert_eq!(a, at(3, 4, 20));
    assert!(others.is_empty());
}

#[test]
fn verlet_step_formula() {
    assert_eq!(verlet_step(10, 7, 2, 3), 31);
    assert_eq!(verlet_step(10, 10, 0, 1000), 10);
    assert_eq!(verlet_step(0, 0, -10, 2), -40);
    assert_eq!(verlet_step(-40, 0, -10, 2), -120);
}

#[test]
fn verlet_step_saturates() {
    assert_eq!(verlet_step(i32::MAX, 0, 0, 1), i32::MAX);
    assert_eq!(verlet_step(i32::MIN, 0, 0, 1), i32::MIN);
    assert_eq!(verlet_step(0, 0, i32::MAX, u32::MAX), i32::MAX);
    assert_eq!(verlet_step(0, 0, i32::MIN, u32::MAX), i32::MIN);
}

#[test]
fn tick_of_a_falling_particle() {
    let cfg = open_space(Vec2 { x: 0, y: -10 }, 2);
    let mut o = at(0, 0, 20);
    let mut none: Vec<Object> = Vec::new();
    o.integrate(&cfg, &mut none);
    assert_eq!(o.position, Vec2 { x: 0, y: -40 });
    assert_eq!(o.old_position, Vec2 { x: 0, y: 0 });
    assert_eq!(o.acceleration, Vec2 { x: 0, y: 0 });
    o.integrate(&cfg, &mut none);
    assert_eq!(o.position, Vec2 { x: 0, y: -120 });
    assert_eq!(o.old_position, Vec2 { x: 0, y: -40 });
    assert_eq!(o.acceleration, Vec2 { x: 0, y: 0 });
}

#[test]
fn tick_keeps_the_velocity() {
    let cfg = open_space(Vec2 { x: 0, y: 0 }, 1);
    let mut o = at(10, 10, 20);
    o.old_position = Vec2 { x: 7, y: 12 };
    let mut none: Vec<Object> = Vec::new();
    o.integrate(&cfg, &mut none);
    assert_eq!(o.position, Vec2 { x: 13, y: 8 });
    assert_eq!(o.old_position, Vec2 { x: 10, y: 10 });
}

#[test]
fn tick_folds_in_what_was_accelerated_before() {
    let cfg = open_space(Vec2 { x: 0, y: -1 }, 3);
    let mut o = at(0, 0, 20);
    o.accelerate(Vec2 { x: 2, y: 0 });
    let mut none: Vec<Object> = Vec::new();
    o.integrate(&cfg, &mut none);
    assert_eq!(o.position, Vec2 { x: 18, y: -9 });
    assert_eq!(o.acceleration, Vec2 { x: 0, y: 0 });
}

#[test]
fn tick_applies_the_wall_before_the_step() {
    let cfg = Config { gravity: Vec2 { x: 0, y: 0 }, bound: Some(300), dt: 1 };
    let mut o = at(400, 0, 20);
    let mut none: Vec<Object> = Vec::new();
    o.integrate(&cfg, &mut none);
    // The wall puts the centre at 280; the step then goes on from 400 by the way to 280.
    assert_eq!(o.position, Vec2 { x: 160, y: 0 });
    assert_eq!(o.old_position, Vec2 { x: 400, y: 0 });
}

#[test]
fn tick_pushes_neighbours() {
    let cfg = open_space(Vec2 { x: 0, y: 0 }, 1);
    let mut a = at(-5, 0, 20);
    let mut others = vec![at(5, 0, 20)];
    a.integrate(&cfg, &mut others);
    assert_eq!(others[0].position, Vec2 { x: 20, y: 0 });
    assert_eq!(others[0].old_position, Vec2 { x: 5, y: 0 });
    // Corrected to -20, then on by the way from -5 to -20.
    assert_eq!(a.position, Vec2 { x: -35, y: 0 });
    assert_eq!(a.old_position, Vec2 { x: -5, y: 0 });
}

#[test]
fn particle_at_rest_is_unchanged_by_a_tick() {
    let cfg = Config { gravity: Vec2 { x: 0, y: 0 }, bound: Some(300), dt: 4 };
    let mut o = at(100, -50, 20);
    let before = o;
    let mut none: Vec<Object> = Vec::new();
    o.integrate(&cfg, &mut none);
    assert_eq!(o, before);
    o.integrate(&cfg, &mut none);
    assert_eq!(o, before);
}

#[test]
fn tick_may_carry_a_moving_disk_past_the_wall() {
    let cfg = Config { gravity: Vec2 { x: 0, y: 0 }, bound: Some(300), dt: 1 };
    let mut o = at(280, 0, 20);
    o.old_position = Vec2 { x: 270, y: 0 };
    let mut none: Vec<Object> = Vec::new();
    o.integrate(&cfg, &mut none);
    // The disk touched the wall from inside, so the wall left it alone, and the step went on.
    assert_eq!(o.position, Vec2 { x: 290, y: 0 });
    assert_eq!(o.old_position, Vec2 { x: 280, y: 0 });
    // The next tick's wall brings it back to 280, and the step goes on from there by the way
    // from 280, where it was two ticks ago, to 280: nowhere.
    o.integrate(&cfg, &mut none);
    assert_eq!(o.old_position, Vec2 { x: 290, y: 0 });
    assert_eq!(o.position, Vec2 { x: 280, y: 0 });
}
