use gravity::arith::{div_toward_zero, isqrt};
use gravity::particle::{Force2, ParticleSystem, MAX_MASS, MAX_PARTICLES};
use gravity::rectangle::Vec2;

fn store(rows: &[(i64, i64, i64, i64, u64)]) -> ParticleSystem {
    let mut ps = ParticleSystem::with_capacity(rows.len());
    for (k, &(x, y, vx, vy, m)) in rows.iter().enumerate() {
        assert!(ps.add_particle(Vec2::new(x, y), Vec2::new(vx, vy), m, 1, 100 + k));
    }
    ps
}

#[test]
fn integer_square_root_is_floored() {
    assert_eq!(isqrt(0), 0);
    assert_eq!(isqrt(1), 1);
    assert_eq!(isqrt(24), 4);
    assert_eq!(isqrt(25), 5);
    assert_eq!(isqrt(2_000_000), 1414);
    assert_eq!(isqrt(u128::MAX), u64::MAX);
}

#[test]
fn division_rounds_toward_zero() {
    assert_eq!(div_toward_zero(7, 2), 3);
    assert_eq!(div_toward_zero(-7, 2), -3);
    assert_eq!(div_toward_zero(-1, 5), 0);
    assert_eq!(div_toward_zero(10, 2), 5);
}

#[test]
fn add_particle_rejects_non_positive_or_oversized_mass() {
    let mut ps = ParticleSystem::new();
    assert!(!ps.add_particle(Vec2::new(0, 0), Vec2::new(0, 0), 0, 1, 0));
    assert!(!ps.add_particle(Vec2::new(0, 0), Vec2::new(0, 0), MAX_MASS + 1, 1, 0));
    assert_eq!(ps.count, 0);
    assert!(ps.add_particle(Vec2::new(3, 4), Vec2::new(5, 6), MAX_MASS, 7, 9));
    assert_eq!(ps.count, 1);
    assert_eq!(ps.get_position(0), Vec2::new(3, 4));
    assert_eq!(ps.get_velocity(0), Vec2::new(5, 6));
    assert_eq!(ps.get_net_force(0), Force2 { x: 0, y: 0 });
    assert_eq!(ps.mass[0], MAX_MASS);
    assert_eq!(ps.radius[0], 7);
    assert_eq!(ps.indices[0], 9);
    assert!(MAX_PARTICLES > 1);
}

#[test]
fn setters_and_force_accumulation() {
    let mut ps = store(&[(0, 0, 0, 0, 1), (1, 1, 1, 1, 1)]);
    ps.set_position(1, Vec2::new(-5, 8));
    ps.set_velocity(1, Vec2::new(2, -3));
    assert_eq!(ps.get_position(1), Vec2::new(-5, 8));
    assert_eq!(ps.get_velocity(1), Vec2::new(2, -3));
    ps.set_net_force(0, Force2 { x: 4, y: -4 });
    ps.add_to_net_force(0, Force2 { x: 6, y: 1 });
    assert_eq!(ps.get_net_force(0), Force2 { x: 10, y: -3 });
    ps.reset_net_force(0);
    assert_eq!(ps.get_net_force(0), Force2 { x: 0, y: 0 });
    ps.add_to_net_force(1, Force2 { x: 1, y: 1 });
    ps.reset_all_net_force();
    assert_eq!(ps.get_net_force(1), Force2 { x: 0, y: 0 });
}

#[test]
fn constant_force_recurrence_over_five_steps() {
    // mass 2, force (10, 0), from rest: after step k velocity 5k and position 5k(k+1)/2
    let mut ps = store(&[(0, 0, 0, 0, 2)]);
    for k in 1..=5i64 {
        ps.set_net_force(0, Force2 { x: 10, y: 0 });
        assert!(ps.can_apply_forces());
        ps.apply_forces_simd();
        assert_eq!(ps.get_velocity(0), Vec2::new(5 * k, 0));
        assert_eq!(ps.get_position(0), Vec2::new(5 * k * (k + 1) / 2, 0));
    }
    assert_eq!(ps.get_velocity(0), Vec2::new(25, 0));
    assert_eq!(ps.get_position(0), Vec2::new(75, 0));
}

#[test]
fn particle_at_rest_without_force_stays_put() {
    let mut ps = store(&[(17, -4, 0, 0, 3)]);
    // a force smaller than the mass gives no acceleration on the lattice
    ps.set_net_force(0, Force2 { x: 2, y: -2 });
    for _ in 0..10 {
        ps.apply_forces_simd();
        assert_eq!(ps.get_velocity(0), Vec2::new(0, 0));
        assert_eq!(ps.get_position(0), Vec2::new(17, -4));
    }
}

#[test]
fn batched_and_remainder_particles_step_alike() {
    // eleven identical particles: eight go through a full batch, three through the remainder
    let rows: Vec<(i64, i64, i64, i64, u64)> = (0..11).map(|k| (k, 0, 1, -1, 4)).collect();
    let mut ps = store(&rows);
    for k in 0..11 {
        ps.set_net_force(k, Force2 { x: -8, y: 12 });
    }
    ps.apply_forces_simd();
    for k in 0..11usize {
        assert_eq!(ps.get_velocity(k), Vec2::new(-1, 2));
        assert_eq!(ps.get_position(k), Vec2::new(k as i64 - 1, 2));
    }
}

#[test]
fn negative_force_truncates_toward_zero() {
    let mut ps = store(&[(0, 0, 0, 0, 4)]);
    ps.set_net_force(0, Force2 { x: -7, y: 7 });
    ps.apply_forces_simd();
    assert_eq!(ps.get_velocity(0), Vec2::new(-1, 1));
    assert_eq!(ps.get_position(0), Vec2::new(-1, 1));
}

#[test]
fn step_that_would_overflow_is_detected() {
    let mut ps = store(&[(i64::MAX - 1, 0, 1, 0, 1)]);
    ps.set_net_force(0, Force2 { x: 1, y: 0 });
    assert!(!ps.can_apply_forces());
    let mut ok = store(&[(0, 0, 1, 0, 1)]);
    ok.set_net_force(0, Force2 { x: 1, y: 0 });
    assert!(ok.can_apply_forces());
}

#[test]
fn sort_by_mass_keeps_rows_together() {
    let mut ps = store(&[
        (1, 1, 10, 11, 50),
        (2, 2, 20, 21, 5),
        (3, 3, 30, 31, 500),
        (4, 4, 40, 41, 5),
        (5, 5, 50, 51, 1),
    ]);
    ps.set_net_force(2, Force2 { x: 7, y: 8 });
    let mut before: Vec<(usize, i64, i64, i64, i64, i128, i128, u64)> = (0..ps.count)
        .map(|k| {
            (
                ps.indices[k],
                ps.pos_x[k],
                ps.pos_y[k],
                ps.vel_x[k],
                ps.vel_y[k],
                ps.net_force_x[k],
                ps.net_force_y[k],
                ps.mass[k],
            )
        })
        .collect();
    ps.sort_by_mass();
    let mut after: Vec<(usize, i64, i64, i64, i64, i128, i128, u64)> = (0..ps.count)
        .map(|k| {
            (
                ps.indices[k],
                ps.pos_x[k],
                ps.pos_y[k],
                ps.vel_x[k],
                ps.vel_y[k],
                ps.net_force_x[k],
                ps.net_force_y[k],
                ps.mass[k],
            )
        })
        .collect();
    for k in 1..ps.count {
        assert!(ps.mass[k - 1] <= ps.mass[k]);
    }
    assert_eq!(ps.mass, vec![1, 5, 5, 50, 500]);
    assert_eq!(ps.indices[4], 102);
    assert_eq!(ps.net_force_x[4], 7);
    before.sort();
    after.sort();
    assert_eq!(before, after);
}

#[test]
fn velocity_norm_extremes() {
    let empty = ParticleSystem::new();
    assert_eq!(empty.find_max_velocity_norm(), 0);
    assert_eq!(empty.find_min_velocity_norm(), 0);
    let ps = store(&[(0, 0, 3, 4, 1), (0, 0, 0, -1, 1), (0, 0, -6, 8, 1), (0, 0, 1, 1, 1)]);
    assert_eq!(ps.get_velocity_norm(0), 5);
    assert_eq!(ps.get_velocity_norm(3), 1);
    assert_eq!(ps.find_max_velocity_norm(), 10);
    assert_eq!(ps.find_min_velocity_norm(), 1);
}

#[test]
fn distance_to_a_point() {
    let ps = store(&[(1, 2, 0, 0, 1)]);
    assert_eq!(ps.get_distance_to(0, &Vec2::new(4, 6)), 5);
    assert_eq!(ps.get_distance_to(0, &Vec2::new(1, 2)), 0);
    assert_eq!(ps.get_distance_to(0, &Vec2::new(3, 3)), 2);
}
