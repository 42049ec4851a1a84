use gravity::particle::{pair_force, Force2, ForceParams, ParticleSystem};
use gravity::quadtree::QuadTree;
use gravity::rectangle::{Rectangle, Vec2};
use gravity::simulation::{compute_forces, create_quadtree, step};

fn world() -> Rectangle {
    Rectangle::new(Vec2::new(-2048, -2048), 4096, 4096)
}

fn store(rows: &[(i64, i64, u64)]) -> ParticleSystem {
    let mut ps = ParticleSystem::new();
    for (k, &(x, y, m)) in rows.iter().enumerate() {
        assert!(ps.add_particle(Vec2::new(x, y), Vec2::new(0, 0), m, 1, k));
    }
    ps
}

fn scattered() -> ParticleSystem {
    store(&[
        (10, 20, 5),
        (-300, 450, 7),
        (1200, -900, 3),
        (-2000, -2000, 11),
        (2047, 2047, 2),
        (0, 0, 1),
        (5, 5, 9),
        (-7, 800, 4),
    ])
}

#[test]
fn rectangle_containment_is_half_open() {
    let r = Rectangle::new(Vec2::new(0, 0), 10, 5);
    assert!(r.contains_point(&Vec2::new(0, 0)));
    assert!(r.contains_point(&Vec2::new(9, 4)));
    assert!(!r.contains_point(&Vec2::new(10, 0)));
    assert!(!r.contains_point(&Vec2::new(0, 5)));
    assert!(!r.contains_point(&Vec2::new(-1, 2)));
}

#[test]
fn rectangle_overlap_counts_touching_edges() {
    let a = Rectangle::new(Vec2::new(0, 0), 10, 10);
    assert!(a.intersects(&Rectangle::new(Vec2::new(10, 0), 5, 5)));
    assert!(a.intersects(&Rectangle::new(Vec2::new(2, 2), 1, 1)));
    assert!(!a.intersects(&Rectangle::new(Vec2::new(11, 0), 5, 5)));
    assert!(!a.intersects(&Rectangle::new(Vec2::new(0, -7), 5, 5)));
}

#[test]
fn pair_force_formula() {
    let p = ForceParams::new(100_000_000, 1);
    // mass 1 pulled by mass 100 at distance 1000 along -x
    assert_eq!(pair_force(&p, 1, 100, -1000, 0), Force2 { x: -9999, y: 0 });
    // diagonal pull, normalised by the rounded-up length 1415
    assert_eq!(pair_force(&p, 1, 1, -1000, 1000), Force2 { x: -35, y: 35 });
    // coincident bodies exert nothing
    assert_eq!(pair_force(&p, 5, 5, 0, 0), Force2 { x: 0, y: 0 });
}

#[test]
fn three_body_reference_forces() {
    // lattice unit 0.01: positions (0,0), (10,0), (0,10) and softening 0.01
    let mut ps = store(&[(0, 0, 100), (1000, 0, 1), (0, 1000, 1)]);
    let p = ForceParams::new(100_000_000, 1);
    compute_forces(&mut ps, &world(), &p);
    assert_eq!(ps.get_net_force(1), Force2 { x: -10034, y: 35 });
    assert_eq!(ps.get_net_force(0), Force2 { x: 9999, y: 9999 });
    assert_eq!(ps.get_net_force(2), Force2 { x: 35, y: -10034 });
}

#[test]
fn root_aggregates_do_not_depend_on_insertion_order() {
    let ps = scattered();
    let orders: [[usize; 8]; 3] = [[0, 1, 2, 3, 4, 5, 6, 7], [7, 6, 5, 4, 3, 2, 1, 0], [3, 0, 6, 1, 7, 2, 5, 4]];
    let mut totals = Vec::new();
    for order in orders.iter() {
        let mut t = QuadTree::new(world());
        for &k in order.iter() {
            t.insert(&ps, k);
        }
        totals.push((t.mass, t.moment_x, t.moment_y, t.center_of_mass()));
    }
    let mass: u64 = ps.mass.iter().sum();
    let mx: i128 = (0..ps.count).map(|k| ps.mass[k] as i128 * ps.pos_x[k] as i128).sum();
    let my: i128 = (0..ps.count).map(|k| ps.mass[k] as i128 * ps.pos_y[k] as i128).sum();
    for t in totals.iter() {
        assert_eq!(t.0, mass);
        assert_eq!(t.1, mx);
        assert_eq!(t.2, my);
        assert_eq!(t.3, totals[0].3);
    }
    assert_eq!(totals[0].3, Vec2::new(mx.div_euclid(mass as i128) as i64, my.div_euclid(mass as i128) as i64));
}

#[test]
fn particles_outside_the_world_are_left_out() {
    let ps = store(&[(0, 0, 3), (2048, 0, 5), (-2049, 0, 7), (10, 10, 1)]);
    let t = create_quadtree(&ps, &world());
    assert_eq!(t.mass, 4);
    let mut all = t.query(&world(), &ps);
    all.sort();
    assert_eq!(all, vec![0, 3]);
}

#[test]
fn exact_threshold_matches_direct_pairwise_sum() {
    let mut ps = scattered();
    let p = ForceParams::exact(1000, 3);
    compute_forces(&mut ps, &world(), &p);
    for i in 0..ps.count {
        let (mut fx, mut fy) = (0i128, 0i128);
        for j in 0..ps.count {
            if j != i {
                let f = ps.get_attraction_force(i, j, &p);
                fx += f.x;
                fy += f.y;
            }
        }
        assert_eq!(ps.get_net_force(i), Force2 { x: fx, y: fy });
    }
}

#[test]
fn query_matches_linear_filter() {
    let ps = scattered();
    let t = create_quadtree(&ps, &world());
    let areas = [
        Rectangle::new(Vec2::new(0, 0), 10, 21),
        Rectangle::new(Vec2::new(-500, -500), 1000, 1500),
        Rectangle::new(Vec2::new(2047, 2047), 1, 1),
        Rectangle::new(Vec2::new(3000, 3000), 10, 10),
        world(),
    ];
    for area in areas.iter() {
        let mut got = t.query(area, &ps);
        got.sort();
        let want: Vec<usize> =
            (0..ps.count).filter(|&k| area.contains_point(&ps.get_position(k))).collect();
        assert_eq!(got, want);
    }
}

#[test]
fn coincident_particles_share_a_leaf() {
    let ps = store(&[(100, 100, 2), (100, 100, 3), (100, 100, 4), (-5, 7, 1)]);
    let t = create_quadtree(&ps, &world());
    assert_eq!(t.mass, 10);
    let mut here = t.query(&Rectangle::new(Vec2::new(100, 100), 1, 1), &ps);
    here.sort();
    assert_eq!(here, vec![0, 1, 2]);
    let mut forced = ps.clone();
    let p = ForceParams::exact(1000, 1);
    compute_forces(&mut forced, &world(), &p);
    // the coincident bodies pull on each other with nothing
    assert_eq!(forced.get_net_force(0), ps.get_attraction_force(0, 3, &p));
    assert_eq!(ps.get_attraction_force(0, 1, &p), Force2 { x: 0, y: 0 });
}

#[test]
fn empty_tree_queries_nothing() {
    let ps = ParticleSystem::new();
    let t = QuadTree::new(world());
    assert_eq!(t.query(&world(), &ps), Vec::<usize>::new());
    assert_eq!(t.mass, 0);
}

#[test]
fn full_step_moves_bodies_toward_each_other() {
    let mut ps = store(&[(-100, 0, 1000), (100, 0, 1000)]);
    let (t, moved) = step(&mut ps, &world(), &ForceParams::new(100_000, 1));
    assert!(moved);
    assert_eq!(t.mass, 2000);
    let f = ps.get_net_force(0);
    assert!(f.x > 0 && f.y == 0);
    assert_eq!(ps.get_net_force(1), Force2 { x: -f.x, y: 0 });
    assert_eq!(f.x, 2_499_937);
    let a = (f.x / 1000) as i64;
    assert_eq!(ps.get_velocity(0), Vec2::new(a, 0));
    assert_eq!(ps.get_position(0), Vec2::new(-100 + a, 0));
    assert_eq!(ps.get_position(1), Vec2::new(100 - a, 0));
}

#[test]
fn insert_outside_the_box_changes_nothing() {
    let ps = store(&[(5000, 0, 3), (0, 0, 2)]);
    let mut t = QuadTree::new(world());
    t.insert(&ps, 0);
    assert_eq!(t.mass, 0);
    assert!(t.is_leaf());
    assert_eq!(t.query(&world(), &ps), Vec::<usize>::new());
    t.insert(&ps, 1);
    assert_eq!(t.mass, 2);
    assert_eq!(t.moment_x, 0);
    assert!(t.is_leaf());
}

#[test]
fn second_particle_splits_the_leaf() {
    let ps = store(&[(-1000, -1000, 3), (1000, 1000, 5)]);
    let mut t = QuadTree::new(world());
    t.insert(&ps, 0);
    t.insert(&ps, 1);
    assert!(!t.is_leaf());
    assert_eq!(t.mass, 8);
    assert_eq!(t.moment_x, -3000 + 5000);
    assert_eq!(t.center_of_mass(), Vec2::new(250, 250));
    let mut got = t.query(&Rectangle::new(Vec2::new(0, 0), 2048, 2048), &ps);
    got.sort();
    assert_eq!(got, vec![1]);
}

#[test]
fn short_range_pull_stays_under_the_softened_cap() {
    // g = 99, eps = 3, unit masses at displacement (1, 1): the cap is 99 / 9 = 11
    let p = ForceParams::new(99, 3);
    let f = pair_force(&p, 1, 1, 1, 1);
    assert_eq!(f, Force2 { x: 4, y: 4 });
    assert!((f.x * f.x + f.y * f.y) * 81 <= 99 * 99);
}

#[test]
fn particle_outside_the_tree_receives_nothing() {
    let small = Rectangle::new(Vec2::new(-10, -10), 20, 20);
    let mut ps = store(&[(0, 0, 5), (100, 0, 5)]);
    let t = create_quadtree(&ps, &small);
    let p = ForceParams::new(1000, 1);
    t.calculate_force(&mut ps, 1, &p);
    assert_eq!(ps.get_net_force(1), Force2 { x: 0, y: 0 });
    t.calculate_force(&mut ps, 0, &p);
    assert_eq!(ps.get_net_force(0), Force2 { x: 0, y: 0 });
    let mut both = store(&[(0, 0, 5), (100, 0, 5)]);
    compute_forces(&mut both, &small, &p);
    assert_eq!(both.get_net_force(1), Force2 { x: 0, y: 0 });
}

#[test]
fn new_tree_is_an_empty_leaf() {
    let t = QuadTree::new(world());
    assert!(t.is_leaf());
    assert_eq!((t.mass, t.moment_x, t.moment_y), (0, 0, 0));
}
