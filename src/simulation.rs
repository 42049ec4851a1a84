//! One simulation step: rebuild the tree, accumulate forces, integrate.
use vstd::prelude::*;
use crate::particle::{ForceParams, ParticleSystem, FORCE_LIMIT, MAX_MASS, MAX_PARTICLES, MAX_TREE_MASS};
use crate::quadtree::{
    bounded, in_area, inserted_into, lemma_aggregates, lemma_exact_traversal,
    lemma_sum_of_permutation, mass_fn, moment_fn, pull_x, pull_y, same_bodies, sum_of, QuadTree,
};
use crate::rectangle::Rectangle;

verus! {

/// The slots `0..n` whose position lies in `world`, in slot order.
pub open spec fn in_world_slots(world: Rectangle, px: Seq<i64>, py: Seq<i64>, n: nat) -> Seq<usize> {
    Seq::new(n, |k: int| k as usize).filter(in_area(world, px, py))
}

/// Builds the tree over `world` by inserting every particle in slot order;
/// particles outside `world` are left out.
pub fn create_quadtree(particles: &ParticleSystem, world: &Rectangle) -> (t: QuadTree)
    requires
        particles.wf(),
        bounded(*world),
    ensures
        t.wf(particles.pos_x@, particles.pos_y@, particles.mass@),
        t.bounds == *world,
        t.slots().to_multiset() == in_world_slots(
            *world,
            particles.pos_x@,
            particles.pos_y@,
            particles.count as nat,
        ).to_multiset(),
{
    let ghost px = particles.pos_x@;
    let ghost py = particles.pos_y@;
    let ghost m = particles.mass@;
    let ghost pred = in_area(*world, px, py);
    let mut qt = QuadTree::new(*world);
    let mut i: usize = 0;
    proof {
        assert(Seq::new(0, |k: int| k as usize) =~= Seq::<usize>::empty());
        reveal(Seq::filter);
        Seq::<usize>::empty().to_multiset_ensures();
        assert(qt.slots().to_multiset() =~= Seq::new(0, |k: int| k as usize).filter(pred).to_multiset());
    }
    while i < particles.count
        invariant
            particles.wf(),
            px == particles.pos_x@,
            py == particles.pos_y@,
            m == particles.mass@,
            pred == in_area(*world, px, py),
            i <= particles.count,
            qt.wf(px, py, m),
            qt.bounds == *world,
            qt.mass <= i * MAX_MASS,
            qt.slots().to_multiset() == Seq::new(i as nat, |k: int| k as usize).filter(pred).to_multiset(),
        decreases particles.count - i,
    {
        let ghost before = qt;
        assert(qt.mass + m[i as int] <= MAX_TREE_MASS) by (nonlinear_arith)
            requires
                qt.mass <= i * MAX_MASS,
                m[i as int] <= MAX_MASS,
                i < particles.count <= MAX_PARTICLES,
                MAX_TREE_MASS == MAX_PARTICLES * MAX_MASS,
        ;
        qt.insert(particles, i);
        proof {
            let s0 = Seq::new(i as nat, |k: int| k as usize);
            let s1 = Seq::new(i as nat + 1, |k: int| k as usize);
            assert(s1 =~= s0.push(i));
            s0.lemma_filter_push(i, pred);
            s0.filter(pred).to_multiset_ensures();
            if pred(i) {
                assert(inserted_into(before, qt, i, px, py, m));
            }
            assert(qt.mass <= (i + 1) * MAX_MASS) by (nonlinear_arith)
                requires
                    qt.mass <= before.mass + m[i as int],
                    before.mass <= i * MAX_MASS,
                    m[i as int] <= MAX_MASS,
            ;
        }
        i = i + 1;
    }
    qt
}

/// Every particle inside `world` carries the traversal's force; every other carries none.
pub open spec fn forces_applied(
    t: QuadTree,
    world: Rectangle,
    before: ParticleSystem,
    after: ParticleSystem,
    params: ForceParams,
) -> bool {
    forall|k: int|
        0 <= k < before.count ==> {
            &&& after.net_force_x@[k] == if world.contains_spec(
                before.pos_x@[k] as int,
                before.pos_y@[k] as int,
            ) {
                t.force_on(k as usize, before.pos_x@, before.pos_y@, before.mass@, params).0
            } else {
                0
            }
            &&& after.net_force_y@[k] == if world.contains_spec(
                before.pos_x@[k] as int,
                before.pos_y@[k] as int,
            ) {
                t.force_on(k as usize, before.pos_x@, before.pos_y@, before.mass@, params).1
            } else {
                0
            }
        }
}

/// Rebuilds the tree over `world`, clears every force and accumulates the
/// tree's force on each particle inside `world`. Returns the tree.
pub fn compute_forces(particles: &mut ParticleSystem, world: &Rectangle, params: &ForceParams) -> (t:
    QuadTree)
    requires
        old(particles).wf(),
        bounded(*world),
        params.wf(),
    ensures
        final(particles).wf(),
        same_bodies(*final(particles), *old(particles)),
        t.wf(old(particles).pos_x@, old(particles).pos_y@, old(particles).mass@),
        t.bounds == *world,
        t.slots().to_multiset() == in_world_slots(
            *world,
            old(particles).pos_x@,
            old(particles).pos_y@,
            old(particles).count as nat,
        ).to_multiset(),
        forces_applied(t, *world, *old(particles), *final(particles), *params),
{
    let qt = create_quadtree(particles, world);
    particles.reset_all_net_force();
    let ghost cleared = *particles;
    let mut i: usize = 0;
    while i < particles.count
        invariant
            particles.wf(),
            same_bodies(*particles, *old(particles)),
            same_bodies(cleared, *old(particles)),
            params.wf(),
            bounded(*world),
            qt.wf(old(particles).pos_x@, old(particles).pos_y@, old(particles).mass@),
            qt.bounds == *world,
            i <= particles.count,
            forall|k: int|
                i <= k < particles.count ==> particles.net_force_x@[k] == 0
                    && particles.net_force_y@[k] == 0,
            forall|k: int|
                0 <= k < i ==> {
                    &&& particles.net_force_x@[k] == if world.contains_spec(
                        old(particles).pos_x@[k] as int,
                        old(particles).pos_y@[k] as int,
                    ) {
                        qt.force_on(
                            k as usize,
                            old(particles).pos_x@,
                            old(particles).pos_y@,
                            old(particles).mass@,
                            *params,
                        ).0
                    } else {
                        0
                    }
                    &&& particles.net_force_y@[k] == if world.contains_spec(
                        old(particles).pos_x@[k] as int,
                        old(particles).pos_y@[k] as int,
                    ) {
                        qt.force_on(
                            k as usize,
                            old(particles).pos_x@,
                            old(particles).pos_y@,
                            old(particles).mass@,
                            *params,
                        ).1
                    } else {
                        0
                    }
                },
        decreases particles.count - i,
    {
        let pos = particles.get_position(i);
        if world.contains_point(&pos) {
            let mi = particles.mass[i];
            assert(0 <= params.g * mi * qt.mass <= FORCE_LIMIT) by (nonlinear_arith)
                requires
                    0 <= params.g <= 0x1000_0000,
                    0 <= mi <= 0x100_0000,
                    0 <= qt.mass <= 0x1000_0000_0000,
                    FORCE_LIMIT == 0x10_0000_0000_0000_0000_0000_0000,
            ;
            let ghost before = *particles;
            proof {
                crate::quadtree::lemma_force_bound(
                    qt,
                    i,
                    old(particles).pos_x@,
                    old(particles).pos_y@,
                    old(particles).mass@,
                    *params,
                );
            }
            qt.calculate_force(particles, i, params);
            assert forall|k: int| 0 <= k < particles.count && k != i implies particles.net_force_x@[k]
                == before.net_force_x@[k] && particles.net_force_y@[k] == before.net_force_y@[k] by {}
        }
        i = i + 1;
    }
    qt
}

/// One step of the simulation: forces from a freshly built tree, then one
/// integration step. The step is not taken (`false`) when it would leave the
/// range of `i64`; the forces stay computed either way.
pub fn step(particles: &mut ParticleSystem, world: &Rectangle, params: &ForceParams) -> (r: (
    QuadTree,
    bool,
))
    requires
        old(particles).wf(),
        bounded(*world),
        params.wf(),
    ensures
        final(particles).wf(),
        final(particles).count == old(particles).count,
        r.0.wf(old(particles).pos_x@, old(particles).pos_y@, old(particles).mass@),
        r.0.bounds == *world,
        r.0.slots().to_multiset() == in_world_slots(
            *world,
            old(particles).pos_x@,
            old(particles).pos_y@,
            old(particles).count as nat,
        ).to_multiset(),
        forces_applied(r.0, *world, *old(particles), *final(particles), *params),
        final(particles).mass == old(particles).mass,
        final(particles).radius == old(particles).radius,
        final(particles).indices == old(particles).indices,
        exists|forced: ParticleSystem|
            {
                &&& forced.wf()
                &&& same_bodies(forced, *old(particles))
                &&& forced.net_force_x == final(particles).net_force_x
                &&& forced.net_force_y == final(particles).net_force_y
                &&& r.1 == forced.step_fits()
                &&& r.1 ==> forall|i: int|
                    0 <= i < forced.count ==> #[trigger] final(particles).integrated_from(forced, i)
                &&& !r.1 ==> *final(particles) == forced
            },
{
    let qt = compute_forces(particles, world, params);
    let ghost forced = *particles;
    let ok = particles.can_apply_forces();
    if ok {
        particles.apply_forces_simd();
    }
    assert(forced.net_force_x == particles.net_force_x);
    (qt, ok)
}

proof fn lemma_filter_contains(s: Seq<usize>, pred: spec_fn(usize) -> bool, x: usize)
    ensures
        s.filter(pred).contains(x) <==> (s.contains(x) && pred(x)),
    decreases s.len(),
{
    reveal(Seq::filter);
    if s.len() > 0 {
        let w = s.drop_last();
        lemma_filter_contains(w, pred, x);
        assert(s =~= w.push(s.last()));
        if s.filter(pred).contains(x) {
            if !w.filter(pred).contains(x) {
                assert(pred(s.last()) && x == s.last());
                assert(s[s.len() - 1] == x);
            } else {
                let k = choose|k: int| 0 <= k < w.len() && w[k] == x;
                assert(s[k] == x);
            }
        }
        if s.contains(x) && pred(x) {
            let k = choose|k: int| 0 <= k < s.len() && s[k] == x;
            if k < w.len() {
                assert(w[k] == x);
            } else {
                let f = s.filter(pred);
                assert(f[f.len() - 1] == x);
            }
        }
    }
}

proof fn lemma_in_world_contains(world: Rectangle, px: Seq<i64>, py: Seq<i64>, n: nat, j: usize)
    ensures
        in_world_slots(world, px, py, n).contains(j) <==> (j < n && world.contains_spec(
            px[j as int] as int,
            py[j as int] as int,
        )),
{
    let base = Seq::new(n, |k: int| k as usize);
    lemma_filter_contains(base, in_area(world, px, py), j);
    if j < n {
        assert(base[j as int] == j);
    }
}

/// Aggregates of a built tree: its total mass is the sum of the masses of the
/// particles inside the world, and its moments the sums of `m * position`,
/// whatever order they were inserted in.
pub proof fn lemma_root_aggregates(t: QuadTree, particles: ParticleSystem, world: Rectangle)
    requires
        t.wf(particles.pos_x@, particles.pos_y@, particles.mass@),
        t.slots().to_multiset() == in_world_slots(
            world,
            particles.pos_x@,
            particles.pos_y@,
            particles.count as nat,
        ).to_multiset(),
    ensures
        t.mass == sum_of(
            in_world_slots(world, particles.pos_x@, particles.pos_y@, particles.count as nat),
            mass_fn(particles.mass@),
        ),
        t.moment_x == sum_of(
            in_world_slots(world, particles.pos_x@, particles.pos_y@, particles.count as nat),
            moment_fn(particles.pos_x@, particles.mass@),
        ),
        t.moment_y == sum_of(
            in_world_slots(world, particles.pos_x@, particles.pos_y@, particles.count as nat),
            moment_fn(particles.pos_y@, particles.mass@),
        ),
{
    let (px, py, m) = (particles.pos_x@, particles.pos_y@, particles.mass@);
    let s = in_world_slots(world, px, py, particles.count as nat);
    lemma_aggregates(t, px, py, m);
    lemma_sum_of_permutation(t.slots(), s, mass_fn(m));
    lemma_sum_of_permutation(t.slots(), s, moment_fn(px, m));
    lemma_sum_of_permutation(t.slots(), s, moment_fn(py, m));
}

/// Exact limit: with a zero acceptance threshold, the traversal of a built tree
/// gives particle `i` exactly the direct sum of the pairwise forces from every
/// other particle inside the world.
pub proof fn lemma_exact_limit(
    t: QuadTree,
    particles: ParticleSystem,
    world: Rectangle,
    i: usize,
    p: ForceParams,
)
    requires
        t.wf(particles.pos_x@, particles.pos_y@, particles.mass@),
        t.slots().to_multiset() == in_world_slots(
            world,
            particles.pos_x@,
            particles.pos_y@,
            particles.count as nat,
        ).to_multiset(),
        p.theta_num == 0,
    ensures
        t.force_on(i, particles.pos_x@, particles.pos_y@, particles.mass@, p) == (
            sum_of(
                in_world_slots(world, particles.pos_x@, particles.pos_y@, particles.count as nat),
                pull_x(i, particles.pos_x@, particles.pos_y@, particles.mass@, p),
            ),
            sum_of(
                in_world_slots(world, particles.pos_x@, particles.pos_y@, particles.count as nat),
                pull_y(i, particles.pos_x@, particles.pos_y@, particles.mass@, p),
            ),
        ),
{
    let (px, py, m) = (particles.pos_x@, particles.pos_y@, particles.mass@);
    let s = in_world_slots(world, px, py, particles.count as nat);
    lemma_exact_traversal(t, i, px, py, m, p);
    lemma_sum_of_permutation(t.slots(), s, pull_x(i, px, py, m, p));
    lemma_sum_of_permutation(t.slots(), s, pull_y(i, px, py, m, p));
}

/// Query correctness: on a built tree, `query(area)` holds exactly the slots
/// whose position lies both in the world and in `area` (half-open containment),
/// as a linear filter over all slots would find them.
pub proof fn lemma_query_matches_filter(
    t: QuadTree,
    particles: ParticleSystem,
    world: Rectangle,
    area: Rectangle,
    j: usize,
)
    requires
        t.wf(particles.pos_x@, particles.pos_y@, particles.mass@),
        t.slots().to_multiset() == in_world_slots(
            world,
            particles.pos_x@,
            particles.pos_y@,
            particles.count as nat,
        ).to_multiset(),
    ensures
        t.slots().filter(in_area(area, particles.pos_x@, particles.pos_y@)).contains(j) <==> (j
            < particles.count && world.contains_spec(
            particles.pos_x@[j as int] as int,
            particles.pos_y@[j as int] as int,
        ) && area.contains_spec(
            particles.pos_x@[j as int] as int,
            particles.pos_y@[j as int] as int,
        )),
{
    let (px, py) = (particles.pos_x@, particles.pos_y@);
    let s = in_world_slots(world, px, py, particles.count as nat);
    lemma_filter_contains(t.slots(), in_area(area, px, py), j);
    lemma_in_world_contains(world, px, py, particles.count as nat, j);
    t.slots().to_multiset_ensures();
    s.to_multiset_ensures();
    assert(t.slots().contains(j) == (t.slots().to_multiset().count(j) > 0));
    assert(s.contains(j) == (s.to_multiset().count(j) > 0));
}

proof fn lemma_filter_no_duplicates(s: Seq<usize>, pred: spec_fn(usize) -> bool)
    requires
        s.no_duplicates(),
    ensures
        s.filter(pred).no_duplicates(),
    decreases s.len(),
{
    reveal(Seq::filter);
    if s.len() > 0 {
        let w = s.drop_last();
        let x = s.last();
        assert(w.no_duplicates()) by {
            assert forall|i: int, j: int| 0 <= i < w.len() && 0 <= j < w.len() && i != j implies w[i]
                != w[j] by {
                assert(w[i] == s[i] && w[j] == s[j]);
            }
        }
        lemma_filter_no_duplicates(w, pred);
        if pred(x) {
            lemma_filter_contains(w, pred, x);
            assert(!w.contains(x)) by {
                if w.contains(x) {
                    let k = choose|k: int| 0 <= k < w.len() && w[k] == x;
                    assert(s[k] == s[s.len() - 1]);
                }
            }
            let f = w.filter(pred);
            assert forall|i: int, j: int|
                0 <= i < f.push(x).len() && 0 <= j < f.push(x).len() && i != j implies f.push(x)[i]
                != f.push(x)[j] by {
                if i < f.len() && j == f.len() {
                    assert(f.contains(f[i]));
                } else if j < f.len() && i == f.len() {
                    assert(f.contains(f[j]));
                }
            }
        }
    }
}

/// On a built tree, `query(area)` names each matching slot once: its result has
/// no duplicates, so its length is the number of matching slots.
pub proof fn lemma_query_no_duplicates(
    t: QuadTree,
    particles: ParticleSystem,
    world: Rectangle,
    area: Rectangle,
)
    requires
        particles.wf(),
        t.wf(particles.pos_x@, particles.pos_y@, particles.mass@),
        t.slots().to_multiset() == in_world_slots(
            world,
            particles.pos_x@,
            particles.pos_y@,
            particles.count as nat,
        ).to_multiset(),
    ensures
        t.slots().filter(in_area(area, particles.pos_x@, particles.pos_y@)).no_duplicates(),
{
    let (px, py) = (particles.pos_x@, particles.pos_y@);
    let n = particles.count as nat;
    let base = Seq::new(n, |k: int| k as usize);
    assert(base.no_duplicates()) by {
        assert forall|i: int, j: int| 0 <= i < base.len() && 0 <= j < base.len() && i != j implies base[i]
            != base[j] by {}
    }
    lemma_filter_no_duplicates(base, in_area(world, px, py));
    let s = in_world_slots(world, px, py, n);
    s.lemma_multiset_has_no_duplicates();
    assert forall|x: usize| t.slots().to_multiset().contains(x) implies t.slots().to_multiset().count(
        x,
    ) == 1 by {
        assert(s.to_multiset().contains(x));
    }
    t.slots().lemma_multiset_has_no_duplicates_conv();
    lemma_filter_no_duplicates(t.slots(), in_area(area, px, py));
}

} // verus!
