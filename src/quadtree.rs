//! Barnes–Hut quadtree over a fixed world rectangle.
//!
//! Each node aggregates the total mass and the mass moments (mass-weighted
//! position sums) of the particles beneath it; the center of mass is the
//! moment divided by the mass, rounded down. A leaf holds one particle,
//! or several when its box is too small to split (coincident positions).
//!
//! Every level halves the box on some axis, and a box of a single lattice
//! point never splits, so the depth is bounded by the bits of the world extent
//! (about 31 levels at `WORLD_LIMIT`), however the particles lie.
use vstd::prelude::*;
use crate::particle::{
    lemma_component_bound, pair_force, pair_force_spec, ForceParams, ParticleSystem, FORCE_LIMIT,
    MAX_TREE_MASS,
};
use crate::rectangle::{Rectangle, Vec2};

verus! {

/// Bound on the magnitude of every coordinate of the world rectangle.
pub const WORLD_LIMIT: u64 = 536_870_912;

/// What a node holds.
pub enum Contents {
    Empty,
    Leaf(Vec<usize>),
    Internal(Box<QuadTree>, Box<QuadTree>, Box<QuadTree>, Box<QuadTree>),
}

pub struct QuadTree {
    pub bounds: Rectangle,
    pub contents: Contents,
    pub mass: u64,
    pub moment_x: i128,
    pub moment_y: i128,
}

/// A rectangle inside `[-WORLD_LIMIT, WORLD_LIMIT]` on both axes.
pub open spec fn bounded(r: Rectangle) -> bool {
    &&& 0 <= r.w
    &&& 0 <= r.h
    &&& -(WORLD_LIMIT as int) <= r.top_left_pos.x
    &&& -(WORLD_LIMIT as int) <= r.top_left_pos.y
    &&& r.top_left_pos.x + r.w <= WORLD_LIMIT
    &&& r.top_left_pos.y + r.h <= WORLD_LIMIT
}

/// A box splits unless all its lattice points coincide.
pub open spec fn can_split(r: Rectangle) -> bool {
    r.w >= 2 || r.h >= 2
}

/// Quadrant `k` of `r`: 0 top-left, 1 top-right, 2 bottom-left, 3 bottom-right.
/// The split is at `w / 2` and `h / 2`; the right and bottom parts take the odd unit.
pub open spec fn quadrant(r: Rectangle, k: int) -> Rectangle {
    let hw = r.w / 2;
    let hh = r.h / 2;
    let x = r.top_left_pos.x;
    let y = r.top_left_pos.y;
    if k == 0 {
        Rectangle { top_left_pos: Vec2 { x, y }, w: hw as i64, h: hh as i64 }
    } else if k == 1 {
        Rectangle { top_left_pos: Vec2 { x: (x + hw) as i64, y }, w: (r.w - hw) as i64, h: hh as i64 }
    } else if k == 2 {
        Rectangle { top_left_pos: Vec2 { x, y: (y + hh) as i64 }, w: hw as i64, h: (r.h - hh) as i64 }
    } else {
        Rectangle {
            top_left_pos: Vec2 { x: (x + hw) as i64, y: (y + hh) as i64 },
            w: (r.w - hw) as i64,
            h: (r.h - hh) as i64,
        }
    }
}

/// The quadrant of `r` that holds the point `(x, y)`.
pub open spec fn quadrant_of(r: Rectangle, x: int, y: int) -> int {
    (if x >= r.top_left_pos.x + r.w / 2 {
        1int
    } else {
        0int
    }) + (if y >= r.top_left_pos.y + r.h / 2 {
        2int
    } else {
        0int
    })
}

/// Sum of `f` over the entries of `s`.
pub open spec fn sum_of(s: Seq<usize>, f: spec_fn(usize) -> int) -> int
    decreases s.len(),
{
    if s.len() == 0 {
        0
    } else {
        sum_of(s.drop_last(), f) + f(s.last())
    }
}

pub open spec fn mass_fn(m: Seq<u64>) -> spec_fn(usize) -> int {
    |j: usize| m[j as int] as int
}

pub open spec fn moment_fn(p: Seq<i64>, m: Seq<u64>) -> spec_fn(usize) -> int {
    |j: usize| m[j as int] * p[j as int]
}

impl QuadTree {
    /// Slots held beneath this node, leaves in order from the first quadrant to the last.
    pub open spec fn slots(&self) -> Seq<usize>
        decreases self,
    {
        match &self.contents {
            Contents::Empty => Seq::empty(),
            Contents::Leaf(v) => v@,
            Contents::Internal(a, b, c, d) => a.slots() + b.slots() + c.slots() + d.slots(),
        }
    }

    /// The aggregates of this node match the particles beneath it, read from
    /// the positions `px`, `py` and masses `m`.
    pub open spec fn wf(&self, px: Seq<i64>, py: Seq<i64>, m: Seq<u64>) -> bool
        decreases self,
    {
        &&& bounded(self.bounds)
        &&& self.mass <= MAX_TREE_MASS
        &&& self.mass * self.bounds.top_left_pos.x <= self.moment_x <= self.mass * (
        self.bounds.top_left_pos.x + self.bounds.w)
        &&& self.mass * self.bounds.top_left_pos.y <= self.moment_y <= self.mass * (
        self.bounds.top_left_pos.y + self.bounds.h)
        &&& match &self.contents {
            Contents::Empty => self.mass == 0 && self.moment_x == 0 && self.moment_y == 0,
            Contents::Leaf(v) => {
                &&& v@.len() >= 1
                &&& v@.len() > 1 ==> !can_split(self.bounds)
                &&& forall|k: int|
                    0 <= k < v@.len() ==> {
                        &&& (#[trigger] v@[k] as int) < px.len()
                        &&& v@[k] < py.len()
                        &&& v@[k] < m.len()
                        &&& self.bounds.contains_spec(px[v@[k] as int] as int, py[v@[k] as int] as int)
                    }
                &&& self.mass == sum_of(v@, mass_fn(m))
                &&& self.moment_x == sum_of(v@, moment_fn(px, m))
                &&& self.moment_y == sum_of(v@, moment_fn(py, m))
            },
            Contents::Internal(a, b, c, d) => {
                &&& can_split(self.bounds)
                &&& a.bounds == quadrant(self.bounds, 0)
                &&& b.bounds == quadrant(self.bounds, 1)
                &&& c.bounds == quadrant(self.bounds, 2)
                &&& d.bounds == quadrant(self.bounds, 3)
                &&& a.wf(px, py, m)
                &&& b.wf(px, py, m)
                &&& c.wf(px, py, m)
                &&& d.wf(px, py, m)
                &&& self.mass == a.mass + b.mass + c.mass + d.mass
                &&& self.moment_x == a.moment_x + b.moment_x + c.moment_x + d.moment_x
                &&& self.moment_y == a.moment_y + b.moment_y + c.moment_y + d.moment_y
            },
        }
    }

    /// An empty tree over `bounds`.
    pub fn new(bounds: Rectangle) -> (r: QuadTree)
        requires
            bounded(bounds),
        ensures
            r.bounds == bounds,
            r.contents is Empty,
            r.slots() == Seq::<usize>::empty(),
            r.mass == 0,
            r.moment_x == 0,
            r.moment_y == 0,
            forall|px: Seq<i64>, py: Seq<i64>, m: Seq<u64>| #[trigger] r.wf(px, py, m),
    {
        QuadTree { bounds, contents: Contents::Empty, mass: 0, moment_x: 0, moment_y: 0 }
    }
}

/// Quadrant `k` of `r`, computed.
fn quadrant_rect(r: &Rectangle, k: usize) -> (q: Rectangle)
    requires
        bounded(*r),
        k < 4,
    ensures
        q == quadrant(*r, k as int),
{
    let hw = r.w / 2;
    let hh = r.h / 2;
    let x = r.top_left_pos.x;
    let y = r.top_left_pos.y;
    if k == 0 {
        Rectangle { top_left_pos: Vec2 { x, y }, w: hw, h: hh }
    } else if k == 1 {
        Rectangle { top_left_pos: Vec2 { x: x + hw, y }, w: r.w - hw, h: hh }
    } else if k == 2 {
        Rectangle { top_left_pos: Vec2 { x, y: y + hh }, w: hw, h: r.h - hh }
    } else {
        Rectangle { top_left_pos: Vec2 { x: x + hw, y: y + hh }, w: r.w - hw, h: r.h - hh }
    }
}

fn quadrant_index(r: &Rectangle, pos: &Vec2) -> (k: usize)
    requires
        bounded(*r),
    ensures
        k as int == quadrant_of(*r, pos.x as int, pos.y as int),
{
    let right: usize = if pos.x as i128 >= r.top_left_pos.x as i128 + (r.w / 2) as i128 {
        1
    } else {
        0
    };
    let below: usize = if pos.y as i128 >= r.top_left_pos.y as i128 + (r.h / 2) as i128 {
        2
    } else {
        0
    };
    right + below
}

/// The particle `idx` was added beneath `new`, which was `old` before.
pub open spec fn inserted_into(
    old: QuadTree,
    new: QuadTree,
    idx: usize,
    px: Seq<i64>,
    py: Seq<i64>,
    m: Seq<u64>,
) -> bool {
    &&& new.slots().to_multiset() == old.slots().to_multiset().insert(idx)
    &&& new.mass == old.mass + m[idx as int]
    &&& new.moment_x == old.moment_x + m[idx as int] * px[idx as int]
    &&& new.moment_y == old.moment_y + m[idx as int] * py[idx as int]
}

proof fn lemma_sum_of_push(s: Seq<usize>, j: usize, f: spec_fn(usize) -> int)
    ensures
        sum_of(s.push(j), f) == sum_of(s, f) + f(j),
{
    assert(s.push(j).drop_last() =~= s);
}

proof fn lemma_moment_bounds(mass: int, moment: int, mi: int, p: int, lo: int, w: int)
    requires
        mass * lo <= moment <= mass * (lo + w),
        0 <= mi,
        lo <= p < lo + w,
    ensures
        (mass + mi) * lo <= moment + mi * p <= (mass + mi) * (lo + w),
{
    assert(mi * lo <= mi * p <= mi * (lo + w)) by (nonlinear_arith)
        requires
            0 <= mi,
            lo <= p < lo + w,
    ;
    assert((mass + mi) * lo == mass * lo + mi * lo) by (nonlinear_arith);
    assert((mass + mi) * (lo + w) == mass * (lo + w) + mi * (lo + w)) by (nonlinear_arith);
}

impl QuadTree {
    /// Whether this node has no children.
    pub fn is_leaf(&self) -> (r: bool)
        ensures
            r == !(self.contents is Internal),
    {
        match &self.contents {
            Contents::Internal(..) => false,
            _ => true,
        }
    }

    /// Four empty children over the quadrants of `bounds`.
    fn subdivide(bounds: &Rectangle) -> (r: (Box<QuadTree>, Box<QuadTree>, Box<QuadTree>, Box<QuadTree>))
        requires
            bounded(*bounds),
            can_split(*bounds),
        ensures
            r.0.bounds == quadrant(*bounds, 0),
            r.1.bounds == quadrant(*bounds, 1),
            r.2.bounds == quadrant(*bounds, 2),
            r.3.bounds == quadrant(*bounds, 3),
            r.0.slots() == Seq::<usize>::empty() && r.0.mass == 0,
            r.1.slots() == Seq::<usize>::empty() && r.1.mass == 0,
            r.2.slots() == Seq::<usize>::empty() && r.2.mass == 0,
            r.3.slots() == Seq::<usize>::empty() && r.3.mass == 0,
            r.0.moment_x == 0 && r.0.moment_y == 0,
            r.1.moment_x == 0 && r.1.moment_y == 0,
            r.2.moment_x == 0 && r.2.moment_y == 0,
            r.3.moment_x == 0 && r.3.moment_y == 0,
            forall|px: Seq<i64>, py: Seq<i64>, m: Seq<u64>|
                {
                    &&& #[trigger] r.0.wf(px, py, m)
                    &&& r.1.wf(px, py, m)
                    &&& r.2.wf(px, py, m)
                    &&& r.3.wf(px, py, m)
                },
    {
        (
            Box::new(QuadTree::new(quadrant_rect(bounds, 0))),
            Box::new(QuadTree::new(quadrant_rect(bounds, 1))),
            Box::new(QuadTree::new(quadrant_rect(bounds, 2))),
            Box::new(QuadTree::new(quadrant_rect(bounds, 3))),
        )
    }

    /// Inserts particle `idx` of `particles`. A particle outside this node's box is
    /// not inserted and the tree is left as it was.
    pub fn insert(&mut self, particles: &ParticleSystem, idx: usize)
        requires
            old(self).wf(particles.pos_x@, particles.pos_y@, particles.mass@),
            particles.wf(),
            idx < particles.count,
            old(self).mass + particles.mass@[idx as int] <= MAX_TREE_MASS,
        ensures
            final(self).wf(particles.pos_x@, particles.pos_y@, particles.mass@),
            final(self).bounds == old(self).bounds,
            old(self).bounds.contains_spec(
                particles.pos_x@[idx as int] as int,
                particles.pos_y@[idx as int] as int,
            ) ==> inserted_into(
                *old(self),
                *final(self),
                idx,
                particles.pos_x@,
                particles.pos_y@,
                particles.mass@,
            ),
            !old(self).bounds.contains_spec(
                particles.pos_x@[idx as int] as int,
                particles.pos_y@[idx as int] as int,
            ) ==> *final(self) == *old(self),
        decreases old(self).bounds.w + old(self).bounds.h, 1int,
    {
        let ghost px = particles.pos_x@;
        let ghost py = particles.pos_y@;
        let ghost m = particles.mass@;
        let pos = particles.get_position(idx);
        if !self.bounds.contains_point(&pos) {
            return;
        }
        let mi = particles.mass[idx];
        let ghost old_self = *self;
        let mut contents = Contents::Empty;
        std::mem::swap(&mut self.contents, &mut contents);
        match contents {
            Contents::Empty => {
                let v = vec![idx];
                proof {
                    assert(v@ =~= Seq::<usize>::empty().push(idx));
                    lemma_sum_of_push(Seq::<usize>::empty(), idx, mass_fn(m));
                    lemma_sum_of_push(Seq::<usize>::empty(), idx, moment_fn(px, m));
                    lemma_sum_of_push(Seq::<usize>::empty(), idx, moment_fn(py, m));
                    Seq::<usize>::empty().to_multiset_ensures();
                    assert(old_self.slots() =~= Seq::<usize>::empty());
                }
                self.contents = Contents::Leaf(v);
            },
            Contents::Leaf(v) => {
                if self.bounds.w >= 2 || self.bounds.h >= 2 {
                    let old_idx = v[0];
                    let ghost v0 = v@;
                    assert(v0.len() == 1);
                    let (mut a, mut b, mut c, mut d) = Self::subdivide(&self.bounds);
                    proof {
                        assert(a.wf(px, py, m));
                        assert(b.wf(px, py, m));
                        assert(c.wf(px, py, m));
                        assert(d.wf(px, py, m));
                        assert(v0 =~= Seq::<usize>::empty().push(old_idx));
                        lemma_sum_of_push(Seq::<usize>::empty(), old_idx, mass_fn(m));
                        lemma_sum_of_push(Seq::<usize>::empty(), old_idx, moment_fn(px, m));
                        lemma_sum_of_push(Seq::<usize>::empty(), old_idx, moment_fn(py, m));
                        assert(old_self.bounds.contains_spec(
                            px[old_idx as int] as int,
                            py[old_idx as int] as int,
                        ));
                    }
                    let ghost e = Seq::<usize>::empty();
                    Self::insert_into_quadrant(
                        &self.bounds,
                        &mut a,
                        &mut b,
                        &mut c,
                        &mut d,
                        particles,
                        old_idx,
                    );
                    Self::insert_into_quadrant(
                        &self.bounds,
                        &mut a,
                        &mut b,
                        &mut c,
                        &mut d,
                        particles,
                        idx,
                    );
                    proof {
                        e.to_multiset_ensures();
                        v0.to_multiset_ensures();
                        assert(e.push(old_idx) =~= v0);
                        assert(e.to_multiset() =~= vstd::multiset::Multiset::empty());
                    }
                    self.contents = Contents::Internal(a, b, c, d);
                } else {
                    let mut v = v;
                    let ghost v0 = v@;
                    v.push(idx);
                    proof {
                        lemma_sum_of_push(v0, idx, mass_fn(m));
                        lemma_sum_of_push(v0, idx, moment_fn(px, m));
                        lemma_sum_of_push(v0, idx, moment_fn(py, m));
                        v0.to_multiset_ensures();
                        assert forall|k: int| 0 <= k < v@.len() implies {
                            &&& (#[trigger] v@[k] as int) < px.len()
                            &&& v@[k] < py.len()
                            &&& v@[k] < m.len()
                            &&& self.bounds.contains_spec(
                                px[v@[k] as int] as int,
                                py[v@[k] as int] as int,
                            )
                        } by {
                            if k < v0.len() {
                                assert(v@[k] == v0[k]);
                            }
                        }
                    }
                    self.contents = Contents::Leaf(v);
                }
            },
            Contents::Internal(mut a, mut b, mut c, mut d) => {
                Self::insert_into_quadrant(
                    &self.bounds,
                    &mut a,
                    &mut b,
                    &mut c,
                    &mut d,
                    particles,
                    idx,
                );
                self.contents = Contents::Internal(a, b, c, d);
            },
        }
        proof {
            lemma_moment_bounds(
                old_self.mass as int,
                old_self.moment_x as int,
                mi as int,
                pos.x as int,
                self.bounds.top_left_pos.x as int,
                self.bounds.w as int,
            );
            lemma_moment_bounds(
                old_self.mass as int,
                old_self.moment_y as int,
                mi as int,
                pos.y as int,
                self.bounds.top_left_pos.y as int,
                self.bounds.h as int,
            );
        }
        proof {
            let nm = old_self.mass + mi;
            let x0 = self.bounds.top_left_pos.x as int;
            let x1 = x0 + self.bounds.w;
            let y0 = self.bounds.top_left_pos.y as int;
            let y1 = y0 + self.bounds.h;
            assert(-0x2000_0000_0000_0000_0000 <= nm * x0 && nm * x1 <= 0x2000_0000_0000_0000_0000)
                by (nonlinear_arith)
                requires
                    0 <= nm <= 0x1000_0000_0000,
                    -0x2000_0000 <= x0 <= x1 <= 0x2000_0000,
            ;
            assert(-0x2000_0000_0000_0000_0000 <= nm * y0 && nm * y1 <= 0x2000_0000_0000_0000_0000)
                by (nonlinear_arith)
                requires
                    0 <= nm <= 0x1000_0000_0000,
                    -0x2000_0000 <= y0 <= y1 <= 0x2000_0000,
            ;
            assert(-0x2000_0000_0000_0000_0000 <= mi * pos.x <= 0x2000_0000_0000_0000_0000)
                by (nonlinear_arith)
                requires
                    0 <= mi <= 0x100_0000,
                    -0x2000_0000 <= pos.x <= 0x2000_0000,
            ;
            assert(-0x2000_0000_0000_0000_0000 <= mi * pos.y <= 0x2000_0000_0000_0000_0000)
                by (nonlinear_arith)
                requires
                    0 <= mi <= 0x100_0000,
                    -0x2000_0000 <= pos.y <= 0x2000_0000,
            ;
        }
        self.mass = self.mass + mi;
        self.moment_x = self.moment_x + (mi as i128) * (pos.x as i128);
        self.moment_y = self.moment_y + (mi as i128) * (pos.y as i128);
    }

    /// Inserts particle `idx`, which lies in `bounds`, into the child of the matching quadrant.
    fn insert_into_quadrant(
        bounds: &Rectangle,
        a: &mut Box<QuadTree>,
        b: &mut Box<QuadTree>,
        c: &mut Box<QuadTree>,
        d: &mut Box<QuadTree>,
        particles: &ParticleSystem,
        idx: usize,
    )
        requires
            bounded(*bounds),
            can_split(*bounds),
            particles.wf(),
            idx < particles.count,
            bounds.contains_spec(
                particles.pos_x@[idx as int] as int,
                particles.pos_y@[idx as int] as int,
            ),
            old(a).bounds == quadrant(*bounds, 0),
            old(b).bounds == quadrant(*bounds, 1),
            old(c).bounds == quadrant(*bounds, 2),
            old(d).bounds == quadrant(*bounds, 3),
            old(a).wf(particles.pos_x@, particles.pos_y@, particles.mass@),
            old(b).wf(particles.pos_x@, particles.pos_y@, particles.mass@),
            old(c).wf(particles.pos_x@, particles.pos_y@, particles.mass@),
            old(d).wf(particles.pos_x@, particles.pos_y@, particles.mass@),
            old(a).mass + old(b).mass + old(c).mass + old(d).mass + particles.mass@[idx as int]
                <= MAX_TREE_MASS,
        ensures
            final(a).bounds == old(a).bounds,
            final(b).bounds == old(b).bounds,
            final(c).bounds == old(c).bounds,
            final(d).bounds == old(d).bounds,
            final(a).wf(particles.pos_x@, particles.pos_y@, particles.mass@),
            final(b).wf(particles.pos_x@, particles.pos_y@, particles.mass@),
            final(c).wf(particles.pos_x@, particles.pos_y@, particles.mass@),
            final(d).wf(particles.pos_x@, particles.pos_y@, particles.mass@),
            (final(a).slots() + final(b).slots() + final(c).slots() + final(d).slots()).to_multiset()
                == (old(a).slots() + old(b).slots() + old(c).slots()
                + old(d).slots()).to_multiset().insert(idx),
            final(a).mass + final(b).mass + final(c).mass + final(d).mass == old(a).mass + old(
                b,
            ).mass + old(c).mass + old(d).mass + particles.mass@[idx as int],
            final(a).moment_x + final(b).moment_x + final(c).moment_x + final(d).moment_x == old(
                a,
            ).moment_x + old(b).moment_x + old(c).moment_x + old(d).moment_x
                + particles.mass@[idx as int] * particles.pos_x@[idx as int],
            final(a).moment_y + final(b).moment_y + final(c).moment_y + final(d).moment_y == old(
                a,
            ).moment_y + old(b).moment_y + old(c).moment_y + old(d).moment_y
                + particles.mass@[idx as int] * particles.pos_y@[idx as int],
        decreases bounds.w + bounds.h, 0int,
    {
        let pos = particles.get_position(idx);
        proof {
            lemma_quadrant_facts(*bounds, pos.x as int, pos.y as int);
            broadcast use vstd::seq_lib::lemma_multiset_commutative;

        }
        let k = quadrant_index(bounds, &pos);
        if k == 0 {
            a.insert(particles, idx);
        } else if k == 1 {
            b.insert(particles, idx);
        } else if k == 2 {
            c.insert(particles, idx);
        } else {
            d.insert(particles, idx);
        }
        proof {
            broadcast use vstd::seq_lib::lemma_multiset_commutative;

            assert((a.slots() + b.slots() + c.slots() + d.slots()).to_multiset() =~= (old(a).slots()
                + old(b).slots() + old(c).slots() + old(d).slots()).to_multiset().insert(idx));
        }
    }
}

/// The slots whose position lies in `area`.
pub open spec fn in_area(area: Rectangle, px: Seq<i64>, py: Seq<i64>) -> spec_fn(usize) -> bool {
    |j: usize| area.contains_spec(px[j as int] as int, py[j as int] as int)
}

proof fn lemma_filter_none(s: Seq<usize>, pred: spec_fn(usize) -> bool)
    requires
        forall|k: int| 0 <= k < s.len() ==> !pred(#[trigger] s[k]),
    ensures
        s.filter(pred) =~= Seq::<usize>::empty(),
    decreases s.len(),
{
    reveal(Seq::filter);
    if s.len() > 0 {
        lemma_filter_none(s.drop_last(), pred);
    }
}

/// Every slot beneath a well-formed node is a valid index whose position lies in the node's box.
pub proof fn lemma_slots_in_bounds(t: QuadTree, px: Seq<i64>, py: Seq<i64>, m: Seq<u64>)
    requires
        t.wf(px, py, m),
    ensures
        forall|k: int|
            0 <= k < t.slots().len() ==> {
                &&& (#[trigger] t.slots()[k] as int) < px.len()
                &&& t.slots()[k] < py.len()
                &&& t.slots()[k] < m.len()
                &&& t.bounds.contains_spec(
                    px[t.slots()[k] as int] as int,
                    py[t.slots()[k] as int] as int,
                )
            },
    decreases t,
{
    match t.contents {
        Contents::Empty => {},
        Contents::Leaf(v) => {},
        Contents::Internal(a, b, c, d) => {
            lemma_slots_in_bounds(*a, px, py, m);
            lemma_slots_in_bounds(*b, px, py, m);
            lemma_slots_in_bounds(*c, px, py, m);
            lemma_slots_in_bounds(*d, px, py, m);
            let sa = a.slots();
            let sb = b.slots();
            let sc = c.slots();
            let sd = d.slots();
            assert forall|k: int| 0 <= k < t.slots().len() implies {
                &&& (#[trigger] t.slots()[k] as int) < px.len()
                &&& t.slots()[k] < py.len()
                &&& t.slots()[k] < m.len()
                &&& t.bounds.contains_spec(
                    px[t.slots()[k] as int] as int,
                    py[t.slots()[k] as int] as int,
                )
            } by {
                assert(t.slots() == sa + sb + sc + sd);
                if k < sa.len() {
                    assert(t.slots()[k] == sa[k]);
                } else if k < sa.len() + sb.len() {
                    assert(t.slots()[k] == sb[k - sa.len()]);
                } else if k < sa.len() + sb.len() + sc.len() {
                    assert(t.slots()[k] == sc[k - sa.len() - sb.len()]);
                } else {
                    assert(t.slots()[k] == sd[k - sa.len() - sb.len() - sc.len()]);
                }
            }
        },
    }
}

impl QuadTree {
    /// The slots beneath this node whose position lies in `area`, in tree order.
    pub fn query(&self, area: &Rectangle, particles: &ParticleSystem) -> (r: Vec<usize>)
        requires
            self.wf(particles.pos_x@, particles.pos_y@, particles.mass@),
            particles.wf(),
        ensures
            r@ == self.slots().filter(in_area(*area, particles.pos_x@, particles.pos_y@)),
    {
        let mut result = Vec::new();
        self.query_recursive(area, particles, &mut result);
        assert(result@ =~= Seq::<usize>::empty() + self.slots().filter(
            in_area(*area, particles.pos_x@, particles.pos_y@),
        ));
        result
    }

    fn query_recursive(&self, area: &Rectangle, particles: &ParticleSystem, out: &mut Vec<usize>)
        requires
            self.wf(particles.pos_x@, particles.pos_y@, particles.mass@),
            particles.wf(),
        ensures
            final(out)@ == old(out)@ + self.slots().filter(
                in_area(*area, particles.pos_x@, particles.pos_y@),
            ),
        decreases self,
    {
        let ghost pred = in_area(*area, particles.pos_x@, particles.pos_y@);
        if !self.bounds.intersects(area) {
            proof {
                let px = particles.pos_x@;
                let py = particles.pos_y@;
                lemma_slots_in_bounds(*self, px, py, particles.mass@);
                assert forall|k: int| 0 <= k < self.slots().len() implies !pred(
                    #[trigger] self.slots()[k],
                ) by {
                    let j = self.slots()[k];
                    if pred(j) {
                        crate::rectangle::lemma_common_point_intersects(
                            self.bounds,
                            *area,
                            px[j as int] as int,
                            py[j as int] as int,
                        );
                    }
                }
                lemma_filter_none(self.slots(), pred);
            }
            assert(out@ =~= old(out)@ + self.slots().filter(pred));
            return;
        }
        match &self.contents {
            Contents::Empty => {
                proof {
                    reveal(Seq::filter);
                }
                assert(out@ =~= old(out)@ + self.slots().filter(pred));
            },
            Contents::Leaf(v) => {
                let mut k: usize = 0;
                while k < v.len()
                    invariant
                        self.wf(particles.pos_x@, particles.pos_y@, particles.mass@),
                        particles.wf(),
                        self.contents == Contents::Leaf(*v),
                        pred == in_area(*area, particles.pos_x@, particles.pos_y@),
                        k <= v@.len(),
                        out@ == old(out)@ + v@.take(k as int).filter(pred),
                    decreases v@.len() - k,
                {
                    let j = v[k];
                    assert(v@[k as int] < particles.count);
                    let pos = particles.get_position(j);
                    proof {
                        assert(v@.take(k as int + 1) =~= v@.take(k as int).push(j));
                        v@.take(k as int).lemma_filter_push(j, pred);
                    }
                    if area.contains_point(&pos) {
                        out.push(j);
                    }
                    assert(out@ =~= old(out)@ + v@.take(k as int + 1).filter(pred));
                    k = k + 1;
                }
                assert(v@.take(v@.len() as int) =~= v@);
            },
            Contents::Internal(a, b, c, d) => {
                a.query_recursive(area, particles, out);
                b.query_recursive(area, particles, out);
                c.query_recursive(area, particles, out);
                d.query_recursive(area, particles, out);
                proof {
                    let sa = a.slots();
                    let sb = b.slots();
                    let sc = c.slots();
                    let sd = d.slots();
                    Seq::filter_distributes_over_add(sa, sb, pred);
                    Seq::filter_distributes_over_add(sa + sb, sc, pred);
                    Seq::filter_distributes_over_add(sa + sb + sc, sd, pred);
                }
                assert(out@ =~= old(out)@ + self.slots().filter(pred));
            },
        }
    }
}

/// Whether a node is far enough from `(x, y)` to stand for its particles as one body:
/// `w / d < theta` with `d` the softened distance to its center of mass, compared
/// exactly as `w^2 * den^2 < num^2 * d^2`.
pub open spec fn accepts(t: QuadTree, x: int, y: int, p: ForceParams) -> bool {
    &&& t.mass > 0
    &&& {
        let dx = (t.moment_x as int) / (t.mass as int) - x;
        let dy = (t.moment_y as int) / (t.mass as int) - y;
        let eps = p.softening as int;
        t.bounds.w * t.bounds.w * p.theta_den * p.theta_den < p.theta_num * p.theta_num * (dx * dx
            + dy * dy + eps * eps)
    }
}

/// The attraction on slot `i` from slot `j`, one component; nothing from itself.
pub open spec fn pull_x(i: usize, px: Seq<i64>, py: Seq<i64>, m: Seq<u64>, p: ForceParams) -> spec_fn(usize) -> int {
    |j: usize|
        if j == i {
            0
        } else {
            pair_force_spec(
                p,
                m[i as int] as int,
                m[j as int] as int,
                px[j as int] - px[i as int],
                py[j as int] - py[i as int],
            ).0
        }
}

pub open spec fn pull_y(i: usize, px: Seq<i64>, py: Seq<i64>, m: Seq<u64>, p: ForceParams) -> spec_fn(usize) -> int {
    |j: usize|
        if j == i {
            0
        } else {
            pair_force_spec(
                p,
                m[i as int] as int,
                m[j as int] as int,
                px[j as int] - px[i as int],
                py[j as int] - py[i as int],
            ).1
        }
}

/// A point within the world limits on both axes.
pub open spec fn in_limits(x: int, y: int) -> bool {
    -(WORLD_LIMIT as int) <= x <= WORLD_LIMIT && -(WORLD_LIMIT as int) <= y <= WORLD_LIMIT
}

impl QuadTree {
    /// The net force that the Barnes–Hut traversal of this node exerts on slot `i`.
    pub open spec fn force_on(
        &self,
        i: usize,
        px: Seq<i64>,
        py: Seq<i64>,
        m: Seq<u64>,
        p: ForceParams,
    ) -> (int, int)
        decreases self,
    {
        match &self.contents {
            Contents::Empty => (0, 0),
            Contents::Leaf(v) => (sum_of(v@, pull_x(i, px, py, m, p)), sum_of(v@, pull_y(i, px, py, m, p))),
            Contents::Internal(a, b, c, d) => {
                if accepts(*self, px[i as int] as int, py[i as int] as int, p) {
                    pair_force_spec(
                        p,
                        m[i as int] as int,
                        self.mass as int,
                        (self.moment_x as int) / (self.mass as int) - px[i as int],
                        (self.moment_y as int) / (self.mass as int) - py[i as int],
                    )
                } else {
                    let fa = a.force_on(i, px, py, m, p);
                    let fb = b.force_on(i, px, py, m, p);
                    let fc = c.force_on(i, px, py, m, p);
                    let fd = d.force_on(i, px, py, m, p);
                    (fa.0 + fb.0 + fc.0 + fd.0, fa.1 + fb.1 + fc.1 + fd.1)
                }
            },
        }
    }
}

proof fn lemma_leaf_force_bound(
    v: Seq<usize>,
    i: usize,
    px: Seq<i64>,
    py: Seq<i64>,
    m: Seq<u64>,
    p: ForceParams,
)
    requires
        p.wf(),
        (i as int) < m.len(),
        forall|k: int| 0 <= k < v.len() ==> (#[trigger] v[k] as int) < m.len(),
    ensures
        -(p.g * m[i as int] * sum_of(v, mass_fn(m))) <= sum_of(v, pull_x(i, px, py, m, p)) <= p.g
            * m[i as int] * sum_of(v, mass_fn(m)),
        -(p.g * m[i as int] * sum_of(v, mass_fn(m))) <= sum_of(v, pull_y(i, px, py, m, p)) <= p.g
            * m[i as int] * sum_of(v, mass_fn(m)),
        0 <= sum_of(v, mass_fn(m)),
    decreases v.len(),
{
    if v.len() > 0 {
        let w = v.drop_last();
        let j = v.last();
        lemma_leaf_force_bound(w, i, px, py, m, p);
        let k = p.g * m[i as int];
        let dx = px[j as int] - px[i as int];
        let dy = py[j as int] - py[i as int];
        lemma_component_bound(p.g as int, p.softening as int, m[i as int] as int, m[j as int] as int, dx, dy);
        lemma_component_bound(p.g as int, p.softening as int, m[i as int] as int, m[j as int] as int, dy, dx);
        let sw = sum_of(w, mass_fn(m));
        assert(k * (sw + m[j as int]) == k * sw + k * m[j as int]) by (nonlinear_arith);
        assert(p.g * m[i as int] * sum_of(v, mass_fn(m)) == k * (sw + m[j as int]));
        assert(p.g * m[i as int] * m[j as int] == k * m[j as int]);
        assert(p.g * m[i as int] * sw == k * sw);
        assert(k * m[j as int] >= 0) by (nonlinear_arith)
            requires
                k >= 0,
                m[j as int] >= 0,
        ;
        assert(k >= 0) by (nonlinear_arith)
            requires
                k == p.g * m[i as int],
                p.g >= 0,
                m[i as int] >= 0,
        ;
    }
}

/// The traversal's force on one particle is at most `g * m_i * M` per axis,
/// where `M` is the node's aggregate mass.
pub proof fn lemma_force_bound(
    t: QuadTree,
    i: usize,
    px: Seq<i64>,
    py: Seq<i64>,
    m: Seq<u64>,
    p: ForceParams,
)
    requires
        t.wf(px, py, m),
        p.wf(),
        (i as int) < m.len(),
    ensures
        -(p.g * m[i as int] * t.mass) <= t.force_on(i, px, py, m, p).0 <= p.g * m[i as int] * t.mass,
        -(p.g * m[i as int] * t.mass) <= t.force_on(i, px, py, m, p).1 <= p.g * m[i as int] * t.mass,
    decreases t,
{
    let k = p.g * m[i as int];
    assert(k >= 0) by (nonlinear_arith)
        requires
            k == p.g * m[i as int],
            p.g >= 0,
            m[i as int] >= 0,
    ;
    match t.contents {
        Contents::Empty => {},
        Contents::Leaf(v) => {
            lemma_leaf_force_bound(v@, i, px, py, m, p);
        },
        Contents::Internal(a, b, c, d) => {
            if accepts(t, px[i as int] as int, py[i as int] as int, p) {
                lemma_component_bound(
                    p.g as int,
                    p.softening as int,
                    m[i as int] as int,
                    t.mass as int,
                    (t.moment_x as int) / (t.mass as int) - px[i as int],
                    (t.moment_y as int) / (t.mass as int) - py[i as int],
                );
                lemma_component_bound(
                    p.g as int,
                    p.softening as int,
                    m[i as int] as int,
                    t.mass as int,
                    (t.moment_y as int) / (t.mass as int) - py[i as int],
                    (t.moment_x as int) / (t.mass as int) - px[i as int],
                );
            } else {
                lemma_force_bound(*a, i, px, py, m, p);
                lemma_force_bound(*b, i, px, py, m, p);
                lemma_force_bound(*c, i, px, py, m, p);
                lemma_force_bound(*d, i, px, py, m, p);
                assert(k * t.mass == k * a.mass + k * b.mass + k * c.mass + k * d.mass) by (
                nonlinear_arith)
                    requires
                        t.mass == a.mass + b.mass + c.mass + d.mass,
                ;
            }
        },
    }
}

/// `a` and `b` hold the same particles; only their force accumulators may differ.
pub open spec fn same_bodies(a: ParticleSystem, b: ParticleSystem) -> bool {
    &&& a.pos_x == b.pos_x
    &&& a.pos_y == b.pos_y
    &&& a.vel_x == b.vel_x
    &&& a.vel_y == b.vel_y
    &&& a.mass == b.mass
    &&& a.radius == b.radius
    &&& a.indices == b.indices
    &&& a.count == b.count
}

proof fn lemma_prefix_mass(v: Seq<usize>, k: int, m: Seq<u64>)
    requires
        0 <= k <= v.len(),
    ensures
        0 <= sum_of(v.take(k), mass_fn(m)) <= sum_of(v, mass_fn(m)),
    decreases v.len(),
{
    if v.len() > 0 {
        if k == v.len() {
            assert(v.take(k) =~= v);
            lemma_prefix_mass(v.drop_last(), k - 1, m);
            assert(v.drop_last().take(k - 1) =~= v.drop_last());
        } else {
            lemma_prefix_mass(v.drop_last(), k, m);
            assert(v.drop_last().take(k) =~= v.take(k));
        }
    }
}

impl QuadTree {
    /// The center of mass, rounded down on each axis.
    pub fn center_of_mass(&self) -> (c: Vec2)
        requires
            bounded(self.bounds),
            self.mass > 0,
            self.mass * self.bounds.top_left_pos.x <= self.moment_x <= self.mass * (
            self.bounds.top_left_pos.x + self.bounds.w),
            self.mass * self.bounds.top_left_pos.y <= self.moment_y <= self.mass * (
            self.bounds.top_left_pos.y + self.bounds.h),
            self.mass <= MAX_TREE_MASS,
        ensures
            c.x == (self.moment_x as int) / (self.mass as int),
            c.y == (self.moment_y as int) / (self.mass as int),
            self.bounds.top_left_pos.x <= c.x <= self.bounds.top_left_pos.x + self.bounds.w,
            self.bounds.top_left_pos.y <= c.y <= self.bounds.top_left_pos.y + self.bounds.h,
    {
        let mass = self.mass as i128;
        let x0 = self.bounds.top_left_pos.x as i128;
        let y0 = self.bounds.top_left_pos.y as i128;
        assert(-0x2000_0000_0000_0000_0000 <= mass * x0 <= 0x2000_0000_0000_0000_0000) by (
        nonlinear_arith)
            requires
                0 <= mass <= 0x1000_0000_0000,
                -0x2000_0000 <= x0 <= 0x2000_0000,
        ;
        assert(-0x2000_0000_0000_0000_0000 <= mass * y0 <= 0x2000_0000_0000_0000_0000) by (
        nonlinear_arith)
            requires
                0 <= mass <= 0x1000_0000_0000,
                -0x2000_0000 <= y0 <= 0x2000_0000,
        ;
        assert(mass * (x0 + self.bounds.w) <= 0x2000_0000_0000_0000_0000) by (nonlinear_arith)
            requires
                0 <= mass <= 0x1000_0000_0000,
                x0 + self.bounds.w <= 0x2000_0000,
        ;
        assert(mass * (y0 + self.bounds.h) <= 0x2000_0000_0000_0000_0000) by (nonlinear_arith)
            requires
                0 <= mass <= 0x1000_0000_0000,
                y0 + self.bounds.h <= 0x2000_0000,
        ;
        let rx = self.moment_x - mass * x0;
        let ry = self.moment_y - mass * y0;
        let qx = rx / mass;
        let qy = ry / mass;
        proof {
            vstd::arithmetic::div_mod::lemma_hoist_over_denominator(rx as int, x0 as int, mass as nat);
            vstd::arithmetic::div_mod::lemma_hoist_over_denominator(ry as int, y0 as int, mass as nat);
            assert(rx + x0 * mass == self.moment_x) by (nonlinear_arith)
                requires
                    rx == self.moment_x - mass * x0,
            ;
            assert(ry + y0 * mass == self.moment_y) by (nonlinear_arith)
                requires
                    ry == self.moment_y - mass * y0,
            ;
            assert(rx <= mass * self.bounds.w) by (nonlinear_arith)
                requires
                    rx == self.moment_x - mass * x0,
                    self.moment_x <= mass * (x0 + self.bounds.w),
            ;
            assert(ry <= mass * self.bounds.h) by (nonlinear_arith)
                requires
                    ry == self.moment_y - mass * y0,
                    self.moment_y <= mass * (y0 + self.bounds.h),
            ;
            vstd::arithmetic::div_mod::lemma_div_is_ordered(rx as int, mass * self.bounds.w, mass as int);
            vstd::arithmetic::div_mod::lemma_div_is_ordered(ry as int, mass * self.bounds.h, mass as int);
            vstd::arithmetic::div_mod::lemma_div_is_ordered(0, rx as int, mass as int);
            vstd::arithmetic::div_mod::lemma_div_is_ordered(0, ry as int, mass as int);
            assert(mass * self.bounds.w == self.bounds.w * mass) by (nonlinear_arith);
            assert(mass * self.bounds.h == self.bounds.h * mass) by (nonlinear_arith);
            vstd::arithmetic::div_mod::lemma_div_multiples_vanish(self.bounds.w as int, mass as int);
            vstd::arithmetic::div_mod::lemma_div_multiples_vanish(self.bounds.h as int, mass as int);
        }
        Vec2 { x: (qx + x0) as i64, y: (qy + y0) as i64 }
    }

    /// Adds to slot `idx`'s force accumulator the Barnes–Hut approximation of the
    /// attraction that the particles in this tree exert on it. A particle outside
    /// the tree's box receives nothing through the tree.
    pub fn calculate_force(&self, particles: &mut ParticleSystem, idx: usize, params: &ForceParams)
        requires
            self.wf(old(particles).pos_x@, old(particles).pos_y@, old(particles).mass@),
            old(particles).wf(),
            params.wf(),
            idx < old(particles).count,
            -(FORCE_LIMIT - params.g * old(particles).mass@[idx as int] * self.mass) <= old(
                particles,
            ).net_force_x@[idx as int] <= FORCE_LIMIT - params.g * old(particles).mass@[idx as int]
                * self.mass,
            -(FORCE_LIMIT - params.g * old(particles).mass@[idx as int] * self.mass) <= old(
                particles,
            ).net_force_y@[idx as int] <= FORCE_LIMIT - params.g * old(particles).mass@[idx as int]
                * self.mass,
        ensures
            final(particles).wf(),
            same_bodies(*final(particles), *old(particles)),
            self.bounds.contains_spec(
                old(particles).pos_x@[idx as int] as int,
                old(particles).pos_y@[idx as int] as int,
            ) ==> final(particles).net_force_x@ == old(particles).net_force_x@.update(
                idx as int,
                (old(particles).net_force_x@[idx as int] + self.force_on(
                    idx,
                    old(particles).pos_x@,
                    old(particles).pos_y@,
                    old(particles).mass@,
                    *params,
                ).0) as i128,
            ),
            self.bounds.contains_spec(
                old(particles).pos_x@[idx as int] as int,
                old(particles).pos_y@[idx as int] as int,
            ) ==> final(particles).net_force_y@ == old(particles).net_force_y@.update(
                idx as int,
                (old(particles).net_force_y@[idx as int] + self.force_on(
                    idx,
                    old(particles).pos_x@,
                    old(particles).pos_y@,
                    old(particles).mass@,
                    *params,
                ).1) as i128,
            ),
            !self.bounds.contains_spec(
                old(particles).pos_x@[idx as int] as int,
                old(particles).pos_y@[idx as int] as int,
            ) ==> *final(particles) == *old(particles),
    {
        let pos = particles.get_position(idx);
        if self.bounds.contains_point(&pos) {
            self.accumulate_force(particles, idx, params);
        }
    }

    /// The traversal itself, for a particle anywhere within the world limits.
    fn accumulate_force(&self, particles: &mut ParticleSystem, idx: usize, params: &ForceParams)
        requires
            self.wf(old(particles).pos_x@, old(particles).pos_y@, old(particles).mass@),
            old(particles).wf(),
            params.wf(),
            idx < old(particles).count,
            in_limits(
                old(particles).pos_x@[idx as int] as int,
                old(particles).pos_y@[idx as int] as int,
            ),
            -(FORCE_LIMIT - params.g * old(particles).mass@[idx as int] * self.mass) <= old(
                particles,
            ).net_force_x@[idx as int] <= FORCE_LIMIT - params.g * old(particles).mass@[idx as int]
                * self.mass,
            -(FORCE_LIMIT - params.g * old(particles).mass@[idx as int] * self.mass) <= old(
                particles,
            ).net_force_y@[idx as int] <= FORCE_LIMIT - params.g * old(particles).mass@[idx as int]
                * self.mass,
        ensures
            final(particles).wf(),
            same_bodies(*final(particles), *old(particles)),
            final(particles).net_force_x@ == old(particles).net_force_x@.update(
                idx as int,
                (old(particles).net_force_x@[idx as int] + self.force_on(
                    idx,
                    old(particles).pos_x@,
                    old(particles).pos_y@,
                    old(particles).mass@,
                    *params,
                ).0) as i128,
            ),
            final(particles).net_force_y@ == old(particles).net_force_y@.update(
                idx as int,
                (old(particles).net_force_y@[idx as int] + self.force_on(
                    idx,
                    old(particles).pos_x@,
                    old(particles).pos_y@,
                    old(particles).mass@,
                    *params,
                ).1) as i128,
            ),
        decreases self,
    {
        let ghost px = particles.pos_x@;
        let ghost py = particles.pos_y@;
        let ghost m = particles.mass@;
        let ghost f0x = particles.net_force_x@[idx as int] as int;
        let ghost f0y = particles.net_force_y@[idx as int] as int;
        let ghost kk = params.g * m[idx as int];
        proof {
            lemma_force_bound(*self, idx, px, py, m, *params);
            assert(kk >= 0) by (nonlinear_arith)
                requires
                    kk == params.g * m[idx as int],
                    params.g >= 0,
                    m[idx as int] >= 0,
            ;
        }
        match &self.contents {
            Contents::Empty => {
                assert(particles.net_force_x@ =~= old(particles).net_force_x@.update(
                    idx as int,
                    (f0x + 0) as i128,
                ));
                assert(particles.net_force_y@ =~= old(particles).net_force_y@.update(
                    idx as int,
                    (f0y + 0) as i128,
                ));
            },
            Contents::Leaf(v) => {
                let ghost fx = pull_x(idx, px, py, m, *params);
                let ghost fy = pull_y(idx, px, py, m, *params);
                let mut k: usize = 0;
                assert(v@.take(0) =~= Seq::<usize>::empty());
                while k < v.len()
                    invariant
                        self.wf(px, py, m),
                        self.contents == Contents::Leaf(*v),
                        particles.wf(),
                        old(particles).wf(),
                        params.wf(),
                        same_bodies(*particles, *old(particles)),
                        px == particles.pos_x@,
                        py == particles.pos_y@,
                        m == particles.mass@,
                        idx < particles.count,
                        in_limits(px[idx as int] as int, py[idx as int] as int),
                        fx == pull_x(idx, px, py, m, *params),
                        fy == pull_y(idx, px, py, m, *params),
                        kk == params.g * m[idx as int],
                        kk >= 0,
                        -(FORCE_LIMIT - kk * self.mass) <= f0x <= FORCE_LIMIT - kk * self.mass,
                        -(FORCE_LIMIT - kk * self.mass) <= f0y <= FORCE_LIMIT - kk * self.mass,
                        k <= v@.len(),
                        particles.net_force_x@ == old(particles).net_force_x@.update(
                            idx as int,
                            (f0x + sum_of(v@.take(k as int), fx)) as i128,
                        ),
                        particles.net_force_y@ == old(particles).net_force_y@.update(
                            idx as int,
                            (f0y + sum_of(v@.take(k as int), fy)) as i128,
                        ),
                        -(kk * sum_of(v@.take(k as int), mass_fn(m))) <= sum_of(v@.take(k as int), fx)
                            <= kk * sum_of(v@.take(k as int), mass_fn(m)),
                        -(kk * sum_of(v@.take(k as int), mass_fn(m))) <= sum_of(v@.take(k as int), fy)
                            <= kk * sum_of(v@.take(k as int), mass_fn(m)),
                    decreases v@.len() - k,
                {
                    let j = v[k];
                    let ghost t1 = v@.take(k as int + 1);
                    proof {
                        assert(t1 =~= v@.take(k as int).push(j));
                        lemma_sum_of_push(v@.take(k as int), j, fx);
                        lemma_sum_of_push(v@.take(k as int), j, fy);
                        assert forall|q: int| 0 <= q < t1.len() implies (#[trigger] t1[q] as int)
                            < m.len() by {
                            assert(t1[q] == v@[q]);
                        }
                        lemma_leaf_force_bound(t1, idx, px, py, m, *params);
                        lemma_prefix_mass(v@, k as int + 1, m);
                        let s1 = sum_of(t1, mass_fn(m));
                        assert(kk * s1 <= kk * self.mass) by (nonlinear_arith)
                            requires
                                kk >= 0,
                                s1 <= self.mass,
                        ;
                        assert(self.bounds.contains_spec(px[j as int] as int, py[j as int] as int));
                        lemma_prefix_mass(v@, k as int, m);
                        let s0 = sum_of(v@.take(k as int), mass_fn(m));
                        assert(kk * s0 <= kk * self.mass) by (nonlinear_arith)
                            requires
                                kk >= 0,
                                s0 <= self.mass,
                        ;
                        assert(-FORCE_LIMIT <= f0x + sum_of(v@.take(k as int), fx) <= FORCE_LIMIT);
                        assert(-FORCE_LIMIT <= f0y + sum_of(v@.take(k as int), fy) <= FORCE_LIMIT);
                        assert(-FORCE_LIMIT <= f0x + sum_of(t1, fx) <= FORCE_LIMIT);
                        assert(-FORCE_LIMIT <= f0y + sum_of(t1, fy) <= FORCE_LIMIT);
                        assert(particles.net_force_x@[idx as int] == f0x + sum_of(v@.take(k as int), fx));
                        assert(particles.net_force_y@[idx as int] == f0y + sum_of(v@.take(k as int), fy));
                    }
                    if j != idx {
                        let f = particles.get_attraction_force(idx, j, params);
                        assert(fx(j) == f.x);
                        assert(fy(j) == f.y);
                        particles.add_to_net_force(idx, f);
                        assert(particles.net_force_x@ =~= old(particles).net_force_x@.update(
                            idx as int,
                            (f0x + sum_of(t1, fx)) as i128,
                        ));
                        assert(particles.net_force_y@ =~= old(particles).net_force_y@.update(
                            idx as int,
                            (f0y + sum_of(t1, fy)) as i128,
                        ));
                    } else {
                        assert(fx(j) == 0);
                        assert(fy(j) == 0);
                    }
                    k = k + 1;
                }
                assert(v@.take(v@.len() as int) =~= v@);
            },
            Contents::Internal(a, b, c, d) => {
                let mi = particles.mass[idx];
                let pos = particles.get_position(idx);
                if self.mass > 0 {
                    let cm = self.center_of_mass();
                    let dx = cm.x - pos.x;
                    let dy = cm.y - pos.y;
                    let w = self.bounds.w as i128;
                    let den = params.theta_den as i128;
                    let num = params.theta_num as i128;
                    let eps = params.softening as i128;
                    let ddx = dx as i128;
                    let ddy = dy as i128;
                    assert(0 <= w * w * den * den <= 0x1_0000_0000_0000_0000_0000_0000) by (
                    nonlinear_arith)
                        requires
                            0 <= w <= 0x4000_0000,
                            0 <= den <= 0x1_0000,
                    ;
                    assert(0 <= ddx * ddx + ddy * ddy + eps * eps <= 0x4000_0000_0000_0000) by (
                    nonlinear_arith)
                        requires
                            -0x4000_0000 <= ddx <= 0x4000_0000,
                            -0x4000_0000 <= ddy <= 0x4000_0000,
                            0 <= eps <= 0x2000_0000,
                    ;
                    assert(0 <= num * num <= 0x1_0000_0000) by (nonlinear_arith)
                        requires
                            0 <= num <= 0x1_0000,
                    ;
                    assert(0 <= (num * num) * (ddx * ddx + ddy * ddy + eps * eps)
                        <= 0x1_0000_0000 * 0x4000_0000_0000_0000) by (nonlinear_arith)
                        requires
                            0 <= num * num <= 0x1_0000_0000,
                            0 <= ddx * ddx + ddy * ddy + eps * eps <= 0x4000_0000_0000_0000,
                    ;
                    assert(0 <= w * w <= 0x1000_0000_0000_0000 && 0 <= w * w * den <= 0x1000_0000_0000_0000
                        * 0x1_0000) by (nonlinear_arith)
                        requires
                            0 <= w <= 0x4000_0000,
                            0 <= den <= 0x1_0000,
                    ;
                    assert(0 <= ddx * ddx <= 0x1000_0000_0000_0000 && 0 <= ddy * ddy
                        <= 0x1000_0000_0000_0000 && 0 <= eps * eps <= 0x400_0000_0000_0000) by (
                    nonlinear_arith)
                        requires
                            -0x4000_0000 <= ddx <= 0x4000_0000,
                            -0x4000_0000 <= ddy <= 0x4000_0000,
                            0 <= eps <= 0x2000_0000,
                    ;
                    let lhs = w * w * den * den;
                    let rhs = (num * num) * (ddx * ddx + ddy * ddy + eps * eps);
                    assert(rhs == num * num * (ddx * ddx + ddy * ddy + eps * eps)) by (nonlinear_arith)
                        requires
                            rhs == (num * num) * (ddx * ddx + ddy * ddy + eps * eps),
                    ;
                    if lhs < rhs {
                        let f = pair_force(params, mi, self.mass, dx, dy);
                        assert(params.g * mi * self.mass == kk * self.mass);
                        particles.add_to_net_force(idx, f);
                        return;
                    }
                }
                proof {
                    lemma_force_bound(**a, idx, px, py, m, *params);
                    lemma_force_bound(**b, idx, px, py, m, *params);
                    lemma_force_bound(**c, idx, px, py, m, *params);
                    lemma_force_bound(**d, idx, px, py, m, *params);
                    assert(kk * self.mass == kk * a.mass + kk * b.mass + kk * c.mass + kk * d.mass)
                        by (nonlinear_arith)
                        requires
                            self.mass == a.mass + b.mass + c.mass + d.mass,
                    ;
                    assert(kk * a.mass >= 0 && kk * b.mass >= 0 && kk * c.mass >= 0 && kk * d.mass
                        >= 0) by (nonlinear_arith)
                        requires
                            kk >= 0,
                            a.mass >= 0,
                            b.mass >= 0,
                            c.mass >= 0,
                            d.mass >= 0,
                    ;
                }
                a.accumulate_force(particles, idx, params);
                b.accumulate_force(particles, idx, params);
                c.accumulate_force(particles, idx, params);
                d.accumulate_force(particles, idx, params);
            },
        }
    }
}

proof fn lemma_sum_of_concat(a: Seq<usize>, b: Seq<usize>, f: spec_fn(usize) -> int)
    ensures
        sum_of(a + b, f) == sum_of(a, f) + sum_of(b, f),
    decreases b.len(),
{
    if b.len() > 0 {
        assert((a + b).drop_last() =~= a + b.drop_last());
        lemma_sum_of_concat(a, b.drop_last(), f);
    } else {
        assert(a + b =~= a);
    }
}

proof fn lemma_sum_of_remove(s: Seq<usize>, k: int, f: spec_fn(usize) -> int)
    requires
        0 <= k < s.len(),
    ensures
        sum_of(s, f) == sum_of(s.remove(k), f) + f(s[k]),
    decreases s.len(),
{
    if k == s.len() - 1 {
        assert(s.remove(k) =~= s.drop_last());
    } else {
        lemma_sum_of_remove(s.drop_last(), k, f);
        assert(s.remove(k).drop_last() =~= s.drop_last().remove(k));
    }
}

/// A sum over a sequence depends only on its multiset of entries.
pub proof fn lemma_sum_of_permutation(s1: Seq<usize>, s2: Seq<usize>, f: spec_fn(usize) -> int)
    requires
        s1.to_multiset() == s2.to_multiset(),
    ensures
        sum_of(s1, f) == sum_of(s2, f),
    decreases s1.len(),
{
    s1.to_multiset_ensures();
    s2.to_multiset_ensures();
    if s1.len() == 0 {
        assert(s2.len() == 0);
    } else {
        let x = s1.last();
        let w = s1.drop_last();
        assert(s1 =~= w.push(x));
        w.to_multiset_ensures();
        assert(s1[s1.len() - 1] == x);
        assert(s1.contains(x));
        assert(s1.to_multiset().count(x) > 0);
        assert(s2.to_multiset().count(x) > 0);
        assert(s2.contains(x));
        let k = choose|k: int| 0 <= k < s2.len() && s2[k] == x;
        let r = s2.remove(k);
        assert(r.to_multiset() == s2.to_multiset().remove(x));
        assert(w.to_multiset() =~= r.to_multiset());
        lemma_sum_of_permutation(w, r, f);
        lemma_sum_of_remove(s2, k, f);
    }
}

/// A node's mass and moments are the sums over the slots beneath it.
pub proof fn lemma_aggregates(t: QuadTree, px: Seq<i64>, py: Seq<i64>, m: Seq<u64>)
    requires
        t.wf(px, py, m),
    ensures
        t.mass == sum_of(t.slots(), mass_fn(m)),
        t.moment_x == sum_of(t.slots(), moment_fn(px, m)),
        t.moment_y == sum_of(t.slots(), moment_fn(py, m)),
    decreases t,
{
    match t.contents {
        Contents::Empty => {},
        Contents::Leaf(v) => {},
        Contents::Internal(a, b, c, d) => {
            lemma_aggregates(*a, px, py, m);
            lemma_aggregates(*b, px, py, m);
            lemma_aggregates(*c, px, py, m);
            lemma_aggregates(*d, px, py, m);
            let (sa, sb, sc, sd) = (a.slots(), b.slots(), c.slots(), d.slots());
            lemma_sum_of_concat(sa, sb, mass_fn(m));
            lemma_sum_of_concat(sa + sb, sc, mass_fn(m));
            lemma_sum_of_concat(sa + sb + sc, sd, mass_fn(m));
            lemma_sum_of_concat(sa, sb, moment_fn(px, m));
            lemma_sum_of_concat(sa + sb, sc, moment_fn(px, m));
            lemma_sum_of_concat(sa + sb + sc, sd, moment_fn(px, m));
            lemma_sum_of_concat(sa, sb, moment_fn(py, m));
            lemma_sum_of_concat(sa + sb, sc, moment_fn(py, m));
            lemma_sum_of_concat(sa + sb + sc, sd, moment_fn(py, m));
        },
    }
}

/// Order independence: two well-formed trees over the same particles that hold
/// the same slots, whatever order they were inserted in, agree on the total mass
/// and on the mass moments, which are the sums over those slots of `m` and of
/// `m * position`; so they agree on the center of mass, the moment over the mass.
pub proof fn lemma_order_independence(
    t1: QuadTree,
    t2: QuadTree,
    px: Seq<i64>,
    py: Seq<i64>,
    m: Seq<u64>,
)
    requires
        t1.wf(px, py, m),
        t2.wf(px, py, m),
        t1.slots().to_multiset() == t2.slots().to_multiset(),
    ensures
        t1.mass == t2.mass,
        t1.moment_x == t2.moment_x,
        t1.moment_y == t2.moment_y,
        t1.mass == sum_of(t1.slots(), mass_fn(m)),
        t1.moment_x == sum_of(t1.slots(), moment_fn(px, m)),
        t1.moment_y == sum_of(t1.slots(), moment_fn(py, m)),
{
    lemma_aggregates(t1, px, py, m);
    lemma_aggregates(t2, px, py, m);
    lemma_sum_of_permutation(t1.slots(), t2.slots(), mass_fn(m));
    lemma_sum_of_permutation(t1.slots(), t2.slots(), moment_fn(px, m));
    lemma_sum_of_permutation(t1.slots(), t2.slots(), moment_fn(py, m));
}

/// With a zero acceptance threshold no cluster is taken as one body: the
/// traversal's force is the plain sum of the pairwise forces from every slot
/// beneath the node other than `i` itself.
pub proof fn lemma_exact_traversal(
    t: QuadTree,
    i: usize,
    px: Seq<i64>,
    py: Seq<i64>,
    m: Seq<u64>,
    p: ForceParams,
)
    requires
        t.wf(px, py, m),
        p.theta_num == 0,
    ensures
        t.force_on(i, px, py, m, p) == (
            sum_of(t.slots(), pull_x(i, px, py, m, p)),
            sum_of(t.slots(), pull_y(i, px, py, m, p)),
        ),
    decreases t,
{
    match t.contents {
        Contents::Empty => {},
        Contents::Leaf(v) => {},
        Contents::Internal(a, b, c, d) => {
            let w = t.bounds.w as int;
            let den = p.theta_den as int;
            assert(w * w * den * den >= 0) by (nonlinear_arith);
            if t.mass > 0 {
                let dx = (t.moment_x as int) / (t.mass as int) - px[i as int];
                let dy = (t.moment_y as int) / (t.mass as int) - py[i as int];
                let eps = p.softening as int;
                let q = dx * dx + dy * dy + eps * eps;
                assert(p.theta_num * p.theta_num * q == 0) by (nonlinear_arith)
                    requires
                        p.theta_num == 0,
                ;
            }
            assert(!accepts(t, px[i as int] as int, py[i as int] as int, p));
            lemma_exact_traversal(*a, i, px, py, m, p);
            lemma_exact_traversal(*b, i, px, py, m, p);
            lemma_exact_traversal(*c, i, px, py, m, p);
            lemma_exact_traversal(*d, i, px, py, m, p);
            let (sa, sb, sc, sd) = (a.slots(), b.slots(), c.slots(), d.slots());
            let fx = pull_x(i, px, py, m, p);
            let fy = pull_y(i, px, py, m, p);
            lemma_sum_of_concat(sa, sb, fx);
            lemma_sum_of_concat(sa + sb, sc, fx);
            lemma_sum_of_concat(sa + sb + sc, sd, fx);
            lemma_sum_of_concat(sa, sb, fy);
            lemma_sum_of_concat(sa + sb, sc, fy);
            lemma_sum_of_concat(sa + sb + sc, sd, fy);
        },
    }
}

proof fn lemma_quadrant_facts(r: Rectangle, x: int, y: int)
    requires
        bounded(r),
        can_split(r),
        r.contains_spec(x, y),
    ensures
        forall|k: int| 0 <= k < 4 ==> bounded(#[trigger] quadrant(r, k)),
        0 <= quadrant_of(r, x, y) < 4,
        quadrant(r, quadrant_of(r, x, y)).contains_spec(x, y),
        forall|k: int|
            0 <= k < 4 ==> quadrant(r, k).w + quadrant(r, k).h < r.w + r.h,
{
}

} // verus!
