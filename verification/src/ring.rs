use vstd::prelude::*;

verus! {

use vstd::arithmetic::div_mod::{lemma_fundamental_div_mod_converse, lemma_fundamental_div_mod};
use crate::cube::{Cube, CubeCoord, lemma_dist_zero, lemma_neighbors_law,
    lemma_ops_preserve_zero_sum, neighbor_dir, neighbor_dir_at};

/// Scaling distributes over sums and unfolds one step at a time.
pub proof fn lemma_scale_unfold(a: Cube, b: Cube, k: int)
    ensures
        a.add(b).scale(k) == a.scale(k).add(b.scale(k)),
        a.scale(k + 1) == a.scale(k).add(a),
{
    assert((a.q + b.q) * k == a.q * k + b.q * k) by (nonlinear_arith);
    assert((a.r + b.r) * k == a.r * k + b.r * k) by (nonlinear_arith);
    assert((a.s + b.s) * k == a.s * k + b.s * k) by (nonlinear_arith);
    assert(a.q * (k + 1) == a.q * k + a.q) by (nonlinear_arith);
    assert(a.r * (k + 1) == a.r * k + a.r) by (nonlinear_arith);
    assert(a.s * (k + 1) == a.s * k + a.s) by (nonlinear_arith);
}

/// The `k`-th position of the perimeter walk around `c` at the given
/// radius: the walk starts at the corner `c + neighbor_dir(4) * radius`
/// and, for each direction in canonical order, takes `radius` steps.
pub open spec fn ring_elem(c: Cube, radius: int, k: int) -> Cube {
    let i = k / radius;
    let j = k % radius;
    c.add(neighbor_dir((i + 4) % 6).scale(radius)).add(neighbor_dir(i).scale(j))
}

/// The full emission sequence of `ring(c, radius)`: the center alone for
/// radius 0, otherwise the `6 * radius` positions of the perimeter walk.
pub open spec fn ring_seq(c: Cube, radius: int) -> Seq<Cube> {
    if radius == 0 {
        seq![c]
    } else {
        Seq::new((6 * radius) as nat, |k: int| ring_elem(c, radius, k))
    }
}

/// Division facts for a walk position `k` standing `j` steps past the
/// start of direction segment `i`.
proof fn lemma_walk_position(radius: int, i: int, j: int)
    requires
        radius >= 1,
        0 <= j < radius,
        0 <= i,
    ensures
        (i * radius + j) / radius == i,
        (i * radius + j) % radius == j,
{
    lemma_fundamental_div_mod_converse(i * radius + j, radius, i, j);
}

/// Each position of the perimeter walk lies at hex distance exactly
/// `radius` from the center (the wrap position `6 * radius` included).
pub proof fn lemma_ring_elem_dist(c: Cube, radius: int, k: int)
    requires
        radius >= 1,
        0 <= k <= 6 * radius,
    ensures
        c.dist(ring_elem(c, radius, k)) == radius,
{
    let i = k / radius;
    let j = k % radius;
    lemma_fundamental_div_mod(k, radius);
    assert(radius * i == i * radius) by (nonlinear_arith);
    assert(0 <= j < radius) by {
        vstd::arithmetic::div_mod::lemma_mod_bound(k, radius);
    }
    assert(0 <= i <= 6) by {
        vstd::arithmetic::div_mod::lemma_div_pos_is_pos(k, radius);
        if i > 6 {
            assert(i * radius >= 7 * radius) by (nonlinear_arith)
                requires
                    i >= 7,
                    radius >= 1,
            ;
        }
    }
    assert(1 * radius == radius && (-1) * radius == -radius && 0 * radius == 0)
        by (nonlinear_arith);
    assert(1 * j == j && (-1) * j == -j && 0 * j == 0) by (nonlinear_arith);
    if i == 6 {
        assert(i * radius == 6 * radius);
        assert(j == 0);
        assert(c.dist(ring_elem(c, radius, k)) == radius);
    } else if i == 0 {
        assert(c.dist(ring_elem(c, radius, k)) == radius);
    } else if i == 1 {
        assert(c.dist(ring_elem(c, radius, k)) == radius);
    } else if i == 2 {
        assert(c.dist(ring_elem(c, radius, k)) == radius);
    } else if i == 3 {
        assert(c.dist(ring_elem(c, radius, k)) == radius);
    } else if i == 4 {
        assert(c.dist(ring_elem(c, radius, k)) == radius);
    } else {
        assert(c.dist(ring_elem(c, radius, k)) == radius);
    }
}

/// Advancing the walk by one step in the direction of its current
/// segment reaches the next walk position.
pub proof fn lemma_ring_step(c: Cube, radius: int, k: int)
    requires
        radius >= 1,
        0 <= k < 6 * radius,
    ensures
        ring_elem(c, radius, k + 1) == ring_elem(c, radius, k).add(neighbor_dir(k / radius)),
{
    let i = k / radius;
    let j = k % radius;
    lemma_fundamental_div_mod(k, radius);
    assert(radius * i == i * radius) by (nonlinear_arith);
    assert(0 <= j < radius) by {
        vstd::arithmetic::div_mod::lemma_mod_bound(k, radius);
    }
    assert(0 <= i <= 5) by {
        vstd::arithmetic::div_mod::lemma_div_pos_is_pos(k, radius);
        if i > 5 {
            assert(i * radius >= 6 * radius) by (nonlinear_arith)
                requires
                    i >= 6,
                    radius >= 1,
            ;
        }
    }
    let corner = neighbor_dir((i + 4) % 6);
    let dir = neighbor_dir(i);
    if j + 1 < radius {
        lemma_walk_position(radius, i, j + 1);
        lemma_scale_unfold(dir, dir, j);
    } else {
        lemma_walk_position(radius, i + 1, 0);
        assert(k + 1 == (i + 1) * radius) by (nonlinear_arith)
            requires
                k == i * radius + j,
                j + 1 == radius,
        ;
        lemma_scale_unfold(dir, dir, j);
        assert(ring_elem(c, radius, k).add(dir) == c.add(corner.scale(radius)).add(
            dir.scale(radius),
        ));
        let next_corner = neighbor_dir((i + 1 + 4) % 6);
        assert(corner.add(dir) == next_corner);
        lemma_scale_unfold(corner, dir, radius);
        assert(neighbor_dir(i + 1).scale(0) == (Cube { q: 0, r: 0, s: 0 }));
    }
}

/// Explicit-state generator over the coordinates at hex distance exactly
/// `radius` from a center, in connected perimeter order.
pub struct HexRingPathIter {
    center: CubeCoord,
    radius: i32,
    current_position: CubeCoord,
    direction_index: usize,
    radius_index: i32,
    emitted_self: bool,
}

impl HexRingPathIter {
    /// The walk position: how many coordinates have been emitted.
    pub closed spec fn pos(self) -> int {
        self.direction_index as int * self.radius as int + self.radius_index as int
    }

    /// The generator's state is consistent: the cursor holds the walk
    /// position of the ring and all its positions fit in `i32`.
    pub closed spec fn wf(self) -> bool {
        &&& 0 <= self.radius
        &&& i32::MIN <= self.center@.q - self.radius
        &&& self.center@.q + self.radius <= i32::MAX
        &&& i32::MIN <= self.center@.r - self.radius
        &&& self.center@.r + self.radius <= i32::MAX
        &&& i32::MIN <= self.center@.s - self.radius
        &&& self.center@.s + self.radius <= i32::MAX
        &&& (self.radius > 0 ==> {
            &&& 0 <= self.direction_index <= 6
            &&& 0 <= self.radius_index < self.radius
            &&& (self.direction_index == 6 ==> self.radius_index == 0)
            &&& self.current_position@ == ring_elem(self.center@, self.radius as int, self.pos())
        })
    }

    /// The coordinates the generator has yet to emit.
    pub closed spec fn remaining(self) -> Seq<Cube> {
        if self.radius == 0 {
            if self.emitted_self {
                Seq::empty()
            } else {
                seq![self.center@]
            }
        } else {
            ring_seq(self.center@, self.radius as int).subrange(
                self.pos(),
                6 * self.radius as int,
            )
        }
    }

    /// A fresh generator over the ring of the given radius around
    /// `center`.
    pub fn new(center: CubeCoord, radius: i32) -> (it: HexRingPathIter)
        requires
            radius >= 0,
            i32::MIN <= center@.q - radius,
            center@.q + radius <= i32::MAX,
            i32::MIN <= center@.r - radius,
            center@.r + radius <= i32::MAX,
            i32::MIN <= center@.s - radius,
            center@.s + radius <= i32::MAX,
        ensures
            it.wf(),
            it.remaining() == ring_seq(center@, radius as int),
    {
        let d4 = neighbor_dir_at(4);
        proof {
            let rr = radius as int;
            assert(-1 * rr == -rr && 1 * rr == rr && 0 * rr == 0) by (nonlinear_arith);
            assert(d4@.scale(rr) == (Cube { q: -rr, r: rr, s: 0 }));
        }
        let start = center.add(d4.mul(radius));
        let it = HexRingPathIter {
            center,
            radius,
            current_position: start,
            direction_index: 0,
            radius_index: 0,
            emitted_self: false,
        };
        proof {
            if radius > 0 {
                lemma_walk_position(radius as int, 0, 0);
                assert(neighbor_dir(4).scale(0) == (Cube { q: 0, r: 0, s: 0 }));
                assert(neighbor_dir(0).scale(0) == (Cube { q: 0, r: 0, s: 0 }));
                assert(start@ == ring_elem(center@, radius as int, 0));
                assert(it.remaining() =~= ring_seq(center@, radius as int));
            } else {
                assert(it.remaining() =~= ring_seq(center@, 0));
            }
        }
        it
    }

    /// Emit the next coordinate of the ring, or `None` when exhausted.
    pub fn next(&mut self) -> (item: Option<CubeCoord>)
        requires
            old(self).wf(),
        ensures
            final(self).wf(),
            old(self).remaining().len() == 0 ==> item.is_none() && final(self).remaining().len()
                == 0,
            old(self).remaining().len() > 0 ==> item.is_some()
                && item.unwrap()@ == old(self).remaining().first() && final(self).remaining()
                == old(self).remaining().drop_first(),
    {
        if self.radius == 0 {
            if self.emitted_self {
                return None;
            } else {
                self.emitted_self = true;
                return Some(self.center);
            }
        }
        if self.direction_index >= 6 {
            proof {
                assert(self.pos() == 6 * self.radius as int);
            }
            return None;
        }
        let next_hex = self.current_position;
        let ghost old_self = *self;
        let ghost c = self.center@;
        let ghost rad = self.radius as int;
        let ghost k = old_self.pos();
        proof {
            assert(old_self.direction_index as int * rad <= 5 * rad) by (nonlinear_arith)
                requires
                    old_self.direction_index <= 5,
                    rad >= 0,
            ;
            assert(k < 6 * rad);
            lemma_walk_position(rad, old_self.direction_index as int,
                old_self.radius_index as int);
            lemma_ring_step(c, rad, k);
            lemma_ring_elem_dist(c, rad, k + 1);
        }
        let d = neighbor_dir_at(self.direction_index);
        self.current_position.add_assign(d);
        self.radius_index = self.radius_index + 1;
        if self.radius_index >= self.radius {
            self.radius_index = 0;
            self.direction_index = self.direction_index + 1;
            proof {
                assert((old_self.direction_index as int + 1) * rad == old_self.direction_index
                    as int * rad + rad) by (nonlinear_arith);
            }
        }
        proof {
            assert(final(self).pos() == k + 1);
            assert(next_hex@ == ring_seq(c, rad)[k]);
            assert(final(self).remaining() =~= old_self.remaining().drop_first());
        }
        Some(next_hex)
    }
}

impl CubeCoord {
    /// A generator over the coordinates at hex distance exactly `radius`
    /// from `self`, in connected perimeter order.
    pub fn ring(&self, radius: i32) -> (it: HexRingPathIter)
        requires
            radius >= 0,
            i32::MIN <= self@.q - radius,
            self@.q + radius <= i32::MAX,
            i32::MIN <= self@.r - radius,
            self@.r + radius <= i32::MAX,
            i32::MIN <= self@.s - radius,
            self@.s + radius <= i32::MAX,
        ensures
            it.wf(),
            it.remaining() == ring_seq(self@, radius as int),
    {
        HexRingPathIter::new(*self, radius)
    }
}

/// `ring(c, 0)` emits exactly the center, once.
pub proof fn lemma_ring_zero(c: Cube)
    ensures
        ring_seq(c, 0) =~= seq![c],
{
}

/// `ring(c, radius)` emits `6 * radius` coordinates for positive radius,
/// and consecutive emissions are grid neighbors, the wrap from the last
/// back to the first included.
pub proof fn lemma_ring_consecutive(c: Cube, radius: int, k: int)
    requires
        radius >= 1,
        0 <= k < 6 * radius,
    ensures
        ring_seq(c, radius).len() == 6 * radius,
        ring_seq(c, radius)[(k + 1) % (6 * radius)] == ring_seq(c, radius)[k].add(
            neighbor_dir(k / radius),
        ),
        ring_seq(c, radius)[k].dist(ring_seq(c, radius)[(k + 1) % (6 * radius)]) == 1,
{
    lemma_ring_step(c, radius, k);
    lemma_fundamental_div_mod(k, radius);
    assert(radius * (k / radius) == (k / radius) * radius) by (nonlinear_arith);
    assert(0 <= k % radius < radius) by {
        vstd::arithmetic::div_mod::lemma_mod_bound(k, radius);
    }
    assert(0 <= k / radius <= 5) by {
        vstd::arithmetic::div_mod::lemma_div_pos_is_pos(k, radius);
        if k / radius > 5 {
            assert((k / radius) * radius >= 6 * radius) by (nonlinear_arith)
                requires
                    k / radius >= 6,
                    radius >= 1,
            ;
        }
    }
    if k + 1 < 6 * radius {
        lemma_fundamental_div_mod_converse(k + 1, 6 * radius, 0, k + 1);
    } else {
        lemma_fundamental_div_mod_converse(k + 1, 6 * radius, 1, 0);
        lemma_walk_position(radius, 6, 0);
        assert(ring_elem(c, radius, 6 * radius) == ring_elem(c, radius, 0)) by {
            lemma_walk_position(radius, 0, 0);
            assert(neighbor_dir(4).scale(0) == (Cube { q: 0, r: 0, s: 0 }));
            assert(neighbor_dir(0).scale(0) == (Cube { q: 0, r: 0, s: 0 }));
            assert(neighbor_dir(6).scale(0) == (Cube { q: 0, r: 0, s: 0 }));
        }
    }
    let base = ring_seq(c, radius)[k];
    lemma_neighbors_law(base, k / radius, 0);
}

/// A coordinate is emitted by `ring(c, radius)` exactly when it is well
/// formed and lies at hex distance exactly `radius` from `c`.
#[verifier::rlimit(40)]
pub proof fn lemma_ring_seq_contains(c: Cube, radius: int, x: Cube)
    requires
        radius >= 0,
        c.wf(),
    ensures
        ring_seq(c, radius).contains(x) <==> (x.wf() && c.dist(x) == radius),
{
    if radius == 0 {
        if ring_seq(c, 0).contains(x) {
            assert(x == c);
        }
        if x.wf() && c.dist(x) == 0 {
            lemma_dist_zero(c, x);
            assert(ring_seq(c, 0)[0] == x);
        }
    } else {
        if ring_seq(c, radius).contains(x) {
            let k = choose|k: int|
                0 <= k < ring_seq(c, radius).len() && ring_seq(c, radius)[k] == x;
            lemma_ring_elem_dist(c, radius, k);
            assert(x.wf()) by {
                lemma_walk_position_wf(c, radius, k);
            }
        }
        if x.wf() && c.dist(x) == radius {
            let a = x.q - c.q;
            let b = x.r - c.r;
            let e = x.s - c.s;
            if b == radius && a < 0 {
                lemma_ring_witness(c, radius, x, 0, a + radius);
            } else if e == -radius && 0 <= a < radius {
                lemma_ring_witness(c, radius, x, 1, a);
            } else if b == -radius && a > 0 {
                lemma_ring_witness(c, radius, x, 3, radius - a);
            } else if a == radius {
                assert(b != -radius);
                assert(-radius < b <= 0);
                assert(e == -radius - b);
                lemma_ring_witness(c, radius, x, 2, -b);
            } else if e == radius && a > -radius {
                lemma_ring_witness(c, radius, x, 4, -a);
            } else {
                assert(a == -radius);
                lemma_ring_witness(c, radius, x, 5, b);
            }
        }
    }
}

/// Every walk position is well formed whenever the center is.
proof fn lemma_walk_position_wf(c: Cube, radius: int, k: int)
    requires
        c.wf(),
        radius >= 1,
        0 <= k <= 6 * radius,
    ensures
        ring_elem(c, radius, k).wf(),
{
    let i = k / radius;
    let j = k % radius;
    let corner = neighbor_dir((i + 4) % 6);
    let dir = neighbor_dir(i);
    assert(corner.wf() && dir.wf());
    lemma_ops_preserve_zero_sum(corner, corner, radius);
    lemma_ops_preserve_zero_sum(dir, dir, j);
    lemma_ops_preserve_zero_sum(c, corner.scale(radius), 0);
    lemma_ops_preserve_zero_sum(c.add(corner.scale(radius)), dir.scale(j), 0);
}

/// The coordinate of segment `i` and step `j` of the perimeter walk,
/// written with its components spelled out.
pub open spec fn sector_elem(c: Cube, radius: int, i: int, j: int) -> Cube {
    if i == 0 {
        Cube { q: c.q + j - radius, r: c.r + radius, s: c.s - j }
    } else if i == 1 {
        Cube { q: c.q + j, r: c.r + radius - j, s: c.s - radius }
    } else if i == 2 {
        Cube { q: c.q + radius, r: c.r - j, s: c.s + j - radius }
    } else if i == 3 {
        Cube { q: c.q + radius - j, r: c.r - radius, s: c.s + j }
    } else if i == 4 {
        Cube { q: c.q - j, r: c.r + j - radius, s: c.s + radius }
    } else {
        Cube { q: c.q - radius, r: c.r + j, s: c.s + radius - j }
    }
}

/// The coordinate addressed by segment `i` and step `j` of the perimeter
/// walk is emitted by the ring.
proof fn lemma_ring_witness(c: Cube, radius: int, x: Cube, i: int, j: int)
    requires
        radius >= 1,
        0 <= i <= 5,
        0 <= j < radius,
        x == sector_elem(c, radius, i, j),
    ensures
        ring_seq(c, radius).contains(x),
{
    let k = i * radius + j;
    lemma_fundamental_div_mod_converse(k, radius, i, j);
    assert(k < 6 * radius) by (nonlinear_arith)
        requires
            i <= 5,
            0 <= j < radius,
            k == i * radius + j,
    ;
    assert(k >= 0) by (nonlinear_arith)
        requires
            i >= 0,
            j >= 0,
            radius >= 1,
            k == i * radius + j,
    ;
    assert(1 * radius == radius && (-1) * radius == -radius && 0 * radius == 0)
        by (nonlinear_arith);
    assert(1 * j == j && (-1) * j == -j && 0 * j == 0) by (nonlinear_arith);
    assert(ring_elem(c, radius, k) == sector_elem(c, radius, i, j));
    assert(ring_seq(c, radius)[k] == x);
}

} // verus!
