use vstd::prelude::*;

verus! {

use vstd::seq_lib::lemma_seq_concat_contains_all_elements;
use crate::cube::{Cube, CubeCoord};
use crate::range::{lemma_range_seq_contains, lemma_range_seq_len, range_seq};
use crate::ring::{lemma_ring_seq_contains, ring_seq, HexRingPathIter};

/// The rings of radii `lo` through `hi` around `c`, concatenated in
/// order of growing radius.
pub open spec fn rings_from(c: Cube, lo: int, hi: int) -> Seq<Cube>
    decreases hi + 1 - lo,
{
    if lo > hi {
        Seq::empty()
    } else {
        ring_seq(c, lo) + rings_from(c, lo + 1, hi)
    }
}

/// The full emission sequence of `spiral(c, radius)`: the concatenation
/// of `ring(c, 0)` through `ring(c, radius)`.
pub open spec fn spiral_seq(c: Cube, radius: int) -> Seq<Cube> {
    rings_from(c, 0, radius)
}

/// Explicit-state generator over the disk around a center, emitted as
/// concentric perimeter-ordered rings of growing radius.
pub struct HexSpiralPathIter {
    center: CubeCoord,
    current_radius: i32,
    max_radius: i32,
    current_iterator: HexRingPathIter,
}

impl HexSpiralPathIter {
    /// The generator's state is consistent: the inner ring generator is,
    /// the current radius has not passed the last one, and every ring of
    /// the spiral fits in `i32`.
    pub closed spec fn wf(self) -> bool {
        &&& self.current_iterator.wf()
        &&& 0 <= self.current_radius <= self.max_radius
        &&& i32::MIN <= self.center@.q - self.max_radius
        &&& self.center@.q + self.max_radius <= i32::MAX
        &&& i32::MIN <= self.center@.r - self.max_radius
        &&& self.center@.r + self.max_radius <= i32::MAX
        &&& i32::MIN <= self.center@.s - self.max_radius
        &&& self.center@.s + self.max_radius <= i32::MAX
    }

    /// The coordinates the generator has yet to emit.
    pub closed spec fn remaining(self) -> Seq<Cube> {
        self.current_iterator.remaining() + rings_from(
            self.center@,
            self.current_radius as int + 1,
            self.max_radius as int,
        )
    }

    /// A fresh generator over the spiral of the given radius around
    /// `center`.
    pub fn new(center: CubeCoord, radius: i32) -> (it: HexSpiralPathIter)
        requires
            radius >= 0,
            i32::MIN <= center@.q - radius,
            center@.q + radius <= i32::MAX,
            i32::MIN <= center@.r - radius,
            center@.r + radius <= i32::MAX,
            i32::MIN <= center@.s - radius,
            center@.s + radius <= i32::MAX,
        ensures
            it.wf(),
            it.remaining() == spiral_seq(center@, radius as int),
    {
        let it = HexSpiralPathIter {
            center,
            max_radius: radius,
            current_radius: 0,
            current_iterator: HexRingPathIter::new(center, 0),
        };
        proof {
            assert(it.remaining() =~= spiral_seq(center@, radius as int));
        }
        it
    }

    /// Emit the next coordinate of the spiral, or `None` when exhausted.
    pub fn next(&mut self) -> (item: Option<CubeCoord>)
        requires
            old(self).wf(),
        ensures
            final(self).wf(),
            old(self).remaining().len() == 0 ==> item.is_none() && final(self).remaining().len()
                == 0,
            old(self).remaining().len() > 0 ==> item.is_some()
                && item.unwrap()@ == old(self).remaining().first() && final(self).remaining()
                == old(self).remaining().drop_first(),
    {
        let ghost old_self = *self;
        let first_try = self.current_iterator.next();
        if let Some(n) = first_try {
            proof {
                assert(final(self).remaining() =~= old_self.remaining().drop_first());
            }
            return Some(n);
        }
        if self.current_radius >= self.max_radius {
            return None;
        }
        self.current_radius = self.current_radius + 1;
        self.current_iterator = HexRingPathIter::new(self.center, self.current_radius);
        proof {
            assert(rings_from(old_self.center@, old_self.current_radius as int + 1,
                old_self.max_radius as int) == ring_seq(old_self.center@,
                old_self.current_radius as int + 1) + rings_from(old_self.center@,
                old_self.current_radius as int + 2, old_self.max_radius as int));
            assert(ring_seq(old_self.center@, old_self.current_radius as int + 1).len() == 6 * (
            old_self.current_radius as int + 1));
        }
        let ghost mid_self = *self;
        let out = self.current_iterator.next();
        proof {
            assert(old_self.remaining().first() == mid_self.remaining().first());
            assert(final(self).remaining() =~= old_self.remaining().drop_first());
        }
        out
    }
}

impl CubeCoord {
    /// A generator over the disk of radius `radius` around `self`,
    /// emitted as concentric perimeter-ordered rings of growing radius.
    pub fn spiral(&self, radius: i32) -> (it: HexSpiralPathIter)
        requires
            radius >= 0,
            i32::MIN <= self@.q - radius,
            self@.q + radius <= i32::MAX,
            i32::MIN <= self@.r - radius,
            self@.r + radius <= i32::MAX,
            i32::MIN <= self@.s - radius,
            self@.s + radius <= i32::MAX,
        ensures
            it.wf(),
            it.remaining() == spiral_seq(self@, radius as int),
    {
        HexSpiralPathIter::new(*self, radius)
    }
}

/// The spiral of radius `radius` is the spiral one radius smaller
/// followed by the ring of radius `radius`.
pub proof fn lemma_rings_from_snoc(c: Cube, lo: int, hi: int)
    requires
        lo <= hi,
    ensures
        rings_from(c, lo, hi) == rings_from(c, lo, hi - 1) + ring_seq(c, hi),
    decreases hi - lo,
{
    if lo == hi {
        assert(rings_from(c, lo + 1, hi) == Seq::<Cube>::empty());
        assert(rings_from(c, lo, hi - 1) == Seq::<Cube>::empty());
        assert(rings_from(c, lo, hi) == ring_seq(c, lo) + rings_from(c, lo + 1, hi));
        assert(rings_from(c, lo, hi) =~= rings_from(c, lo, hi - 1) + ring_seq(c, hi));
    } else {
        lemma_rings_from_snoc(c, lo + 1, hi);
        assert(rings_from(c, lo, hi) =~= rings_from(c, lo, hi - 1) + ring_seq(c, hi));
    }
}

/// `spiral(c, radius)` is the concatenation of `spiral(c, radius - 1)`
/// and `ring(c, radius)`.
pub proof fn lemma_spiral_decompose(c: Cube, radius: int)
    requires
        radius >= 1,
    ensures
        spiral_seq(c, radius) == spiral_seq(c, radius - 1) + ring_seq(c, radius),
{
    lemma_rings_from_snoc(c, 0, radius);
}

/// `spiral(c, radius)` emits exactly `3*radius*(radius+1) + 1`
/// coordinates, as many as `range(c, radius)`.
pub proof fn lemma_spiral_seq_len(c: Cube, radius: int)
    requires
        radius >= 0,
    ensures
        spiral_seq(c, radius).len() == 3 * radius * (radius + 1) + 1,
    decreases radius,
{
    if radius == 0 {
        assert(spiral_seq(c, 0) =~= ring_seq(c, 0) + rings_from(c, 1, 0));
    } else {
        lemma_spiral_seq_len(c, radius - 1);
        lemma_spiral_decompose(c, radius);
        assert(3 * (radius - 1) * radius + 1 + 6 * radius == 3 * radius * (radius + 1) + 1)
            by (nonlinear_arith);
    }
}

/// A coordinate is emitted by `spiral(c, radius)` exactly when it is
/// well formed and lies within hex distance `radius` of `c`.
pub proof fn lemma_spiral_seq_contains(c: Cube, radius: int, x: Cube)
    requires
        radius >= 0,
        c.wf(),
    ensures
        spiral_seq(c, radius).contains(x) <==> (x.wf() && c.dist(x) <= radius),
    decreases radius,
{
    lemma_ring_seq_contains(c, radius, x);
    if radius == 0 {
        lemma_seq_concat_contains_all_elements(ring_seq(c, 0), rings_from(c, 1, 0), x);
    } else {
        lemma_spiral_seq_contains(c, radius - 1, x);
        lemma_spiral_decompose(c, radius);
        lemma_seq_concat_contains_all_elements(spiral_seq(c, radius - 1), ring_seq(c, radius), x);
    }
}

/// As a set, `spiral(c, radius)` emits exactly what `range(c, radius)`
/// emits; only the order differs.
pub proof fn lemma_spiral_matches_range(c: Cube, radius: int)
    requires
        radius >= 0,
        c.wf(),
    ensures
        spiral_seq(c, radius).to_set() == range_seq(c, radius).to_set(),
        spiral_seq(c, radius).len() == range_seq(c, radius).len(),
{
    assert forall|x: Cube| #[trigger]
        spiral_seq(c, radius).to_set().contains(x) <==> range_seq(
            c,
            radius,
        ).to_set().contains(x) by {
        lemma_spiral_seq_contains(c, radius, x);
        lemma_range_seq_contains(c, radius, x);
    }
    assert(spiral_seq(c, radius).to_set() =~= range_seq(c, radius).to_set());
    lemma_spiral_seq_len(c, radius);
    lemma_range_seq_len(c, radius);
}

} // verus!
