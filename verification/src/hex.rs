use vstd::prelude::*;

verus! {

use crate::cube::{diagonal_dir, neighbor_dir, Cube, CubeCoord};
use crate::line::{in_line_range, lemma_line_seq_endpoints, lemma_line_seq_wf, line_seq};
use crate::range::{lemma_range_seq_contains, lemma_range_seq_len, range_seq};
use crate::ring::{lemma_ring_seq_contains, ring_seq};
use crate::spiral::{lemma_spiral_seq_contains, lemma_spiral_seq_len, spiral_seq};

/// The two-axis coordinate that crosses the library boundary: only q and
/// r are stored, the third cube axis being recoverable as their negated
/// sum.
#[derive(Clone, Copy, PartialEq, Eq, Structural, Hash, Debug)]
pub struct Hex {
    pub q: i32,
    pub r: i32,
}

/// The cube coordinate a boundary coordinate denotes: the third axis is
/// the negated sum of the stored two, so the result is always well
/// formed.
pub open spec fn cube_of_hex(h: Hex) -> Cube {
    Cube { q: h.q as int, r: h.r as int, s: -(h.q as int) - (h.r as int) }
}

impl Hex {
    /// Enter the cube representation: derive the third axis from the
    /// zero-sum identity.
    pub fn to_cube(self) -> (c: CubeCoord)
        requires
            i32::MIN <= -(self.q as int) - (self.r as int) <= i32::MAX,
        ensures
            c@ == cube_of_hex(self),
            c@.wf(),
    {
        let s64: i64 = -(self.q as i64) - (self.r as i64);
        CubeCoord { q: self.q, r: self.r, s: s64 as i32 }
    }

    /// Leave the cube representation: drop the third axis, which the
    /// invariant keeps recoverable.
    pub fn from_cube(c: CubeCoord) -> (h: Hex)
        ensures
            h.q == c.q,
            h.r == c.r,
            c@.wf() ==> cube_of_hex(h) == c@,
    {
        Hex { q: c.q, r: c.r }
    }
}

/// Round trip: a boundary coordinate sent through the cube
/// representation and back is unchanged, for every input.
pub proof fn lemma_hex_round_trip(h: Hex)
    ensures
        (Hex { q: cube_of_hex(h).q as i32, r: cube_of_hex(h).r as i32 }) == h,
        cube_of_hex(h).wf(),
{
}

/// Round trip in the other direction: a well-formed cube coordinate that
/// fits the boundary type is reproduced exactly from its two stored
/// axes.
pub proof fn lemma_cube_round_trip(c: Cube)
    requires
        c.wf(),
        c.in_i32_range(),
    ensures
        cube_of_hex(Hex { q: c.q as i32, r: c.r as i32 }) == c,
{
}

/// Equality of boundary coordinates.
pub fn hex_eq(left: Hex, right: Hex) -> (r: bool)
    ensures
        r == (left == right),
{
    left.q == right.q && left.r == right.r
}

/// Component-wise sum of two boundary coordinates, computed in cube
/// space.
pub fn hex_add(left: Hex, right: Hex) -> (h: Hex)
    requires
        i32::MIN <= -(left.q as int) - (left.r as int) <= i32::MAX,
        i32::MIN <= -(right.q as int) - (right.r as int) <= i32::MAX,
        i32::MIN <= left.q + right.q <= i32::MAX,
        i32::MIN <= left.r + right.r <= i32::MAX,
        i32::MIN <= cube_of_hex(left).s + cube_of_hex(right).s <= i32::MAX,
    ensures
        h.q == left.q + right.q,
        h.r == left.r + right.r,
        cube_of_hex(h) == cube_of_hex(left).add(cube_of_hex(right)),
{
    Hex::from_cube(left.to_cube().add(right.to_cube()))
}

/// Component-wise difference of two boundary coordinates, computed in
/// cube space.
pub fn hex_sub(left: Hex, right: Hex) -> (h: Hex)
    requires
        i32::MIN <= -(left.q as int) - (left.r as int) <= i32::MAX,
        i32::MIN <= -(right.q as int) - (right.r as int) <= i32::MAX,
        i32::MIN <= left.q - right.q <= i32::MAX,
        i32::MIN <= left.r - right.r <= i32::MAX,
        i32::MIN <= cube_of_hex(left).s - cube_of_hex(right).s <= i32::MAX,
    ensures
        h.q == left.q - right.q,
        h.r == left.r - right.r,
        cube_of_hex(h) == cube_of_hex(left).sub(cube_of_hex(right)),
{
    Hex::from_cube(left.to_cube().sub(right.to_cube()))
}

/// The hex distance between two boundary coordinates.
pub fn hex_distance(coord: Hex, other: Hex) -> (d: i32)
    requires
        i32::MIN <= -(coord.q as int) - (coord.r as int) <= i32::MAX,
        i32::MIN <= -(other.q as int) - (other.r as int) <= i32::MAX,
        -i32::MAX <= coord.q - other.q <= i32::MAX,
        -i32::MAX <= coord.r - other.r <= i32::MAX,
        -i32::MAX <= cube_of_hex(coord).s - cube_of_hex(other).s <= i32::MAX,
    ensures
        d == cube_of_hex(coord).dist(cube_of_hex(other)),
{
    let c = coord.to_cube();
    c.dist(other.to_cube())
}

/// The six edge-adjacent boundary coordinates, in canonical compass
/// order.
pub fn neighbors(coord: Hex) -> (v: Vec<Hex>)
    requires
        i32::MIN + 1 <= coord.q <= i32::MAX - 1,
        i32::MIN + 1 <= coord.r <= i32::MAX - 1,
        i32::MIN + 1 <= -(coord.q as int) - (coord.r as int) <= i32::MAX - 1,
    ensures
        v@.len() == 6,
        forall|i: int| 0 <= i < 6 ==> cube_of_hex(#[trigger] v@[i]) == cube_of_hex(coord).add(
            neighbor_dir(i),
        ),
{
    let c = coord.to_cube();
    let cubes = c.neighbors();
    let mut v: Vec<Hex> = Vec::new();
    let mut i: usize = 0;
    while i < 6
        invariant
            i <= 6,
            v@.len() == i,
            cubes@.len() == 6,
            c@ == cube_of_hex(coord),
            forall|j: int| 0 <= j < 6 ==> #[trigger] cubes@[j]@ == cube_of_hex(coord).add(
                neighbor_dir(j),
            ),
            forall|j: int| 0 <= j < i ==> cube_of_hex(#[trigger] v@[j]) == cube_of_hex(coord).add(
                neighbor_dir(j),
            ),
        decreases 6 - i,
    {
        v.push(Hex::from_cube(cubes[i]));
        i = i + 1;
    }
    v
}

/// The six vertex-adjacent boundary coordinates, in canonical compass
/// order.
pub fn diagonals(coord: Hex) -> (v: Vec<Hex>)
    requires
        i32::MIN + 2 <= coord.q <= i32::MAX - 2,
        i32::MIN + 2 <= coord.r <= i32::MAX - 2,
        i32::MIN + 2 <= -(coord.q as int) - (coord.r as int) <= i32::MAX - 2,
    ensures
        v@.len() == 6,
        forall|i: int| 0 <= i < 6 ==> cube_of_hex(#[trigger] v@[i]) == cube_of_hex(coord).add(
            diagonal_dir(i),
        ),
{
    let c = coord.to_cube();
    let cubes = c.diagonals();
    let mut v: Vec<Hex> = Vec::new();
    let mut i: usize = 0;
    while i < 6
        invariant
            i <= 6,
            v@.len() == i,
            cubes@.len() == 6,
            c@ == cube_of_hex(coord),
            forall|j: int| 0 <= j < 6 ==> #[trigger] cubes@[j]@ == cube_of_hex(coord).add(
                diagonal_dir(j),
            ),
            forall|j: int| 0 <= j < i ==> cube_of_hex(#[trigger] v@[j]) == cube_of_hex(coord).add(
                diagonal_dir(j),
            ),
        decreases 6 - i,
    {
        v.push(Hex::from_cube(cubes[i]));
        i = i + 1;
    }
    v
}

/// The discretized hex line between two boundary coordinates, inclusive:
/// `hex_distance(coord, other) + 1` coordinates from `coord` to `other`.
pub fn linedraw(coord: Hex, other: Hex) -> (v: Vec<Hex>)
    requires
        in_line_range(cube_of_hex(coord)),
        in_line_range(cube_of_hex(other)),
    ensures
        v@.len() == line_seq(
            cube_of_hex(coord),
            cube_of_hex(other),
            cube_of_hex(coord).dist(cube_of_hex(other)),
        ).len(),
        v@.len() == cube_of_hex(coord).dist(cube_of_hex(other)) + 1,
        forall|i: int| 0 <= i < v@.len() ==> cube_of_hex(#[trigger] v@[i]) == line_seq(
            cube_of_hex(coord),
            cube_of_hex(other),
            cube_of_hex(coord).dist(cube_of_hex(other)),
        )[i],
        cube_of_hex(v@.first()) == cube_of_hex(coord),
        cube_of_hex(v@.last()) == cube_of_hex(other),
{
    let ca = coord.to_cube();
    let cb = other.to_cube();
    let ghost full = line_seq(ca@, cb@, ca@.dist(cb@));
    proof {
        lemma_line_seq_endpoints(ca@, cb@, ca@.dist(cb@));
    }
    let mut it = ca.linedraw(cb);
    let mut v: Vec<Hex> = Vec::new();
    loop
        invariant
            it.wf(),
            ca@ == cube_of_hex(coord),
            cb@ == cube_of_hex(other),
            ca@.wf(),
            cb@.wf(),
            full == line_seq(ca@, cb@, ca@.dist(cb@)),
            v@.len() <= full.len(),
            it.remaining() == full.subrange(v@.len() as int, full.len() as int),
            forall|i: int| 0 <= i < v@.len() ==> cube_of_hex(#[trigger] v@[i]) == full[i],
        ensures
            v@.len() == full.len(),
            forall|i: int| 0 <= i < v@.len() ==> cube_of_hex(#[trigger] v@[i]) == full[i],
        decreases it.remaining().len(),
    {
        let ghost k = v@.len() as int;
        match it.next() {
            Some(c) => {
                proof {
                    lemma_line_seq_wf(ca@, cb@, ca@.dist(cb@), k);
                }
                v.push(Hex::from_cube(c));
                proof {
                    assert(it.remaining() =~= full.subrange(v@.len() as int, full.len() as int));
                }
            },
            None => {
                break;
            },
        }
    }
    v
}

/// All boundary coordinates within hex distance `dist` of `coord`,
/// row-major by the q axis: `3*dist*(dist+1) + 1` of them.
pub fn hexes_in_range(coord: Hex, dist: i32) -> (v: Vec<Hex>)
    requires
        dist >= 0,
        2 * dist + 1 <= i32::MAX,
        i32::MIN <= cube_of_hex(coord).q - dist,
        cube_of_hex(coord).q + dist <= i32::MAX,
        i32::MIN <= cube_of_hex(coord).r - dist,
        cube_of_hex(coord).r + dist <= i32::MAX,
        i32::MIN <= cube_of_hex(coord).s - dist,
        cube_of_hex(coord).s + dist <= i32::MAX,
    ensures
        v@.len() == range_seq(cube_of_hex(coord), dist as int).len(),
        v@.len() == 3 * dist * (dist + 1) + 1,
        forall|i: int| 0 <= i < v@.len() ==> cube_of_hex(#[trigger] v@[i]) == range_seq(
            cube_of_hex(coord),
            dist as int,
        )[i],
{
    let c = coord.to_cube();
    let ghost full = range_seq(c@, dist as int);
    proof {
        lemma_range_seq_len(c@, dist as int);
    }
    let mut it = c.range(dist);
    let mut v: Vec<Hex> = Vec::new();
    loop
        invariant
            it.wf(),
            dist >= 0,
            c@ == cube_of_hex(coord),
            c@.wf(),
            full == range_seq(c@, dist as int),
            v@.len() <= full.len(),
            it.remaining() == full.subrange(v@.len() as int, full.len() as int),
            forall|i: int| 0 <= i < v@.len() ==> cube_of_hex(#[trigger] v@[i]) == full[i],
        ensures
            v@.len() == full.len(),
            forall|i: int| 0 <= i < v@.len() ==> cube_of_hex(#[trigger] v@[i]) == full[i],
        decreases it.remaining().len(),
    {
        let ghost k = v@.len() as int;
        match it.next() {
            Some(x) => {
                proof {
                    assert(full.contains(full[k]));
                    lemma_range_seq_contains(c@, dist as int, full[k]);
                }
                v.push(Hex::from_cube(x));
                proof {
                    assert(it.remaining() =~= full.subrange(v@.len() as int, full.len() as int));
                }
            },
            None => {
                break;
            },
        }
    }
    v
}

/// The boundary coordinates at hex distance exactly `radius` from
/// `coord`, in connected perimeter order: `6*radius` of them for a
/// positive radius, the center alone for radius zero.
pub fn ring_path(coord: Hex, radius: i32) -> (v: Vec<Hex>)
    requires
        radius >= 0,
        i32::MIN <= cube_of_hex(coord).q - radius,
        cube_of_hex(coord).q + radius <= i32::MAX,
        i32::MIN <= cube_of_hex(coord).r - radius,
        cube_of_hex(coord).r + radius <= i32::MAX,
        i32::MIN <= cube_of_hex(coord).s - radius,
        cube_of_hex(coord).s + radius <= i32::MAX,
    ensures
        v@.len() == ring_seq(cube_of_hex(coord), radius as int).len(),
        radius == 0 ==> v@.len() == 1,
        radius > 0 ==> v@.len() == 6 * radius,
        forall|i: int| 0 <= i < v@.len() ==> cube_of_hex(#[trigger] v@[i]) == ring_seq(
            cube_of_hex(coord),
            radius as int,
        )[i],
{
    let c = coord.to_cube();
    let ghost full = ring_seq(c@, radius as int);
    let mut it = c.ring(radius);
    let mut v: Vec<Hex> = Vec::new();
    loop
        invariant
            it.wf(),
            radius >= 0,
            c@ == cube_of_hex(coord),
            c@.wf(),
            full == ring_seq(c@, radius as int),
            v@.len() <= full.len(),
            it.remaining() == full.subrange(v@.len() as int, full.len() as int),
            forall|i: int| 0 <= i < v@.len() ==> cube_of_hex(#[trigger] v@[i]) == full[i],
        ensures
            v@.len() == full.len(),
            forall|i: int| 0 <= i < v@.len() ==> cube_of_hex(#[trigger] v@[i]) == full[i],
        decreases it.remaining().len(),
    {
        let ghost k = v@.len() as int;
        match it.next() {
            Some(x) => {
                proof {
                    assert(full.contains(full[k]));
                    lemma_ring_seq_contains(c@, radius as int, full[k]);
                }
                v.push(Hex::from_cube(x));
                proof {
                    assert(it.remaining() =~= full.subrange(v@.len() as int, full.len() as int));
                }
            },
            None => {
                break;
            },
        }
    }
    v
}

/// All boundary coordinates within hex distance `radius` of `coord`,
/// emitted as concentric perimeter-ordered rings of growing radius:
/// `3*radius*(radius+1) + 1` of them.
pub fn spiral_path(coord: Hex, radius: i32) -> (v: Vec<Hex>)
    requires
        radius >= 0,
        i32::MIN <= cube_of_hex(coord).q - radius,
        cube_of_hex(coord).q + radius <= i32::MAX,
        i32::MIN <= cube_of_hex(coord).r - radius,
        cube_of_hex(coord).r + radius <= i32::MAX,
        i32::MIN <= cube_of_hex(coord).s - radius,
        cube_of_hex(coord).s + radius <= i32::MAX,
    ensures
        v@.len() == spiral_seq(cube_of_hex(coord), radius as int).len(),
        v@.len() == 3 * radius * (radius + 1) + 1,
        forall|i: int| 0 <= i < v@.len() ==> cube_of_hex(#[trigger] v@[i]) == spiral_seq(
            cube_of_hex(coord),
            radius as int,
        )[i],
{
    let c = coord.to_cube();
    let ghost full = spiral_seq(c@, radius as int);
    proof {
        lemma_spiral_seq_len(c@, radius as int);
    }
    let mut it = c.spiral(radius);
    let mut v: Vec<Hex> = Vec::new();
    loop
        invariant
            it.wf(),
            radius >= 0,
            c@ == cube_of_hex(coord),
            c@.wf(),
            full == spiral_seq(c@, radius as int),
            v@.len() <= full.len(),
            it.remaining() == full.subrange(v@.len() as int, full.len() as int),
            forall|i: int| 0 <= i < v@.len() ==> cube_of_hex(#[trigger] v@[i]) == full[i],
        ensures
            v@.len() == full.len(),
            forall|i: int| 0 <= i < v@.len() ==> cube_of_hex(#[trigger] v@[i]) == full[i],
        decreases it.remaining().len(),
    {
        let ghost k = v@.len() as int;
        match it.next() {
            Some(x) => {
                proof {
                    assert(full.contains(full[k]));
                    lemma_spiral_seq_contains(c@, radius as int, full[k]);
                }
                v.push(Hex::from_cube(x));
                proof {
                    assert(it.remaining() =~= full.subrange(v@.len() as int, full.len() as int));
                }
            },
            None => {
                break;
            },
        }
    }
    v
}

} // verus!
