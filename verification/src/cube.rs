use vstd::prelude::*;

verus! {

/// Mathematical model of a cube coordinate: three unbounded integer axes.
/// A coordinate is well formed when the axes sum to zero.
pub ghost struct Cube {
    pub q: int,
    pub r: int,
    pub s: int,
}

/// Absolute value over `int`.
pub open spec fn iabs(x: int) -> int {
    if x < 0 {
        -x
    } else {
        x
    }
}

/// Maximum of two `int`s.
pub open spec fn imax(x: int, y: int) -> int {
    if x < y {
        y
    } else {
        x
    }
}

/// Minimum of two `int`s.
pub open spec fn imin(x: int, y: int) -> int {
    if x < y {
        x
    } else {
        y
    }
}

impl Cube {
    /// The defining invariant of cube coordinates.
    pub open spec fn wf(self) -> bool {
        self.q + self.r + self.s == 0
    }

    /// Component-wise sum.
    pub open spec fn add(self, other: Cube) -> Cube {
        Cube { q: self.q + other.q, r: self.r + other.r, s: self.s + other.s }
    }

    /// Component-wise difference.
    pub open spec fn sub(self, other: Cube) -> Cube {
        Cube { q: self.q - other.q, r: self.r - other.r, s: self.s - other.s }
    }

    /// Component-wise scaling by an integer.
    pub open spec fn scale(self, k: int) -> Cube {
        Cube { q: self.q * k, r: self.r * k, s: self.s * k }
    }

    /// Hex distance to the origin: the maximum absolute axis value.
    pub open spec fn norm(self) -> int {
        imax(imax(iabs(self.q), iabs(self.r)), iabs(self.s))
    }

    /// Hex distance between two coordinates.
    pub open spec fn dist(self, other: Cube) -> int {
        self.sub(other).norm()
    }

    /// All three axes fit in `i32`.
    pub open spec fn in_i32_range(self) -> bool {
        &&& i32::MIN <= self.q <= i32::MAX
        &&& i32::MIN <= self.r <= i32::MAX
        &&& i32::MIN <= self.s <= i32::MAX
    }
}

/// An integer cube coordinate.  The intended invariant `q + r + s == 0`
/// is stated through the model as `self@.wf()`.
#[derive(Clone, Copy, PartialEq, Eq, Structural, Hash, Debug)]
pub struct CubeCoord {
    pub q: i32,
    pub r: i32,
    pub s: i32,
}

impl View for CubeCoord {
    type V = Cube;

    open spec fn view(&self) -> Cube {
        Cube { q: self.q as int, r: self.r as int, s: self.s as int }
    }
}

impl CubeCoord {
    /// A coordinate from its three axes, which must sum to zero.
    pub fn new(q: i32, r: i32, s: i32) -> (c: CubeCoord)
        requires
            q + r + s == 0,
        ensures
            c@ == (Cube { q: q as int, r: r as int, s: s as int }),
            c@.wf(),
    {
        CubeCoord { q, r, s }
    }

    /// Component-wise sum.
    pub fn add(self, rhs: CubeCoord) -> (c: CubeCoord)
        requires
            self@.add(rhs@).in_i32_range(),
        ensures
            c@ == self@.add(rhs@),
    {
        CubeCoord { q: self.q + rhs.q, r: self.r + rhs.r, s: self.s + rhs.s }
    }

    /// In-place sum, algebraically equal to reconstruction via `add`.
    pub fn add_assign(&mut self, rhs: CubeCoord)
        requires
            old(self)@.add(rhs@).in_i32_range(),
        ensures
            final(self)@ == old(self)@.add(rhs@),
    {
        self.q = self.q + rhs.q;
        self.r = self.r + rhs.r;
        self.s = self.s + rhs.s;
    }

    /// Component-wise difference.
    pub fn sub(self, rhs: CubeCoord) -> (c: CubeCoord)
        requires
            self@.sub(rhs@).in_i32_range(),
        ensures
            c@ == self@.sub(rhs@),
    {
        CubeCoord { q: self.q - rhs.q, r: self.r - rhs.r, s: self.s - rhs.s }
    }

    /// Component-wise scaling by an integer.
    pub fn mul(self, rhs: i32) -> (c: CubeCoord)
        requires
            self@.scale(rhs as int).in_i32_range(),
        ensures
            c@ == self@.scale(rhs as int),
    {
        CubeCoord { q: self.q * rhs, r: self.r * rhs, s: self.s * rhs }
    }

    /// Hex distance to the origin.
    pub fn abs(&self) -> (n: i32)
        requires
            -i32::MAX <= self.q,
            -i32::MAX <= self.r,
            -i32::MAX <= self.s,
        ensures
            n == self@.norm(),
    {
        let aq: i32 = if self.q < 0 { -self.q } else { self.q };
        let ar: i32 = if self.r < 0 { -self.r } else { self.r };
        let as_: i32 = if self.s < 0 { -self.s } else { self.s };
        let m: i32 = if aq < ar { ar } else { aq };
        if m < as_ { as_ } else { m }
    }

    /// Hex distance to the other coordinate.
    pub fn dist(&self, other: CubeCoord) -> (n: i32)
        requires
            -i32::MAX <= self@.q - other@.q <= i32::MAX,
            -i32::MAX <= self@.r - other@.r <= i32::MAX,
            -i32::MAX <= self@.s - other@.s <= i32::MAX,
        ensures
            n == self@.dist(other@),
    {
        let d = self.sub(other);
        d.abs()
    }
}

/// The six edge-adjacent unit offsets, in the canonical compass order
/// that the ring and spiral traversals rely on.
pub open spec fn neighbor_dir(i: int) -> Cube {
    if i == 0 {
        Cube { q: 1, r: 0, s: -1 }
    } else if i == 1 {
        Cube { q: 1, r: -1, s: 0 }
    } else if i == 2 {
        Cube { q: 0, r: -1, s: 1 }
    } else if i == 3 {
        Cube { q: -1, r: 0, s: 1 }
    } else if i == 4 {
        Cube { q: -1, r: 1, s: 0 }
    } else {
        Cube { q: 0, r: 1, s: -1 }
    }
}

/// The six vertex-adjacent offsets, with the same ordinal correspondence
/// as `neighbor_dir`.
pub open spec fn diagonal_dir(i: int) -> Cube {
    if i == 0 {
        Cube { q: 2, r: -1, s: -1 }
    } else if i == 1 {
        Cube { q: 1, r: -2, s: 1 }
    } else if i == 2 {
        Cube { q: -1, r: -1, s: 2 }
    } else if i == 3 {
        Cube { q: -2, r: 1, s: 1 }
    } else if i == 4 {
        Cube { q: -1, r: 2, s: -1 }
    } else {
        Cube { q: 1, r: 1, s: -2 }
    }
}

/// The edge-adjacent direction of the given index.
pub fn neighbor_dir_at(i: usize) -> (d: CubeCoord)
    requires
        i < 6,
    ensures
        d@ == neighbor_dir(i as int),
{
    if i == 0 {
        CubeCoord { q: 1, r: 0, s: -1 }
    } else if i == 1 {
        CubeCoord { q: 1, r: -1, s: 0 }
    } else if i == 2 {
        CubeCoord { q: 0, r: -1, s: 1 }
    } else if i == 3 {
        CubeCoord { q: -1, r: 0, s: 1 }
    } else if i == 4 {
        CubeCoord { q: -1, r: 1, s: 0 }
    } else {
        CubeCoord { q: 0, r: 1, s: -1 }
    }
}

/// The vertex-adjacent direction of the given index.
pub fn diagonal_dir_at(i: usize) -> (d: CubeCoord)
    requires
        i < 6,
    ensures
        d@ == diagonal_dir(i as int),
{
    if i == 0 {
        CubeCoord { q: 2, r: -1, s: -1 }
    } else if i == 1 {
        CubeCoord { q: 1, r: -2, s: 1 }
    } else if i == 2 {
        CubeCoord { q: -1, r: -1, s: 2 }
    } else if i == 3 {
        CubeCoord { q: -2, r: 1, s: 1 }
    } else if i == 4 {
        CubeCoord { q: -1, r: 2, s: -1 }
    } else {
        CubeCoord { q: 1, r: 1, s: -2 }
    }
}

impl CubeCoord {
    /// The six edge-adjacent coordinates, in canonical compass order.
    pub fn neighbors(&self) -> (v: Vec<CubeCoord>)
        requires
            i32::MIN + 1 <= self.q <= i32::MAX - 1,
            i32::MIN + 1 <= self.r <= i32::MAX - 1,
            i32::MIN + 1 <= self.s <= i32::MAX - 1,
        ensures
            v@.len() == 6,
            forall|i: int| 0 <= i < 6 ==> #[trigger] v@[i]@ == self@.add(neighbor_dir(i)),
    {
        let mut v: Vec<CubeCoord> = Vec::new();
        let mut i: usize = 0;
        while i < 6
            invariant
                i <= 6,
                v@.len() == i,
                i32::MIN + 1 <= self.q <= i32::MAX - 1,
                i32::MIN + 1 <= self.r <= i32::MAX - 1,
                i32::MIN + 1 <= self.s <= i32::MAX - 1,
                forall|j: int| 0 <= j < i ==> #[trigger] v@[j]@ == self@.add(neighbor_dir(j)),
            decreases 6 - i,
        {
            let d = neighbor_dir_at(i);
            v.push(self.add(d));
            i = i + 1;
        }
        v
    }

    /// The six vertex-adjacent coordinates, in canonical compass order.
    pub fn diagonals(&self) -> (v: Vec<CubeCoord>)
        requires
            i32::MIN + 2 <= self.q <= i32::MAX - 2,
            i32::MIN + 2 <= self.r <= i32::MAX - 2,
            i32::MIN + 2 <= self.s <= i32::MAX - 2,
        ensures
            v@.len() == 6,
            forall|i: int| 0 <= i < 6 ==> #[trigger] v@[i]@ == self@.add(diagonal_dir(i)),
    {
        let mut v: Vec<CubeCoord> = Vec::new();
        let mut i: usize = 0;
        while i < 6
            invariant
                i <= 6,
                v@.len() == i,
                i32::MIN + 2 <= self.q <= i32::MAX - 2,
                i32::MIN + 2 <= self.r <= i32::MAX - 2,
                i32::MIN + 2 <= self.s <= i32::MAX - 2,
                forall|j: int| 0 <= j < i ==> #[trigger] v@[j]@ == self@.add(diagonal_dir(j)),
            decreases 6 - i,
        {
            let d = diagonal_dir_at(i);
            v.push(self.add(d));
            i = i + 1;
        }
        v
    }
}

/// The six neighbors of a coordinate are pairwise distinct and each lies
/// at hex distance exactly 1.
pub proof fn lemma_neighbors_law(c: Cube, i: int, j: int)
    requires
        0 <= i < 6,
        0 <= j < 6,
    ensures
        c.dist(c.add(neighbor_dir(i))) == 1,
        i != j ==> c.add(neighbor_dir(i)) != c.add(neighbor_dir(j)),
{
}

/// The six diagonals of a coordinate are pairwise distinct and each lies
/// at hex distance exactly 2.
pub proof fn lemma_diagonals_law(c: Cube, i: int, j: int)
    requires
        0 <= i < 6,
        0 <= j < 6,
    ensures
        c.dist(c.add(diagonal_dir(i))) == 2,
        i != j ==> c.add(diagonal_dir(i)) != c.add(diagonal_dir(j)),
{
}

/// Moving one step in any neighbor direction changes the hex distance to
/// a fixed coordinate by at most one.
pub proof fn lemma_dist_step(c: Cube, x: Cube, i: int)
    requires
        0 <= i < 6,
    ensures
        c.dist(x.add(neighbor_dir(i))) <= c.dist(x) + 1,
        c.dist(x) <= c.dist(x.add(neighbor_dir(i))) + 1,
{
}

/// Witnesses that one neighbor step from `y` lands at hex distance
/// `c.dist(y) - 1` from `c`, and that the step is reversible by the
/// opposite direction.
pub open spec fn descent_pair(c: Cube, y: Cube, i: int, j: int) -> bool {
    &&& 0 <= i < 6
    &&& 0 <= j < 6
    &&& c.dist(y.add(neighbor_dir(i))) == c.dist(y) - 1
    &&& y.add(neighbor_dir(i)).add(neighbor_dir(j)) == y
}

/// From any coordinate at positive hex distance from `c` some neighbor
/// step moves exactly one unit closer to `c`.
pub proof fn lemma_dist_descent(c: Cube, y: Cube)
    requires
        c.wf(),
        y.wf(),
        c.dist(y) >= 1,
    ensures
        exists|i: int, j: int| #[trigger] descent_pair(c, y, i, j),
{
    let k = c.dist(y);
    let a = y.q - c.q;
    let b = y.r - c.r;
    let e = y.s - c.s;
    if a == k {
        if b < 0 {
            assert(descent_pair(c, y, 4, 1));
        } else {
            assert(descent_pair(c, y, 3, 0));
        }
    } else if a == -k {
        if b > 0 {
            assert(descent_pair(c, y, 1, 4));
        } else {
            assert(descent_pair(c, y, 0, 3));
        }
    } else if b == k {
        if a < 0 {
            assert(descent_pair(c, y, 1, 4));
        } else {
            assert(descent_pair(c, y, 2, 5));
        }
    } else if b == -k {
        if a > 0 {
            assert(descent_pair(c, y, 4, 1));
        } else {
            assert(descent_pair(c, y, 5, 2));
        }
    } else if e == k {
        assert(descent_pair(c, y, 0, 3));
    } else {
        assert(descent_pair(c, y, 3, 0));
    }
}

/// Two well-formed coordinates at hex distance zero are equal.
pub proof fn lemma_dist_zero(c: Cube, y: Cube)
    requires
        c.wf(),
        y.wf(),
    ensures
        c.dist(y) == 0 <==> c == y,
{
}

/// The invariant is preserved by the algebra: sums, differences and
/// scalings of zero-sum coordinates sum to zero again.
pub proof fn lemma_ops_preserve_zero_sum(a: Cube, b: Cube, k: int)
    requires
        a.wf(),
        b.wf(),
    ensures
        a.add(b).wf(),
        a.sub(b).wf(),
        a.scale(k).wf(),
{
    assert(a.q * k + a.r * k + a.s * k == (a.q + a.r + a.s) * k) by (nonlinear_arith);
}

/// `add` and `subtract` are inverses: `(a + b) - b == a` for all a, b.
pub proof fn lemma_add_sub_inverse(a: Cube, b: Cube)
    ensures
        a.add(b).sub(b) == a,
{
}

/// The hex distance is symmetric and zero on the diagonal.
pub proof fn lemma_dist_symmetric(a: Cube, b: Cube)
    ensures
        a.dist(b) == b.dist(a),
        a.dist(a) == 0,
{
}

} // verus!
