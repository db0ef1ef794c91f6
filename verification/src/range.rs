use vstd::prelude::*;

verus! {

use crate::cube::{
    Cube, CubeCoord, descent_pair, imax, imin, lemma_dist_descent, lemma_dist_step,
    lemma_dist_zero, neighbor_dir,
};

/// First r-axis value of the row with outer axis `q` in a disk of radius `d`.
pub open spec fn row_lo(d: int, q: int) -> int {
    imax(-d, -q - d)
}

/// Last r-axis value (inclusive) of the row with outer axis `q` in a disk
/// of radius `d`.
pub open spec fn row_hi(d: int, q: int) -> int {
    imin(d, -q + d)
}

/// The disk element with offset axes `q` and `r` from `c`; the third axis
/// is derived from the zero-sum identity.
pub open spec fn disk_elem(c: Cube, q: int, r: int) -> Cube {
    c.add(Cube { q: q, r: r, s: -q - r })
}

/// The tail of the row `q`, from r-axis value `r0` to the end of the row.
pub open spec fn row_from(c: Cube, d: int, q: int, r0: int) -> Seq<Cube> {
    Seq::new((row_hi(d, q) - r0 + 1) as nat, |j: int| disk_elem(c, q, r0 + j))
}

/// All rows of the disk of radius `d` around `c` from outer axis `q`
/// upward, in emission order (row-major by q, then r).
pub open spec fn rows_from(c: Cube, d: int, q: int) -> Seq<Cube>
    decreases d + 1 - q,
{
    if q > d {
        Seq::empty()
    } else {
        row_from(c, d, q, row_lo(d, q)) + rows_from(c, d, q + 1)
    }
}

/// The full emission sequence of `range(c, d)`: every coordinate within
/// hex distance `d` of `c`, row-major by the q axis.
pub open spec fn range_seq(c: Cube, d: int) -> Seq<Cube> {
    rows_from(c, d, -d)
}

/// Explicit-state generator over all coordinates within a fixed hex
/// distance of a center, emitting row-major by the q axis.
pub struct HexRangeIter {
    center: CubeCoord,
    dist: i32,
    q: i32,
    r: i32,
}

impl HexRangeIter {
    /// The generator's state is consistent: the cursor lies inside the
    /// disk's rows (or one row past the end) and all emitted coordinates
    /// fit in `i32`.
    pub closed spec fn wf(self) -> bool {
        &&& 0 <= self.dist
        &&& 2 * self.dist + 1 <= i32::MAX
        &&& i32::MIN <= self.center@.q - self.dist
        &&& self.center@.q + self.dist <= i32::MAX
        &&& i32::MIN <= self.center@.r - self.dist
        &&& self.center@.r + self.dist <= i32::MAX
        &&& i32::MIN <= self.center@.s - self.dist
        &&& self.center@.s + self.dist <= i32::MAX
        &&& -self.dist <= self.q <= self.dist + 1
        &&& (self.q <= self.dist ==> row_lo(self.dist as int, self.q as int) <= self.r <= row_hi(
            self.dist as int,
            self.q as int,
        ))
    }

    /// The coordinates the generator has yet to emit.
    pub closed spec fn remaining(self) -> Seq<Cube> {
        if self.q > self.dist {
            Seq::empty()
        } else {
            row_from(self.center@, self.dist as int, self.q as int, self.r as int) + rows_from(
                self.center@,
                self.dist as int,
                self.q as int + 1,
            )
        }
    }

    /// A fresh generator over the disk of radius `dist` around `center`.
    pub fn new(center: CubeCoord, dist: i32) -> (it: HexRangeIter)
        requires
            dist >= 0,
            2 * dist + 1 <= i32::MAX,
            i32::MIN <= center@.q - dist,
            center@.q + dist <= i32::MAX,
            i32::MIN <= center@.r - dist,
            center@.r + dist <= i32::MAX,
            i32::MIN <= center@.s - dist,
            center@.s + dist <= i32::MAX,
        ensures
            it.wf(),
            it.remaining() == range_seq(center@, dist as int),
    {
        let it = HexRangeIter { center, dist, q: -dist, r: 0 };
        proof {
            assert(row_lo(dist as int, -dist as int) == 0);
            assert(rows_from(center@, dist as int, -(dist as int)) == row_from(
                center@,
                dist as int,
                -(dist as int),
                0,
            ) + rows_from(center@, dist as int, -(dist as int) + 1));
            assert(it.remaining() =~= range_seq(center@, dist as int));
        }
        it
    }

    /// Emit the next coordinate of the disk, or `None` when exhausted.
    pub fn next(&mut self) -> (item: Option<CubeCoord>)
        requires
            old(self).wf(),
        ensures
            final(self).wf(),
            old(self).remaining().len() == 0 ==> item.is_none() && final(self).remaining().len()
                == 0,
            old(self).remaining().len() > 0 ==> item.is_some()
                && item.unwrap()@ == old(self).remaining().first() && final(self).remaining()
                == old(self).remaining().drop_first(),
    {
        if self.q > self.dist {
            return None;
        }
        let r_hi_cur: i32 = {
            let a = -self.q + self.dist;
            if self.dist < a {
                self.dist
            } else {
                a
            }
        };
        let new_coord = self.center.add(CubeCoord::new(self.q, self.r, -self.q - self.r));
        let ghost old_self = *self;
        self.r = self.r + 1;
        if self.r > r_hi_cur {
            self.q = self.q + 1;
            let b = -self.q - self.dist;
            self.r = if b < -self.dist {
                -self.dist
            } else {
                b
            };
        }
        proof {
            let c = self.center@;
            let d = self.dist as int;
            let oq = old_self.q as int;
            let orr = old_self.r as int;
            assert(old_self.remaining().first() == disk_elem(c, oq, orr));
            if orr < row_hi(d, oq) {
                assert(final(self).remaining() =~= old_self.remaining().drop_first());
            } else {
                assert(row_from(c, d, oq, orr).len() == 1);
                if oq + 1 <= d {
                    assert(rows_from(c, d, oq + 1) == row_from(c, d, oq + 1, row_lo(d, oq + 1))
                        + rows_from(c, d, oq + 2));
                    assert(final(self).remaining() =~= old_self.remaining().drop_first());
                } else {
                    assert(final(self).remaining() =~= old_self.remaining().drop_first());
                }
            }
        }
        Some(new_coord)
    }
}

impl CubeCoord {
    /// A generator over all coordinates within hex distance `dist` of
    /// `self`, emitted row-major by the q axis.
    pub fn range(&self, dist: i32) -> (it: HexRangeIter)
        requires
            dist >= 0,
            2 * dist + 1 <= i32::MAX,
            i32::MIN <= self@.q - dist,
            self@.q + dist <= i32::MAX,
            i32::MIN <= self@.r - dist,
            self@.r + dist <= i32::MAX,
            i32::MIN <= self@.s - dist,
            self@.s + dist <= i32::MAX,
        ensures
            it.wf(),
            it.remaining() == range_seq(self@, dist as int),
    {
        HexRangeIter::new(*self, dist)
    }
}

/// Twice the number of elements of `rows_from(c, d, q)`, as a closed form
/// free of division.
pub open spec fn twice_tail_count(d: int, q: int) -> int {
    if q > d {
        0
    } else if q >= 0 {
        (d - q + 1) * (3 * d - q + 2)
    } else {
        (-q) * (4 * d + 1 + q) + (d + 1) * (3 * d + 2)
    }
}

pub proof fn lemma_rows_from_len(c: Cube, d: int, q: int)
    requires
        0 <= d,
        -d <= q <= d + 1,
    ensures
        2 * rows_from(c, d, q).len() == twice_tail_count(d, q),
    decreases d + 1 - q,
{
    if q > d {
    } else {
        lemma_rows_from_len(c, d, q + 1);
        if q >= 0 {
            assert(row_hi(d, q) - row_lo(d, q) + 1 == 2 * d - q + 1);
            if q + 1 > d {
                assert((d - q + 1) * (3 * d - q + 2) == 2 * (2 * d - q + 1)) by (nonlinear_arith)
                    requires
                        q == d,
                ;
            } else {
                assert((d - q + 1) * (3 * d - q + 2) - (d - (q + 1) + 1) * (3 * d - (q + 1) + 2)
                    == 2 * (2 * d - q + 1)) by (nonlinear_arith);
            }
        } else {
            assert(row_hi(d, q) - row_lo(d, q) + 1 == 2 * d + q + 1);
            if q + 1 >= 0 {
                assert((-q) * (4 * d + 1 + q) == 2 * (2 * d + q + 1)) by (nonlinear_arith)
                    requires
                        q == -1,
                ;
            } else {
                assert((-q) * (4 * d + 1 + q) - (-(q + 1)) * (4 * d + 1 + (q + 1)) == 2 * (2 * d
                    + q + 1)) by (nonlinear_arith);
            }
        }
    }
}

/// `range(c, d)` emits exactly `3*d*(d+1) + 1` coordinates.
pub proof fn lemma_range_seq_len(c: Cube, d: int)
    requires
        d >= 0,
    ensures
        range_seq(c, d).len() == 3 * d * (d + 1) + 1,
{
    lemma_rows_from_len(c, d, -d);
    if d == 0 {
        assert(twice_tail_count(d, -d) == 2 * (3 * d * (d + 1) + 1));
    } else {
        assert(d * (4 * d + 1 - d) + (d + 1) * (3 * d + 2) == 2 * (3 * d * (d + 1) + 1))
            by (nonlinear_arith);
    }
}

/// `range(c, 0)` emits exactly the center.
pub proof fn lemma_range_zero(c: Cube)
    ensures
        range_seq(c, 0) =~= seq![c],
{
    assert(rows_from(c, 0, 0) == row_from(c, 0, 0, 0) + rows_from(c, 0, 1));
    assert(disk_elem(c, 0, 0) == c);
}

/// The offset axes `q` and `r` address a cell of the rows of the disk of
/// radius `d` from row `q0` on.
pub open spec fn row_cell(d: int, q0: int, q: int, r: int) -> bool {
    q0 <= q <= d && row_lo(d, q) <= r <= row_hi(d, q)
}

pub proof fn lemma_rows_from_contains(c: Cube, d: int, q0: int, x: Cube)
    requires
        0 <= d,
        -d <= q0 <= d + 1,
    ensures
        rows_from(c, d, q0).contains(x) <==> exists|q: int, r: int|
            #[trigger] row_cell(d, q0, q, r) && x == disk_elem(c, q, r),
    decreases d + 1 - q0,
{
    if q0 > d {
    } else {
        lemma_rows_from_contains(c, d, q0 + 1, x);
        let head = row_from(c, d, q0, row_lo(d, q0));
        let tail = rows_from(c, d, q0 + 1);
        if head.contains(x) {
            let j = choose|j: int| 0 <= j < head.len() && head[j] == x;
            let r = row_lo(d, q0) + j;
            assert(head[j] == disk_elem(c, q0, r));
            assert(row_cell(d, q0, q0, r) && x == disk_elem(c, q0, r));
        }
        if tail.contains(x) {
            let (q, r) = choose|q: int, r: int|
                #[trigger] row_cell(d, q0 + 1, q, r) && x == disk_elem(c, q, r);
            assert(row_cell(d, q0, q, r) && x == disk_elem(c, q, r));
        }
        if exists|q: int, r: int| #[trigger] row_cell(d, q0, q, r) && x == disk_elem(c, q, r) {
            let (q, r) = choose|q: int, r: int|
                #[trigger] row_cell(d, q0, q, r) && x == disk_elem(c, q, r);
            if q == q0 {
                assert(head[r - row_lo(d, q0)] == x);
                assert(head.contains(x));
            } else {
                assert(row_cell(d, q0 + 1, q, r));
                assert(tail.contains(x));
            }
            assert(rows_from(c, d, q0).contains(x)) by {
                if head.contains(x) {
                    let j = choose|j: int| 0 <= j < head.len() && head[j] == x;
                    assert(rows_from(c, d, q0)[j] == x);
                } else {
                    let j = choose|j: int| 0 <= j < tail.len() && tail[j] == x;
                    assert(rows_from(c, d, q0)[head.len() + j] == x);
                }
            }
        }
        if rows_from(c, d, q0).contains(x) {
            assert(head.contains(x) || tail.contains(x)) by {
                let i = choose|i: int|
                    0 <= i < rows_from(c, d, q0).len() && rows_from(c, d, q0)[i] == x;
                if i < head.len() {
                    assert(head[i] == x);
                } else {
                    assert(tail[i - head.len()] == x);
                }
            }
        }
    }
}

/// A coordinate is emitted by `range(c, d)` exactly when it is well
/// formed and lies within hex distance `d` of `c`.
pub proof fn lemma_range_seq_contains(c: Cube, d: int, x: Cube)
    requires
        0 <= d,
        c.wf(),
    ensures
        range_seq(c, d).contains(x) <==> (x.wf() && c.dist(x) <= d),
{
    lemma_rows_from_contains(c, d, -d, x);
    if x.wf() && c.dist(x) <= d {
        let dq = x.q - c.q;
        let dr = x.r - c.r;
        assert(row_cell(d, -d, dq, dr) && x == disk_elem(c, dq, dr));
    }
    if exists|q: int, r: int| #[trigger] row_cell(d, -d, q, r) && x == disk_elem(c, q, r) {
        let (q, r) = choose|q: int, r: int|
            #[trigger] row_cell(d, -d, q, r) && x == disk_elem(c, q, r);
        assert(x.wf() && c.dist(x) <= d);
    }
}

/// One breadth-first expansion: the coordinates of `s` together with all
/// their neighbors.
pub open spec fn bfs_step(s: Set<Cube>) -> Set<Cube> {
    Set::new(
        |y: Cube|
            s.contains(y) || exists|x: Cube, i: int|
                #![trigger s.contains(x), neighbor_dir(i)]
                s.contains(x) && 0 <= i < 6 && y == x.add(neighbor_dir(i)),
    )
}

/// The set reached from `{c}` by `n` breadth-first neighbor expansions.
pub open spec fn bfs_reach(c: Cube, n: nat) -> Set<Cube>
    decreases n,
{
    if n == 0 {
        Set::new(|y: Cube| y == c)
    } else {
        bfs_step(bfs_reach(c, (n - 1) as nat))
    }
}

/// The disk of radius `n` around `c` as a set.
pub open spec fn disk_set(c: Cube, n: int) -> Set<Cube> {
    Set::new(|y: Cube| y.wf() && c.dist(y) <= n)
}

pub proof fn lemma_bfs_reach_is_disk(c: Cube, n: nat)
    requires
        c.wf(),
    ensures
        bfs_reach(c, n) =~= disk_set(c, n as int),
    decreases n,
{
    if n == 0 {
        assert forall|y: Cube| disk_set(c, 0).contains(y) implies bfs_reach(c, 0).contains(y) by {
            lemma_dist_zero(c, y);
        }
    } else {
        let m = (n - 1) as nat;
        lemma_bfs_reach_is_disk(c, m);
        assert forall|y: Cube| bfs_reach(c, n).contains(y) implies disk_set(
            c,
            n as int,
        ).contains(y) by {
            if !bfs_reach(c, m).contains(y) {
                let (x, i) = choose|x: Cube, i: int|
                    #![trigger bfs_reach(c, m).contains(x), neighbor_dir(i)]
                    bfs_reach(c, m).contains(x) && 0 <= i < 6 && y == x.add(neighbor_dir(i));
                lemma_dist_step(c, x, i);
            }
        }
        assert forall|y: Cube| disk_set(c, n as int).contains(y) implies bfs_reach(
            c,
            n,
        ).contains(y) by {
            if c.dist(y) <= m {
                assert(bfs_reach(c, m).contains(y));
            } else {
                lemma_dist_descent(c, y);
                let (i, j) = choose|i: int, j: int| #[trigger] descent_pair(c, y, i, j);
                let x = y.add(neighbor_dir(i));
                assert(bfs_reach(c, m).contains(x));
                assert(bfs_reach(c, m).contains(x) && 0 <= j < 6 && y == x.add(neighbor_dir(j)));
            }
        }
    }
}

/// Closure property: `range(c, d)` emits exactly the set reached by
/// expanding neighbors `d` times, breadth first, from `{c}`.
pub proof fn lemma_range_seq_is_bfs_reach(c: Cube, d: int)
    requires
        0 <= d,
        c.wf(),
    ensures
        range_seq(c, d).to_set() =~= bfs_reach(c, d as nat),
{
    lemma_bfs_reach_is_disk(c, d as nat);
    assert forall|x: Cube| #[trigger]
        range_seq(c, d).to_set().contains(x) <==> disk_set(c, d).contains(x) by {
        lemma_range_seq_contains(c, d, x);
    }
}

} // verus!
