use vstd::prelude::*;

verus! {

use vstd::arithmetic::div_mod::{
    lemma_fundamental_div_mod, lemma_fundamental_div_mod_converse, lemma_mod_bound,
    lemma_mod_multiples_vanish,
};
use crate::cube::{Cube, CubeCoord, iabs, lemma_dist_zero};

/// Largest axis magnitude accepted by the line-drawing routines: the
/// interpolation arithmetic is carried out in 128-bit integers scaled by
/// `SCALE`, and this practical coordinate limit keeps every intermediate
/// value representable.
pub const AXIS_LIMIT: i32 = 0x3FFF_FFFF;

/// Fixed-point scale of the interpolation arithmetic: one unit is
/// one millionth, the magnitude of the tie-breaking offsets.
pub const SCALE: i64 = 1000000;

/// The epsilon offsets added to the line's endpoint before
/// interpolation, one distinct nonzero value per axis, summing to zero:
/// they deterministically break rounding ties without leaving the
/// zero-sum plane.
pub const EPS_Q: i64 = 1;

pub const EPS_R: i64 = 2;

pub const EPS_S: i64 = -3;

/// Both endpoints of a line stay within the practical axis limit.
pub open spec fn in_line_range(c: Cube) -> bool {
    &&& -(AXIS_LIMIT as int) <= c.q <= AXIS_LIMIT as int
    &&& -(AXIS_LIMIT as int) <= c.r <= AXIS_LIMIT as int
    &&& -(AXIS_LIMIT as int) <= c.s <= AXIS_LIMIT as int
}

/// The integer nearest to `num / den`, ties rounding to the even
/// integer; `den` must be positive.
pub open spec fn round_half_even(num: int, den: int) -> int {
    let q = num / den;
    let rem = num % den;
    if 2 * rem < den {
        q
    } else if 2 * rem > den {
        q + 1
    } else if q % 2 == 0 {
        q
    } else {
        q + 1
    }
}

/// The absolute rounding error of `round_half_even`, scaled by `den`.
pub open spec fn round_err(num: int, den: int) -> int {
    iabs(round_half_even(num, den) * den - num)
}

/// Round a rational cube coordinate (three numerators over one common
/// positive denominator) to the nearest integer cube coordinate while
/// restoring the zero-sum invariant exactly: all three axes round to
/// nearest (ties to even), then the axis with the strictly largest
/// rounding error is reconstructed from the other two.  The comparison
/// order — q against both others first, then r against s — decides which
/// axis absorbs the error on boundary cases.
pub open spec fn cube_round(nq: int, nr: int, ns: int, den: int) -> Cube {
    let q0 = round_half_even(nq, den);
    let r0 = round_half_even(nr, den);
    let s0 = round_half_even(ns, den);
    let qd = round_err(nq, den);
    let rd = round_err(nr, den);
    let sd = round_err(ns, den);
    if qd > rd && qd > sd {
        Cube { q: -r0 - s0, r: r0, s: s0 }
    } else if rd > sd {
        Cube { q: q0, r: -q0 - s0, s: s0 }
    } else {
        Cube { q: q0, r: r0, s: -q0 - r0 }
    }
}

/// The scaled numerator of one axis of the line's interpolated point
/// number `i` of `n`: linear interpolation from `a0` to `b0 + eps/SCALE`
/// at parameter `i / n`, scaled by `n * SCALE`.
pub open spec fn line_num(a0: int, b0: int, eps: int, i: int, n: int) -> int {
    (a0 * n + (b0 - a0) * i) * (SCALE as int) + eps * i
}

/// Interpolated point number `i` of the hex line from `a` to `b` with
/// `n` steps, rounded back to the grid.
pub open spec fn line_point(a: Cube, b: Cube, i: int, n: int) -> Cube {
    cube_round(
        line_num(a.q, b.q, EPS_Q as int, i, n),
        line_num(a.r, b.r, EPS_R as int, i, n),
        line_num(a.s, b.s, EPS_S as int, i, n),
        n * (SCALE as int),
    )
}

/// The full emission sequence of `linedraw(a, b)` with `n == a.dist(b)`:
/// the `n + 1` interpolated grid points from `a` to `b` inclusive.
pub open spec fn line_seq(a: Cube, b: Cube, n: int) -> Seq<Cube> {
    if n == 0 {
        seq![a]
    } else {
        Seq::new((n + 1) as nat, |i: int| line_point(a, b, i, n))
    }
}

/// Round one scaled axis to the nearest integer, ties to even,
/// returning the rounded value and the scaled absolute rounding error.
fn round_axis(num: i128, den: i128) -> (r: (i128, i128))
    requires
        1 <= den <= 0x4000_0000_0000_0000,
        -0x8000_0000 * (den as int) <= num <= 0x8000_0000 * (den as int),
    ensures
        r.0 == round_half_even(num as int, den as int),
        r.1 == round_err(num as int, den as int),
        0 <= r.1 <= den,
        -(den as int) <= r.0 * den - num <= den as int,
{
    let off: i128 = 0x8000_0000;
    proof {
        assert(0 <= off * den <= 0x2000_0000_0000_0000_0000_0000) by (nonlinear_arith)
            requires
                1 <= den <= 0x4000_0000_0000_0000,
                off == 0x8000_0000,
        ;
    }
    let sh: i128 = num + off * den;
    let q_sh: i128 = sh / den;
    let rem: i128 = sh % den;
    let ghost qi: int = q_sh as int - 0x8000_0000;
    proof {
        lemma_mod_bound(sh as int, den as int);
        lemma_fundamental_div_mod(sh as int, den as int);
        assert((qi) * den == (den as int) * (q_sh as int) - 0x8000_0000 * den) by (nonlinear_arith)
            requires
                qi == q_sh as int - 0x8000_0000,
        ;
        lemma_fundamental_div_mod_converse(num as int, den as int, qi, rem as int);
        assert(num as int / den as int == qi && num as int % den as int == rem as int);
    }
    let q: i128 = q_sh - off;
    let rounded: i128 = if 2 * rem < den {
        q
    } else if 2 * rem > den {
        q + 1
    } else if q_sh % 2 == 0 {
        q
    } else {
        q + 1
    };
    proof {
        lemma_mod_bound(q_sh as int, 2);
        lemma_mod_multiples_vanish(0x4000_0000, qi, 2);
        assert(2 * 0x4000_0000 + qi == q_sh as int);
        assert(q_sh as int % 2 == qi % 2);
        assert(rounded == round_half_even(num as int, den as int));
        assert((qi + 1) * den == qi * den + den) by (nonlinear_arith);
        assert(qi * den == (den as int) * qi) by (nonlinear_arith);
    }
    let err_raw: i128 = rounded * den - num;
    let err: i128 = if err_raw < 0 {
        -err_raw
    } else {
        err_raw
    };
    (rounded, err)
}

/// Compute interpolated point number `i` of the line from `a` to `b`
/// with `n` steps, in exact scaled-integer arithmetic.
fn line_point_at(a: CubeCoord, b: CubeCoord, i: i32, n: i32) -> (p: CubeCoord)
    requires
        1 <= n,
        0 <= i <= n,
        a@.wf(),
        b@.wf(),
        in_line_range(a@),
        in_line_range(b@),
    ensures
        p@ == line_point(a@, b@, i as int, n as int),
        p@.wf(),
{
    let nn: i128 = n as i128;
    let ii: i128 = i as i128;
    let den: i128 = nn * 1000000;
    let aq: i128 = a.q as i128;
    let ar: i128 = a.r as i128;
    let az: i128 = a.s as i128;
    let bq: i128 = b.q as i128;
    let br: i128 = b.r as i128;
    let bz: i128 = b.s as i128;
    proof {
        lemma_axis_num_bound(aq as int, bq as int, ii as int, nn as int);
        lemma_axis_num_bound(ar as int, br as int, ii as int, nn as int);
        lemma_axis_num_bound(az as int, bz as int, ii as int, nn as int);
    }
    let num_q: i128 = (aq * nn + (bq - aq) * ii) * 1000000 + 1 * ii;
    let num_r: i128 = (ar * nn + (br - ar) * ii) * 1000000 + 2 * ii;
    let num_s: i128 = (az * nn + (bz - az) * ii) * 1000000 - 3 * ii;
    let (q0, qd) = round_axis(num_q, den);
    let (r0, rd) = round_axis(num_r, den);
    let (s0, sd) = round_axis(num_s, den);
    proof {
        assert(num_q + num_r + num_s == 0) by (nonlinear_arith)
            requires
                aq + ar + az == 0,
                bq + br + bz == 0,
                num_q as int == (aq * nn + (bq - aq) * ii) * 1000000 + 1 * ii,
                num_r as int == (ar * nn + (br - ar) * ii) * 1000000 + 2 * ii,
                num_s as int == (az * nn + (bz - az) * ii) * 1000000 - 3 * ii,
        ;
        lemma_rounded_bound(num_q as int, den as int, q0 as int, 1);
        lemma_rounded_bound(num_r as int, den as int, r0 as int, 1);
        lemma_rounded_bound(num_s as int, den as int, s0 as int, 1);
    }
    if qd > rd && qd > sd {
        proof {
            assert((-(r0 as int) - s0 as int) * den == -(r0 as int * den) - s0 as int * den)
                by (nonlinear_arith);
            lemma_rounded_bound(num_q as int, den as int, -(r0 as int) - s0 as int, 2);
        }
        let p = CubeCoord { q: (-r0 - s0) as i32, r: r0 as i32, s: s0 as i32 };
        proof {
            assert(p@ == line_point(a@, b@, i as int, n as int));
        }
        p
    } else if rd > sd {
        proof {
            assert((-(q0 as int) - s0 as int) * den == -(q0 as int * den) - s0 as int * den)
                by (nonlinear_arith);
            lemma_rounded_bound(num_r as int, den as int, -(q0 as int) - s0 as int, 2);
        }
        let p = CubeCoord { q: q0 as i32, r: (-q0 - s0) as i32, s: s0 as i32 };
        proof {
            assert(p@ == line_point(a@, b@, i as int, n as int));
        }
        p
    } else {
        proof {
            assert((-(q0 as int) - r0 as int) * den == -(q0 as int * den) - r0 as int * den)
                by (nonlinear_arith);
            lemma_rounded_bound(num_s as int, den as int, -(q0 as int) - r0 as int, 2);
        }
        let p = CubeCoord { q: q0 as i32, r: r0 as i32, s: (-q0 - r0) as i32 };
        proof {
            assert(p@ == line_point(a@, b@, i as int, n as int));
        }
        p
    }
}

/// The interpolated numerator of an axis stays within the bound that
/// `round_axis` asks of its inputs whenever both endpoints respect the
/// axis limit.
proof fn lemma_axis_num_bound(a0: int, b0: int, i: int, n: int)
    requires
        1 <= n <= 0x8000_0000,
        0 <= i <= n,
        -(AXIS_LIMIT as int) <= a0 <= AXIS_LIMIT as int,
        -(AXIS_LIMIT as int) <= b0 <= AXIS_LIMIT as int,
    ensures
        -0x4000_0000_0000_0000 <= a0 * n <= 0x4000_0000_0000_0000,
        -0x1_0000_0000_0000_0000 <= (b0 - a0) * i <= 0x1_0000_0000_0000_0000,
        -0x4000_0000 * (n * (SCALE as int)) <= (a0 * n + (b0 - a0) * i) * (SCALE as int) - 3 * i,
        (a0 * n + (b0 - a0) * i) * (SCALE as int) + 3 * i <= 0x4000_0000 * (n * (SCALE as int)),
        -0x2000_0000_0000_0000_0000_0000 <= (a0 * n + (b0 - a0) * i) * (SCALE as int)
            <= 0x2000_0000_0000_0000_0000_0000,
        1 <= n * (SCALE as int) <= 0x4000_0000_0000_0000,
        0 <= 3 * i < n * (SCALE as int),
{
    let lim = AXIS_LIMIT as int;
    let sc = SCALE as int;
    let m = a0 * n + (b0 - a0) * i;
    assert(-0x4000_0000_0000_0000 <= a0 * n <= 0x4000_0000_0000_0000) by (nonlinear_arith)
        requires
            -lim <= a0 <= lim,
            1 <= n <= 0x8000_0000,
            lim == 0x3FFF_FFFF,
    ;
    assert(-0x1_0000_0000_0000_0000 <= (b0 - a0) * i <= 0x1_0000_0000_0000_0000)
        by (nonlinear_arith)
        requires
            -lim <= a0 <= lim,
            -lim <= b0 <= lim,
            0 <= i <= 0x8000_0000,
            lim == 0x3FFF_FFFF,
    ;
    assert(-lim * n <= m <= lim * n) by (nonlinear_arith)
        requires
            m == a0 * n + (b0 - a0) * i,
            -lim <= a0 <= lim,
            -lim <= b0 <= lim,
            0 <= i <= n,
    ;
    assert(1 <= n * sc <= 0x4000_0000_0000_0000 && 0 <= 3 * i < n * sc) by (nonlinear_arith)
        requires
            sc == 1000000,
            1 <= n <= 0x8000_0000,
            0 <= i <= n,
    ;
    assert((-lim * n) * sc <= m * sc <= (lim * n) * sc) by (nonlinear_arith)
        requires
            -lim * n <= m <= lim * n,
            sc == 1000000,
    ;
    assert((lim * n) * sc == lim * (n * sc) && (-lim * n) * sc == -lim * (n * sc))
        by (nonlinear_arith);
    assert(lim * (n * sc) + n * sc == 0x4000_0000 * (n * sc) && -lim * (n * sc) - n * sc
        == -0x4000_0000 * (n * sc)) by (nonlinear_arith)
        requires
            lim == 0x3FFF_FFFF,
    ;
    assert(lim * (n * sc) <= 0x2000_0000_0000_0000_0000_0000 && -lim * (n * sc)
        >= -0x2000_0000_0000_0000_0000_0000) by (nonlinear_arith)
        requires
            lim == 0x3FFF_FFFF,
            0 <= n * sc <= 0x4000_0000_0000_0000,
    ;
}

/// A value whose scaled distance from a bounded numerator is at most `k`
/// denominators is itself bounded.
proof fn lemma_rounded_bound(num: int, den: int, v: int, k: int)
    requires
        1 <= den,
        0 <= k <= 2,
        -0x4000_0000 * den <= num <= 0x4000_0000 * den,
        -k * den <= v * den - num <= k * den,
    ensures
        -0x4000_0003 <= v <= 0x4000_0003,
{
    assert(-0x4000_0003 <= v <= 0x4000_0003) by (nonlinear_arith)
        requires
            1 <= den,
            0 <= k <= 2,
            -0x4000_0000 * den <= num <= 0x4000_0000 * den,
            -k * den <= v * den - num <= k * den,
    ;
}

/// Explicit-state generator over the discretized hex line between two
/// coordinates, inclusive of both endpoints.
pub struct HexLineDrawIter {
    start: CubeCoord,
    end: CubeCoord,
    distance: i32,
    next_i: i32,
}

impl HexLineDrawIter {
    /// The generator's state is consistent: the endpoints are well
    /// formed and within the axis limit, the stored distance is theirs,
    /// and the cursor is at most one past the last point.
    pub closed spec fn wf(self) -> bool {
        &&& self.start@.wf()
        &&& self.end@.wf()
        &&& in_line_range(self.start@)
        &&& in_line_range(self.end@)
        &&& self.distance == self.start@.dist(self.end@)
        &&& 0 <= self.next_i <= self.distance + 1
    }

    /// The coordinates the generator has yet to emit.
    pub closed spec fn remaining(self) -> Seq<Cube> {
        line_seq(self.start@, self.end@, self.distance as int).subrange(
            self.next_i as int,
            self.distance as int + 1,
        )
    }

    /// A fresh generator over the line from `start` to `end`.
    pub fn new(start: CubeCoord, end: CubeCoord) -> (it: HexLineDrawIter)
        requires
            start@.wf(),
            end@.wf(),
            in_line_range(start@),
            in_line_range(end@),
        ensures
            it.wf(),
            it.remaining() == line_seq(start@, end@, start@.dist(end@)),
    {
        let distance = start.dist(end);
        let it = HexLineDrawIter { start, end, distance, next_i: 0 };
        proof {
            assert(it.remaining() =~= line_seq(start@, end@, start@.dist(end@)));
        }
        it
    }

    /// Emit the next coordinate of the line, or `None` when exhausted.
    pub fn next(&mut self) -> (item: Option<CubeCoord>)
        requires
            old(self).wf(),
        ensures
            final(self).wf(),
            old(self).remaining().len() == 0 ==> item.is_none() && final(self).remaining().len()
                == 0,
            old(self).remaining().len() > 0 ==> item.is_some()
                && item.unwrap()@ == old(self).remaining().first() && final(self).remaining()
                == old(self).remaining().drop_first(),
    {
        if self.next_i > self.distance {
            return None;
        }
        let p = if self.distance == 0 {
            self.start
        } else {
            line_point_at(self.start, self.end, self.next_i, self.distance)
        };
        let ghost old_self = *self;
        self.next_i = self.next_i + 1;
        proof {
            assert(old_self.remaining().first() == line_seq(old_self.start@, old_self.end@,
                old_self.distance as int)[old_self.next_i as int]);
            assert(final(self).remaining() =~= old_self.remaining().drop_first());
        }
        Some(p)
    }
}

impl CubeCoord {
    /// A generator over the discretized hex line from `self` to `other`,
    /// inclusive: `self.dist(other) + 1` points, interpolated in cube
    /// space and rounded back to the grid.
    pub fn linedraw(&self, other: CubeCoord) -> (it: HexLineDrawIter)
        requires
            self@.wf(),
            other@.wf(),
            in_line_range(self@),
            in_line_range(other@),
        ensures
            it.wf(),
            it.remaining() == line_seq(self@, other@, self@.dist(other@)),
    {
        HexLineDrawIter::new(*self, other)
    }
}

/// Rounding a value that is an exact multiple of the denominator returns
/// the multiplier, with no error.
pub proof fn lemma_round_exact(v: int, den: int)
    requires
        1 <= den,
    ensures
        round_half_even(v * den, den) == v,
        round_err(v * den, den) == 0,
{
    lemma_fundamental_div_mod_converse(v * den, den, v, 0);
}

/// Rounding a value standing `e` scaled units above a multiple of the
/// denominator, less than half a unit, returns the multiplier with error
/// `e`.
pub proof fn lemma_round_near_above(v: int, den: int, e: int)
    requires
        1 <= den,
        0 < 2 * e < den,
    ensures
        round_half_even(v * den + e, den) == v,
        round_err(v * den + e, den) == e,
{
    lemma_fundamental_div_mod_converse(v * den + e, den, v, e);
}

/// Rounding a value standing `e` scaled units below a multiple of the
/// denominator, less than half a unit, returns the multiplier with error
/// `e`.
pub proof fn lemma_round_near_below(v: int, den: int, e: int)
    requires
        1 <= den,
        0 < 2 * e < den,
    ensures
        round_half_even(v * den - e, den) == v,
        round_err(v * den - e, den) == e,
{
    assert((v - 1) * den == v * den - den) by (nonlinear_arith);
    lemma_fundamental_div_mod_converse(v * den - e, den, v - 1, den - e);
}

/// The first interpolated point of a line is its start.
pub proof fn lemma_line_point_first(a: Cube, b: Cube, n: int)
    requires
        1 <= n,
        a.wf(),
        b.wf(),
    ensures
        line_point(a, b, 0, n) == a,
{
    let sc = SCALE as int;
    let den = n * sc;
    assert(1 <= den) by (nonlinear_arith)
        requires
            1 <= n,
            sc == 1000000,
            den == n * sc,
    ;
    assert(line_num(a.q, b.q, EPS_Q as int, 0, n) == a.q * den && line_num(a.r, b.r,
        EPS_R as int, 0, n) == a.r * den && line_num(a.s, b.s, EPS_S as int, 0, n) == a.s * den)
        by (nonlinear_arith)
        requires
            den == n * sc,
            sc == SCALE as int,
    ;
    lemma_round_exact(a.q, den);
    lemma_round_exact(a.r, den);
    lemma_round_exact(a.s, den);
}

/// The last interpolated point of a line is its end: the epsilon offsets
/// are far too small to move it off the endpoint.
pub proof fn lemma_line_point_last(a: Cube, b: Cube, n: int)
    requires
        1 <= n,
        a.wf(),
        b.wf(),
    ensures
        line_point(a, b, n, n) == b,
{
    let sc = SCALE as int;
    let den = n * sc;
    assert(1 <= den && 0 < 2 * n < den && 0 < 2 * (2 * n) < den && 0 < 2 * (3 * n) < den)
        by (nonlinear_arith)
        requires
            1 <= n,
            sc == 1000000,
            den == n * sc,
    ;
    assert(line_num(a.q, b.q, EPS_Q as int, n, n) == b.q * den + n && line_num(a.r, b.r,
        EPS_R as int, n, n) == b.r * den + 2 * n && line_num(a.s, b.s, EPS_S as int, n, n) == b.s
        * den - 3 * n) by (nonlinear_arith)
        requires
            den == n * sc,
            sc == SCALE as int,
    ;
    lemma_round_near_above(b.q, den, n);
    lemma_round_near_above(b.r, den, 2 * n);
    lemma_round_near_below(b.s, den, 3 * n);
}

/// `linedraw(a, b)` emits exactly `a.dist(b) + 1` coordinates; the first
/// is `a` and the last is `b`.
pub proof fn lemma_line_seq_endpoints(a: Cube, b: Cube, n: int)
    requires
        a.wf(),
        b.wf(),
        n == a.dist(b),
    ensures
        line_seq(a, b, n).len() == n + 1,
        line_seq(a, b, n).first() == a,
        line_seq(a, b, n).last() == b,
{
    if n == 0 {
        lemma_dist_zero(a, b);
    } else {
        lemma_line_point_first(a, b, n);
        lemma_line_point_last(a, b, n);
    }
}

/// Every point of a line is well formed: the rounding reconstructs one
/// axis from the other two, so the zero-sum invariant holds exactly.
pub proof fn lemma_line_seq_wf(a: Cube, b: Cube, n: int, i: int)
    requires
        a.wf(),
        0 <= i < line_seq(a, b, n).len(),
    ensures
        line_seq(a, b, n)[i].wf(),
{
}

} // verus!
