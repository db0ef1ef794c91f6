//! Differential check of the exact fixed-point line drawing against a
//! straightforward floating-point rendition of the same algorithm:
//! interpolate in cube space toward an epsilon-offset endpoint, round
//! each axis to nearest (ties to even), then rebuild the axis with the
//! largest rounding error from the other two.

use hexgrid::cube::CubeCoord;

fn cc(q: i32, r: i32, s: i32) -> CubeCoord {
    CubeCoord { q, r, s }
}

fn collect_line(a: CubeCoord, b: CubeCoord) -> Vec<CubeCoord> {
    let mut it = a.linedraw(b);
    let mut v = Vec::new();
    while let Some(c) = it.next() {
        v.push(c);
    }
    v
}

fn float_round(q: f64, r: f64, s: f64) -> CubeCoord {
    let mut qi = q.round_ties_even() as i32;
    let mut ri = r.round_ties_even() as i32;
    let mut si = s.round_ties_even() as i32;

    let q_diff = (qi as f64 - q).abs();
    let r_diff = (ri as f64 - r).abs();
    let s_diff = (si as f64 - s).abs();

    if (q_diff > r_diff) && (q_diff > s_diff) {
        qi = -ri - si;
    } else if r_diff > s_diff {
        ri = -qi - si;
    } else {
        si = -qi - ri;
    }
    cc(qi, ri, si)
}

fn float_line(a: CubeCoord, b: CubeCoord) -> Vec<CubeCoord> {
    let n = a.dist(b);
    if n == 0 {
        return vec![a];
    }
    let (eq, er, es) = (1e-6, 2e-6, -3e-6);
    let (bq, br, bs) = (b.q as f64 + eq, b.r as f64 + er, b.s as f64 + es);
    let mut v = Vec::new();
    for i in 0..=n {
        let t = (i as f64) / (n as f64);
        let q = a.q as f64 + (bq - a.q as f64) * t;
        let r = a.r as f64 + (br - a.r as f64) * t;
        let s = a.s as f64 + (bs - a.s as f64) * t;
        v.push(float_round(q, r, s));
    }
    v
}

#[test]
fn test_linedraw_matches_float_reference() {
    let mut disk = Vec::new();
    for q in -4..=4i32 {
        for r in (-4i32).max(-q - 4)..=(4i32).min(-q + 4) {
            disk.push(cc(q, r, -q - r));
        }
    }
    for &a in &disk {
        for &b in &disk {
            assert_eq!(collect_line(a, b), float_line(a, b), "line {:?} -> {:?}", a, b);
        }
    }
}

#[test]
fn test_linedraw_matches_float_reference_far_from_origin() {
    let shift = cc(1000, -2500, 1500);
    let ends = [
        cc(0, 0, 0),
        cc(7, -3, -4),
        cc(-6, 6, 0),
        cc(-2, -3, 5),
        cc(9, 0, -9),
        cc(1, -8, 7),
    ];
    for &a in &ends {
        for &b in &ends {
            let sa = a.add(shift);
            let sb = b.add(shift);
            assert_eq!(collect_line(sa, sb), float_line(sa, sb), "line {:?} -> {:?}", sa, sb);
        }
    }
}

#[test]
fn test_linedraw_never_skips_dense_sweep() {
    let mut disk = Vec::new();
    for q in -5..=5i32 {
        for r in (-5i32).max(-q - 5)..=(5i32).min(-q + 5) {
            disk.push(cc(q, r, -q - r));
        }
    }
    let origin_far = cc(-17, 40, -23);
    for &a in &disk {
        for &b in &disk {
            for (x, y) in [(a, b), (a.add(origin_far), b.add(origin_far))] {
                let line = collect_line(x, y);
                assert_eq!(line.len() as i32, x.dist(y) + 1);
                assert_eq!(*line.first().unwrap(), x);
                assert_eq!(*line.last().unwrap(), y);
                for w in line.windows(2) {
                    assert!(w[0].dist(w[1]) <= 1);
                }
            }
        }
    }
}
