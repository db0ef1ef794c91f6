use hexgrid::cube::CubeCoord;

fn cc(q: i32, r: i32, s: i32) -> CubeCoord {
    CubeCoord { q, r, s }
}

#[test]
fn test_add() {
    let cases = [
        (cc(1, 2, -3), cc(1, 2, -3), cc(2, 4, -6)),
        (cc(0, 0, 0), cc(0, 0, 0), cc(0, 0, 0)),
        (cc(1, 2, -3), cc(-1, -2, 3), cc(0, 0, 0)),
    ];
    for (left, right, expected) in cases {
        assert_eq!(left.add(right), expected);
    }
}

#[test]
fn test_add_assign() {
    let cases = [
        (cc(1, 2, -3), cc(1, 2, -3), cc(2, 4, -6)),
        (cc(0, 0, 0), cc(0, 0, 0), cc(0, 0, 0)),
        (cc(1, 2, -3), cc(-1, -2, 3), cc(0, 0, 0)),
    ];
    for (left, right, expected) in cases {
        let mut result = left.clone();
        result.add_assign(right);
        assert_eq!(result, expected);
    }
}

#[test]
fn test_subtract() {
    let cases = [
        (cc(1, 2, -3), cc(1, 2, -3), cc(0, 0, 0)),
        (cc(0, 0, 0), cc(0, 0, 0), cc(0, 0, 0)),
        (cc(1, 2, -3), cc(-1, -2, 3), cc(2, 4, -6)),
    ];
    for (left, right, expected) in cases {
        assert_eq!(left.sub(right), expected);
    }
}

#[test]
fn test_multiply() {
    let cases = [
        (cc(1, 2, -3), 0, cc(0, 0, 0)),
        (cc(0, 0, 0), 100, cc(0, 0, 0)),
        (cc(1, 2, -3), 2, cc(2, 4, -6)),
    ];
    for (left, right, expected) in cases {
        assert_eq!(left.mul(right), expected);
    }
}

#[test]
fn test_neighbors() {
    assert_eq!(
        cc(1, 2, -3).neighbors(),
        vec![
            cc(2, 2, -4),
            cc(2, 1, -3),
            cc(1, 1, -2),
            cc(0, 2, -2),
            cc(0, 3, -3),
            cc(1, 3, -4),
        ]
    );
}

#[test]
fn test_diagonals() {
    assert_eq!(
        cc(1, 2, -3).diagonals(),
        vec![
            cc(3, 1, -4),
            cc(2, 0, -2),
            cc(0, 1, -1),
            cc(-1, 3, -2),
            cc(0, 4, -4),
            cc(2, 3, -5),
        ]
    );
}

#[test]
fn test_abs() {
    let cases = [(cc(0, 0, 0), 0), (cc(1, -1, 0), 1), (cc(1, -3, 2), 3)];
    for (hex, expected) in cases {
        assert_eq!(hex.abs(), expected);
    }
}

#[test]
fn test_distance() {
    let cases = [
        (cc(0, 0, 0), cc(0, 0, 0), 0),
        (cc(1, -1, 0), cc(2, -1, 1), 1),
        (cc(1, -3, 2), cc(2, 2, -4), 6),
    ];
    for (left, right, expected) in cases {
        assert_eq!(left.dist(right), expected);
        assert_eq!(right.dist(left), expected);
    }
}

#[test]
fn test_add_sub_inverse() {
    let values = [
        cc(0, 0, 0),
        cc(1, 2, -3),
        cc(-7, 11, -4),
        cc(100, -5, -95),
        cc(-40, -2, 42),
    ];
    for a in values {
        for b in values {
            assert_eq!(a.add(b).sub(b), a);
        }
    }
}

#[test]
fn test_zero_sum_preserved() {
    let values = [cc(0, 0, 0), cc(1, 2, -3), cc(-7, 11, -4), cc(100, -5, -95)];
    for a in values {
        for b in values {
            let sum = a.add(b);
            assert_eq!(sum.q + sum.r + sum.s, 0);
            let diff = a.sub(b);
            assert_eq!(diff.q + diff.r + diff.s, 0);
        }
        let scaled = a.mul(17);
        assert_eq!(scaled.q + scaled.r + scaled.s, 0);
    }
}

#[test]
fn test_neighbors_distinct_at_distance_one() {
    for center in [cc(0, 0, 0), cc(1, 2, -3), cc(100, -5, -95)] {
        let ns = center.neighbors();
        assert_eq!(ns.len(), 6);
        for (i, n) in ns.iter().enumerate() {
            assert_eq!(n.q + n.r + n.s, 0);
            assert_eq!(center.dist(*n), 1);
            for m in ns.iter().skip(i + 1) {
                assert_ne!(n, m);
            }
        }
    }
}

#[test]
fn test_diagonals_distinct_at_distance_two() {
    for center in [cc(0, 0, 0), cc(1, 2, -3), cc(100, -5, -95)] {
        let ds = center.diagonals();
        assert_eq!(ds.len(), 6);
        for (i, d) in ds.iter().enumerate() {
            assert_eq!(d.q + d.r + d.s, 0);
            assert_eq!(center.dist(*d), 2);
            for e in ds.iter().skip(i + 1) {
                assert_ne!(d, e);
            }
        }
    }
}
