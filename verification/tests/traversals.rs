use std::collections::HashSet;

use hexgrid::cube::CubeCoord;
use hexgrid::line::HexLineDrawIter;
use hexgrid::range::HexRangeIter;
use hexgrid::ring::HexRingPathIter;
use hexgrid::spiral::HexSpiralPathIter;

fn cc(q: i32, r: i32, s: i32) -> CubeCoord {
    CubeCoord { q, r, s }
}

fn collect_line(mut it: HexLineDrawIter) -> Vec<CubeCoord> {
    let mut v = Vec::new();
    while let Some(c) = it.next() {
        v.push(c);
    }
    v
}

fn collect_range(mut it: HexRangeIter) -> Vec<CubeCoord> {
    let mut v = Vec::new();
    while let Some(c) = it.next() {
        v.push(c);
    }
    v
}

fn collect_ring(mut it: HexRingPathIter) -> Vec<CubeCoord> {
    let mut v = Vec::new();
    while let Some(c) = it.next() {
        v.push(c);
    }
    v
}

fn collect_spiral(mut it: HexSpiralPathIter) -> Vec<CubeCoord> {
    let mut v = Vec::new();
    while let Some(c) = it.next() {
        v.push(c);
    }
    v
}

#[test]
fn test_linedraw() {
    let cases = [
        (cc(0, 0, 0), cc(0, 0, 0), vec![cc(0, 0, 0)]),
        (
            cc(-3, 0, 3),
            cc(3, -3, 0),
            vec![
                cc(-3, 0, 3),
                cc(-2, 0, 2),
                cc(-1, -1, 2),
                cc(0, -1, 1),
                cc(1, -2, 1),
                cc(2, -2, 0),
                cc(3, -3, 0),
            ],
        ),
        (
            cc(-3, 0, 3),
            cc(0, 0, 0),
            vec![cc(-3, 0, 3), cc(-2, 0, 2), cc(-1, 0, 1), cc(0, 0, 0)],
        ),
    ];
    for (from, to, expected) in cases {
        let line = collect_line(from.linedraw(to));
        assert_eq!(line, expected);
    }
}

#[test]
fn test_linedraw_endpoints_and_steps() {
    let endpoints = [
        cc(0, 0, 0),
        cc(5, -2, -3),
        cc(-7, 3, 4),
        cc(11, -11, 0),
        cc(-1, -1, 2),
        cc(9, 4, -13),
        cc(100, -5, -95),
        cc(-63, 20, 43),
    ];
    for a in endpoints {
        for b in endpoints {
            let line = collect_line(a.linedraw(b));
            assert_eq!(line.len() as i32, a.dist(b) + 1);
            assert_eq!(*line.first().unwrap(), a);
            assert_eq!(*line.last().unwrap(), b);
            for p in &line {
                assert_eq!(p.q + p.r + p.s, 0);
            }
            for w in line.windows(2) {
                assert!(w[0].dist(w[1]) <= 1, "line skipped between {:?} and {:?}", w[0], w[1]);
            }
        }
    }
}

#[test]
fn test_linedraw_degenerate_nonzero_center() {
    let c = cc(5, 3, -8);
    assert_eq!(collect_line(c.linedraw(c)), vec![c]);
}

#[test]
fn test_range() {
    for center in [cc(0, 0, 0), cc(100, -5, -95)] {
        let dist = 2;
        let expected = [
            cc(0, 0, 0),
            cc(-1, 1, 0),
            cc(0, 1, -1),
            cc(1, 0, -1),
            cc(1, -1, 0),
            cc(0, -1, 1),
            cc(-1, 0, 1),
            cc(-2, 2, 0),
            cc(-1, 2, -1),
            cc(0, 2, -2),
            cc(1, 1, -2),
            cc(2, 0, -2),
            cc(2, -1, -1),
            cc(2, -2, 0),
            cc(1, -2, 1),
            cc(0, -2, 2),
            cc(-1, -1, 2),
            cc(-2, 0, 2),
            cc(-2, 1, 1),
        ]
        .iter()
        .map(|&coord| coord.add(center))
        .collect::<HashSet<_>>();

        let range_vec = collect_range(center.range(dist));
        assert_eq!(range_vec.len(), expected.len());

        let range = range_vec.into_iter().collect::<HashSet<_>>();
        assert_eq!(range, expected);
    }
}

#[test]
fn test_range_2() {
    // The range generator produces the same set as iteratively replacing
    // a set by all neighbors of its members, starting from the center.
    let cases = [(cc(0, 0, 0), 5), (cc(100, -5, -95), 5), (cc(100, -5, -95), 30)];
    for (center, dist) in cases {
        let mut expected = HashSet::from([center]);
        for _ in 0..dist {
            expected = expected.into_iter().flat_map(|t| t.neighbors()).collect();
        }

        let range = collect_range(center.range(dist)).into_iter().collect::<HashSet<_>>();
        assert_eq!(range, expected);
    }
}

#[test]
fn test_range_cardinality() {
    let center = cc(3, -9, 6);
    for dist in 0..8i32 {
        let v = collect_range(center.range(dist));
        assert_eq!(v.len() as i32, 3 * dist * (dist + 1) + 1);
        let set = v.iter().collect::<HashSet<_>>();
        assert_eq!(set.len(), v.len());
        for c in &v {
            assert!(center.dist(*c) <= dist);
            assert_eq!(c.q + c.r + c.s, 0);
        }
    }
}

#[test]
fn test_range_zero_is_center() {
    let center = cc(4, -1, -3);
    assert_eq!(collect_range(center.range(0)), vec![center]);
}

#[test]
fn test_ring() {
    for center in [cc(0, 0, 0), cc(100, -5, -95)] {
        let expected_0 = [cc(0, 0, 0)]
            .iter()
            .map(|&coord| coord.add(center))
            .collect::<HashSet<_>>();
        let expected_1 = [
            cc(1, -1, 0),
            cc(1, 0, -1),
            cc(-1, 1, 0),
            cc(-1, 0, 1),
            cc(0, -1, 1),
            cc(0, 1, -1),
        ]
        .iter()
        .map(|&coord| coord.add(center))
        .collect::<HashSet<_>>();
        let expected_2 = [
            cc(0, -2, 2),
            cc(1, -2, 1),
            cc(2, -2, 0),
            cc(-1, -1, 2),
            cc(2, -1, -1),
            cc(-2, 0, 2),
            cc(2, 0, -2),
            cc(-2, 1, 1),
            cc(1, 1, -2),
            cc(-2, 2, 0),
            cc(-1, 2, -1),
            cc(0, 2, -2),
        ]
        .iter()
        .map(|&coord| coord.add(center))
        .collect::<HashSet<_>>();

        let ring_vec_0 = collect_ring(center.ring(0));
        assert_eq!(ring_vec_0.len(), expected_0.len());
        let ring_0 = ring_vec_0.into_iter().collect::<HashSet<_>>();
        assert_eq!(ring_0, expected_0);

        let ring_vec_1 = collect_ring(center.ring(1));
        assert_eq!(ring_vec_1.len(), expected_1.len());
        let ring_1 = ring_vec_1.into_iter().collect::<HashSet<_>>();
        assert_eq!(ring_1, expected_1);

        let ring_vec_2 = collect_ring(center.ring(2));
        assert_eq!(ring_vec_2.len(), expected_2.len());
        let ring_2 = ring_vec_2.into_iter().collect::<HashSet<_>>();
        assert_eq!(ring_2, expected_2);
    }
}

#[test]
fn test_ring_perimeter_order() {
    let center = cc(-4, 7, -3);
    assert_eq!(collect_ring(center.ring(0)), vec![center]);
    for radius in 1..7i32 {
        let v = collect_ring(center.ring(radius));
        assert_eq!(v.len() as i32, 6 * radius);
        for c in &v {
            assert_eq!(center.dist(*c), radius);
            assert_eq!(c.q + c.r + c.s, 0);
        }
        for w in v.windows(2) {
            assert_eq!(w[0].dist(w[1]), 1);
        }
        assert_eq!(v.last().unwrap().dist(*v.first().unwrap()), 1);
    }
}

#[test]
fn test_spiral() {
    for center in [cc(0, 0, 0), cc(100, -5, -95)] {
        let expected_0 = [cc(0, 0, 0)]
            .iter()
            .map(|&coord| coord.add(center))
            .collect::<Vec<_>>();
        let expected_1 = [
            cc(0, 0, 0),
            cc(-1, 1, 0),
            cc(0, 1, -1),
            cc(1, 0, -1),
            cc(1, -1, 0),
            cc(0, -1, 1),
            cc(-1, 0, 1),
        ]
        .iter()
        .map(|&coord| coord.add(center))
        .collect::<Vec<_>>();
        let expected_2 = [
            cc(0, 0, 0),
            cc(-1, 1, 0),
            cc(0, 1, -1),
            cc(1, 0, -1),
            cc(1, -1, 0),
            cc(0, -1, 1),
            cc(-1, 0, 1),
            cc(-2, 2, 0),
            cc(-1, 2, -1),
            cc(0, 2, -2),
            cc(1, 1, -2),
            cc(2, 0, -2),
            cc(2, -1, -1),
            cc(2, -2, 0),
            cc(1, -2, 1),
            cc(0, -2, 2),
            cc(-1, -1, 2),
            cc(-2, 0, 2),
            cc(-2, 1, 1),
        ]
        .iter()
        .map(|&coord| coord.add(center))
        .collect::<Vec<_>>();

        assert_eq!(collect_spiral(center.spiral(0)), expected_0);
        assert_eq!(collect_spiral(center.spiral(1)), expected_1);
        assert_eq!(collect_spiral(center.spiral(2)), expected_2);
    }
}

#[test]
fn test_spiral_is_concatenation_of_rings() {
    let center = cc(6, -2, -4);
    for radius in 0..6i32 {
        let spiral = collect_spiral(center.spiral(radius));
        let mut rings = Vec::new();
        for r in 0..=radius {
            rings.extend(collect_ring(center.ring(r)));
        }
        assert_eq!(spiral, rings);
    }
}

#[test]
fn test_spiral_matches_range_as_set() {
    let center = cc(-10, 3, 7);
    for radius in 0..6i32 {
        let spiral = collect_spiral(center.spiral(radius));
        assert_eq!(spiral.len() as i32, 3 * radius * (radius + 1) + 1);
        let spiral_set = spiral.into_iter().collect::<HashSet<_>>();
        let range_set = collect_range(center.range(radius)).into_iter().collect::<HashSet<_>>();
        assert_eq!(spiral_set, range_set);
    }
}

#[test]
fn test_generators_are_reinvocable() {
    let center = cc(2, -2, 0);
    let first = collect_spiral(center.spiral(3));
    let second = collect_spiral(center.spiral(3));
    assert_eq!(first, second);
    let one = collect_line(center.linedraw(cc(5, -1, -4)));
    let two = collect_line(center.linedraw(cc(5, -1, -4)));
    assert_eq!(one, two);
}
