use std::collections::HashSet;

use hexgrid::cube::CubeCoord;
use hexgrid::hex::{
    diagonals, hex_add, hex_distance, hex_eq, hex_sub, hexes_in_range, linedraw, neighbors,
    ring_path, spiral_path, Hex,
};

fn hx(q: i32, r: i32) -> Hex {
    Hex { q, r }
}

#[test]
fn test_hex_eq() {
    assert!(hex_eq(hx(1, 2), hx(1, 2)));
    assert!(!hex_eq(hx(1, 2), hx(2, 1)));
}

#[test]
fn test_hex_add() {
    assert_eq!(hex_add(hx(1, 2), hx(3, 4)), hx(4, 6));
    assert_eq!(hex_add(hx(-5, 0), hx(5, 0)), hx(0, 0));
}

#[test]
fn test_hex_sub() {
    assert_eq!(hex_sub(hx(4, 6), hx(3, 4)), hx(1, 2));
    assert_eq!(hex_sub(hx(1, 2), hx(1, 2)), hx(0, 0));
}

#[test]
fn test_hex_distance() {
    assert_eq!(hex_distance(hx(1, 2), hx(3, -4)), 6);
    assert_eq!(hex_distance(hx(3, -4), hx(1, 2)), 6);
    assert_eq!(hex_distance(hx(7, -7), hx(7, -7)), 0);
}

#[test]
fn test_hex_round_trip() {
    let values = [
        hx(0, 0),
        hx(1, 2),
        hx(-3, 1),
        hx(100, -5),
        hx(-40, -2),
        hx(12345, -54321),
    ];
    for h in values {
        let cube = h.to_cube();
        assert_eq!(cube.q + cube.r + cube.s, 0);
        assert_eq!(Hex::from_cube(cube), h);
    }
}

#[test]
fn test_cube_round_trip() {
    let values = [
        CubeCoord { q: 0, r: 0, s: 0 },
        CubeCoord { q: 1, r: 2, s: -3 },
        CubeCoord { q: 100, r: -5, s: -95 },
    ];
    for c in values {
        assert_eq!(Hex::from_cube(c).to_cube(), c);
    }
}

#[test]
fn test_hex_neighbors() {
    assert_eq!(
        neighbors(hx(1, 2)),
        vec![hx(2, 2), hx(2, 1), hx(1, 1), hx(0, 2), hx(0, 3), hx(1, 3)]
    );
}

#[test]
fn test_hex_diagonals() {
    assert_eq!(
        diagonals(hx(1, 2)),
        vec![hx(3, 1), hx(2, 0), hx(0, 1), hx(-1, 3), hx(0, 4), hx(2, 3)]
    );
}

#[test]
fn test_hex_linedraw() {
    assert_eq!(
        linedraw(hx(-3, 0), hx(3, -3)),
        vec![hx(-3, 0), hx(-2, 0), hx(-1, -1), hx(0, -1), hx(1, -2), hx(2, -2), hx(3, -3)]
    );
}

#[test]
fn test_hexes_in_range_first_and_count() {
    let v = hexes_in_range(hx(-3, 1), 2);
    assert_eq!(v.len(), 19);
    assert_eq!(v[0], hx(-5, 1));
    let set = v.iter().collect::<HashSet<_>>();
    assert_eq!(set.len(), 19);
    for h in &v {
        assert!(hex_distance(hx(-3, 1), *h) <= 2);
    }
}

#[test]
fn test_ring_path_first_and_count() {
    let v = ring_path(hx(-3, 1), 2);
    assert_eq!(v.len(), 12);
    assert_eq!(v[0], hx(-5, 3));
    for h in &v {
        assert_eq!(hex_distance(hx(-3, 1), *h), 2);
    }
    assert_eq!(ring_path(hx(-3, 1), 0), vec![hx(-3, 1)]);
}

#[test]
fn test_spiral_path_first_and_count() {
    let v = spiral_path(hx(-3, 1), 2);
    assert_eq!(v.len(), 19);
    assert_eq!(v[0], hx(-3, 1));
    let as_set = v.iter().collect::<HashSet<_>>();
    let range_set = hexes_in_range(hx(-3, 1), 2);
    let range_set = range_set.iter().collect::<HashSet<_>>();
    assert_eq!(as_set, range_set);
}
