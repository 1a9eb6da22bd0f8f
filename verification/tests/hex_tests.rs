use hexes::hex::{
    Axial, Cube, OffsetCoord, axial_round, axial_to_cube, cube_round, cube_to_axial,
    cube_to_offset, floor_div2, neighbor_delta, offset_to_cube, round_milli,
};
use hexes::map::HexPathNode;

#[test]
fn floor_div2_rounds_toward_negative_infinity() {
    assert_eq!(floor_div2(4), 2);
    assert_eq!(floor_div2(5), 2);
    assert_eq!(floor_div2(-1), -1);
    assert_eq!(floor_div2(-2), -1);
    assert_eq!(floor_div2(-3), -2);
    assert_eq!(floor_div2(0), 0);
}

#[test]
fn axial_cube_round_trip() {
    for &(q, r) in &[(0, 0), (10, 5), (-7, 3), (1, 2), (-12, -15)] {
        let a = Axial::new(q, r);
        let c = axial_to_cube(a);
        assert_eq!(c.x + c.y + c.z, 0);
        let back = cube_to_axial(c);
        assert_eq!(back, a);
    }
}

#[test]
fn offset_cube_round_trip() {
    for &(col, row) in &[(0, 0), (2, 2), (-5, 7), (15, -16), (-16, -16)] {
        let o = OffsetCoord { col, row };
        let c = offset_to_cube(o);
        assert_eq!(c.x + c.y + c.z, 0);
        let back = cube_to_offset(c);
        assert_eq!(back, o);
    }
}

#[test]
fn offset_convention_matches_odd_r() {
    // offset (2,2) lies at axial (1,2): col = q + floor(r/2).
    let c = offset_to_cube(OffsetCoord { col: 2, row: 2 });
    assert_eq!((c.x, c.z), (1, 2));
    // a negative odd row shoves the column the other way
    let c = offset_to_cube(OffsetCoord { col: 0, row: -3 });
    assert_eq!((c.x, c.z), (2, -3));
}

#[test]
fn round_milli_nearest_and_ties() {
    assert_eq!(round_milli(1499), 1);
    assert_eq!(round_milli(1500), 2);
    assert_eq!(round_milli(-1499), -1);
    assert_eq!(round_milli(-1500), -2);
    assert_eq!(round_milli(0), 0);
    assert_eq!(round_milli(999), 1);
}

#[test]
fn cube_round_zero_sum_and_exact() {
    // A clean interior point rounds to its own hex.
    let c = cube_round(1200, -3100, 1900);
    assert_eq!(c.x + c.y + c.z, 0);
    assert_eq!((c.x, c.y, c.z), (1, -3, 2));
    // Near a boundary the worst-deviating axis is recomputed.
    let c = cube_round(1499, -2999, 1500);
    assert_eq!(c.x + c.y + c.z, 0);
    // rounded: (1, -3, 2) sums to 0 already
    assert_eq!((c.x, c.y, c.z), (1, -3, 2));
    // A point whose three roundings do not sum to zero.
    let c = cube_round(500, 500, -1000);
    assert_eq!(c.x + c.y + c.z, 0);
}

#[test]
fn axial_round_snaps_to_containing_hex() {
    assert_eq!(axial_round(0, 0), Axial::new(0, 0));
    assert_eq!(axial_round(1100, 1900), Axial::new(1, 2));
    assert_eq!(axial_round(-2400, 900), Axial::new(-2, 1));
    let a = axial_round(10_050, 4_950);
    assert_eq!(a, Axial::new(10, 5));
}

#[test]
fn neighbor_enumeration_order_is_canonical() {
    let expected = [(0, -1), (1, -1), (1, 0), (0, 1), (-1, 1), (-1, 0)];
    for (i, &d) in expected.iter().enumerate() {
        assert_eq!(neighbor_delta(i), d);
    }
}

#[test]
fn from_hexes_gives_direction_back_toward_start() {
    let t = Axial::new(3, 4);
    // neighbor below-right of t discovered from t points back up-left
    let n = Axial::new(3, 5);
    assert_eq!(HexPathNode::from_hexes(t, n), HexPathNode::TopLeft);
    let n = Axial::new(2, 5);
    assert_eq!(HexPathNode::from_hexes(t, n), HexPathNode::TopRight);
    let n = Axial::new(2, 4);
    assert_eq!(HexPathNode::from_hexes(t, n), HexPathNode::Right);
    let n = Axial::new(3, 3);
    assert_eq!(HexPathNode::from_hexes(t, n), HexPathNode::BottomRight);
    let n = Axial::new(4, 3);
    assert_eq!(HexPathNode::from_hexes(t, n), HexPathNode::BottomLeft);
    let n = Axial::new(4, 4);
    assert_eq!(HexPathNode::from_hexes(t, n), HexPathNode::Left);
    assert_eq!(HexPathNode::from_hexes(t, t), HexPathNode::Goal);
}

#[test]
fn to_hexes_inverts_from_hexes() {
    let dirs = [
        HexPathNode::TopLeft,
        HexPathNode::TopRight,
        HexPathNode::Right,
        HexPathNode::BottomRight,
        HexPathNode::BottomLeft,
        HexPathNode::Left,
    ];
    let t = Axial::new(0, 0);
    for &d in &dirs {
        let delta = d.to_hexes();
        // start = t + delta discovered from end = t
        let start = Axial::new(t.q + delta.q, t.r + delta.r);
        assert_eq!(HexPathNode::from_hexes(start, t), d);
    }
    assert_eq!(HexPathNode::Goal.to_hexes(), Axial::new(0, 0));
}
