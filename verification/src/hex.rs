use vstd::prelude::*;

verus! {

/// Axial hex coordinate: column axis `q`, diagonal row axis `r`.
///
/// All tile addressing in the library uses axial coordinates; offset and
/// cube coordinates are derived views of the same hex.
#[derive(Clone, Copy, Debug, PartialEq, Eq, Structural)]
pub struct Axial {
    pub q: i32,
    pub r: i32,
}

/// Cube hex coordinate; a valid one satisfies `x + y + z == 0`.
#[derive(Clone, Copy, Debug, PartialEq, Eq, Structural)]
pub struct Cube {
    pub x: i64,
    pub y: i64,
    pub z: i64,
}

/// Offset hex coordinate under the odd-r convention: `col` is the
/// horizontal position of the hex within its (shoved) row `row`.
#[derive(Clone, Copy, Debug, PartialEq, Eq, Structural)]
pub struct OffsetCoord {
    pub col: i64,
    pub row: i64,
}

impl Axial {
    pub fn new(q: i32, r: i32) -> (a: Axial)
        ensures
            a == (Axial { q, r }),
    {
        Axial { q, r }
    }
}

impl Cube {
    /// The zero-sum invariant of cube coordinates.
    pub open spec fn zero_sum(self) -> bool {
        self.x + self.y + self.z == 0
    }
}

/// Floor division by two (rounds toward negative infinity), as spec-level
/// integer division by a positive divisor does.
pub fn floor_div2(v: i64) -> (d: i64)
    requires
        i64::MIN < v,
    ensures
        d == v as int / 2,
{
    if v >= 0 {
        v / 2
    } else {
        (v - 1) / 2
    }
}

/// Axial to cube: `x = q`, `z = r`, `y = -x - z`.
pub open spec fn spec_axial_to_cube(a: Axial) -> Cube {
    Cube { x: a.q as int as i64, y: (-(a.q + a.r)) as i64, z: a.r as int as i64 }
}

pub fn axial_to_cube(a: Axial) -> (c: Cube)
    ensures
        c == spec_axial_to_cube(a),
        c.zero_sum(),
        c.x == a.q,
        c.z == a.r,
{
    Cube { x: a.q as i64, y: -(a.q as i64) - (a.r as i64), z: a.r as i64 }
}

/// Cube to axial drops the redundant `y` axis.
pub open spec fn spec_cube_to_axial(c: Cube) -> Axial {
    Axial { q: c.x as i32, r: c.z as i32 }
}

pub fn cube_to_axial(c: Cube) -> (a: Axial)
    requires
        i32::MIN <= c.x <= i32::MAX,
        i32::MIN <= c.z <= i32::MAX,
    ensures
        a == spec_cube_to_axial(c),
        a.q == c.x,
        a.r == c.z,
{
    Axial { q: c.x as i32, r: c.z as i32 }
}

/// Cube to odd-r offset: `col = x + (z - (z & 1)) / 2` (floor halving),
/// `row = z`.
pub open spec fn spec_cube_to_offset(c: Cube) -> OffsetCoord {
    OffsetCoord { col: (c.x + c.z as int / 2) as i64, row: c.z }
}

pub fn cube_to_offset(c: Cube) -> (o: OffsetCoord)
    requires
        -0x2000_0000_0000_0000 < c.x < 0x2000_0000_0000_0000,
        -0x2000_0000_0000_0000 < c.z < 0x2000_0000_0000_0000,
    ensures
        o == spec_cube_to_offset(c),
        o.col == c.x + c.z as int / 2,
        o.row == c.z,
{
    OffsetCoord { col: c.x + floor_div2(c.z), row: c.z }
}

/// Odd-r offset to cube, the inverse of `spec_cube_to_offset`.
pub open spec fn spec_offset_to_cube(o: OffsetCoord) -> Cube {
    let x = o.col - o.row as int / 2;
    Cube { x: x as i64, y: (-x - o.row) as i64, z: o.row }
}

pub fn offset_to_cube(o: OffsetCoord) -> (c: Cube)
    requires
        -0x2000_0000_0000_0000 < o.col < 0x2000_0000_0000_0000,
        -0x2000_0000_0000_0000 < o.row < 0x2000_0000_0000_0000,
    ensures
        c == spec_offset_to_cube(o),
        c.zero_sum(),
{
    let x = o.col - floor_div2(o.row);
    Cube { x, y: -x - o.row, z: o.row }
}

/// Offset round trip: converting an offset coordinate to cube and back
/// yields the same coordinate.
pub proof fn lemma_offset_cube_round_trip(o: OffsetCoord)
    requires
        -0x2000_0000_0000_0000 < o.col < 0x2000_0000_0000_0000,
        -0x2000_0000_0000_0000 < o.row < 0x2000_0000_0000_0000,
    ensures
        spec_cube_to_offset(spec_offset_to_cube(o)) == o,
{
}

/// Cube round trip: converting a zero-sum cube coordinate to offset and
/// back yields the same coordinate.
pub proof fn lemma_cube_offset_round_trip(c: Cube)
    requires
        c.zero_sum(),
        -0x2000_0000_0000_0000 < c.x < 0x2000_0000_0000_0000,
        -0x2000_0000_0000_0000 < c.z < 0x2000_0000_0000_0000,
    ensures
        spec_offset_to_cube(spec_cube_to_offset(c)) == c,
{
}

/// The canonical enumeration order of the six axial neighbor offsets.
/// Every neighbor walk in the library uses this order, so flow-field
/// results are reproducible.
pub open spec fn spec_neighbor_delta(i: int) -> (int, int) {
    if i == 0 {
        (0, -1)
    } else if i == 1 {
        (1, -1)
    } else if i == 2 {
        (1, 0)
    } else if i == 3 {
        (0, 1)
    } else if i == 4 {
        (-1, 1)
    } else {
        (-1, 0)
    }
}

/// Whether two hexes are adjacent: their axial difference is one of the
/// six neighbor offsets.
pub open spec fn spec_adjacent(a: Axial, b: Axial) -> bool {
    exists|i: int|
        0 <= i < 6 && b.q - a.q == #[trigger] spec_neighbor_delta(i).0 && b.r - a.r
            == spec_neighbor_delta(i).1
}

pub fn neighbor_delta(i: usize) -> (d: (i32, i32))
    requires
        i < 6,
    ensures
        d.0 == spec_neighbor_delta(i as int).0,
        d.1 == spec_neighbor_delta(i as int).1,
{
    if i == 0 {
        (0, -1)
    } else if i == 1 {
        (1, -1)
    } else if i == 2 {
        (1, 0)
    } else if i == 3 {
        (0, 1)
    } else if i == 4 {
        (-1, 1)
    } else {
        (-1, 0)
    }
}

/// Nearest integer to `v / 1000`, ties rounded away from zero.
pub open spec fn spec_round_milli(v: int) -> int {
    if v >= 0 {
        (v + 500) / 1000
    } else {
        -((-v + 500) / 1000)
    }
}

/// Absolute deviation of the rounded value from the fractional one, in
/// milli-units.
pub open spec fn spec_milli_dev(v: int) -> int {
    let r = 1000 * spec_round_milli(v);
    if r >= v {
        r - v
    } else {
        v - r
    }
}

/// Bound used by the fixed-point rounding entry points; fractional
/// coordinates (in milli-units) must stay below it so that the integer
/// arithmetic fits in 64 bits.
pub const MILLI_BOUND: i64 = 1_000_000_000_000_000;

fn abs_i64(v: i64) -> (r: i64)
    requires
        i64::MIN < v,
    ensures
        r == (if v >= 0 { v as int } else { -(v as int) }),
{
    if v >= 0 {
        v
    } else {
        -v
    }
}

pub fn round_milli(v: i64) -> (r: i64)
    requires
        -MILLI_BOUND <= v <= MILLI_BOUND,
    ensures
        r == spec_round_milli(v as int),
{
    if v >= 0 {
        (v + 500) / 1000
    } else {
        -((-v + 500) / 1000)
    }
}

/// Rounding a fractional (milli-unit) cube coordinate: round every axis
/// to its nearest integer, then recompute the axis whose rounding moved
/// farthest as the negated sum of the other two, restoring the zero-sum
/// invariant.  Ties go to the `z` axis first, then `y`, then `x`.
pub open spec fn spec_cube_round(fx: int, fy: int, fz: int) -> Cube {
    let rx = spec_round_milli(fx);
    let ry = spec_round_milli(fy);
    let rz = spec_round_milli(fz);
    let dx = spec_milli_dev(fx);
    let dy = spec_milli_dev(fy);
    let dz = spec_milli_dev(fz);
    if dx > dy && dx > dz {
        Cube { x: (-ry - rz) as i64, y: ry as i64, z: rz as i64 }
    } else if dy > dz {
        Cube { x: rx as i64, y: (-rx - rz) as i64, z: rz as i64 }
    } else {
        Cube { x: rx as i64, y: ry as i64, z: (-rx - ry) as i64 }
    }
}

/// Rounding always restores the zero-sum invariant of cube coordinates,
/// whatever the fractional input was.
pub proof fn lemma_cube_round_zero_sum(fx: int, fy: int, fz: int)
    requires
        -MILLI_BOUND <= fx <= MILLI_BOUND,
        -MILLI_BOUND <= fy <= MILLI_BOUND,
        -MILLI_BOUND <= fz <= MILLI_BOUND,
    ensures
        spec_cube_round(fx, fy, fz).zero_sum(),
{
}

/// When the three independently rounded axes already sum to zero, the
/// tie-break recomputation changes nothing.
pub proof fn lemma_cube_round_consistent(fx: int, fy: int, fz: int)
    requires
        -MILLI_BOUND <= fx <= MILLI_BOUND,
        -MILLI_BOUND <= fy <= MILLI_BOUND,
        -MILLI_BOUND <= fz <= MILLI_BOUND,
        spec_round_milli(fx) + spec_round_milli(fy) + spec_round_milli(fz) == 0,
    ensures
        spec_cube_round(fx, fy, fz).x == spec_round_milli(fx),
        spec_cube_round(fx, fy, fz).y == spec_round_milli(fy),
        spec_cube_round(fx, fy, fz).z == spec_round_milli(fz),
{
}

pub fn cube_round(fx: i64, fy: i64, fz: i64) -> (c: Cube)
    requires
        -MILLI_BOUND <= fx <= MILLI_BOUND,
        -MILLI_BOUND <= fy <= MILLI_BOUND,
        -MILLI_BOUND <= fz <= MILLI_BOUND,
    ensures
        c == spec_cube_round(fx as int, fy as int, fz as int),
        c.zero_sum(),
{
    let rx = round_milli(fx);
    let ry = round_milli(fy);
    let rz = round_milli(fz);
    let dx = abs_i64(1000 * rx - fx);
    let dy = abs_i64(1000 * ry - fy);
    let dz = abs_i64(1000 * rz - fz);
    if dx > dy && dx > dz {
        Cube { x: -ry - rz, y: ry, z: rz }
    } else if dy > dz {
        Cube { x: rx, y: -rx - rz, z: rz }
    } else {
        Cube { x: rx, y: ry, z: -rx - ry }
    }
}

/// Bound for the fractional axial coordinates that `axial_round`
/// accepts; it keeps every rounded cube axis within 32-bit range.
pub const AXIAL_MILLI_BOUND: i64 = 500_000_000_000;

/// Rounding a fractional axial coordinate (in milli-units): complete it
/// to a fractional cube coordinate and round that.
pub open spec fn spec_axial_round(fq: int, fr: int) -> Axial {
    spec_cube_to_axial(spec_cube_round(fq, -fq - fr, fr))
}

/// Snaps a fractional axial coordinate, such as an unprojected pixel
/// position, to the hex that contains it.
pub fn axial_round(fq: i64, fr: i64) -> (a: Axial)
    requires
        -AXIAL_MILLI_BOUND <= fq <= AXIAL_MILLI_BOUND,
        -AXIAL_MILLI_BOUND <= fr <= AXIAL_MILLI_BOUND,
    ensures
        a == spec_axial_round(fq as int, fr as int),
{
    let c = cube_round(fq, -fq - fr, fr);
    cube_to_axial(c)
}

/// Axial round trip with cube coordinates, in both directions.
pub proof fn lemma_axial_cube_round_trip(a: Axial, c: Cube)
    requires
        c.zero_sum(),
        i32::MIN <= c.x <= i32::MAX,
        i32::MIN <= c.z <= i32::MAX,
    ensures
        spec_cube_to_axial(spec_axial_to_cube(a)) == a,
        spec_axial_to_cube(spec_cube_to_axial(c)) == c,
{
}

} // verus!
