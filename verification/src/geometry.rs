//! Points, boxes and the octants of a box.

use crate::scalar::{greater_or_equal, less_than};
use vstd::prelude::*;

verus! {

/// A point in space; each coordinate is the bits of a binary64 number.
#[derive(Clone, Copy, Debug, PartialEq, Eq, Structural)]
pub struct Position {
    pub x: u64,
    pub y: u64,
    pub z: u64,
}

/// An axis-aligned box; its faces belong to it.
#[derive(Clone, Copy, Debug, PartialEq, Eq, Structural)]
pub struct Bounds {
    pub min: Position,
    pub max: Position,
}

/// Whether `p` is in `b`. A comparison with NaN excludes nothing.
pub open spec fn contains(b: Bounds, p: Position) -> bool {
    &&& !crate::scalar::less(b.max.x, p.x)
    &&& !crate::scalar::less(b.max.y, p.y)
    &&& !crate::scalar::less(b.max.z, p.z)
    &&& !crate::scalar::less(p.x, b.min.x)
    &&& !crate::scalar::less(p.y, b.min.y)
    &&& !crate::scalar::less(p.z, b.min.z)
}

/// Whether octant `dir` is on the upper side along x.
pub open spec fn upper_x(dir: int) -> bool {
    dir % 2 == 1
}

/// Whether octant `dir` is on the upper side along y.
pub open spec fn upper_y(dir: int) -> bool {
    (dir / 2) % 2 == 1
}

/// Whether octant `dir` is on the upper side along z.
pub open spec fn upper_z(dir: int) -> bool {
    (dir / 4) % 2 == 1
}

/// Octant `dir` of `b` when `b` is cut at `center`: each face is a face of
/// `b` or lies on `center`, bit for bit.
pub open spec fn octant(b: Bounds, center: Position, dir: int) -> Bounds {
    Bounds {
        min: Position {
            x: if upper_x(dir) { center.x } else { b.min.x },
            y: if upper_y(dir) { center.y } else { b.min.y },
            z: if upper_z(dir) { center.z } else { b.min.z },
        },
        max: Position {
            x: if upper_x(dir) { b.max.x } else { center.x },
            y: if upper_y(dir) { b.max.y } else { center.y },
            z: if upper_z(dir) { b.max.z } else { center.z },
        },
    }
}

/// The octant around `center` that `p` belongs to: a coordinate that is not
/// below the center's is on the upper side.
pub open spec fn direction(p: Position, center: Position) -> int {
    (if crate::scalar::at_least(p.x, center.x) { 1int } else { 0 })
        + (if crate::scalar::at_least(p.y, center.y) { 2int } else { 0 })
        + (if crate::scalar::at_least(p.z, center.z) { 4int } else { 0 })
}

/// Whether every coordinate of `c` is a number between the faces of `b`.
pub open spec fn cuts(b: Bounds, c: Position) -> bool {
    &&& crate::scalar::at_least(c.x, b.min.x) && crate::scalar::at_least(b.max.x, c.x)
    &&& crate::scalar::at_least(c.y, b.min.y) && crate::scalar::at_least(b.max.y, c.y)
    &&& crate::scalar::at_least(c.z, b.min.z) && crate::scalar::at_least(b.max.z, c.z)
}

/// Whether `p` is in `b`.
pub fn bounds_contains_point(b: &Bounds, p: &Position) -> (res: bool)
    ensures
        res == contains(*b, *p),
{
    !(less_than(b.max.x, p.x) || less_than(b.max.y, p.y) || less_than(b.max.z, p.z)
        || less_than(p.x, b.min.x) || less_than(p.y, b.min.y) || less_than(p.z, b.min.z))
}

/// The `dir`-indexed octant of `b` cut at `center`: bit 0 of `dir` selects the
/// upper x, bit 1 the upper y, bit 2 the upper z.
pub fn split_bounds(b: &Bounds, center: &Position, dir: i32) -> (res: Bounds)
    requires
        0 <= dir < 8,
    ensures
        res == octant(*b, *center, dir as int),
{
    let up_x: bool = dir % 2 == 1;
    let up_y: bool = (dir / 2) % 2 == 1;
    let up_z: bool = (dir / 4) % 2 == 1;
    Bounds {
        min: Position {
            x: if up_x { center.x } else { b.min.x },
            y: if up_y { center.y } else { b.min.y },
            z: if up_z { center.z } else { b.min.z },
        },
        max: Position {
            x: if up_x { b.max.x } else { center.x },
            y: if up_y { b.max.y } else { center.y },
            z: if up_z { b.max.z } else { center.z },
        },
    }
}

/// The octant around `center` that `p` belongs to.
pub fn octant_of(p: &Position, center: &Position) -> (dir: i32)
    ensures
        dir == direction(*p, *center),
        0 <= dir < 8,
{
    let x: i32 = if greater_or_equal(p.x, center.x) { 1 } else { 0 };
    let y: i32 = if greater_or_equal(p.y, center.y) { 2 } else { 0 };
    let z: i32 = if greater_or_equal(p.z, center.z) { 4 } else { 0 };
    x + y + z
}

/// Cutting a box loses no point: whatever the center, a point of the box is
/// in the octant that it is assigned to.
pub proof fn lemma_octant_keeps_point(b: Bounds, center: Position, p: Position)
    requires
        contains(b, p),
    ensures
        0 <= direction(p, center) < 8,
        contains(octant(b, center, direction(p, center)), p),
{
}

/// The octants do not reach beyond the box: where the center is within the
/// box, a point of an octant is a point of the box.
pub proof fn lemma_octant_is_within(b: Bounds, center: Position, dir: int, p: Position)
    requires
        cuts(b, center),
        contains(octant(b, center, dir), p),
    ensures
        contains(b, p),
{
}

/// The octants partition the box: two of them share nothing but points on the
/// planes through the center.
pub proof fn lemma_octants_meet_at_center(b: Bounds, center: Position, i: int, j: int, p: Position)
    requires
        0 <= i < 8,
        0 <= j < 8,
        i != j,
        contains(octant(b, center, i), p),
        contains(octant(b, center, j), p),
        !crate::scalar::is_nan(p.x) && !crate::scalar::is_nan(p.y) && !crate::scalar::is_nan(p.z),
        !crate::scalar::is_nan(center.x),
        !crate::scalar::is_nan(center.y),
        !crate::scalar::is_nan(center.z),
    ensures
        ({
            ||| upper_x(i) != upper_x(j) && crate::scalar::rank(p.x) == crate::scalar::rank(center.x)
            ||| upper_y(i) != upper_y(j) && crate::scalar::rank(p.y) == crate::scalar::rank(center.y)
            ||| upper_z(i) != upper_z(j) && crate::scalar::rank(p.z) == crate::scalar::rank(center.z)
        }),
{
    assert(upper_x(i) != upper_x(j) || upper_y(i) != upper_y(j) || upper_z(i) != upper_z(j));
}

/// Whether no coordinate is NaN.
pub open spec fn has_numbers(p: Position) -> bool {
    !crate::scalar::is_nan(p.x) && !crate::scalar::is_nan(p.y) && !crate::scalar::is_nan(p.z)
}

/// A point is in a box exactly where each of its coordinates has a value from that of
/// the lower face to that of the upper face, both faces among them.
pub proof fn lemma_box_has_points_between_faces(b: Bounds, p: Position)
    requires
        has_numbers(b.min),
        has_numbers(b.max),
        has_numbers(p),
    ensures
        contains(b, p) <==> {
            &&& crate::scalar::units(b.min.x) <= crate::scalar::units(p.x) <= crate::scalar::units(
                b.max.x,
            )
            &&& crate::scalar::units(b.min.y) <= crate::scalar::units(p.y) <= crate::scalar::units(
                b.max.y,
            )
            &&& crate::scalar::units(b.min.z) <= crate::scalar::units(p.z) <= crate::scalar::units(
                b.max.z,
            )
        },
{
    crate::scalar::lemma_comparison_is_of_values(b.max.x, p.x);
    crate::scalar::lemma_comparison_is_of_values(b.max.y, p.y);
    crate::scalar::lemma_comparison_is_of_values(b.max.z, p.z);
    crate::scalar::lemma_comparison_is_of_values(p.x, b.min.x);
    crate::scalar::lemma_comparison_is_of_values(p.y, b.min.y);
    crate::scalar::lemma_comparison_is_of_values(p.z, b.min.z);
}

/// The part of the box `b` that is on the upper side of `center` along x, y and z
/// where `x`, `y` and `z` are 1, and on the lower side where they are 0.
pub open spec fn part_of_box(b: Bounds, center: Position, x: int, y: int, z: int, part: Bounds) -> bool {
    &&& x == 0 ==> part.min.x == b.min.x && part.max.x == center.x
    &&& x == 1 ==> part.min.x == center.x && part.max.x == b.max.x
    &&& y == 0 ==> part.min.y == b.min.y && part.max.y == center.y
    &&& y == 1 ==> part.min.y == center.y && part.max.y == b.max.y
    &&& z == 0 ==> part.min.z == b.min.z && part.max.z == center.z
    &&& z == 1 ==> part.min.z == center.z && part.max.z == b.max.z
}

/// The octants are the eight parts of the box: the number of an octant is the sum of
/// 1, 2 and 4 for the axes along which it is on the upper side.
pub proof fn lemma_octant_is_part_of_box(b: Bounds, center: Position, x: int, y: int, z: int)
    requires
        0 <= x <= 1,
        0 <= y <= 1,
        0 <= z <= 1,
    ensures
        part_of_box(b, center, x, y, z, octant(b, center, x + 2 * y + 4 * z)),
{
}

/// A point goes to the upper side of the center along an axis exactly where its
/// coordinate has at least the center's value; NaN is on the lower side.
pub proof fn lemma_direction_is_by_values(p: Position, center: Position)
    ensures
        ({
            let up_x = !crate::scalar::is_nan(p.x) && !crate::scalar::is_nan(center.x)
                && crate::scalar::units(p.x) >= crate::scalar::units(center.x);
            let up_y = !crate::scalar::is_nan(p.y) && !crate::scalar::is_nan(center.y)
                && crate::scalar::units(p.y) >= crate::scalar::units(center.y);
            let up_z = !crate::scalar::is_nan(p.z) && !crate::scalar::is_nan(center.z)
                && crate::scalar::units(p.z) >= crate::scalar::units(center.z);
            let dir = direction(p, center);
            &&& 0 <= dir < 8
            &&& dir % 2 == 1 <==> up_x
            &&& dir / 2 % 2 == 1 <==> up_y
            &&& dir / 4 == 1 <==> up_z
        }),
{
    crate::scalar::lemma_comparison_is_of_values(p.x, center.x);
    crate::scalar::lemma_comparison_is_of_values(p.y, center.y);
    crate::scalar::lemma_comparison_is_of_values(p.z, center.z);
}

} // verus!
