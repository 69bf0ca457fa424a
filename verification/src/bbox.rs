//! Axis-aligned bounding boxes and their algebra: union, overlap,
//! containment, extent and volume measurements.
//!
//! A box is a pair of corner points. A *valid* box has `min <= max` on every
//! axis; the empty accumulator [`BBox::empty`] deliberately violates this
//! (`min` at the top of the range, `max` at the bottom) so that taking unions
//! starting from it behaves as an identity.
use vstd::prelude::*;

use crate::ray::{
    axis_of, axis_ok_at, lemma_axis_interval, lemma_axis_parallel, lemma_rat_le_trans,
    lemma_rat_pos, rat_le, ray_hits, slab_at, slab_den, slab_hi, slab_lo, Ray,
};
use crate::vec3::Vec3;

verus! {

/// Smaller of two coordinates.
pub open spec fn min32(a: i32, b: i32) -> i32 {
    if a <= b {
        a
    } else {
        b
    }
}

/// Larger of two coordinates.
pub open spec fn max32(a: i32, b: i32) -> i32 {
    if a >= b {
        a
    } else {
        b
    }
}

/// An axis-aligned box given by its minimum and maximum corner.
#[derive(Clone, Copy, PartialEq, Eq, Structural, Debug)]
pub struct BBox {
    pub min: Vec3,
    pub max: Vec3,
}

/// The capability of producing one's own axis-aligned bounding box, together
/// with the mathematical box it denotes; every implementation proves that the
/// produced box is exactly the denoted one.
pub trait BoundingBox: Sized {
    /// The box this value denotes.
    spec fn sp_bounding_box(&self) -> BBox;

    /// Computes the bounding box.
    fn bounding_box(&self) -> (b: BBox)
        ensures
            b == self.sp_bounding_box(),
    ;
}

impl BoundingBox for BBox {
    open spec fn sp_bounding_box(&self) -> BBox {
        *self
    }

    fn bounding_box(&self) -> (b: BBox) {
        *self
    }
}

/// The union of two boxes: component-wise minimum of minima, maximum of
/// maxima.
pub open spec fn spec_union(a: BBox, b: BBox) -> BBox {
    BBox {
        min: Vec3 {
            x: min32(a.min.x, b.min.x),
            y: min32(a.min.y, b.min.y),
            z: min32(a.min.z, b.min.z),
        },
        max: Vec3 {
            x: max32(a.max.x, b.max.x),
            y: max32(a.max.y, b.max.y),
            z: max32(a.max.z, b.max.z),
        },
    }
}

/// The smallest box enclosing a box and a point.
pub open spec fn spec_union_point(b: BBox, p: Vec3) -> BBox {
    spec_union(b, BBox { min: p, max: p })
}

/// `min <= max` on every axis.
pub open spec fn spec_valid(b: BBox) -> bool {
    b.min.x <= b.max.x && b.min.y <= b.max.y && b.min.z <= b.max.z
}

/// `a` and `b` project onto overlapping (inclusive) intervals on all three
/// axes.
pub open spec fn spec_overlaps(a: BBox, b: BBox) -> bool {
    &&& a.max.x >= b.min.x && a.min.x <= b.max.x
    &&& a.max.y >= b.min.y && a.min.y <= b.max.y
    &&& a.max.z >= b.min.z && a.min.z <= b.max.z
}

/// `b` is inclusively nested within `a` on all axes.
pub open spec fn spec_contains(a: BBox, b: BBox) -> bool {
    &&& b.min.x >= a.min.x && b.max.x <= a.max.x
    &&& b.min.y >= a.min.y && b.max.y <= a.max.y
    &&& b.min.z >= a.min.z && b.max.z <= a.max.z
}

/// The point `p` lies inclusively within `b`.
pub open spec fn spec_inside(b: BBox, p: Vec3) -> bool {
    &&& b.min.x <= p.x <= b.max.x
    &&& b.min.y <= p.y <= b.max.y
    &&& b.min.z <= p.z <= b.max.z
}

/// Signed product of the three side lengths; negative when the box is
/// degenerate on an odd number of axes.
pub open spec fn spec_volume(b: BBox) -> int {
    (b.max.x - b.min.x) * (b.max.y - b.min.y) * (b.max.z - b.min.z)
}

/// The union of a sequence of boxes, folded from the empty accumulator.
pub open spec fn spec_union_all(s: Seq<BBox>) -> BBox
    decreases s.len(),
{
    if s.len() == 0 {
        spec_empty()
    } else {
        spec_union(spec_union_all(s.drop_last()), s.last())
    }
}

/// The empty accumulator box: an identity element for [`spec_union`] over
/// `i32` coordinates.
pub open spec fn spec_empty() -> BBox {
    BBox {
        min: Vec3 { x: i32::MAX, y: i32::MAX, z: i32::MAX },
        max: Vec3 { x: i32::MIN, y: i32::MIN, z: i32::MIN },
    }
}

/// Given a bounding box and a point, compute and return a new BBox that
/// encompasses the point and the space the original box encompassed.
pub fn union_point(b: &BBox, p: &Vec3) -> (r: BBox)
    ensures
        r == spec_union_point(*b, *p),
{
    BBox {
        min: Vec3 {
            x: if b.min.x <= p.x { b.min.x } else { p.x },
            y: if b.min.y <= p.y { b.min.y } else { p.y },
            z: if b.min.z <= p.z { b.min.z } else { p.z },
        },
        max: Vec3 {
            x: if b.max.x >= p.x { b.max.x } else { p.x },
            y: if b.max.y >= p.y { b.max.y } else { p.y },
            z: if b.max.z >= p.z { b.max.z } else { p.z },
        },
    }
}

/// Given two points, compute and return a new BBox that encompasses both
/// points.
pub fn union_points(p1: &Vec3, p2: &Vec3) -> (r: BBox)
    ensures
        r == spec_union(BBox { min: *p1, max: *p1 }, BBox { min: *p2, max: *p2 }),
{
    BBox {
        min: Vec3 {
            x: if p1.x <= p2.x { p1.x } else { p2.x },
            y: if p1.y <= p2.y { p1.y } else { p2.y },
            z: if p1.z <= p2.z { p1.z } else { p2.z },
        },
        max: Vec3 {
            x: if p1.x >= p2.x { p1.x } else { p2.x },
            y: if p1.y >= p2.y { p1.y } else { p2.y },
            z: if p1.z >= p2.z { p1.z } else { p2.z },
        },
    }
}

/// Given two bounding boxes, compute and return a new BBox that encompasses
/// both spaces the original two boxes encompassed.
pub fn union_bbox(b1: &BBox, b2: &BBox) -> (r: BBox)
    ensures
        r == spec_union(*b1, *b2),
{
    BBox {
        min: Vec3 {
            x: if b1.min.x <= b2.min.x { b1.min.x } else { b2.min.x },
            y: if b1.min.y <= b2.min.y { b1.min.y } else { b2.min.y },
            z: if b1.min.z <= b2.min.z { b1.min.z } else { b2.min.z },
        },
        max: Vec3 {
            x: if b1.max.x >= b2.max.x { b1.max.x } else { b2.max.x },
            y: if b1.max.y >= b2.max.y { b1.max.y } else { b2.max.y },
            z: if b1.max.z >= b2.max.z { b1.max.z } else { b2.max.z },
        },
    }
}

/// Given a sequence of objects with the bounding-box capability, compute the
/// box encompassing all of them, starting from the empty accumulator.
pub fn get_bounds_from_objects<T: BoundingBox>(prims: &Vec<T>) -> (r: BBox)
    ensures
        r == spec_union_all(prims@.map_values(|t: T| t.sp_bounding_box())),
{
    let ghost all = prims@.map_values(|t: T| t.sp_bounding_box());
    let mut acc = BBox::empty();
    let mut i: usize = 0;
    while i < prims.len()
        invariant
            i <= prims.len(),
            all == prims@.map_values(|t: T| t.sp_bounding_box()),
            acc == spec_union_all(all.take(i as int)),
        decreases prims.len() - i,
    {
        let b = prims[i].bounding_box();
        acc = union_bbox(&acc, &b);
        proof {
            assert(all.take(i + 1).drop_last() =~= all.take(i as int));
            assert(all.take(i + 1).last() == all[i as int]);
        }
        i = i + 1;
    }
    proof {
        assert(all.take(prims@.len() as int) =~= all);
    }
    acc
}

impl BBox {
    /// The empty accumulator box, an identity element for unions.
    pub fn empty() -> (r: BBox)
        ensures
            r == spec_empty(),
    {
        BBox {
            min: Vec3 { x: i32::MAX, y: i32::MAX, z: i32::MAX },
            max: Vec3 { x: i32::MIN, y: i32::MIN, z: i32::MIN },
        }
    }

    /// True iff the two boxes' projections overlap (inclusive) on all three
    /// axes.
    pub fn overlaps(&self, other: &BBox) -> (r: bool)
        ensures
            r == spec_overlaps(*self, *other),
    {
        let x = self.max.x >= other.min.x && self.min.x <= other.max.x;
        let y = self.max.y >= other.min.y && self.min.y <= other.max.y;
        let z = self.max.z >= other.min.z && self.min.z <= other.max.z;
        x && y && z
    }

    /// Inclusive containment test for a point.
    pub fn inside(&self, p: &Vec3) -> (r: bool)
        ensures
            r == spec_inside(*self, *p),
    {
        p.x >= self.min.x && p.x <= self.max.x && p.y >= self.min.y && p.y <= self.max.y && p.z
            >= self.min.z && p.z <= self.max.z
    }

    /// True iff `other` is inclusively nested within `self` on all axes.
    pub fn contains(&self, other: &BBox) -> (r: bool)
        ensures
            r == spec_contains(*self, *other),
    {
        other.min.x >= self.min.x && other.min.y >= self.min.y && other.min.z >= self.min.z
            && other.max.x <= self.max.x && other.max.y <= self.max.y && other.max.z <= self.max.z
    }

    /// Pad every face outward by `delta` (negative `delta` shrinks).
    pub fn expand(&self, delta: i32) -> (r: BBox)
        requires
            i32::MIN <= self.min.x - delta <= i32::MAX,
            i32::MIN <= self.min.y - delta <= i32::MAX,
            i32::MIN <= self.min.z - delta <= i32::MAX,
            i32::MIN <= self.max.x + delta <= i32::MAX,
            i32::MIN <= self.max.y + delta <= i32::MAX,
            i32::MIN <= self.max.z + delta <= i32::MAX,
        ensures
            r.min.x == self.min.x - delta,
            r.min.y == self.min.y - delta,
            r.min.z == self.min.z - delta,
            r.max.x == self.max.x + delta,
            r.max.y == self.max.y + delta,
            r.max.z == self.max.z + delta,
    {
        BBox {
            min: Vec3 { x: self.min.x - delta, y: self.min.y - delta, z: self.min.z - delta },
            max: Vec3 { x: self.max.x + delta, y: self.max.y + delta, z: self.max.z + delta },
        }
    }

    /// The axis along which the box is widest: `0` for x, `1` for y, `2` for
    /// z. Ties between y and z resolve to y; ties between x and either
    /// resolve to x.
    pub fn max_extent(&self) -> (r: u8)
        ensures
            r == spec_max_extent(*self),
    {
        let dx: i64 = self.max.x as i64 - self.min.x as i64;
        let dy: i64 = self.max.y as i64 - self.min.y as i64;
        let dz: i64 = self.max.z as i64 - self.min.z as i64;
        if dx >= dy && dx >= dz {
            0
        } else if dy >= dz {
            1
        } else {
            2
        }
    }

    /// The union of `self` and `other`.
    pub fn union(&self, other: &BBox) -> (r: BBox)
        ensures
            r == spec_union(*self, *other),
    {
        union_bbox(self, other)
    }

    /// Side length along x.
    pub fn x_len(&self) -> (r: i64)
        ensures
            r == self.max.x - self.min.x,
    {
        self.max.x as i64 - self.min.x as i64
    }

    /// Side length along y.
    pub fn y_len(&self) -> (r: i64)
        ensures
            r == self.max.y - self.min.y,
    {
        self.max.y as i64 - self.min.y as i64
    }

    /// Side length along z.
    pub fn z_len(&self) -> (r: i64)
        ensures
            r == self.max.z - self.min.z,
    {
        self.max.z as i64 - self.min.z as i64
    }

    /// The diagonal `max - min`, component-wise.
    pub fn len(&self) -> (r: (i64, i64, i64))
        ensures
            r.0 == self.max.x - self.min.x,
            r.1 == self.max.y - self.min.y,
            r.2 == self.max.z - self.min.z,
    {
        (
            self.max.x as i64 - self.min.x as i64,
            self.max.y as i64 - self.min.y as i64,
            self.max.z as i64 - self.min.z as i64,
        )
    }

    /// Signed volume: the product of the three side lengths.
    pub fn volume(&self) -> (r: i128)
        ensures
            r == spec_volume(*self),
    {
        let dx: i128 = self.max.x as i128 - self.min.x as i128;
        let dy: i128 = self.max.y as i128 - self.min.y as i128;
        let dz: i128 = self.max.z as i128 - self.min.z as i128;
        proof {
            lemma_abs_mul_bound(dx as int, dy as int, 0x1_0000_0000, 0x1_0000_0000);
            lemma_abs_mul_bound(dx * dy, dz as int, 0x1_0000_0000_0000_0000_0000, 0x1_0000_0000);
        }
        dx * dy * dz
    }
}

/// Compares two slab rationals with positive denominators by
/// cross-multiplying in a wide type.
fn rat_le_exec(an: i64, ad: i64, bn: i64, bd: i64) -> (r: bool)
    ensures
        r == rat_le(an as int, ad as int, bn as int, bd as int),
{
    proof {
        lemma_abs_mul_bound(an as int, bd as int, 0x8000_0000_0000_0000, 0x8000_0000_0000_0000);
        lemma_abs_mul_bound(bn as int, ad as int, 0x8000_0000_0000_0000, 0x8000_0000_0000_0000);
    }
    (an as i128) * (bd as i128) <= (bn as i128) * (ad as i128)
}

/// One axis' slab constraint holds at `(tmax_n, tmax_d)` whenever that point
/// lies between the axis' running entry bound and its own exit bound.
proof fn lemma_axis_witness(
    b: BBox,
    r: Ray,
    j: int,
    tmin_n: int,
    tmin_d: int,
    tmax_n: int,
    tmax_d: int,
)
    requires
        0 <= j < 3,
        tmin_d >= 1,
        tmax_d >= 1,
        axis_of(r.direction, j) != 0 ==> rat_le(slab_lo(b, r, j), slab_den(r, j), tmin_n, tmin_d)
            && rat_le(tmax_n, tmax_d, slab_hi(b, r, j), slab_den(r, j)),
        axis_of(r.direction, j) == 0 ==> axis_of(b.min, j) <= axis_of(r.origin, j) <= axis_of(
            b.max,
            j,
        ),
        rat_le(tmin_n, tmin_d, tmax_n, tmax_d),
    ensures
        axis_ok_at(b, r, j, tmax_n, tmax_d),
{
    if axis_of(r.direction, j) != 0 {
        lemma_rat_le_trans(
            slab_lo(b, r, j),
            slab_den(r, j),
            tmin_n,
            tmin_d,
            tmax_n,
            tmax_d,
        );
        lemma_axis_interval(
            axis_of(b.min, j),
            axis_of(b.max, j),
            axis_of(r.origin, j),
            axis_of(r.direction, j),
            tmax_n,
            tmax_d,
            slab_lo(b, r, j),
            slab_hi(b, r, j),
            slab_den(r, j),
        );
    } else {
        lemma_axis_parallel(
            axis_of(b.min, j),
            axis_of(b.max, j),
            axis_of(r.origin, j),
            tmax_n,
            tmax_d,
        );
    }
}

impl BBox {
    /// Axis-aligned slab test: decides exactly whether the ray's forward
    /// half-line meets this box. Per axis, the ray's parameter must lie in
    /// the interval spanned by the entry and exit faces (chosen by the ray's
    /// cached sign bit); the three intervals are intersected as exact
    /// rationals, and the result must reach strictly past the origin. A box
    /// with `min > max` on some axis is empty and is never hit; an axis with
    /// a zero direction component constrains the origin to lie between that
    /// axis' faces.
    pub fn intersects(&self, ray: &Ray) -> (res: bool)
        requires
            ray.wf(),
        ensures
            res == ray_hits(*self, *ray),
    {
        let mns: [i64; 3] = [self.min.x as i64, self.min.y as i64, self.min.z as i64];
        let mxs: [i64; 3] = [self.max.x as i64, self.max.y as i64, self.max.z as i64];
        let os: [i64; 3] = [ray.origin.x as i64, ray.origin.y as i64, ray.origin.z as i64];
        let ds: [i64; 3] = [ray.direction.x as i64, ray.direction.y as i64, ray.direction.z as i64];
        let mut seen: bool = false;
        let mut tmin_n: i64 = 0;
        let mut tmin_d: i64 = 1;
        let mut tmax_n: i64 = 0;
        let mut tmax_d: i64 = 1;
        let ghost mut amin: int = 0;
        let ghost mut amax: int = 0;
        let mut i: usize = 0;
        while i < 3
            invariant
                i <= 3,
                ray.wf(),
                forall|j: int|
                    0 <= j < 3 ==> mns[j] == axis_of(self.min, j) && mxs[j] == axis_of(self.max, j)
                        && os[j] == axis_of(ray.origin, j) && ds[j] == axis_of(ray.direction, j),
                seen ==> tmin_d >= 1 && tmax_d >= 1,
                seen ==> 0 <= amin < i && axis_of(ray.direction, amin) != 0 && tmin_n == slab_lo(
                    *self,
                    *ray,
                    amin,
                ) && tmin_d == slab_den(*ray, amin),
                seen ==> 0 <= amax < i && axis_of(ray.direction, amax) != 0 && tmax_n == slab_hi(
                    *self,
                    *ray,
                    amax,
                ) && tmax_d == slab_den(*ray, amax),
                forall|j: int|
                    0 <= j < i && axis_of(ray.direction, j) != 0 ==> seen && rat_le(
                        slab_lo(*self, *ray, j),
                        slab_den(*ray, j),
                        tmin_n as int,
                        tmin_d as int,
                    ) && rat_le(
                        tmax_n as int,
                        tmax_d as int,
                        slab_hi(*self, *ray, j),
                        slab_den(*ray, j),
                    ),
                forall|j: int|
                    0 <= j < i && axis_of(ray.direction, j) == 0 ==> axis_of(self.min, j)
                        <= axis_of(ray.origin, j) <= axis_of(self.max, j),
                seen ==> rat_le(tmin_n as int, tmin_d as int, tmax_n as int, tmax_d as int),
                !seen ==> forall|j: int| 0 <= j < i ==> axis_of(ray.direction, j) == 0,
            decreases 3 - i,
        {
            let d = ds[i];
            if d == 0 {
                if os[i] < mns[i] || os[i] > mxs[i] {
                    proof {
                        if ray_hits(*self, *ray) {
                            let (tn, td) = choose|tn: int, td: int|
                                slab_at(*self, ray.origin, ray.direction, tn, td);
                            assert(axis_ok_at(*self, *ray, i as int, tn, td));
                            lemma_axis_parallel(
                                axis_of(self.min, i as int),
                                axis_of(self.max, i as int),
                                axis_of(ray.origin, i as int),
                                tn,
                                td,
                            );
                        }
                    }
                    return false;
                }
            } else {
                let sign = ray.signs[i];
                proof {
                    assert(sign == (d >= 0));
                }
                let (lon, hin, den): (i64, i64, i64) = if sign {
                    (mns[i] - os[i], mxs[i] - os[i], d)
                } else {
                    (os[i] - mxs[i], os[i] - mns[i], -d)
                };
                proof {
                    assert(lon == slab_lo(*self, *ray, i as int));
                    assert(hin == slab_hi(*self, *ray, i as int));
                    assert(den == slab_den(*ray, i as int));
                    assert(den >= 1);
                }
                if !seen {
                    seen = true;
                    tmin_n = lon;
                    tmin_d = den;
                    tmax_n = hin;
                    tmax_d = den;
                    proof {
                        amin = i as int;
                        amax = i as int;
                    }
                } else {
                    if rat_le_exec(tmin_n, tmin_d, lon, den) {
                        proof {
                            assert forall|j: int|
                                0 <= j < i && axis_of(ray.direction, j) != 0 implies rat_le(
                                slab_lo(*self, *ray, j),
                                slab_den(*ray, j),
                                lon as int,
                                den as int,
                            ) by {
                                lemma_rat_le_trans(
                                    slab_lo(*self, *ray, j),
                                    slab_den(*ray, j),
                                    tmin_n as int,
                                    tmin_d as int,
                                    lon as int,
                                    den as int,
                                );
                            }
                            amin = i as int;
                        }
                        tmin_n = lon;
                        tmin_d = den;
                    }
                    if rat_le_exec(hin, den, tmax_n, tmax_d) {
                        proof {
                            assert forall|j: int|
                                0 <= j < i && axis_of(ray.direction, j) != 0 implies rat_le(
                                hin as int,
                                den as int,
                                slab_hi(*self, *ray, j),
                                slab_den(*ray, j),
                            ) by {
                                lemma_rat_le_trans(
                                    hin as int,
                                    den as int,
                                    tmax_n as int,
                                    tmax_d as int,
                                    slab_hi(*self, *ray, j),
                                    slab_den(*ray, j),
                                );
                            }
                            amax = i as int;
                        }
                        tmax_n = hin;
                        tmax_d = den;
                    }
                }
                if !rat_le_exec(tmin_n, tmin_d, tmax_n, tmax_d) {
                    proof {
                        if ray_hits(*self, *ray) {
                            let (tn, td) = choose|tn: int, td: int|
                                slab_at(*self, ray.origin, ray.direction, tn, td);
                            assert(axis_ok_at(*self, *ray, amin, tn, td));
                            assert(axis_ok_at(*self, *ray, amax, tn, td));
                            lemma_axis_interval(
                                axis_of(self.min, amin),
                                axis_of(self.max, amin),
                                axis_of(ray.origin, amin),
                                axis_of(ray.direction, amin),
                                tn,
                                td,
                                slab_lo(*self, *ray, amin),
                                slab_hi(*self, *ray, amin),
                                slab_den(*ray, amin),
                            );
                            lemma_axis_interval(
                                axis_of(self.min, amax),
                                axis_of(self.max, amax),
                                axis_of(ray.origin, amax),
                                axis_of(ray.direction, amax),
                                tn,
                                td,
                                slab_lo(*self, *ray, amax),
                                slab_hi(*self, *ray, amax),
                                slab_den(*ray, amax),
                            );
                            lemma_rat_le_trans(
                                tmin_n as int,
                                tmin_d as int,
                                tn,
                                td,
                                tmax_n as int,
                                tmax_d as int,
                            );
                        }
                    }
                    return false;
                }
            }
            i = i + 1;
        }
        if !seen {
            proof {
                lemma_axis_parallel(
                    axis_of(self.min, 0),
                    axis_of(self.max, 0),
                    axis_of(ray.origin, 0),
                    1,
                    1,
                );
                lemma_axis_parallel(
                    axis_of(self.min, 1),
                    axis_of(self.max, 1),
                    axis_of(ray.origin, 1),
                    1,
                    1,
                );
                lemma_axis_parallel(
                    axis_of(self.min, 2),
                    axis_of(self.max, 2),
                    axis_of(ray.origin, 2),
                    1,
                    1,
                );
                assert(slab_at(*self, ray.origin, ray.direction, 1, 1));
            }
            return true;
        }
        if tmax_n >= 1 {
            proof {
                lemma_axis_witness(
                    *self,
                    *ray,
                    0,
                    tmin_n as int,
                    tmin_d as int,
                    tmax_n as int,
                    tmax_d as int,
                );
                lemma_axis_witness(
                    *self,
                    *ray,
                    1,
                    tmin_n as int,
                    tmin_d as int,
                    tmax_n as int,
                    tmax_d as int,
                );
                lemma_axis_witness(
                    *self,
                    *ray,
                    2,
                    tmin_n as int,
                    tmin_d as int,
                    tmax_n as int,
                    tmax_d as int,
                );
                assert(slab_at(*self, ray.origin, ray.direction, tmax_n as int, tmax_d as int));
            }
            true
        } else {
            proof {
                if ray_hits(*self, *ray) {
                    let (tn, td) = choose|tn: int, td: int|
                        slab_at(*self, ray.origin, ray.direction, tn, td);
                    assert(axis_ok_at(*self, *ray, amax, tn, td));
                    lemma_axis_interval(
                        axis_of(self.min, amax),
                        axis_of(self.max, amax),
                        axis_of(ray.origin, amax),
                        axis_of(ray.direction, amax),
                        tn,
                        td,
                        slab_lo(*self, *ray, amax),
                        slab_hi(*self, *ray, amax),
                        slab_den(*ray, amax),
                    );
                    lemma_rat_pos(tn, td, tmax_n as int, tmax_d as int);
                }
            }
            false
        }
    }
}

/// The widest axis of `b` with the documented tie-breaks.
pub open spec fn spec_max_extent(b: BBox) -> u8 {
    let dx = b.max.x - b.min.x;
    let dy = b.max.y - b.min.y;
    let dz = b.max.z - b.min.z;
    if dx >= dy && dx >= dz {
        0u8
    } else if dy >= dz {
        1u8
    } else {
        2u8
    }
}

/// Bounds a product from bounds on its factors.
pub proof fn lemma_abs_mul_bound(x: int, y: int, a: int, b: int)
    requires
        -a <= x <= a,
        -b <= y <= b,
        0 <= a,
        0 <= b,
    ensures
        -(a * b) <= x * y <= a * b,
{
    assert(-(a * b) <= x * y <= a * b) by (nonlinear_arith)
        requires
            -a <= x <= a,
            -b <= y <= b,
            0 <= a,
            0 <= b,
    ;
}

/// Union is associative: grouping does not matter for the min/max chosen per
/// axis.
pub proof fn lemma_union_associative(b1: BBox, b2: BBox, b3: BBox)
    ensures
        spec_union(spec_union(b1, b2), b3) == spec_union(b1, spec_union(b2, b3)),
{
}

/// Union is commutative.
pub proof fn lemma_union_commutative(b1: BBox, b2: BBox)
    ensures
        spec_union(b1, b2) == spec_union(b2, b1),
{
}

/// Union with oneself changes nothing, so the volume is invariant under it.
pub proof fn lemma_union_self_volume(b: BBox)
    ensures
        spec_union(b, b) == b,
        spec_volume(spec_union(b, b)) == spec_volume(b),
{
}

/// A containing box overlaps the contained one, and every point inside the
/// contained box is inside the container.
pub proof fn lemma_contains_implies_overlaps(a: BBox, b: BBox)
    requires
        spec_contains(a, b),
        spec_valid(b),
    ensures
        spec_overlaps(a, b),
        forall|p: Vec3| spec_inside(b, p) ==> spec_inside(a, p),
{
}

/// The union of two boxes contains both.
pub proof fn lemma_union_contains_both(a: BBox, b: BBox)
    ensures
        spec_contains(spec_union(a, b), a),
        spec_contains(spec_union(a, b), b),
{
}

/// Containment is transitive.
pub proof fn lemma_contains_transitive(a: BBox, b: BBox, c: BBox)
    requires
        spec_contains(a, b),
        spec_contains(b, c),
    ensures
        spec_contains(a, c),
{
}

/// Folding one more box onto a running union unions it in at the end.
pub proof fn lemma_union_all_push(s: Seq<BBox>, b: BBox)
    ensures
        spec_union_all(s.push(b)) == spec_union(spec_union_all(s), b),
{
    assert(s.push(b).drop_last() =~= s);
    assert(s.push(b).last() == b);
}

/// A volume is bounded by the cube of the coordinate range.
pub proof fn lemma_volume_bound(b: BBox)
    ensures
        -0x1_0000_0000_0000_0000_0000_0000 <= spec_volume(b) <= 0x1_0000_0000_0000_0000_0000_0000,
{
    lemma_abs_mul_bound(
        b.max.x - b.min.x,
        b.max.y - b.min.y,
        0x1_0000_0000,
        0x1_0000_0000,
    );
    lemma_abs_mul_bound(
        (b.max.x - b.min.x) * (b.max.y - b.min.y),
        b.max.z - b.min.z,
        0x1_0000_0000_0000_0000,
        0x1_0000_0000,
    );
}

/// The union of a single box is that box.
pub proof fn lemma_union_all_singleton(b: BBox)
    ensures
        spec_union_all(seq![b]) == b,
{
    assert(seq![b].drop_last() =~= Seq::<BBox>::empty());
    assert(spec_union_all(seq![b].drop_last()) == spec_empty());
}

/// Removing an element from a sequence and unioning it back on gives the
/// union of the whole sequence.
pub proof fn lemma_union_all_remove(s: Seq<BBox>, i: int)
    requires
        0 <= i < s.len(),
    ensures
        spec_union_all(s) == spec_union(spec_union_all(s.remove(i)), s[i]),
    decreases s.len(),
{
    if i == s.len() - 1 {
        assert(s.remove(i) =~= s.drop_last());
    } else {
        let sdl = s.drop_last();
        lemma_union_all_remove(sdl, i);
        assert(s.remove(i).drop_last() =~= sdl.remove(i));
        assert(s.remove(i).last() == s.last());
    }
}

/// The union of a sequence of boxes depends only on which boxes occur, not
/// on their order: rearranged sequences have equal unions.
pub proof fn lemma_union_all_permutation(s1: Seq<BBox>, s2: Seq<BBox>)
    requires
        s1.to_multiset() == s2.to_multiset(),
    ensures
        spec_union_all(s1) == spec_union_all(s2),
    decreases s1.len(),
{
    broadcast use vstd::seq_lib::group_to_multiset_ensures;

    if s1.len() == 0 {
        assert(s1.to_multiset().len() == s1.len());
        assert(s2.to_multiset().len() == s2.len());
        assert(s1 =~= s2);
    } else {
        let b = s1.last();
        assert(s1[s1.len() - 1] == b);
        assert(s1.contains(b));
        assert(s2.to_multiset().count(b) > 0);
        assert(s2.contains(b));
        let j = choose|j: int| 0 <= j < s2.len() && s2[j] == b;
        let s1d = s1.drop_last();
        let s2d = s2.remove(j);
        vstd::seq_lib::to_multiset_remove(s1, s1.len() - 1);
        assert(s1d =~= s1.remove(s1.len() - 1));
        vstd::seq_lib::to_multiset_remove(s2, j);
        assert(s1d.to_multiset() == s2d.to_multiset());
        lemma_union_all_permutation(s1d, s2d);
        lemma_union_all_remove(s2, j);
    }
}

/// The running union of a sequence contains each of its elements.
pub proof fn lemma_union_all_contains(s: Seq<BBox>, i: int)
    requires
        0 <= i < s.len(),
    ensures
        spec_contains(spec_union_all(s), s[i]),
    decreases s.len(),
{
    if i == s.len() - 1 {
        lemma_union_contains_both(spec_union_all(s.drop_last()), s.last());
    } else {
        lemma_union_all_contains(s.drop_last(), i);
        lemma_union_contains_both(spec_union_all(s.drop_last()), s.last());
        lemma_contains_transitive(
            spec_union_all(s),
            spec_union_all(s.drop_last()),
            s.drop_last()[i],
        );
    }
}

} // verus!
