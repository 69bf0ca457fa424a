//! Rays: an origin plus a direction, with the per-axis sign bits the slab
//! test uses to pick the near and far face of a box without branching on the
//! direction's sign at test time.
use vstd::prelude::*;

use crate::vec3::Vec3;

verus! {

/// One axis' slab constraint: at parameter `t = tn / td` (with `td >= 1`)
/// the ray's coordinate on this axis lies inclusively between the box's two
/// faces. Stated multiplied out by the positive denominator, so it is a plain
/// integer condition.
pub open spec fn axis_ok(mn: int, mx: int, o: int, d: int, tn: int, td: int) -> bool {
    td * (mn - o) <= tn * d && tn * d <= td * (mx - o)
}

/// Component `j` of a point, `0` for x, `1` for y, `2` for z.
pub open spec fn axis_of(v: crate::vec3::Vec3, j: int) -> int {
    if j == 0 {
        v.x as int
    } else if j == 1 {
        v.y as int
    } else {
        v.z as int
    }
}

/// The ray through `o` with direction `d` meets box `b` at the strictly
/// positive rational parameter `tn / td`.
pub open spec fn slab_at(b: crate::bbox::BBox, o: Vec3, d: Vec3, tn: int, td: int) -> bool {
    &&& tn >= 1
    &&& td >= 1
    &&& axis_ok(b.min.x as int, b.max.x as int, o.x as int, d.x as int, tn, td)
    &&& axis_ok(b.min.y as int, b.max.y as int, o.y as int, d.y as int, tn, td)
    &&& axis_ok(b.min.z as int, b.max.z as int, o.z as int, d.z as int, tn, td)
}

/// The ray's forward open half-line (parameters strictly after the origin)
/// meets the box: the acceptance condition of the slab test.
pub open spec fn ray_hits(b: crate::bbox::BBox, r: Ray) -> bool {
    exists|tn: int, td: int| #[trigger] slab_at(b, r.origin, r.direction, tn, td)
}

/// The positive denominator (the direction's magnitude) of axis `j`'s slab
/// interval endpoints.
pub open spec fn slab_den(r: Ray, j: int) -> int {
    let d = axis_of(r.direction, j);
    if d >= 0 {
        d
    } else {
        -d
    }
}

/// Numerator of the entry endpoint of axis `j`'s slab interval: the signed
/// distance from the origin to the near face.
pub open spec fn slab_lo(b: crate::bbox::BBox, r: Ray, j: int) -> int {
    if axis_of(r.direction, j) >= 0 {
        axis_of(b.min, j) - axis_of(r.origin, j)
    } else {
        axis_of(r.origin, j) - axis_of(b.max, j)
    }
}

/// Numerator of the exit endpoint of axis `j`'s slab interval: the signed
/// distance from the origin to the far face.
pub open spec fn slab_hi(b: crate::bbox::BBox, r: Ray, j: int) -> int {
    if axis_of(r.direction, j) >= 0 {
        axis_of(b.max, j) - axis_of(r.origin, j)
    } else {
        axis_of(r.origin, j) - axis_of(b.min, j)
    }
}

/// The slab constraint of axis `j`, by components.
pub open spec fn axis_ok_at(b: crate::bbox::BBox, r: Ray, j: int, tn: int, td: int) -> bool {
    axis_ok(
        axis_of(b.min, j),
        axis_of(b.max, j),
        axis_of(r.origin, j),
        axis_of(r.direction, j),
        tn,
        td,
    )
}

/// `an / ad <= bn / bd` for rationals with denominators `>= 1`, multiplied
/// out.
pub open spec fn rat_le(an: int, ad: int, bn: int, bd: int) -> bool {
    an * bd <= bn * ad
}

/// `rat_le` is transitive.
pub proof fn lemma_rat_le_trans(
    an: int,
    ad: int,
    bn: int,
    bd: int,
    cn: int,
    cd: int,
)
    requires
        ad >= 1,
        bd >= 1,
        cd >= 1,
        rat_le(an, ad, bn, bd),
        rat_le(bn, bd, cn, cd),
    ensures
        rat_le(an, ad, cn, cd),
{
    assert(an * cd <= cn * ad) by (nonlinear_arith)
        requires
            ad >= 1,
            bd >= 1,
            cd >= 1,
            an * bd <= bn * ad,
            bn * cd <= cn * bd,
    ;
}

/// A positive rational below another forces the other's numerator positive.
pub proof fn lemma_rat_pos(tn: int, td: int, hn: int, hd: int)
    requires
        tn >= 1,
        td >= 1,
        hd >= 1,
        rat_le(tn, td, hn, hd),
    ensures
        hn >= 1,
{
    assert(hn >= 1) by (nonlinear_arith)
        requires
            tn >= 1,
            td >= 1,
            hd >= 1,
            tn * hd <= hn * td,
    ;
}

/// On an axis with a non-zero direction component, the slab constraint is
/// exactly the rational interval `[lo, hi]` whose endpoints are the signed
/// distances to the near and far face over the direction's magnitude.
pub proof fn lemma_axis_interval(
    mn: int,
    mx: int,
    o: int,
    d: int,
    tn: int,
    td: int,
    lon: int,
    hin: int,
    den: int,
)
    requires
        d != 0,
        td >= 1,
        d > 0 ==> lon == mn - o && hin == mx - o && den == d,
        d < 0 ==> lon == o - mx && hin == o - mn && den == -d,
    ensures
        axis_ok(mn, mx, o, d, tn, td) == (rat_le(lon, den, tn, td) && rat_le(tn, td, hin, den)),
{
    if d > 0 {
        assert((td * (mn - o) <= tn * d && tn * d <= td * (mx - o)) == ((mn - o) * td <= tn * d
            && tn * d <= (mx - o) * td)) by (nonlinear_arith);
    } else {
        assert((td * (mn - o) <= tn * d && tn * d <= td * (mx - o)) == ((o - mx) * td <= tn * (-d)
            && tn * (-d) <= (o - mn) * td)) by (nonlinear_arith);
    }
}

/// On an axis with a zero direction component, the slab constraint is
/// exactly inclusive membership of the origin's coordinate.
pub proof fn lemma_axis_parallel(mn: int, mx: int, o: int, tn: int, td: int)
    requires
        td >= 1,
    ensures
        axis_ok(mn, mx, o, 0, tn, td) == (mn <= o <= mx),
{
    assert((td * (mn - o) <= tn * 0 && tn * 0 <= td * (mx - o)) == (mn <= o <= mx))
        by (nonlinear_arith)
        requires
            td >= 1,
    ;
}

/// Hitting a nested box implies hitting the enclosing one.
pub proof fn lemma_hits_monotone(a: crate::bbox::BBox, b: crate::bbox::BBox, r: Ray)
    requires
        crate::bbox::spec_contains(a, b),
        ray_hits(b, r),
    ensures
        ray_hits(a, r),
{
    let (tn, td) = choose|tn: int, td: int| slab_at(b, r.origin, r.direction, tn, td);
    assert(slab_at(a, r.origin, r.direction, tn, td)) by {
        lemma_axis_widen(
            b.min.x as int,
            b.max.x as int,
            a.min.x as int,
            a.max.x as int,
            r.origin.x as int,
            r.direction.x as int,
            tn,
            td,
        );
        lemma_axis_widen(
            b.min.y as int,
            b.max.y as int,
            a.min.y as int,
            a.max.y as int,
            r.origin.y as int,
            r.direction.y as int,
            tn,
            td,
        );
        lemma_axis_widen(
            b.min.z as int,
            b.max.z as int,
            a.min.z as int,
            a.max.z as int,
            r.origin.z as int,
            r.direction.z as int,
            tn,
            td,
        );
    }
}

/// A ray whose origin lies strictly inside a box hits it, whatever its
/// direction; in particular a ray from the center of a box with positive
/// extent on every axis always hits it.
pub proof fn lemma_origin_inside_hits(b: crate::bbox::BBox, r: Ray)
    requires
        b.min.x < r.origin.x < b.max.x,
        b.min.y < r.origin.y < b.max.y,
        b.min.z < r.origin.z < b.max.z,
    ensures
        ray_hits(b, r),
{
    let dx = r.direction.x as int;
    let dy = r.direction.y as int;
    let dz = r.direction.z as int;
    let k = 1 + abs1(dx) + abs1(dy) + abs1(dz);
    assert(slab_at(b, r.origin, r.direction, 1, k)) by {
        lemma_slack_axis(b.min.x as int, b.max.x as int, r.origin.x as int, dx, k);
        lemma_slack_axis(b.min.y as int, b.max.y as int, r.origin.y as int, dy, k);
        lemma_slack_axis(b.min.z as int, b.max.z as int, r.origin.z as int, dz, k);
    }
}

/// Absolute value.
pub open spec fn abs1(x: int) -> int {
    if x >= 0 {
        x
    } else {
        -x
    }
}

/// With a denominator exceeding the direction's magnitude, a strictly
/// interior origin satisfies the axis constraint at parameter `1 / k`.
proof fn lemma_slack_axis(mn: int, mx: int, o: int, d: int, k: int)
    requires
        mn < o < mx,
        k > abs1(d),
    ensures
        axis_ok(mn, mx, o, d, 1, k),
{
    assert(k * (mn - o) <= 1 * d && 1 * d <= k * (mx - o)) by (nonlinear_arith)
        requires
            mn - o <= -1,
            mx - o >= 1,
            k > abs1(d),
            k >= 1,
    ;
}

/// A ray that starts entirely past a box on some axis and does not come back
/// toward it on that axis never hits the box.
pub proof fn lemma_points_away_misses(b: crate::bbox::BBox, r: Ray, j: int)
    requires
        0 <= j < 3,
        (axis_of(r.direction, j) >= 0 && axis_of(r.origin, j) > axis_of(b.max, j)) || (axis_of(
            r.direction,
            j,
        ) <= 0 && axis_of(r.origin, j) < axis_of(b.min, j)),
    ensures
        !ray_hits(b, r),
{
    if ray_hits(b, r) {
        let (tn, td) = choose|tn: int, td: int| slab_at(b, r.origin, r.direction, tn, td);
        assert(axis_ok_at(b, r, j, tn, td));
        let mn = axis_of(b.min, j);
        let mx = axis_of(b.max, j);
        let o = axis_of(r.origin, j);
        let d = axis_of(r.direction, j);
        if d >= 0 && o > mx {
            assert(false) by (nonlinear_arith)
                requires
                    tn >= 1,
                    td >= 1,
                    d >= 0,
                    o > mx,
                    tn * d <= td * (mx - o),
            ;
        } else {
            assert(false) by (nonlinear_arith)
                requires
                    tn >= 1,
                    td >= 1,
                    d <= 0,
                    o < mn,
                    td * (mn - o) <= tn * d,
            ;
        }
    }
}

/// Widening a slab keeps the constraint satisfied.
proof fn lemma_axis_widen(mn: int, mx: int, wmn: int, wmx: int, o: int, d: int, tn: int, td: int)
    requires
        td >= 1,
        wmn <= mn,
        mx <= wmx,
        axis_ok(mn, mx, o, d, tn, td),
    ensures
        axis_ok(wmn, wmx, o, d, tn, td),
{
    assert(td * (wmn - o) <= td * (mn - o) && td * (mx - o) <= td * (wmx - o))
        by (nonlinear_arith)
        requires
            td >= 1,
            wmn <= mn,
            mx <= wmx,
    ;
}

/// A ray `origin + t * direction`, `t > 0`. `signs[i]` records whether the
/// direction is non-negative on axis `i`; a zero component is permitted and
/// makes the ray parallel to that axis' slabs.
pub struct Ray {
    pub origin: Vec3,
    pub direction: Vec3,
    pub signs: [bool; 3],
}

impl Ray {
    /// The sign bits agree with the direction; established by [`Ray::new`]
    /// and relied on by the slab test.
    pub open spec fn wf(&self) -> bool {
        &&& self.signs[0] == (self.direction.x >= 0)
        &&& self.signs[1] == (self.direction.y >= 0)
        &&& self.signs[2] == (self.direction.z >= 0)
    }

    /// Builds a ray and caches the direction's sign bits.
    pub fn new(origin: Vec3, direction: Vec3) -> (r: Ray)
        ensures
            r.origin == origin,
            r.direction == direction,
            r.wf(),
    {
        Ray { origin, direction, signs: [direction.x >= 0, direction.y >= 0, direction.z >= 0] }
    }
}

} // verus!
