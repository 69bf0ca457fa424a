use rtree::bbox::{get_bounds_from_objects, union_bbox, union_point, union_points, BBox, BoundingBox};
use rtree::ray::Ray;
use rtree::vec3::Vec3;

fn bb(min: (i32, i32, i32), max: (i32, i32, i32)) -> BBox {
    BBox {
        min: Vec3::xyz(min.0, min.1, min.2),
        max: Vec3::xyz(max.0, max.1, max.2),
    }
}

#[test]
fn union_is_associative_and_commutative() {
    let b1 = bb((0, 0, 0), (2, 2, 2));
    let b2 = bb((-5, 1, 1), (1, 7, 1));
    let b3 = bb((3, -3, -3), (4, 0, 9));
    let left = union_bbox(&union_bbox(&b1, &b2), &b3);
    let right = union_bbox(&b1, &union_bbox(&b2, &b3));
    assert_eq!(left, right);
    assert_eq!(union_bbox(&b1, &b2), union_bbox(&b2, &b1));
    assert_eq!(left, bb((-5, -3, -3), (4, 7, 9)));
}

#[test]
fn union_with_empty_is_identity() {
    let b = bb((-1, 2, 3), (4, 5, 6));
    let e = BBox::empty();
    assert_eq!(union_bbox(&e, &b), b);
    assert_eq!(union_bbox(&b, &e), b);
}

#[test]
fn union_point_and_points() {
    let b = bb((0, 0, 0), (1, 1, 1));
    let p = Vec3::xyz(-2, 5, 0);
    let u = union_point(&b, &p);
    assert_eq!(u, bb((-2, 0, 0), (1, 5, 1)));
    let q = Vec3::xyz(3, -4, 2);
    let v = union_points(&p, &q);
    assert_eq!(v, bb((-2, -4, 0), (3, 5, 2)));
}

#[test]
fn volume_is_invariant_under_self_union() {
    let b = bb((-3, 0, 2), (5, 4, 7));
    let u = b.union(&b);
    assert_eq!(u, b);
    assert_eq!(u.volume(), b.volume());
    assert_eq!(b.volume(), 8 * 4 * 5);
}

#[test]
fn volume_is_signed_for_degenerate_boxes() {
    let b = bb((3, 0, 0), (1, 2, 2));
    assert_eq!(b.volume(), -2 * 2 * 2);
}

#[test]
fn containment_implies_overlap_and_point_membership() {
    let outer = bb((-10, -10, -10), (10, 10, 10));
    let inner = bb((-1, 0, 2), (3, 4, 5));
    assert!(outer.contains(&inner));
    assert!(outer.overlaps(&inner));
    let p = Vec3::xyz(0, 2, 3);
    assert!(inner.inside(&p));
    assert!(outer.inside(&p));
}

#[test]
fn overlap_is_inclusive_at_shared_faces() {
    let a = bb((0, 0, 0), (1, 1, 1));
    let b = bb((1, 0, 0), (2, 1, 1));
    assert!(a.overlaps(&b));
    let c = bb((2, 0, 0), (3, 1, 1));
    assert!(!a.overlaps(&c));
}

#[test]
fn expand_pads_every_face() {
    let b = bb((0, 0, 0), (2, 2, 2));
    let e = b.expand(3);
    assert_eq!(e, bb((-3, -3, -3), (5, 5, 5)));
    let s = e.expand(-3);
    assert_eq!(s, b);
}

#[test]
fn max_extent_prefers_x_then_y() {
    assert_eq!(bb((0, 0, 0), (5, 3, 1)).max_extent(), 0);
    assert_eq!(bb((0, 0, 0), (1, 5, 3)).max_extent(), 1);
    assert_eq!(bb((0, 0, 0), (1, 3, 5)).max_extent(), 2);
    // ties between x and the others go to x
    assert_eq!(bb((0, 0, 0), (5, 5, 5)).max_extent(), 0);
    // ties between y and z go to y
    assert_eq!(bb((0, 0, 0), (1, 5, 5)).max_extent(), 1);
}

#[test]
fn side_lengths() {
    let b = bb((-1, 2, 3), (4, 5, 9));
    assert_eq!(b.x_len(), 5);
    assert_eq!(b.y_len(), 3);
    assert_eq!(b.z_len(), 6);
    assert_eq!(b.len(), (5, 3, 6));
}

#[test]
fn bounds_from_objects_folds_all_boxes() {
    let boxes = vec![bb((0, 0, 0), (1, 1, 1)), bb((-4, 2, 0), (0, 3, 8))];
    let u = get_bounds_from_objects(&boxes);
    assert_eq!(u, bb((-4, 0, 0), (1, 3, 8)));
    let none: Vec<BBox> = Vec::new();
    assert_eq!(get_bounds_from_objects(&none), BBox::empty());
}

#[test]
fn ray_new_caches_sign_bits() {
    let r = Ray::new(Vec3::xyz(0, 0, 0), Vec3::xyz(1, -1, 0));
    assert!(r.signs[0]);
    assert!(!r.signs[1]);
    assert!(r.signs[2]);
    assert_eq!(r.origin, Vec3::xyz(0, 0, 0));
    assert_eq!(r.direction, Vec3::xyz(1, -1, 0));
}

#[test]
fn slab_test_from_center_hits_in_any_direction() {
    let b = bb((-2, -2, -2), (2, 2, 2));
    for d in [
        (1, 0, 0),
        (-1, 0, 0),
        (0, 1, 0),
        (0, -1, 0),
        (0, 0, 1),
        (0, 0, -1),
        (3, -7, 11),
        (-5, -5, -5),
        (0, 0, 0),
    ] {
        let r = Ray::new(Vec3::xyz(0, 0, 0), Vec3::xyz(d.0, d.1, d.2));
        assert!(b.intersects(&r), "direction {:?} should hit", d);
    }
}

#[test]
fn slab_test_pointing_away_misses() {
    let b = bb((-2, -2, -2), (2, 2, 2));
    // origin beyond the +x face, direction not coming back on x
    let r = Ray::new(Vec3::xyz(5, 0, 0), Vec3::xyz(1, 2, -3));
    assert!(!b.intersects(&r));
    // origin beyond the -y face, direction pointing further away on y
    let r2 = Ray::new(Vec3::xyz(0, -9, 0), Vec3::xyz(0, -1, 0));
    assert!(!b.intersects(&r2));
}

#[test]
fn slab_test_exact_cases() {
    let b = bb((1, 1, 1), (3, 3, 3));
    // through the box diagonally
    assert!(b.intersects(&Ray::new(Vec3::xyz(0, 0, 0), Vec3::xyz(1, 1, 1))));
    // along +x at y=z=0: parallel to the y and z slabs but outside them
    assert!(!b.intersects(&Ray::new(Vec3::xyz(0, 0, 0), Vec3::xyz(1, 0, 0))));
    // along +x at y=z=2: parallel to the y and z slabs and inside them
    assert!(b.intersects(&Ray::new(Vec3::xyz(0, 2, 2), Vec3::xyz(1, 0, 0))));
    // box entirely behind the origin is rejected (only t > 0 counts)
    assert!(!b.intersects(&Ray::new(Vec3::xyz(5, 2, 2), Vec3::xyz(1, 0, 0))));
    // a box with min > max on an axis is empty and never hit
    let empty = bb((3, 1, 1), (1, 3, 3));
    assert!(!empty.intersects(&Ray::new(Vec3::xyz(0, 2, 2), Vec3::xyz(1, 0, 0))));
}

#[test]
fn bbox_implements_bounding_box_for_itself() {
    let b = bb((0, 1, 2), (3, 4, 5));
    assert_eq!(b.bounding_box(), b);
}
