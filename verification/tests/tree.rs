use rtree::bbox::BBox;
use rtree::ray::Ray;
use rtree::vec3::Vec3;
use rtree::{best_fit, quad_split, InsertionResult, Mbr, NodeStorage, RTree, RTreeNode, NODE_SIZE};

struct Sphere {
    origin: Vec3,
    radius: i32,
}

impl Sphere {
    fn new(origin: Vec3, radius: i32) -> Result<Sphere, &'static str> {
        if radius <= 0 {
            return Err("sphere radius must be above zero");
        }
        Ok(Sphere { origin, radius })
    }
}

impl Mbr for Sphere {
    fn mbr(&self) -> BBox {
        BBox {
            min: Vec3::xyz(
                self.origin.x - self.radius,
                self.origin.y - self.radius,
                self.origin.z - self.radius,
            ),
            max: Vec3::xyz(
                self.origin.x + self.radius,
                self.origin.y + self.radius,
                self.origin.z + self.radius,
            ),
        }
    }
}

struct Tagged {
    id: usize,
    bbox: BBox,
}

impl Mbr for Tagged {
    fn mbr(&self) -> BBox {
        self.bbox
    }
}

fn bb(min: (i32, i32, i32), max: (i32, i32, i32)) -> BBox {
    BBox {
        min: Vec3::xyz(min.0, min.1, min.2),
        max: Vec3::xyz(max.0, max.1, max.2),
    }
}

fn collect_ids(tree: &RTree<Tagged>, ray: &Ray) -> Vec<usize> {
    let mut it = tree.iter_ray(ray);
    let mut ids = Vec::new();
    while let Some(t) = it.next() {
        ids.push(t.id);
    }
    ids.sort();
    ids
}

#[test]
fn test_sphere() {
    // Six spheres along the x axis whose bounding boxes all straddle
    // y = z = 0, and a ray from the origin straight down the axis, passing
    // through every sphere's bounding box.
    let ray = Ray::new(Vec3::xyz(0, 0, 0), Vec3::xyz(1, 0, 0));

    let mut spheres: RTree<Sphere> = RTree::new();
    spheres.insert(Sphere::new(Vec3::xyz(100, 0, 0), 5).unwrap());
    spheres.insert(Sphere::new(Vec3::xyz(120, 0, 0), 15).unwrap());
    spheres.insert(Sphere::new(Vec3::xyz(140, 0, 0), 25).unwrap());
    spheres.insert(Sphere::new(Vec3::xyz(160, 0, 0), 35).unwrap());
    spheres.insert(Sphere::new(Vec3::xyz(180, 0, 0), 45).unwrap());
    spheres.insert(Sphere::new(Vec3::xyz(200, 0, 0), 55).unwrap());

    let mut it = spheres.iter_ray(&ray);
    let mut count = 0;
    while let Some(s) = it.next() {
        assert!(s.radius >= 5 && s.radius <= 55);
        count += 1;
    }
    // The ray's box-level path passes through every sphere's bounding box.
    assert_eq!(count, 6);
}

#[test]
fn sphere_with_bad_radius_is_rejected() {
    assert!(Sphere::new(Vec3::xyz(0, 0, 0), 0).is_err());
    assert!(Sphere::new(Vec3::xyz(0, 0, 0), -3).is_err());
    assert!(Sphere::new(Vec3::xyz(0, 0, 0), 1).is_ok());
}

#[test]
fn round_trip_disjoint_boxes() {
    // Disjoint boxes; a ray that passes through only one of them returns
    // exactly that one.
    let mut tree: RTree<Tagged> = RTree::new();
    for k in 0..8usize {
        let x = 100 * k as i32;
        tree.insert(Tagged {
            id: k,
            bbox: bb((x, 0, 0), (x + 10, 10, 10)),
        });
    }
    // straight down through box 3 only
    let ray = Ray::new(Vec3::xyz(305, 50, 5), Vec3::xyz(0, -1, 0));
    assert_eq!(collect_ids(&tree, &ray), vec![3]);
    // along the x axis through all of them
    let all = Ray::new(Vec3::xyz(-10, 5, 5), Vec3::xyz(1, 0, 0));
    assert_eq!(collect_ids(&tree, &all), (0..8).collect::<Vec<_>>());
    // a ray that misses everything
    let miss = Ray::new(Vec3::xyz(0, 50, 50), Vec3::xyz(0, 1, 0));
    assert_eq!(collect_ids(&tree, &miss), Vec::<usize>::new());
}

#[test]
fn empty_tree_yields_nothing() {
    let tree: RTree<Tagged> = RTree::new();
    let ray = Ray::new(Vec3::xyz(0, 0, 0), Vec3::xyz(1, 1, 1));
    assert_eq!(collect_ids(&tree, &ray), Vec::<usize>::new());
}

#[test]
fn node_splits_at_capacity() {
    // A leaf node accepts NODE_SIZE entries; the next insertion splits it
    // into two non-empty halves that together hold every entry.
    let mut node: RTreeNode<Tagged> = RTreeNode::new(Tagged {
        id: 0,
        bbox: bb((0, 0, 0), (1, 1, 1)),
    });
    for k in 1..NODE_SIZE {
        let x = 10 * k as i32;
        let res = node.insert(Tagged {
            id: k,
            bbox: bb((x, 0, 0), (x + 1, 1, 1)),
        });
        assert!(matches!(
            res,
            InsertionResult::Fit | InsertionResult::Expanded
        ));
    }
    assert!(node.is_full());
    assert_eq!(node.shallow_len(), NODE_SIZE);
    let x = 10 * NODE_SIZE as i32;
    let res = node.insert(Tagged {
        id: NODE_SIZE,
        bbox: bb((x, 0, 0), (x + 1, 1, 1)),
    });
    match res {
        InsertionResult::Split(sib) => {
            assert!(node.shallow_len() >= 1 && node.shallow_len() <= NODE_SIZE);
            assert!(sib.shallow_len() >= 1 && sib.shallow_len() <= NODE_SIZE);
            assert_eq!(node.deep_len() + sib.deep_len(), NODE_SIZE + 1);
        }
        _ => panic!("expected a split"),
    }
}

#[test]
fn root_split_grows_height() {
    // NODE_SIZE + 1 disjoint items force the root to overflow and split:
    // the new root is an interior node with exactly the two halves.
    let mut tree: RTree<Tagged> = RTree::new();
    for k in 0..NODE_SIZE + 1 {
        let x = 1000 * k as i32;
        tree.insert(Tagged {
            id: k,
            bbox: bb((x, 0, 0), (x + 1, 1, 1)),
        });
        let root = tree.0.as_ref().unwrap();
        // capacity invariant at rest, at every step
        assert!(root.shallow_len() <= NODE_SIZE);
    }
    let root = tree.0.as_ref().unwrap();
    assert_eq!(root.deep_len(), NODE_SIZE + 1);
    match &root.storage {
        NodeStorage::Interior(children) => {
            assert_eq!(children.len(), 2);
            for c in children {
                assert!(c.shallow_len() >= 1 && c.shallow_len() <= NODE_SIZE);
            }
        }
        NodeStorage::Leaf(_) => panic!("root should have split into an interior node"),
    }
    // everything is still found
    let all = Ray::new(Vec3::xyz(-5, 0, 0), Vec3::xyz(1, 0, 0));
    assert_eq!(
        collect_ids(&tree, &all),
        (0..NODE_SIZE + 1).collect::<Vec<_>>()
    );
}

#[test]
fn quad_split_is_a_partition() {
    // NODE_SIZE + 1 boxes: both output groups are non-empty and the union
    // of their boxes is the union of all input boxes.
    let mut items: Vec<BBox> = Vec::new();
    for k in 0..NODE_SIZE + 1 {
        let x = 7 * k as i32;
        items.push(bb((x, -(k as i32), 0), (x + 3, k as i32 + 1, 2)));
    }
    let n = items.len();
    let whole = rtree::bbox::get_bounds_from_objects(&items);
    let (lbox, lefts, rbox, rights) = quad_split(items);
    assert!(!lefts.is_empty());
    assert!(!rights.is_empty());
    assert_eq!(lefts.len() + rights.len(), n);
    assert_eq!(rtree::bbox::get_bounds_from_objects(&lefts), lbox);
    assert_eq!(rtree::bbox::get_bounds_from_objects(&rights), rbox);
    assert_eq!(lbox.union(&rbox), whole);
}

#[test]
fn insert_reports_whether_the_box_changed() {
    let mut node: RTreeNode<Tagged> = RTreeNode::new(Tagged {
        id: 0,
        bbox: bb((0, 0, 0), (10, 10, 10)),
    });
    // an entry inside the current box: reported as a fit, box unchanged
    let r1 = node.insert(Tagged {
        id: 1,
        bbox: bb((1, 1, 1), (2, 2, 2)),
    });
    assert!(matches!(r1, InsertionResult::Fit));
    // an entry outside the current box: reported as an expansion
    let r2 = node.insert(Tagged {
        id: 2,
        bbox: bb((20, 0, 0), (30, 10, 10)),
    });
    assert!(matches!(r2, InsertionResult::Expanded));
}

#[test]
fn insert_routes_into_the_containing_child() {
    // Force a root split, then insert an item lying inside exactly one
    // child's box: that child gains the entry and the other is untouched.
    let mut tree: RTree<Tagged> = RTree::new();
    for k in 0..NODE_SIZE + 1 {
        let x = 1000 * k as i32;
        tree.insert(Tagged {
            id: k,
            bbox: bb((x, 0, 0), (x + 1, 1, 1)),
        });
    }
    let (b0, b1, d0, d1) = {
        let root = tree.0.as_ref().unwrap();
        match &root.storage {
            NodeStorage::Interior(children) => {
                assert_eq!(children.len(), 2);
                let c0 = &children[0];
                let c1 = &children[1];
                (c0.mbr(), c1.mbr(), c0.deep_len(), c1.deep_len())
            }
            NodeStorage::Leaf(_) => panic!("root should be interior"),
        }
    };
    // a box inside child 0's region and outside child 1's
    let probe = bb((b0.min.x, 0, 0), (b0.min.x + 1, 1, 1));
    assert!(b0.contains(&probe));
    assert!(!b1.contains(&probe));
    tree.insert(Tagged {
        id: NODE_SIZE + 1,
        bbox: probe,
    });
    let root = tree.0.as_ref().unwrap();
    match &root.storage {
        NodeStorage::Interior(children) => {
            assert_eq!(children.len(), 2);
            assert_eq!(children[0].deep_len(), d0 + 1);
            assert_eq!(children[1].deep_len(), d1);
            assert_eq!(children[0].mbr(), b0);
            assert_eq!(children[1].mbr(), b1);
        }
        NodeStorage::Leaf(_) => panic!("root should stay interior"),
    }
}

#[test]
fn quad_split_seeds_and_greedy_assignment() {
    // The most wasteful pair to group is the two far-apart boxes, so they
    // seed the groups; the third box joins the group it would grow least.
    let a = bb((0, 0, 0), (1, 1, 1));
    let b = bb((100, 100, 100), (101, 101, 101));
    let c = bb((1, 0, 0), (2, 1, 1));
    let (lbox, lefts, rbox, rights) = quad_split(vec![a, b, c]);
    assert_eq!(lefts, vec![a, c]);
    assert_eq!(rights, vec![b]);
    assert_eq!(lbox, bb((0, 0, 0), (2, 1, 1)));
    assert_eq!(rbox, b);
}

#[test]
fn quad_split_growth_tie_goes_left() {
    // The third box would grow either group equally; both groups hold one
    // entry, so the tie resolves to the left group.
    let a = bb((0, 0, 0), (1, 1, 1));
    let b = bb((10, 0, 0), (11, 1, 1));
    let c = bb((5, 0, 0), (6, 1, 1));
    let (_, lefts, _, rights) = quad_split(vec![a, b, c]);
    assert_eq!(lefts, vec![a, c]);
    assert_eq!(rights, vec![b]);
}

#[test]
fn best_fit_prefers_smallest_containing_child() {
    let target = bb((4, 4, 4), (5, 5, 5));
    let children = vec![
        bb((0, 0, 0), (100, 100, 100)), // contains, large
        bb((3, 3, 3), (6, 6, 6)),       // contains, small
        bb((4, 4, 4), (6, 6, 6)),       // contains, smaller
        bb((50, 50, 50), (60, 60, 60)), // does not contain
    ];
    assert_eq!(best_fit(target, &children), Some(2));
}

#[test]
fn best_fit_first_containing_child_wins_ties() {
    let target = bb((1, 1, 1), (2, 2, 2));
    let children = vec![
        bb((0, 0, 0), (3, 3, 3)),
        bb((1, 1, 1), (4, 4, 4)), // same volume as the first
    ];
    assert_eq!(best_fit(target, &children), Some(0));
}

#[test]
fn best_fit_falls_back_to_least_growth() {
    let target = bb((10, 0, 0), (12, 2, 2));
    let children = vec![
        bb((0, 0, 0), (2, 2, 2)),   // would grow a lot
        bb((8, 0, 0), (10, 2, 2)),  // adjacent: grows least
        bb((40, 0, 0), (42, 2, 2)), // far away
    ];
    assert_eq!(best_fit(target, &children), Some(1));
}

#[test]
fn best_fit_of_no_children_is_none() {
    let target = bb((0, 0, 0), (1, 1, 1));
    let children: Vec<BBox> = Vec::new();
    assert_eq!(best_fit(target, &children), None);
}

#[test]
fn storage_lengths() {
    let s: NodeStorage<Tagged> = NodeStorage::new_leaf_node(Tagged {
        id: 7,
        bbox: bb((0, 0, 0), (1, 1, 1)),
    });
    assert_eq!(s.shallow_len(), 1);
    assert_eq!(s.deep_len(), 1);
}

#[test]
fn many_inserts_keep_every_node_within_capacity() {
    // A few hundred clustered items: walk the whole tree afterwards and
    // check the capacity invariant on every node.
    let mut tree: RTree<Tagged> = RTree::new();
    let mut k = 0usize;
    for gx in 0..20i32 {
        for gy in 0..20i32 {
            tree.insert(Tagged {
                id: k,
                bbox: bb((gx * 10, gy * 10, 0), (gx * 10 + 5, gy * 10 + 5, 5)),
            });
            k += 1;
        }
    }
    let root = tree.0.as_ref().unwrap();
    check_capacity(root);
    assert_eq!(root.deep_len(), 400);
}

fn check_capacity(node: &RTreeNode<Tagged>) {
    assert!(node.shallow_len() >= 1 && node.shallow_len() <= NODE_SIZE);
    if let NodeStorage::Interior(children) = &node.storage {
        for c in children {
            check_capacity(c);
        }
    }
}
