//! A verified R-tree: a dynamic spatial index of axis-aligned bounding boxes
//! that answers "which stored objects might a ray hit?" by pruning whole
//! subtrees whose bounding volume the ray misses.
//!
//! Every node carries the exact union of the boxes beneath it, holds at most
//! [`NODE_SIZE`] direct children, and all leaves sit at the same depth; these
//! invariants are captured by [`wf_node`] and proved to be preserved by
//! insertion, including quadratic splits and root growth.
pub mod bbox;
pub mod ray;
pub mod vec3;

use vstd::multiset::Multiset;
use vstd::prelude::*;
use vstd::seq_lib::lemma_multiset_commutative;
use vstd::seq_lib::to_multiset_build;

use crate::bbox::{
    lemma_union_all_contains, lemma_union_all_push, lemma_union_all_remove,
    spec_contains, spec_union, spec_union_all, spec_volume, union_bbox, BBox, BoundingBox,
};
use crate::ray::{lemma_hits_monotone, ray_hits, Ray};

verus! {

/// Capacity of a node: a node holding this many direct children or entries
/// is full and must split before it can take another.
pub const NODE_SIZE: usize = 64;

/// The capability every stored item must provide: produce its own
/// axis-aligned bounding box. The tree caches the produced box at insertion
/// time and never recomputes it, so the cached box is the authoritative one
/// for every query; an object that later changes its extent does not move
/// within the index.
pub trait Mbr: Sized {
    /// Computes this item's bounding box.
    fn mbr(&self) -> BBox;
}

/// Represents the result of an insertion: either the item fit (with or
/// without enlarging the node's bounding box), or the node had to split and
/// hands the split-off sibling to the caller.
#[must_use]
pub enum InsertionResult<T> {
    /// The inserted element fit and the bounding box was not changed.
    Fit,
    /// The inserted element fit and the bounding box was changed.
    Expanded,
    /// The inserted element did not fit, so the node was split; the payload
    /// is the new sibling that the caller must adopt.
    Split(T),
}

/// A stored item together with its bounding box, cached at insertion time so
/// traversals and splits never recompute it.
pub struct LeafItem<T> {
    /// The cached box.
    pub bbox: BBox,
    /// The stored item.
    pub item: T,
}

impl<T: Mbr> LeafItem<T> {
    /// Wraps an item, caching its bounding box.
    pub fn new(item: T) -> (e: LeafItem<T>)
        ensures
            e.item == item,
    {
        let bbox = item.mbr();
        LeafItem { bbox, item }
    }
}

impl<T> BoundingBox for LeafItem<T> {
    open spec fn sp_bounding_box(&self) -> BBox {
        self.bbox
    }

    fn bounding_box(&self) -> (b: BBox) {
        self.bbox
    }
}

/// What a node holds: child nodes (interior) or stored entries (leaf).
pub enum NodeStorage<T> {
    /// An interior node's children.
    Interior(Vec<RTreeNode<T>>),
    /// A leaf node's entries.
    Leaf(Vec<LeafItem<T>>),
}

/// A node of the tree: its storage plus the exact union of every box
/// beneath it.
pub struct RTreeNode<T> {
    /// The exact union of every box beneath this node.
    pub bbox: BBox,
    /// The node's children or entries.
    pub storage: NodeStorage<T>,
}

/// The number of direct children or entries.
pub open spec fn storage_len<T>(s: NodeStorage<T>) -> nat {
    match s {
        NodeStorage::Interior(c) => c@.len(),
        NodeStorage::Leaf(v) => v@.len(),
    }
}

/// Every cached box and item beneath a storage, left to right.
pub open spec fn storage_entries<T>(s: NodeStorage<T>) -> Seq<(BBox, T)>
    decreases s,
{
    match s {
        NodeStorage::Interior(c) => entries_upto(c@, c@.len() as int),
        NodeStorage::Leaf(v) => v@.map_values(|e: LeafItem<T>| (e.bbox, e.item)),
    }
}

/// The concatenation of the entries of the first `i` nodes of a sequence.
pub open spec fn entries_upto<T>(ch: Seq<RTreeNode<T>>, i: int) -> Seq<(BBox, T)>
    decreases ch, i,
{
    if i <= 0 || i > ch.len() {
        Seq::empty()
    } else {
        entries_upto(ch, i - 1) + node_entries(ch[i - 1])
    }
}

/// Every cached box and item beneath a node, left to right.
pub open spec fn node_entries<T>(n: RTreeNode<T>) -> Seq<(BBox, T)>
    decreases n,
{
    storage_entries(n.storage)
}

/// The boxes of a node's direct children or entries.
pub open spec fn child_boxes<T>(n: RTreeNode<T>) -> Seq<BBox> {
    match n.storage {
        NodeStorage::Interior(c) => c@.map_values(|m: RTreeNode<T>| m.bbox),
        NodeStorage::Leaf(v) => v@.map_values(|e: LeafItem<T>| e.bbox),
    }
}

/// Height of a node: 1 for a leaf; interior nodes sit one above their
/// children (which a well-formed tree keeps all at the same height).
pub open spec fn height<T>(n: RTreeNode<T>) -> nat
    decreases n,
{
    match n.storage {
        NodeStorage::Leaf(_) => 1,
        NodeStorage::Interior(c) => if c@.len() == 0 {
            1
        } else {
            1 + height(c@[0])
        },
    }
}

/// Structural soundness of a node, except for the count bound on its own
/// direct children: its box is the exact union of its children's boxes, and
/// (for an interior node) every child is fully well-formed and all children
/// have equal height.
pub open spec fn wf_sub<T>(n: RTreeNode<T>) -> bool
    decreases n, 0int,
{
    &&& n.bbox == spec_union_all(child_boxes(n))
    &&& match n.storage {
        NodeStorage::Leaf(_) => true,
        NodeStorage::Interior(c) => {
            &&& forall|i: int| 0 <= i < c@.len() ==> wf_node(#[trigger] c@[i])
            &&& forall|i: int|
                0 <= i < c@.len() ==> height(#[trigger] c@[i]) == height(n) - 1
        },
    }
}

/// Full well-formedness: [`wf_sub`] plus the capacity invariant, non-empty
/// and at most [`NODE_SIZE`] direct children or entries.
pub open spec fn wf_node<T>(n: RTreeNode<T>) -> bool
    decreases n, 1int,
{
    &&& wf_sub(n)
    &&& 1 <= storage_len(n.storage) <= NODE_SIZE
}

impl<T: Mbr> NodeStorage<T> {
    /// A leaf storage holding one freshly wrapped item.
    pub fn new_leaf_node(item: T) -> (s: NodeStorage<T>)
        ensures
            storage_len(s) == 1,
            storage_entries(s).len() == 1,
            storage_entries(s)[0].1 == item,
            s matches NodeStorage::Leaf(v) && v@[0].bbox == storage_entries(s)[0].0,
    {
        let e = LeafItem::new(item);
        let v = vec![e];
        NodeStorage::Leaf(v)
    }
}

impl<T> NodeStorage<T> {
    /// The number of direct children or entries.
    pub fn shallow_len(&self) -> (r: usize)
        ensures
            r == storage_len(*self),
    {
        match *self {
            NodeStorage::Interior(ref vec) => vec.len(),
            NodeStorage::Leaf(ref vec) => vec.len(),
        }
    }

    /// The number of stored items beneath this storage.
    pub fn deep_len(&self) -> (r: usize)
        requires
            storage_entries(*self).len() <= usize::MAX,
        ensures
            r == storage_entries(*self).len(),
        decreases *self,
    {
        match *self {
            NodeStorage::Interior(ref vec) => {
                let ghost ch = vec@;
                let mut acc: usize = 0;
                let mut i: usize = 0;
                proof {
                    lemma_entries_upto_len_monotone(ch, 0, ch.len() as int);
                }
                while i < vec.len()
                    invariant
                        i <= vec.len(),
                        ch == vec@,
                        *self == NodeStorage::Interior(*vec),
                        storage_entries(NodeStorage::Interior(*vec)) == entries_upto(
                            ch,
                            ch.len() as int,
                        ),
                        entries_upto(ch, ch.len() as int).len() <= usize::MAX,
                        acc == entries_upto(ch, i as int).len(),
                    decreases vec.len() - i,
                {
                    proof {
                        broadcast use vstd::seq::axiom_seq_index_decreases;
                        broadcast use vstd::std_specs::vec::axiom_vec_decreases_to_view;

                        lemma_entries_upto_len_monotone(ch, i + 1, ch.len() as int);
                        assert(decreases_to!(*self => *vec));
                        assert(decreases_to!(*vec => ch));
                        assert(decreases_to!(ch => ch[i as int]));
                        assert(decreases_to!(*self => ch[i as int]));
                    }
                    let l = vec[i].deep_len();
                    acc = acc + l;
                    i = i + 1;
                }
                acc
            },
            NodeStorage::Leaf(ref vec) => vec.len(),
        }
    }
}

/// The prefix-entry count never shrinks as the prefix grows.
pub proof fn lemma_entries_upto_len_monotone<T>(ch: Seq<RTreeNode<T>>, i: int, j: int)
    requires
        i <= j <= ch.len(),
    ensures
        entries_upto(ch, i).len() <= entries_upto(ch, j).len(),
    decreases j - i,
{
    if i < j {
        lemma_entries_upto_len_monotone(ch, i, j - 1);
    }
}

/// The boxes denoted by a sequence of box-carrying values.
pub open spec fn sp_boxes<T: BoundingBox>(s: Seq<T>) -> Seq<BBox> {
    s.map_values(|t: T| t.sp_bounding_box())
}

/// How much `b`'s volume grows when `target` is unioned into it.
pub open spec fn spec_growth(b: BBox, target: BBox) -> int {
    spec_volume(spec_union(b, target)) - spec_volume(b)
}

/// The volume wasted by grouping two boxes together: the volume of their
/// union less their own volumes.
pub open spec fn spec_waste(a: BBox, b: BBox) -> int {
    spec_volume(spec_union(a, b)) - spec_volume(a) - spec_volume(b)
}

/// The best-fit choice among `boxes` for `target`: the first smallest-volume
/// box that fully contains the target or, when none contains it, the first
/// box whose volume would grow least if the target were unioned into it.
pub open spec fn is_best_fit(boxes: Seq<BBox>, target: BBox, idx: int) -> bool {
    &&& 0 <= idx < boxes.len()
    &&& if exists|j: int| 0 <= j < boxes.len() && spec_contains(#[trigger] boxes[j], target) {
        &&& spec_contains(boxes[idx], target)
        &&& forall|j: int|
            0 <= j < boxes.len() && spec_contains(#[trigger] boxes[j], target) ==> spec_volume(
                boxes[idx],
            ) <= spec_volume(boxes[j])
        &&& forall|j: int|
            0 <= j < idx && spec_contains(#[trigger] boxes[j], target) ==> spec_volume(boxes[idx])
                < spec_volume(boxes[j])
    } else {
        &&& forall|j: int|
            0 <= j < boxes.len() ==> spec_growth(#[trigger] boxes[j], target) >= spec_growth(
                boxes[idx],
                target,
            )
        &&& forall|j: int|
            0 <= j < idx ==> spec_growth(#[trigger] boxes[j], target) > spec_growth(
                boxes[idx],
                target,
            )
    }
}

/// Lexicographic order on index pairs: `(a, b)` is enumerated before
/// `(i, j)`.
pub open spec fn pair_before(a: int, b: int, i: int, j: int) -> bool {
    a < i || (a == i && b < j)
}

/// How much `target`'s volume grows when `adding` is unioned into it.
fn expansion(target: &BBox, adding: &BBox) -> (e: i128)
    ensures
        e == spec_growth(*target, *adding),
{
    proof {
        crate::bbox::lemma_volume_bound(spec_union(*target, *adding));
        crate::bbox::lemma_volume_bound(*target);
    }
    let u = target.union(adding);
    u.volume() - target.volume()
}

/// The waste of grouping two boxes.
fn waste(a: &BBox, b: &BBox) -> (w: i128)
    ensures
        w == spec_waste(*a, *b),
{
    proof {
        crate::bbox::lemma_volume_bound(spec_union(*a, *b));
        crate::bbox::lemma_volume_bound(*a);
        crate::bbox::lemma_volume_bound(*b);
    }
    let u = a.union(b);
    u.volume() - a.volume() - b.volume()
}

/// Chooses the child to descend into for a target box: the first
/// smallest-volume child that fully contains the target or, failing that,
/// the first child whose volume would grow least. Returns nothing only for
/// an empty candidate sequence.
pub fn best_fit<T: BoundingBox>(target: BBox, children: &[T]) -> (r: Option<usize>)
    ensures
        r is Some <==> children@.len() > 0,
        r matches Some(idx) ==> is_best_fit(sp_boxes(children@), target, idx as int),
{
    let ghost boxes = sp_boxes(children@);
    if children.len() == 0 {
        return None;
    }
    let mut found = false;
    let mut best_idx: usize = 0;
    let mut min_volume: i128 = 0;
    let mut i: usize = 0;
    while i < children.len()
        invariant
            i <= children.len(),
            boxes == sp_boxes(children@),
            boxes.len() == children@.len(),
            found ==> best_idx < i && spec_contains(boxes[best_idx as int], target) && min_volume
                == spec_volume(boxes[best_idx as int]),
            found ==> forall|j: int|
                0 <= j < i && spec_contains(#[trigger] boxes[j], target) ==> spec_volume(boxes[j])
                    >= min_volume,
            found ==> forall|j: int|
                0 <= j < best_idx && spec_contains(#[trigger] boxes[j], target) ==> spec_volume(
                    boxes[j],
                ) > min_volume,
            !found ==> forall|j: int| 0 <= j < i ==> !spec_contains(#[trigger] boxes[j], target),
        decreases children@.len() - i,
    {
        let bbox = children[i].bounding_box();
        let volume = bbox.volume();
        if bbox.contains(&target) && (!found || volume < min_volume) {
            found = true;
            min_volume = volume;
            best_idx = i;
        }
        i = i + 1;
    }
    if found {
        return Some(best_idx);
    }
    let b0 = children[0].bounding_box();
    let mut best_idx: usize = 0;
    let mut best_growth: i128 = expansion(&b0, &target);
    let mut i: usize = 1;
    while i < children.len()
        invariant
            1 <= i <= children.len(),
            boxes == sp_boxes(children@),
            boxes.len() == children@.len(),
            best_idx < i,
            best_growth == spec_growth(boxes[best_idx as int], target),
            forall|j: int|
                0 <= j < i ==> spec_growth(#[trigger] boxes[j], target) >= best_growth,
            forall|j: int|
                0 <= j < best_idx ==> spec_growth(#[trigger] boxes[j], target) > best_growth,
            forall|j: int| 0 <= j < boxes.len() ==> !spec_contains(#[trigger] boxes[j], target),
        decreases children@.len() - i,
    {
        let b = children[i].bounding_box();
        let g = expansion(&b, &target);
        if g < best_growth {
            best_growth = g;
            best_idx = i;
        }
        i = i + 1;
    }
    Some(best_idx)
}

/// The seed choice of a quadratic split: `(a, b)` is the first index pair,
/// in index-ascending enumeration order, whose grouping would waste the
/// most volume. At most one pair satisfies this.
pub open spec fn is_seed_pair(boxes: Seq<BBox>, a: int, b: int) -> bool {
    &&& 0 <= a < b < boxes.len()
    &&& forall|c: int, d: int|
        0 <= c < d < boxes.len() ==> spec_waste(#[trigger] boxes[c], #[trigger] boxes[d])
            <= spec_waste(boxes[a], boxes[b])
    &&& forall|c: int, d: int|
        0 <= c < d < boxes.len() && pair_before(c, d, a, b) ==> spec_waste(
            #[trigger] boxes[c],
            #[trigger] boxes[d],
        ) < spec_waste(boxes[a], boxes[b])
}

/// The greedy rule of a quadratic split: a box joins the left group when
/// the left group's box would grow strictly less than the right's, or on a
/// tie when the left group currently holds no more entries.
pub open spec fn greedy_left(lbox: BBox, rbox: BBox, lcnt: int, rcnt: int, b: BBox) -> bool {
    let el = spec_growth(lbox, b);
    let er = spec_growth(rbox, b);
    el < er || (el == er && lcnt <= rcnt)
}

/// The left/right assignment the greedy pass produces for the remaining
/// boxes, in order, starting from the given group boxes and sizes: `true`
/// marks an entry assigned to the left group.
pub open spec fn greedy_mask(
    rem: Seq<BBox>,
    lbox: BBox,
    rbox: BBox,
    lcnt: int,
    rcnt: int,
) -> Seq<bool>
    decreases rem.len(),
{
    if rem.len() == 0 {
        Seq::empty()
    } else {
        let b = rem[0];
        if greedy_left(lbox, rbox, lcnt, rcnt, b) {
            seq![true] + greedy_mask(rem.drop_first(), spec_union(lbox, b), rbox, lcnt + 1, rcnt)
        } else {
            seq![false] + greedy_mask(rem.drop_first(), lbox, spec_union(rbox, b), lcnt, rcnt + 1)
        }
    }
}

/// The subsequence of `s` at the positions where `mask` equals `which`.
pub open spec fn mask_select<T>(s: Seq<T>, mask: Seq<bool>, which: bool) -> Seq<T>
    decreases s.len(),
{
    if s.len() == 0 || mask.len() == 0 {
        Seq::empty()
    } else {
        let rest = mask_select(s.drop_first(), mask.drop_first(), which);
        if mask[0] == which {
            seq![s[0]] + rest
        } else {
            rest
        }
    }
}

/// Extending the sequence and the mask together extends the selection.
pub proof fn lemma_mask_select_push<T>(s: Seq<T>, mask: Seq<bool>, x: T, v: bool, which: bool)
    requires
        s.len() == mask.len(),
    ensures
        mask_select(s.push(x), mask.push(v), which) == if v == which {
            mask_select(s, mask, which).push(x)
        } else {
            mask_select(s, mask, which)
        },
    decreases s.len(),
{
    if s.len() == 0 {
        assert(s.push(x).drop_first() =~= Seq::<T>::empty());
        assert(mask.push(v).drop_first() =~= Seq::<bool>::empty());
        assert(s.push(x)[0] == x);
        assert(mask.push(v)[0] == v);
        assert(mask_select(Seq::<T>::empty(), Seq::<bool>::empty(), which) == Seq::<T>::empty());
        assert(mask_select(s, mask, which) == Seq::<T>::empty());
        if v == which {
            assert(mask_select(s.push(x), mask.push(v), which) =~= mask_select(
                s,
                mask,
                which,
            ).push(x));
        } else {
            assert(mask_select(s.push(x), mask.push(v), which) =~= mask_select(s, mask, which));
        }
    } else {
        lemma_mask_select_push(s.drop_first(), mask.drop_first(), x, v, which);
        assert(s.push(x).drop_first() =~= s.drop_first().push(x));
        assert(mask.push(v).drop_first() =~= mask.drop_first().push(v));
        assert(s.push(x)[0] == s[0]);
        assert(mask.push(v)[0] == mask[0]);
        if v == which {
            if mask[0] == which {
                assert(mask_select(s.push(x), mask.push(v), which) =~= mask_select(
                    s,
                    mask,
                    which,
                ).push(x));
            } else {
                assert(mask_select(s.push(x), mask.push(v), which) =~= mask_select(
                    s,
                    mask,
                    which,
                ).push(x));
            }
        } else {
            if mask[0] == which {
                assert(mask_select(s.push(x), mask.push(v), which) =~= mask_select(
                    s,
                    mask,
                    which,
                ));
            } else {
                assert(mask_select(s.push(x), mask.push(v), which) =~= mask_select(s, mask, which));
            }
        }
    }
}

/// Picks the two seed entries for a quadratic split: the pair whose grouping
/// would waste the most volume, the first such pair in index-ascending
/// order.
fn pick_seeds<T: BoundingBox>(items: &Vec<T>) -> (r: (usize, usize))
    requires
        items@.len() >= 2,
    ensures
        r.0 < r.1 < items@.len(),
        is_seed_pair(sp_boxes(items@), r.0 as int, r.1 as int),
{
    let ghost boxes = sp_boxes(items@);
    let ba = items[0].bounding_box();
    let bb = items[1].bounding_box();
    let mut best_i: usize = 0;
    let mut best_j: usize = 1;
    let mut best_w: i128 = waste(&ba, &bb);
    let mut i: usize = 0;
    while i < items.len()
        invariant
            items@.len() >= 2,
            boxes == sp_boxes(items@),
            boxes.len() == items@.len(),
            i <= items@.len(),
            best_i < best_j < items@.len(),
            best_w == spec_waste(boxes[best_i as int], boxes[best_j as int]),
            pair_before(best_i as int, best_j as int, i as int, i + 1) || (best_i == i && best_j
                == i + 1),
            forall|a: int, b: int|
                0 <= a < b < boxes.len() && pair_before(a, b, i as int, i + 1) ==> spec_waste(
                    #[trigger] boxes[a],
                    #[trigger] boxes[b],
                ) <= best_w,
            forall|a: int, b: int|
                0 <= a < b < boxes.len() && pair_before(a, b, i as int, i + 1) && pair_before(
                    a,
                    b,
                    best_i as int,
                    best_j as int,
                ) ==> spec_waste(#[trigger] boxes[a], #[trigger] boxes[b]) < best_w,
        decreases items@.len() - i,
    {
        let bi = items[i].bounding_box();
        let mut j: usize = i + 1;
        while j < items.len()
            invariant
                items@.len() >= 2,
                boxes == sp_boxes(items@),
                boxes.len() == items@.len(),
                i < items@.len(),
                i + 1 <= j <= items@.len(),
                bi == boxes[i as int],
                best_i < best_j < items@.len(),
                best_w == spec_waste(boxes[best_i as int], boxes[best_j as int]),
                pair_before(best_i as int, best_j as int, i as int, j as int) || (best_i == i
                    && best_j == j),
                forall|a: int, b: int|
                    0 <= a < b < boxes.len() && pair_before(a, b, i as int, j as int)
                        ==> spec_waste(#[trigger] boxes[a], #[trigger] boxes[b]) <= best_w,
                forall|a: int, b: int|
                    0 <= a < b < boxes.len() && pair_before(a, b, i as int, j as int)
                        && pair_before(a, b, best_i as int, best_j as int) ==> spec_waste(
                        #[trigger] boxes[a],
                        #[trigger] boxes[b],
                    ) < best_w,
            decreases items@.len() - j,
        {
            let bj = items[j].bounding_box();
            let w = waste(&bi, &bj);
            if w > best_w {
                best_i = i;
                best_j = j;
                best_w = w;
            }
            j = j + 1;
        }
        i = i + 1;
    }
    (best_i, best_j)
}

/// The full outcome of a quadratic split of `items`, with seeds `si < sj`:
/// the seeds are the first such pair by greatest waste; the left group is
/// the left seed followed by the remaining entries (in input order) that the
/// greedy rule assigns left, starting from the seeds' boxes and group sizes
/// of one each; the right group holds the right seed and the rest.
pub open spec fn is_quad_split<T: BoundingBox>(
    items: Seq<T>,
    si: int,
    sj: int,
    lefts: Seq<T>,
    rights: Seq<T>,
) -> bool {
    let boxes = sp_boxes(items);
    let rest = items.remove(sj).remove(si);
    let m = greedy_mask(sp_boxes(rest), boxes[si], boxes[sj], 1, 1);
    &&& is_seed_pair(boxes, si, sj)
    &&& lefts == seq![items[si]] + mask_select(rest, m, true)
    &&& rights == seq![items[sj]] + mask_select(rest, m, false)
}

/// Guttman's quadratic split: seeds two groups with the most mutually
/// wasteful pair, then greedily assigns every remaining entry, in input
/// order, to the group whose box would grow least (ties to the smaller
/// group, then to the left group). Returns exactly the groups described by
/// [`is_quad_split`], with their exact bounding boxes; both are non-empty,
/// together they are exactly the input, and the union of the two boxes is
/// the union of all input boxes.
pub fn quad_split<T: BoundingBox>(items: Vec<T>) -> (r: (BBox, Vec<T>, BBox, Vec<T>))
    requires
        items@.len() >= 2,
    ensures
        r.1@.len() >= 1,
        r.3@.len() >= 1,
        r.1@.len() + r.3@.len() == items@.len(),
        r.1@.to_multiset().add(r.3@.to_multiset()) == items@.to_multiset(),
        r.0 == spec_union_all(sp_boxes(r.1@)),
        r.2 == spec_union_all(sp_boxes(r.3@)),
        spec_union(r.0, r.2) == spec_union_all(sp_boxes(items@)),
        exists|si: int, sj: int| #[trigger] is_quad_split(items@, si, sj, r.1@, r.3@),
{
    broadcast use vstd::seq_lib::group_to_multiset_ensures;
    broadcast use vstd::multiset::group_multiset_axioms;

    let ghost orig = items@;
    let ghost oboxes = sp_boxes(orig);
    let (si, sj) = pick_seeds(&items);
    let mut rem = items;
    let itj = rem.remove(sj);
    let iti = rem.remove(si);
    proof {
        vstd::seq_lib::to_multiset_remove(orig, sj as int);
        vstd::seq_lib::to_multiset_remove(orig.remove(sj as int), si as int);
        assert(sp_boxes(orig.remove(sj as int)) =~= oboxes.remove(sj as int));
        assert(sp_boxes(orig.remove(sj as int).remove(si as int)) =~= oboxes.remove(
            sj as int,
        ).remove(si as int));
        vstd::seq_lib::to_multiset_remove(oboxes, sj as int);
        vstd::seq_lib::to_multiset_remove(oboxes.remove(sj as int), si as int);
    }
    let mut lefts: Vec<T> = Vec::new();
    let mut rights: Vec<T> = Vec::new();
    let mut lbox = iti.bounding_box();
    let mut rbox = itj.bounding_box();
    let ghost bsi = lbox;
    let ghost bsj = rbox;
    lefts.push(iti);
    rights.push(itj);
    let ghost mut gp: Seq<BBox> = seq![bsi, bsj];
    let ghost rest0 = orig.remove(sj as int).remove(si as int);
    let ghost restb = sp_boxes(rest0);
    let ghost mut done: Seq<T> = Seq::empty();
    let ghost mut mdone: Seq<bool> = Seq::empty();
    proof {
        assert(rem@ == rest0);
        assert(done + rem@ =~= rest0);
        assert(mdone + greedy_mask(sp_boxes(rem@), lbox, rbox, 1, 1) =~= greedy_mask(
            restb,
            bsi,
            bsj,
            1,
            1,
        ));
        assert(mask_select(done, mdone, true) =~= Seq::<T>::empty());
        assert(mask_select(done, mdone, false) =~= Seq::<T>::empty());
        assert(lefts@ =~= seq![orig[si as int]] + mask_select(done, mdone, true));
        assert(rights@ =~= seq![orig[sj as int]] + mask_select(done, mdone, false));
    }
    proof {
        assert(sp_boxes(lefts@) =~= seq![bsi]);
        assert(sp_boxes(rights@) =~= seq![bsj]);
        crate::bbox::lemma_union_all_singleton(bsi);
        crate::bbox::lemma_union_all_singleton(bsj);
        assert(gp =~= seq![bsi].push(bsj));
        lemma_union_all_push(seq![bsi], bsj);
        assert(spec_union(lbox, rbox) == spec_union_all(gp));
        assert(gp.to_multiset() =~= seq![bsi].push(bsj).to_multiset());
        assert(seq![bsi] =~= Seq::<BBox>::empty().push(bsi));
        assert((lefts@ + rights@) =~= Seq::<T>::empty().push(iti).push(itj));
        assert(bsi == oboxes[si as int]);
        assert(bsj == oboxes[sj as int]);
        assert(gp.to_multiset().add(sp_boxes(rem@).to_multiset()) =~= oboxes.to_multiset());
        assert(iti == orig[si as int]);
        assert(itj == orig[sj as int]);
        assert((lefts@ + rights@).to_multiset().add(rem@.to_multiset()) =~= orig.to_multiset());
    }
    while rem.len() > 0
        invariant
            oboxes == sp_boxes(orig),
            oboxes.len() == orig.len(),
            is_seed_pair(oboxes, si as int, sj as int),
            bsi == oboxes[si as int],
            bsj == oboxes[sj as int],
            rest0 == orig.remove(sj as int).remove(si as int),
            restb == sp_boxes(rest0),
            done.len() == mdone.len(),
            done + rem@ == rest0,
            greedy_mask(restb, bsi, bsj, 1, 1) == mdone + greedy_mask(
                sp_boxes(rem@),
                lbox,
                rbox,
                lefts@.len() as int,
                rights@.len() as int,
            ),
            lefts@ == seq![orig[si as int]] + mask_select(done, mdone, true),
            rights@ == seq![orig[sj as int]] + mask_select(done, mdone, false),
            lbox == spec_union_all(sp_boxes(lefts@)),
            rbox == spec_union_all(sp_boxes(rights@)),
            lefts@.len() >= 1,
            rights@.len() >= 1,
            lefts@.len() + rights@.len() + rem@.len() == orig.len(),
            (lefts@ + rights@).to_multiset().add(rem@.to_multiset()) == orig.to_multiset(),
            spec_union(lbox, rbox) == spec_union_all(gp),
            gp.to_multiset().add(sp_boxes(rem@).to_multiset()) == oboxes.to_multiset(),
        decreases rem@.len(),
    {
        broadcast use vstd::seq_lib::group_to_multiset_ensures;
        broadcast use vstd::multiset::group_multiset_axioms;

        let ghost rem0 = rem@;
        let it = rem.remove(0);
        let ib = it.bounding_box();
        proof {
            vstd::seq_lib::to_multiset_remove(rem0, 0);
            assert(sp_boxes(rem@) =~= sp_boxes(rem0).remove(0));
            vstd::seq_lib::to_multiset_remove(sp_boxes(rem0), 0);
            assert(sp_boxes(rem0)[0] == ib);
        }
        let el = expansion(&lbox, &ib);
        let er = expansion(&rbox, &ib);
        let to_left: bool = if el < er {
            true
        } else if el > er {
            false
        } else {
            lefts.len() <= rights.len()
        };
        proof {
            lemma_union_all_push(gp, ib);
            gp = gp.push(ib);
            assert(to_left == greedy_left(
                lbox,
                rbox,
                lefts@.len() as int,
                rights@.len() as int,
                ib,
            ));
            assert(sp_boxes(rem0).drop_first() =~= sp_boxes(rem@));
            assert(rem0[0] == it);
        }
        if to_left {
            let ghost l0 = lefts@;
            let ghost lb0 = lbox;
            lbox = union_bbox(&lbox, &ib);
            lefts.push(it);
            proof {
                assert(sp_boxes(lefts@) =~= sp_boxes(l0).push(ib));
                lemma_union_all_push(sp_boxes(l0), ib);
                assert((lefts@ + rights@) =~= (l0 + rights@).insert(l0.len() as int, it));
                vstd::seq_lib::to_multiset_insert(l0 + rights@, l0.len() as int, it);
                assert(greedy_mask(
                    sp_boxes(rem0),
                    lb0,
                    rbox,
                    l0.len() as int,
                    rights@.len() as int,
                ) == seq![true] + greedy_mask(
                    sp_boxes(rem0).drop_first(),
                    spec_union(lb0, ib),
                    rbox,
                    l0.len() as int + 1,
                    rights@.len() as int,
                ));
                lemma_mask_select_push(done, mdone, it, true, true);
                lemma_mask_select_push(done, mdone, it, true, false);
                let ghost m0 = mdone;
                let ghost d0 = done;
                done = done.push(it);
                mdone = mdone.push(true);
                assert(done + rem@ =~= rest0);
                assert(m0 + (seq![true] + greedy_mask(
                    sp_boxes(rem@),
                    lbox,
                    rbox,
                    lefts@.len() as int,
                    rights@.len() as int,
                )) =~= mdone + greedy_mask(
                    sp_boxes(rem@),
                    lbox,
                    rbox,
                    lefts@.len() as int,
                    rights@.len() as int,
                ));
                assert(lefts@ =~= seq![orig[si as int]] + mask_select(done, mdone, true));
                assert(rights@ =~= seq![orig[sj as int]] + mask_select(done, mdone, false));
            }
        } else {
            let ghost r0 = rights@;
            let ghost rb0 = rbox;
            rbox = union_bbox(&rbox, &ib);
            rights.push(it);
            proof {
                assert(sp_boxes(rights@) =~= sp_boxes(r0).push(ib));
                lemma_union_all_push(sp_boxes(r0), ib);
                assert((lefts@ + rights@) =~= (lefts@ + r0).push(it));
                assert(greedy_mask(
                    sp_boxes(rem0),
                    lbox,
                    rb0,
                    lefts@.len() as int,
                    r0.len() as int,
                ) == seq![false] + greedy_mask(
                    sp_boxes(rem0).drop_first(),
                    lbox,
                    spec_union(rb0, ib),
                    lefts@.len() as int,
                    r0.len() as int + 1,
                ));
                lemma_mask_select_push(done, mdone, it, false, true);
                lemma_mask_select_push(done, mdone, it, false, false);
                let ghost m0 = mdone;
                done = done.push(it);
                mdone = mdone.push(false);
                assert(done + rem@ =~= rest0);
                assert(m0 + (seq![false] + greedy_mask(
                    sp_boxes(rem@),
                    lbox,
                    rbox,
                    lefts@.len() as int,
                    rights@.len() as int,
                )) =~= mdone + greedy_mask(
                    sp_boxes(rem@),
                    lbox,
                    rbox,
                    lefts@.len() as int,
                    rights@.len() as int,
                ));
                assert(lefts@ =~= seq![orig[si as int]] + mask_select(done, mdone, true));
                assert(rights@ =~= seq![orig[sj as int]] + mask_select(done, mdone, false));
            }
        }
    }
    proof {
        assert(rem@.to_multiset() =~= Multiset::<T>::empty());
        assert(sp_boxes(rem@) =~= Seq::<BBox>::empty());
        assert(sp_boxes(rem@).to_multiset() =~= Multiset::<BBox>::empty());
        assert((lefts@ + rights@).to_multiset() =~= orig.to_multiset());
        assert(lefts@.to_multiset().add(rights@.to_multiset()) == (lefts@
            + rights@).to_multiset()) by {
            lemma_multiset_commutative(lefts@, rights@);
        }
        assert(gp.to_multiset() =~= oboxes.to_multiset());
        crate::bbox::lemma_union_all_permutation(gp, oboxes);
        assert(greedy_mask(
            sp_boxes(rem@),
            lbox,
            rbox,
            lefts@.len() as int,
            rights@.len() as int,
        ) =~= Seq::<bool>::empty());
        assert(greedy_mask(restb, bsi, bsj, 1, 1) =~= mdone);
        assert(done =~= rest0);
        assert(is_quad_split(items@, si as int, sj as int, lefts@, rights@));
    }
    (lbox, lefts, rbox, rights)
}

/// Every entry beneath a sequence of nodes, left to right.
pub open spec fn seq_entries<T>(ch: Seq<RTreeNode<T>>) -> Seq<(BBox, T)> {
    entries_upto(ch, ch.len() as int)
}

/// The entries of a prefix depend only on the nodes in that prefix.
pub proof fn lemma_entries_upto_prefix<T>(s: Seq<RTreeNode<T>>, t: Seq<RTreeNode<T>>, i: int)
    requires
        0 <= i <= s.len(),
        i <= t.len(),
        forall|k: int| 0 <= k < i ==> s[k] == t[k],
    ensures
        entries_upto(s, i) == entries_upto(t, i),
    decreases i,
{
    if i > 0 {
        lemma_entries_upto_prefix(s, t, i - 1);
    }
}

/// Appending a node appends its entries.
pub proof fn lemma_seq_entries_push<T>(s: Seq<RTreeNode<T>>, n: RTreeNode<T>)
    ensures
        seq_entries(s.push(n)) == seq_entries(s) + node_entries(n),
{
    let sp = s.push(n);
    lemma_entries_upto_prefix(sp, s, s.len() as int);
    assert(sp[s.len() as int] == n);
}

/// A sequence's entry multiset contains no entries when the sequence is
/// empty.
proof fn lemma_entries_empty_multiset<A>(s: Seq<A>)
    requires
        s.len() == 0,
    ensures
        s.to_multiset() =~= Multiset::<A>::empty(),
{
    broadcast use vstd::seq_lib::group_to_multiset_ensures;
    broadcast use vstd::multiset::group_multiset_axioms;

    assert forall|x: A| s.to_multiset().count(x) == 0 by {
        if s.to_multiset().count(x) > 0 {
            assert(s.contains(x));
        }
    }
}

/// The entries beneath a concatenation are the entries of both halves.
pub proof fn lemma_seq_entries_concat<T>(a: Seq<RTreeNode<T>>, b: Seq<RTreeNode<T>>)
    ensures
        seq_entries(a + b).to_multiset() == seq_entries(a).to_multiset().add(
            seq_entries(b).to_multiset(),
        ),
    decreases b.len(),
{
    broadcast use vstd::seq_lib::group_to_multiset_ensures;
    broadcast use vstd::multiset::group_multiset_axioms;

    if b.len() == 0 {
        assert(a + b =~= a);
        lemma_entries_empty_multiset(seq_entries(b));
        assert(seq_entries(a + b).to_multiset() =~= seq_entries(a).to_multiset().add(
            seq_entries(b).to_multiset(),
        ));
    } else {
        let bd = b.drop_last();
        let last = b.last();
        assert(a + b =~= (a + bd).push(last));
        lemma_seq_entries_push(a + bd, last);
        lemma_seq_entries_concat(a, bd);
        assert(b =~= bd.push(last));
        lemma_seq_entries_push(bd, last);
        lemma_multiset_commutative(seq_entries(a + bd), node_entries(last));
        lemma_multiset_commutative(seq_entries(bd), node_entries(last));
        assert(seq_entries(a + b).to_multiset() =~= seq_entries(a).to_multiset().add(
            seq_entries(b).to_multiset(),
        ));
    }
}

/// Removing a node removes exactly its entries from the sequence's entry
/// multiset.
pub proof fn lemma_seq_entries_remove<T>(s: Seq<RTreeNode<T>>, j: int)
    requires
        0 <= j < s.len(),
    ensures
        seq_entries(s).to_multiset() == seq_entries(s.remove(j)).to_multiset().add(
            node_entries(s[j]).to_multiset(),
        ),
    decreases s.len(),
{
    broadcast use vstd::multiset::group_multiset_axioms;

    if j == s.len() - 1 {
        assert(s =~= s.remove(j).push(s[j]));
        lemma_seq_entries_push(s.remove(j), s[j]);
        lemma_multiset_commutative(seq_entries(s.remove(j)), node_entries(s[j]));
    } else {
        let sdl = s.drop_last();
        let last = s.last();
        assert(s =~= sdl.push(last));
        lemma_seq_entries_push(sdl, last);
        lemma_multiset_commutative(seq_entries(sdl), node_entries(last));
        lemma_seq_entries_remove(sdl, j);
        assert(s.remove(j) =~= sdl.remove(j).push(last));
        lemma_seq_entries_push(sdl.remove(j), last);
        lemma_multiset_commutative(seq_entries(sdl.remove(j)), node_entries(last));
        assert(seq_entries(s).to_multiset() =~= seq_entries(s.remove(j)).to_multiset().add(
            node_entries(s[j]).to_multiset(),
        ));
    }
}

/// The entry multiset beneath a sequence of nodes depends only on which
/// nodes occur, not on their order.
pub proof fn lemma_seq_entries_permutation<T>(s1: Seq<RTreeNode<T>>, s2: Seq<RTreeNode<T>>)
    requires
        s1.to_multiset() == s2.to_multiset(),
    ensures
        seq_entries(s1).to_multiset() == seq_entries(s2).to_multiset(),
    decreases s1.len(),
{
    broadcast use vstd::seq_lib::group_to_multiset_ensures;
    broadcast use vstd::multiset::group_multiset_axioms;

    if s1.len() == 0 {
        assert(s1.to_multiset().len() == s1.len());
        assert(s2.to_multiset().len() == s2.len());
        assert(s1 =~= s2);
    } else {
        let n = s1.last();
        assert(s1[s1.len() - 1] == n);
        assert(s1.contains(n));
        assert(s2.to_multiset().count(n) > 0);
        assert(s2.contains(n));
        let j = choose|j: int| 0 <= j < s2.len() && s2[j] == n;
        let s1d = s1.drop_last();
        let s2d = s2.remove(j);
        vstd::seq_lib::to_multiset_remove(s1, s1.len() - 1);
        assert(s1d =~= s1.remove(s1.len() - 1));
        vstd::seq_lib::to_multiset_remove(s2, j);
        assert(s1d.to_multiset() == s2d.to_multiset());
        lemma_seq_entries_permutation(s1d, s2d);
        lemma_seq_entries_remove(s2, j);
        assert(s1 =~= s1d.push(n));
        lemma_seq_entries_push(s1d, n);
        lemma_multiset_commutative(seq_entries(s1d), node_entries(n));
        assert(seq_entries(s1).to_multiset() =~= seq_entries(s2).to_multiset());
    }
}

/// Mapping a function over sequences with equal multisets gives equal
/// multisets.
pub proof fn lemma_map_values_multiset<A, B>(s1: Seq<A>, s2: Seq<A>, f: spec_fn(A) -> B)
    requires
        s1.to_multiset() == s2.to_multiset(),
    ensures
        s1.map_values(f).to_multiset() == s2.map_values(f).to_multiset(),
    decreases s1.len(),
{
    broadcast use vstd::seq_lib::group_to_multiset_ensures;
    broadcast use vstd::multiset::group_multiset_axioms;

    if s1.len() == 0 {
        assert(s1.to_multiset().len() == s1.len());
        assert(s2.to_multiset().len() == s2.len());
        assert(s1 =~= s2);
    } else {
        let a = s1.last();
        assert(s1[s1.len() - 1] == a);
        assert(s1.contains(a));
        assert(s2.to_multiset().count(a) > 0);
        assert(s2.contains(a));
        let j = choose|j: int| 0 <= j < s2.len() && s2[j] == a;
        let s1d = s1.drop_last();
        let s2d = s2.remove(j);
        vstd::seq_lib::to_multiset_remove(s1, s1.len() - 1);
        assert(s1d =~= s1.remove(s1.len() - 1));
        vstd::seq_lib::to_multiset_remove(s2, j);
        assert(s1d.to_multiset() == s2d.to_multiset());
        lemma_map_values_multiset(s1d, s2d, f);
        assert(s1d.map_values(f) =~= s1.map_values(f).remove(s1.len() - 1));
        assert(s2d.map_values(f) =~= s2.map_values(f).remove(j));
        vstd::seq_lib::to_multiset_remove(s1.map_values(f), s1.len() - 1);
        vstd::seq_lib::to_multiset_remove(s2.map_values(f), j);
        assert(s1.map_values(f)[s1.len() - 1] == f(a));
        assert(s2.map_values(f)[j] == f(a));
        assert(s1.map_values(f).contains(f(a)));
        assert(s2.map_values(f).contains(f(a)));
        let fa = f(a);
        let m1 = s1.map_values(f).to_multiset();
        let m2 = s2.map_values(f).to_multiset();
        assert forall|y: B| m1.count(y) == m2.count(y) by {
            assert(m1.remove(fa).count(y) == m2.remove(fa).count(y));
            assert(m1.count(fa) > 0);
            assert(m2.count(fa) > 0);
        }
        assert(m1 =~= m2);
    }
}

impl<T: Mbr> Mbr for RTreeNode<T> {
    fn mbr(&self) -> BBox {
        self.bbox
    }
}

impl<T> BoundingBox for RTreeNode<T> {
    open spec fn sp_bounding_box(&self) -> BBox {
        self.bbox
    }

    fn bounding_box(&self) -> (b: BBox) {
        self.bbox
    }
}

impl<T: Mbr> RTreeNode<T> {
    /// A fresh leaf node holding exactly one item.
    pub fn new(item: T) -> (n: RTreeNode<T>)
        ensures
            wf_node(n),
            height(n) == 1,
            node_entries(n).len() == 1,
            node_entries(n)[0].1 == item,
            node_entries(n)[0].0 == n.bbox,
    {
        let e = LeafItem::new(item);
        let bbox = e.bbox;
        let mut v: Vec<LeafItem<T>> = Vec::new();
        v.push(e);
        let n = RTreeNode { bbox, storage: NodeStorage::Leaf(v) };
        proof {
            assert(child_boxes(n) =~= seq![bbox]);
            assert(seq![bbox].drop_last() =~= Seq::<BBox>::empty());
            assert(spec_union_all(seq![bbox].drop_last()) == crate::bbox::spec_empty());
            assert(n.bbox == spec_union_all(child_boxes(n)));
        }
        n
    }
}

/// The two halves of a node split are of the same kind as the original, and
/// their direct children (or entries) are exactly the quadratic split of
/// the original's direct children (or entries): seeds first, the rest
/// assigned by the greedy rule.
pub open spec fn split_halves<T>(o: NodeStorage<T>, a: NodeStorage<T>, c: NodeStorage<T>) -> bool {
    match (o, a, c) {
        (
            NodeStorage::Interior(o0),
            NodeStorage::Interior(a0),
            NodeStorage::Interior(c0),
        ) => exists|si: int, sj: int| #[trigger] is_quad_split(o0@, si, sj, a0@, c0@),
        (NodeStorage::Leaf(o0), NodeStorage::Leaf(a0), NodeStorage::Leaf(c0)) => exists|
            si: int,
            sj: int,
        |
            #[trigger] is_quad_split(o0@, si, sj, a0@, c0@),
        _ => false,
    }
}

impl<T> RTreeNode<T> {
    /// Splits an over-full node in two by quadratic split: `self` keeps the
    /// left group and the returned sibling receives the right group. Both
    /// halves are well-formed, of the original's kind, sit at the original
    /// height; their direct children are exactly the quadratic split of the
    /// original's; together they hold exactly the original entries, and
    /// their boxes union to the original box.
    pub fn split(&mut self) -> (sib: RTreeNode<T>)
        requires
            wf_sub(*old(self)),
            2 <= storage_len(old(self).storage) <= NODE_SIZE + 1,
        ensures
            wf_node(*final(self)),
            wf_node(sib),
            height(*final(self)) == height(*old(self)),
            height(sib) == height(*old(self)),
            node_entries(*final(self)).to_multiset().add(node_entries(sib).to_multiset())
                == node_entries(*old(self)).to_multiset(),
            spec_union(final(self).bbox, sib.bbox) == old(self).bbox,
            storage_len(final(self).storage) + storage_len(sib.storage) == storage_len(
                old(self).storage,
            ),
            split_halves(old(self).storage, final(self).storage, sib.storage),
    {
        broadcast use vstd::seq_lib::group_to_multiset_ensures;
        broadcast use vstd::multiset::group_multiset_axioms;

        let mut storage = NodeStorage::Leaf(Vec::new());
        core::mem::swap(&mut storage, &mut self.storage);
        match storage {
            NodeStorage::Interior(children) => {
                let ghost ch0 = children@;
                proof {
                    assert(old(self).storage == NodeStorage::Interior(children));
                    assert(sp_boxes(ch0) =~= child_boxes(*old(self)));
                }
                let (lb, ls, rb, rs) = quad_split(children);
                let ghost gls = ls@;
                let ghost grs = rs@;
                proof {
                    lemma_multiset_commutative(gls, grs);
                    lemma_seq_entries_permutation(ch0, gls + grs);
                    lemma_seq_entries_concat(gls, grs);
                    assert forall|i: int| 0 <= i < gls.len() implies wf_node(#[trigger] gls[i])
                        && height(gls[i]) == height(*old(self)) - 1 by {
                        assert(gls.contains(gls[i]));
                        assert(gls.to_multiset().count(gls[i]) > 0);
                        assert(ch0.to_multiset().count(gls[i]) > 0);
                        assert(ch0.contains(gls[i]));
                        let k = choose|k: int| 0 <= k < ch0.len() && ch0[k] == gls[i];
                        assert(wf_node(ch0[k]));
                    }
                    assert forall|i: int| 0 <= i < grs.len() implies wf_node(#[trigger] grs[i])
                        && height(grs[i]) == height(*old(self)) - 1 by {
                        assert(grs.contains(grs[i]));
                        assert(grs.to_multiset().count(grs[i]) > 0);
                        assert(ch0.to_multiset().count(grs[i]) > 0);
                        assert(ch0.contains(grs[i]));
                        let k = choose|k: int| 0 <= k < ch0.len() && ch0[k] == grs[i];
                        assert(wf_node(ch0[k]));
                    }
                }
                self.bbox = lb;
                self.storage = NodeStorage::Interior(ls);
                let sib = RTreeNode { bbox: rb, storage: NodeStorage::Interior(rs) };
                proof {
                    assert(child_boxes(*self) =~= sp_boxes(gls));
                    assert(child_boxes(sib) =~= sp_boxes(grs));
                    assert(height(*self) == 1 + height(gls[0]));
                    assert(height(sib) == 1 + height(grs[0]));
                    let (si, sj) = choose|si: int, sj: int| is_quad_split(ch0, si, sj, gls, grs);
                    assert(is_quad_split(ch0, si, sj, gls, grs));
                    assert(split_halves(old(self).storage, self.storage, sib.storage));
                }
                sib
            },
            NodeStorage::Leaf(entries) => {
                let ghost v0 = entries@;
                let ghost f = |e: LeafItem<T>| (e.bbox, e.item);
                proof {
                    assert(old(self).storage == NodeStorage::Leaf(entries));
                    assert(sp_boxes(v0) =~= child_boxes(*old(self)));
                }
                let (lb, ls, rb, rs) = quad_split(entries);
                let ghost gls = ls@;
                let ghost grs = rs@;
                proof {
                    lemma_multiset_commutative(gls, grs);
                    lemma_map_values_multiset(v0, gls + grs, f);
                    assert((gls + grs).map_values(f) =~= gls.map_values(f) + grs.map_values(f));
                    lemma_multiset_commutative(gls.map_values(f), grs.map_values(f));
                }
                self.bbox = lb;
                self.storage = NodeStorage::Leaf(ls);
                let sib = RTreeNode { bbox: rb, storage: NodeStorage::Leaf(rs) };
                proof {
                    assert(child_boxes(*self) =~= sp_boxes(gls));
                    assert(child_boxes(sib) =~= sp_boxes(grs));
                    assert(node_entries(*self) =~= gls.map_values(f));
                    assert(node_entries(sib) =~= grs.map_values(f));
                    assert(node_entries(*old(self)) =~= v0.map_values(f));
                    let (si, sj) = choose|si: int, sj: int| is_quad_split(v0, si, sj, gls, grs);
                    assert(is_quad_split(v0, si, sj, gls, grs));
                    assert(split_halves(old(self).storage, self.storage, sib.storage));
                }
                sib
            },
        }
    }
}

/// A node absorbed the entry `(b, item)` in place, routed per ChooseSubtree:
/// a leaf appended it as its last entry; an interior node handed it to the
/// child that [`is_best_fit`] picks for `b`, and every other child is
/// untouched — that chosen child either absorbed the entry, or it split,
/// with its replacement and the appended sibling together holding exactly
/// its old entries plus the new one.
pub open spec fn step_keeps<T>(o: RTreeNode<T>, b: BBox, item: T, n: RTreeNode<T>) -> bool {
    match (o.storage, n.storage) {
        (NodeStorage::Leaf(v0), NodeStorage::Leaf(vn)) => vn@ == v0@.push(
            (LeafItem { bbox: b, item }),
        ),
        (NodeStorage::Interior(c0), NodeStorage::Interior(cn)) => exists|k: int|
            #[trigger] routed_into(c0@, cn@, k, b, item) && is_best_fit(sp_boxes(c0@), b, k),
        _ => false,
    }
}

/// The entry `(b, item)` went beneath child `k` and nowhere else: all other
/// children are unchanged in place, and either child `k` alone absorbed the
/// entry, or its replacement plus one sibling appended at the end together
/// hold its old entries plus the new one.
pub open spec fn routed_into<T>(
    c0: Seq<RTreeNode<T>>,
    cn: Seq<RTreeNode<T>>,
    k: int,
    b: BBox,
    item: T,
) -> bool {
    &&& 0 <= k < c0.len()
    &&& (cn.len() == c0.len() || cn.len() == c0.len() + 1)
    &&& forall|j: int| 0 <= j < c0.len() && j != k ==> cn[j] == c0[j]
    &&& if cn.len() == c0.len() {
        node_entries(cn[k]).to_multiset() == node_entries(c0[k]).to_multiset().insert((b, item))
    } else {
        node_entries(cn[k]).to_multiset().add(node_entries(cn[c0.len() as int]).to_multiset())
            == node_entries(c0[k]).to_multiset().insert((b, item))
    }
}

/// How a node that reports `Split` relates to its two halves. A full leaf
/// quadratic-splits its old entries plus the new one. A full interior node
/// first routes the entry into the [`is_best_fit`] child — which splits,
/// its two halves standing in place and appended — and then
/// quadratic-splits the resulting over-full child sequence.
pub open spec fn split_step<T>(
    o: RTreeNode<T>,
    b: BBox,
    item: T,
    n: RTreeNode<T>,
    sib: RTreeNode<T>,
) -> bool {
    match o.storage {
        NodeStorage::Leaf(v0) => {
            &&& n.storage matches NodeStorage::Leaf(ln) && sib.storage matches NodeStorage::Leaf(
                rn,
            ) && exists|si: int, sj: int|
                #[trigger] is_quad_split(
                    v0@.push((LeafItem { bbox: b, item })),
                    si,
                    sj,
                    ln@,
                    rn@,
                )
        },
        NodeStorage::Interior(c0) => {
            exists|k: int, c1: RTreeNode<T>, c2: RTreeNode<T>, si: int, sj: int|
                {
                    &&& #[trigger] is_quad_split(
                        c0@.update(k, c1).push(c2),
                        si,
                        sj,
                        n.storage->Interior_0@,
                        sib.storage->Interior_0@,
                    )
                    &&& n.storage is Interior
                    &&& sib.storage is Interior
                    &&& 0 <= k < c0@.len()
                    &&& is_best_fit(sp_boxes(c0@), b, k)
                    &&& node_entries(c1).to_multiset().add(node_entries(c2).to_multiset())
                        == node_entries(c0@[k]).to_multiset().insert((b, item))
                }
        },
    }
}

/// What a node-level insertion guarantees, for the box `b` that was cached
/// for `item` when it was wrapped as an entry: the node stays well-formed at
/// its height; on `Fit` its box is unchanged, on `Expanded` its box is the
/// old box unioned with `b` and differs from the old box; on `Split` the
/// node was at capacity, both halves are well-formed at the original height
/// and their boxes union to the old box unioned with `b`, and the halves
/// are the quadratic split described by [`split_step`]; and in every case
/// the entries afterwards are exactly the entries before plus `(b, item)`,
/// placed as ChooseSubtree directs ([`step_keeps`]).
pub open spec fn post_insert<T>(
    o: RTreeNode<T>,
    b: BBox,
    item: T,
    n: RTreeNode<T>,
    res: InsertionResult<RTreeNode<T>>,
) -> bool {
    match res {
        InsertionResult::Fit => {
            &&& wf_node(n)
            &&& n.bbox == o.bbox
            &&& height(n) == height(o)
            &&& node_entries(n).to_multiset() == node_entries(o).to_multiset().insert((b, item))
            &&& step_keeps(o, b, item, n)
        },
        InsertionResult::Expanded => {
            &&& wf_node(n)
            &&& n.bbox == spec_union(o.bbox, b)
            &&& n.bbox != o.bbox
            &&& height(n) == height(o)
            &&& node_entries(n).to_multiset() == node_entries(o).to_multiset().insert((b, item))
            &&& step_keeps(o, b, item, n)
        },
        InsertionResult::Split(sib) => {
            &&& wf_node(n)
            &&& wf_node(sib)
            &&& height(n) == height(o)
            &&& height(sib) == height(o)
            &&& spec_union(n.bbox, sib.bbox) == spec_union(o.bbox, b)
            &&& node_entries(n).to_multiset().add(node_entries(sib).to_multiset())
                == node_entries(o).to_multiset().insert((b, item))
            &&& storage_len(o.storage) == NODE_SIZE
            &&& split_step(o, b, item, n, sib)
        },
    }
}

impl<T: Mbr> RTreeNode<T> {
    /// Inserts an item beneath this node: computes and caches its bounding
    /// box once, then places the entry as ChooseSubtree directs. Interior
    /// nodes route the entry into the best-fitting child; a node that would
    /// exceed its capacity splits and reports the new sibling upward — in
    /// particular a full leaf always splits.
    pub fn insert(&mut self, item: T) -> (res: InsertionResult<RTreeNode<T>>)
        requires
            wf_node(*old(self)),
        ensures
            exists|b: BBox| #[trigger] post_insert(*old(self), b, item, *final(self), res),
            old(self).storage matches NodeStorage::Leaf(v0) && v0@.len() >= NODE_SIZE ==> res
                is Split,
    {
        let e = LeafItem::new(item);
        let ghost b = e.bbox;
        let res = self.insert_entry(e);
        proof {
            assert(post_insert(*old(self), b, item, *self, res));
        }
        res
    }
}

impl<T> RTreeNode<T> {
    /// Places one already-wrapped entry beneath this node, routing by its
    /// cached box per ChooseSubtree; the workhorse behind
    /// [`RTreeNode::insert`].
    #[verifier::rlimit(100)]
    #[verifier::spinoff_prover]
    fn insert_entry(&mut self, e: LeafItem<T>) -> (res: InsertionResult<RTreeNode<T>>)
        requires
            wf_node(*old(self)),
        ensures
            post_insert(*old(self), e.bbox, e.item, *final(self), res),
            old(self).storage matches NodeStorage::Leaf(v0) && v0@.len() >= NODE_SIZE ==> res
                is Split,
        decreases *old(self),
    {
        broadcast use vstd::seq_lib::group_to_multiset_ensures;
        broadcast use vstd::multiset::group_multiset_axioms;

        let eb = e.bbox;
        let ghost b = e.bbox;
        let ghost gitem = e.item;
        let mut storage = NodeStorage::Leaf(Vec::new());
        core::mem::swap(&mut storage, &mut self.storage);
        match storage {
            NodeStorage::Leaf(mut entries) => {
                let ghost v0 = entries@;
                let ghost f = |e: LeafItem<T>| (e.bbox, e.item);
                proof {
                    assert(old(self).storage == NodeStorage::Leaf(entries));
                }
                let full = entries.len() >= NODE_SIZE;
                let ghost ge = e;
                entries.push(e);
                let nb = union_bbox(&self.bbox, &eb);
                let changed = nb != self.bbox;
                self.bbox = nb;
                self.storage = NodeStorage::Leaf(entries);
                proof {
                    assert(ge == (LeafItem { bbox: b, item: gitem }));
                    assert(child_boxes(*self) =~= sp_boxes(v0).push(b));
                    assert(sp_boxes(v0) =~= child_boxes(*old(self)));
                    lemma_union_all_push(sp_boxes(v0), b);
                    assert(node_entries(*self) =~= v0.map_values(f).push((b, gitem)));
                    assert(node_entries(*old(self)) =~= v0.map_values(f));
                    assert(node_entries(*self).to_multiset() == node_entries(
                        *old(self),
                    ).to_multiset().insert((b, gitem)));
                }
                if !full {
                    proof {
                        assert(step_keeps(*old(self), b, gitem, *self));
                    }
                    if changed {
                        proof {
                            assert(post_insert(
                                *old(self),
                                b,
                                gitem,
                                *self,
                                InsertionResult::Expanded,
                            ));
                        }
                        InsertionResult::Expanded
                    } else {
                        proof {
                            assert(post_insert(*old(self), b, gitem, *self, InsertionResult::Fit));
                        }
                        InsertionResult::Fit
                    }
                } else {
                    let sib = self.split();
                    proof {
                        let (si, sj) = choose|si: int, sj: int|
                            is_quad_split(
                                v0.push(ge),
                                si,
                                sj,
                                self.storage->Leaf_0@,
                                sib.storage->Leaf_0@,
                            );
                        assert(is_quad_split(
                            v0.push(ge),
                            si,
                            sj,
                            self.storage->Leaf_0@,
                            sib.storage->Leaf_0@,
                        ));
                        assert(split_step(*old(self), b, gitem, *self, sib));
                        assert(post_insert(
                            *old(self),
                            b,
                            gitem,
                            *self,
                            InsertionResult::Split(sib),
                        ));
                    }
                    InsertionResult::Split(sib)
                }
            },
            NodeStorage::Interior(children) => {
                let ghost onode = *old(self);
                proof {
                    assert(onode.storage == NodeStorage::Interior(children));
                }
                self.insert_interior(children, e, Ghost(onode))
            },
        }
    }

    /// Routes an entry into one child of an interior node — `self` minus
    /// the `children` taken out of it, with `onode` a ghost copy of the
    /// whole original node — per ChooseSubtree, handling a child's split
    /// and this node's own overflow split.
    #[verifier::rlimit(100)]
    #[verifier::spinoff_prover]
    fn insert_interior(
        &mut self,
        children: Vec<RTreeNode<T>>,
        e: LeafItem<T>,
        Ghost(onode): Ghost<RTreeNode<T>>,
    ) -> (res: InsertionResult<RTreeNode<T>>)
        requires
            wf_node(onode),
            onode.storage == NodeStorage::Interior(children),
            onode.bbox == old(self).bbox,
        ensures
            post_insert(onode, e.bbox, e.item, *final(self), res),
        decreases onode, 0int,
    {
        broadcast use vstd::seq_lib::group_to_multiset_ensures;
        broadcast use vstd::multiset::group_multiset_axioms;

        let mut children = children;
        let eb = e.bbox;
        let ghost b = e.bbox;
        let ghost gitem = e.item;
        let ghost gv: Vec<RTreeNode<T>> = children;
        let ghost ch0 = children@;
        proof {
            assert(onode.storage == NodeStorage::Interior(gv));
            assert(sp_boxes(ch0) =~= child_boxes(onode));
        }
        {
                let r = best_fit(eb, children.as_slice());
                let best = r.unwrap();
                proof {
                    assert(is_best_fit(sp_boxes(ch0), b, best as int));
                    assert((best as int) < ch0.len());
                }
                let mut child = children.remove(best);
                let ghost c = child;
                proof {
                    broadcast use vstd::seq::axiom_seq_index_decreases;
                    broadcast use vstd::std_specs::vec::axiom_vec_decreases_to_view;

                    assert(decreases_to!(onode.storage => gv));
                    assert(decreases_to!(gv => ch0));
                    assert(decreases_to!(ch0 => ch0[best as int]));
                    assert(decreases_to!(onode => child));
                    assert(wf_node(c));
                }
                let cres = child.insert_entry(e);
                proof {
                    assert(post_insert(c, b, gitem, child, cres));
                }
                match cres {
                    InsertionResult::Fit => {
                        children.insert(best, child);
                        let ghost c1 = child;
                        self.storage = NodeStorage::Interior(children);
                        proof {
                            let chn = children@;
                            assert(chn =~= ch0.update(best as int, c1));
                            assert(child_boxes(*self) =~= chn.map_values(
                                |m: RTreeNode<T>| m.bbox,
                            ));
                            assert(chn.map_values(|m: RTreeNode<T>| m.bbox) =~= sp_boxes(ch0));
                            lemma_insert_entries_update(ch0, best as int, c1, (b, gitem));
                            assert forall|i: int| 0 <= i < chn.len() implies wf_node(
                                #[trigger] chn[i],
                            ) && height(chn[i]) == height(onode) - 1 by {
                                if i == best as int {
                                    assert(chn[i] == c1);
                                } else {
                                    assert(chn[i] == ch0[i]);
                                    assert(wf_node(ch0[i]));
                                }
                            }
                            assert(height(*self) == 1 + height(chn[0]));
                            assert(routed_into(ch0, chn, best as int, b, gitem));
                            assert(step_keeps(onode, b, gitem, *self));
                            assert(post_insert(onode, b, gitem, *self, InsertionResult::Fit));
                        }
                        InsertionResult::Fit
                    },
                    InsertionResult::Expanded => {
                        children.insert(best, child);
                        let ghost c1 = child;
                        let nb = crate::bbox::get_bounds_from_objects(&children);
                        let changed = nb != self.bbox;
                        self.bbox = nb;
                        self.storage = NodeStorage::Interior(children);
                        proof {
                            let chn = children@;
                            assert(chn =~= ch0.update(best as int, c1));
                            assert(child_boxes(*self) =~= sp_boxes(chn));
                            lemma_union_all_update_expand(sp_boxes(ch0), best as int, b);
                            assert(sp_boxes(chn) =~= sp_boxes(ch0).update(
                                best as int,
                                spec_union(sp_boxes(ch0)[best as int], b),
                            ));
                            lemma_insert_entries_update(ch0, best as int, c1, (b, gitem));
                            assert forall|i: int| 0 <= i < chn.len() implies wf_node(
                                #[trigger] chn[i],
                            ) && height(chn[i]) == height(onode) - 1 by {
                                if i == best as int {
                                    assert(chn[i] == c1);
                                } else {
                                    assert(chn[i] == ch0[i]);
                                    assert(wf_node(ch0[i]));
                                }
                            }
                            assert(height(*self) == 1 + height(chn[0]));
                            assert(routed_into(ch0, chn, best as int, b, gitem));
                            assert(step_keeps(onode, b, gitem, *self));
                            if changed {
                                assert(post_insert(
                                    onode,
                                    b,
                                    gitem,
                                    *self,
                                    InsertionResult::Expanded,
                                ));
                            } else {
                                assert(post_insert(
                                    onode,
                                    b,
                                    gitem,
                                    *self,
                                    InsertionResult::Fit,
                                ));
                            }
                        }
                        if changed {
                            InsertionResult::Expanded
                        } else {
                            InsertionResult::Fit
                        }
                    },
                    InsertionResult::Split(csib) => {
                        children.insert(best, child);
                        let ghost c1 = child;
                        let ghost c2 = csib;
                        children.push(csib);
                        let ghost chn_all = children@;
                        let over = children.len() > NODE_SIZE;
                        let nb = crate::bbox::get_bounds_from_objects(&children);
                        let changed = nb != self.bbox;
                        self.bbox = nb;
                        self.storage = NodeStorage::Interior(children);
                        proof {
                            let chu = ch0.update(best as int, c1);
                            let chn = children@;
                            assert(chn =~= chu.push(c2));
                            assert(child_boxes(*self) =~= sp_boxes(chn));
                            assert(sp_boxes(chn) =~= sp_boxes(chu).push(c2.bbox));
                            assert(sp_boxes(chu) =~= sp_boxes(ch0).update(
                                best as int,
                                c1.bbox,
                            ));
                            lemma_union_all_push(sp_boxes(chu), c2.bbox);
                            lemma_union_all_update_remove(sp_boxes(ch0), best as int, c1.bbox);
                            lemma_union_all_remove(sp_boxes(ch0), best as int);
                            assert(spec_union(c1.bbox, c2.bbox) == spec_union(
                                sp_boxes(ch0)[best as int],
                                b,
                            ));
                            assert(nb == spec_union(onode.bbox, b));
                            lemma_seq_entries_push(chu, c2);
                            lemma_multiset_commutative(seq_entries(chu), node_entries(c2));
                            lemma_seq_entries_remove(chu, best as int);
                            lemma_seq_entries_remove(ch0, best as int);
                            assert(chu.remove(best as int) =~= ch0.remove(best as int));
                            assert(chu[best as int] == c1);
                            assert(seq_entries(chn).to_multiset() == seq_entries(
                                chu,
                            ).to_multiset().add(node_entries(c2).to_multiset()));
                            assert(seq_entries(chu).to_multiset() == seq_entries(
                                ch0.remove(best as int),
                            ).to_multiset().add(node_entries(c1).to_multiset()));
                            assert(seq_entries(ch0).to_multiset() == seq_entries(
                                ch0.remove(best as int),
                            ).to_multiset().add(node_entries(c).to_multiset()));
                            assert(node_entries(c1).to_multiset().add(
                                node_entries(c2).to_multiset(),
                            ) == node_entries(c).to_multiset().insert((b, gitem)));
                            assert(node_entries(*self).to_multiset() == seq_entries(
                                chn,
                            ).to_multiset());
                            assert(node_entries(onode).to_multiset() == seq_entries(
                                ch0,
                            ).to_multiset());
                            lemma_multiset_split_shuffle(
                                seq_entries(chn).to_multiset(),
                                seq_entries(chu).to_multiset(),
                                seq_entries(ch0).to_multiset(),
                                seq_entries(ch0.remove(best as int)).to_multiset(),
                                node_entries(c1).to_multiset(),
                                node_entries(c2).to_multiset(),
                                node_entries(c).to_multiset(),
                                (b, gitem),
                            );
                            assert forall|i: int| 0 <= i < chn.len() implies wf_node(
                                #[trigger] chn[i],
                            ) && height(chn[i]) == height(onode) - 1 by {
                                if i == best as int {
                                    assert(chn[i] == c1);
                                } else if i == chn.len() - 1 {
                                    assert(chn[i] == c2);
                                } else {
                                    assert(chn[i] == ch0[i]);
                                    assert(wf_node(ch0[i]));
                                }
                            }
                            assert(height(*self) == 1 + height(chn[0]));
                            assert(routed_into(ch0, chn, best as int, b, gitem));
                            assert(step_keeps(onode, b, gitem, *self));
                        }
                        if over {
                            let sib = self.split();
                            proof {
                                let (si, sj) = choose|si: int, sj: int|
                                    is_quad_split(
                                        chn_all,
                                        si,
                                        sj,
                                        self.storage->Interior_0@,
                                        sib.storage->Interior_0@,
                                    );
                                assert(is_quad_split(
                                    chn_all,
                                    si,
                                    sj,
                                    self.storage->Interior_0@,
                                    sib.storage->Interior_0@,
                                ));
                                assert(chn_all == ch0.update(best as int, c1).push(c2));
                                assert(split_step(onode, b, gitem, *self, sib));
                                assert(post_insert(
                                    onode,
                                    b,
                                    gitem,
                                    *self,
                                    InsertionResult::Split(sib),
                                ));
                            }
                            InsertionResult::Split(sib)
                        } else {
                            if changed {
                                proof {
                                    assert(post_insert(
                                        onode,
                                        b,
                                        gitem,
                                        *self,
                                        InsertionResult::Expanded,
                                    ));
                                }
                                InsertionResult::Expanded
                            } else {
                                proof {
                                    assert(post_insert(
                                        onode,
                                        b,
                                        gitem,
                                        *self,
                                        InsertionResult::Fit,
                                    ));
                                }
                                InsertionResult::Fit
                            }
                        }
                    },
                }
        }
    }
}

/// The structural size of the first `i` nodes of a sequence.
pub open spec fn size_upto<T>(ch: Seq<RTreeNode<T>>, i: int) -> nat
    decreases ch, i,
{
    if i <= 0 || i > ch.len() {
        0
    } else {
        size_upto(ch, i - 1) + node_size(ch[i - 1])
    }
}

/// The structural size of a node: the number of nodes and entries beneath
/// it, itself included. A traversal visits no more than this many steps.
pub open spec fn node_size<T>(n: RTreeNode<T>) -> nat
    decreases n,
{
    match n.storage {
        NodeStorage::Leaf(v) => 1 + v@.len(),
        NodeStorage::Interior(c) => 1 + size_upto(c@, c@.len() as int),
    }
}

/// Prefix sizes never shrink as the prefix grows.
pub proof fn lemma_size_upto_monotone<T>(ch: Seq<RTreeNode<T>>, i: int, j: int)
    requires
        i <= j <= ch.len(),
    ensures
        size_upto(ch, i) <= size_upto(ch, j),
    decreases j - i,
{
    if i < j {
        lemma_size_upto_monotone(ch, i, j - 1);
    }
}

/// The remaining work of a node stack: the total structural size of its
/// nodes.
pub open spec fn stack_measure<T>(s: Seq<&RTreeNode<T>>) -> nat
    decreases s.len(),
{
    if s.len() == 0 {
        0
    } else {
        stack_measure(s.drop_last()) + node_size(*s.last())
    }
}

/// Pushing a node onto a stack adds its size to the remaining work.
pub proof fn lemma_stack_measure_push<T>(s: Seq<&RTreeNode<T>>, x: &RTreeNode<T>)
    ensures
        stack_measure(s.push(x)) == stack_measure(s) + node_size(*x),
{
    assert(s.push(x).drop_last() =~= s);
    assert(s.push(x).last() == x);
}

/// A lazy, depth-first traversal of one ray query: an explicit stack of
/// nodes still to visit plus a cursor into the currently open leaf. Yields
/// a reference to each stored item whose cached box the ray hits, pruning
/// every subtree whose bounding box the ray misses.
pub struct Iter<'a, T> {
    /// Nodes still to visit, popped last-in first-out.
    pub stack: Vec<&'a RTreeNode<T>>,
    /// The entry sequence of the currently open leaf, if any.
    pub leaf: Option<&'a Vec<LeafItem<T>>>,
    /// The cursor into the open leaf's entries.
    pub leaf_pos: usize,
    /// The query ray, shared for the whole traversal.
    pub ray: &'a Ray,
    /// The entries of the tree under traversal.
    pub all: Ghost<Multiset<(BBox, T)>>,
}

/// The entries of a sequence whose cached box the ray hits, as a multiset.
pub open spec fn hits_ms<T>(s: Seq<(BBox, T)>, r: Ray) -> Multiset<(BBox, T)>
    decreases s.len(),
{
    if s.len() == 0 {
        Multiset::empty()
    } else {
        let rest = hits_ms(s.drop_last(), r);
        if ray_hits(s.last().0, r) {
            rest.insert(s.last())
        } else {
            rest
        }
    }
}

/// The box-and-item pairs of a leaf's entry vector.
pub open spec fn leaf_entries<T>(v: Seq<LeafItem<T>>) -> Seq<(BBox, T)> {
    v.map_values(|e: LeafItem<T>| (e.bbox, e.item))
}

/// Splitting off the first element of a sequence splits its hit multiset.
pub proof fn lemma_hits_ms_drop_first<T>(s: Seq<(BBox, T)>, r: Ray)
    requires
        s.len() > 0,
    ensures
        hits_ms(s, r) == if ray_hits(s[0].0, r) {
            hits_ms(s.drop_first(), r).insert(s[0])
        } else {
            hits_ms(s.drop_first(), r)
        },
    decreases s.len(),
{
    broadcast use vstd::multiset::group_multiset_axioms;

    if s.len() == 1 {
        assert(s.drop_last() =~= Seq::<(BBox, T)>::empty());
        assert(s.drop_first() =~= Seq::<(BBox, T)>::empty());
        assert(s.last() == s[0]);
    } else {
        let sdl = s.drop_last();
        lemma_hits_ms_drop_first(sdl, r);
        assert(sdl.drop_first() =~= s.drop_first().drop_last());
        assert(s.drop_first().last() == s.last());
        assert(sdl[0] == s[0]);
        if ray_hits(s[0].0, r) && ray_hits(s.last().0, r) {
            assert(hits_ms(s, r) =~= hits_ms(s.drop_first(), r).insert(s[0]));
        } else {
            assert(hits_ms(s, r) =~= if ray_hits(s[0].0, r) {
                hits_ms(s.drop_first(), r).insert(s[0])
            } else {
                hits_ms(s.drop_first(), r)
            });
        }
    }
}

/// The hit multiset of a concatenation is the sum of both halves'.
pub proof fn lemma_hits_ms_concat<T>(a: Seq<(BBox, T)>, b: Seq<(BBox, T)>, r: Ray)
    ensures
        hits_ms(a + b, r) == hits_ms(a, r).add(hits_ms(b, r)),
    decreases b.len(),
{
    broadcast use vstd::multiset::group_multiset_axioms;

    if b.len() == 0 {
        assert(a + b =~= a);
        assert(hits_ms(a + b, r) =~= hits_ms(a, r).add(hits_ms(b, r)));
    } else {
        let bd = b.drop_last();
        lemma_hits_ms_concat(a, bd, r);
        assert((a + b).drop_last() =~= a + bd);
        assert((a + b).last() == b.last());
        assert(hits_ms(a + b, r) =~= hits_ms(a, r).add(hits_ms(b, r)));
    }
}

/// A sequence none of whose entry boxes the ray hits contributes nothing.
pub proof fn lemma_hits_ms_empty<T>(s: Seq<(BBox, T)>, r: Ray)
    requires
        forall|k: int| 0 <= k < s.len() ==> !ray_hits((#[trigger] s[k]).0, r),
    ensures
        hits_ms(s, r) == Multiset::<(BBox, T)>::empty(),
    decreases s.len(),
{
    if s.len() > 0 {
        lemma_hits_ms_empty(s.drop_last(), r);
        assert(s.last() == s[s.len() - 1]);
    }
}

/// Every entry beneath a well-formed node lies within the node's box.
pub proof fn lemma_entries_within<T>(n: RTreeNode<T>)
    requires
        wf_node(n),
    ensures
        forall|k: int|
            0 <= k < node_entries(n).len() ==> spec_contains(
                n.bbox,
                (#[trigger] node_entries(n)[k]).0,
            ),
    decreases n, 1int,
{
    match n.storage {
        NodeStorage::Leaf(v) => {
            assert(node_entries(n).len() == v@.len());
            assert(child_boxes(n).len() == v@.len());
            assert forall|k: int| 0 <= k < node_entries(n).len() implies spec_contains(
                n.bbox,
                (#[trigger] node_entries(n)[k]).0,
            ) by {
                assert(node_entries(n)[k] == (v@[k].bbox, v@[k].item));
                assert(child_boxes(n)[k] == v@[k].bbox);
                lemma_union_all_contains(child_boxes(n), k);
            }
        },
        NodeStorage::Interior(c) => {
            assert forall|j: int| 0 <= j < c@.len() implies wf_node(#[trigger] c@[j])
                && spec_contains(n.bbox, c@[j].bbox) by {
                assert(child_boxes(n)[j] == c@[j].bbox);
                lemma_union_all_contains(child_boxes(n), j);
            }
            lemma_entries_within_upto(c@, c@.len() as int, n.bbox);
            assert(node_entries(n) == entries_upto(c@, c@.len() as int));
            assert forall|k: int| 0 <= k < node_entries(n).len() implies spec_contains(
                n.bbox,
                (#[trigger] node_entries(n)[k]).0,
            ) by {
                assert(entries_upto(c@, c@.len() as int)[k] == node_entries(n)[k]);
            }
        },
    }
}

/// Entries beneath a prefix of well-formed nodes, each contained in a
/// surrounding box, lie within that box.
proof fn lemma_entries_within_upto<T>(ch: Seq<RTreeNode<T>>, i: int, bb: BBox)
    requires
        0 <= i <= ch.len(),
        forall|j: int|
            0 <= j < ch.len() ==> wf_node(#[trigger] ch[j]) && spec_contains(bb, ch[j].bbox),
    ensures
        forall|k: int|
            0 <= k < entries_upto(ch, i).len() ==> spec_contains(
                bb,
                (#[trigger] entries_upto(ch, i)[k]).0,
            ),
    decreases ch, 0int, i,
{
    if i > 0 {
        lemma_entries_within_upto(ch, i - 1, bb);
        lemma_entries_within(ch[i - 1]);
        assert forall|k: int| 0 <= k < entries_upto(ch, i).len() implies spec_contains(
            bb,
            (#[trigger] entries_upto(ch, i)[k]).0,
        ) by {
            let pre = entries_upto(ch, i - 1);
            if k < pre.len() {
                assert(entries_upto(ch, i)[k] == pre[k]);
            } else {
                let e = node_entries(ch[i - 1])[k - pre.len()];
                assert(entries_upto(ch, i)[k] == e);
                assert(spec_contains(ch[i - 1].bbox, e.0));
                crate::bbox::lemma_contains_transitive(bb, ch[i - 1].bbox, e.0);
            }
        }
    }
}

/// A node whose box the ray misses holds no entry whose box the ray hits.
pub proof fn lemma_pruned_node_empty<T>(n: RTreeNode<T>, r: Ray)
    requires
        wf_node(n),
        !ray_hits(n.bbox, r),
    ensures
        hits_ms(node_entries(n), r) == Multiset::<(BBox, T)>::empty(),
{
    lemma_entries_within(n);
    assert forall|k: int| 0 <= k < node_entries(n).len() implies !ray_hits(
        (#[trigger] node_entries(n)[k]).0,
        r,
    ) by {
        if ray_hits(node_entries(n)[k].0, r) {
            lemma_hits_monotone(n.bbox, node_entries(n)[k].0, r);
        }
    }
    lemma_hits_ms_empty(node_entries(n), r);
}

/// The hitting entries still to be delivered by a node stack.
pub open spec fn stack_pending<T>(s: Seq<&RTreeNode<T>>, r: Ray) -> Multiset<(BBox, T)>
    decreases s.len(),
{
    if s.len() == 0 {
        Multiset::empty()
    } else {
        stack_pending(s.drop_last(), r).add(hits_ms(node_entries(*s.last()), r))
    }
}

/// Pushing a node adds its hitting entries to the pending multiset.
pub proof fn lemma_stack_pending_push<T>(s: Seq<&RTreeNode<T>>, x: &RTreeNode<T>, r: Ray)
    ensures
        stack_pending(s.push(x), r) == stack_pending(s, r).add(hits_ms(node_entries(*x), r)),
{
    assert(s.push(x).drop_last() =~= s);
    assert(s.push(x).last() == x);
}

/// Soundness of a traversal state: the ray's sign bits are coherent, every
/// stacked node is well-formed and holds only entries of the tree, and the
/// open leaf's entries are entries of the tree.
pub open spec fn iter_wf<T>(it: Iter<'_, T>) -> bool {
    &&& it.ray.wf()
    &&& forall|i: int|
        0 <= i < it.stack@.len() ==> wf_node(*(#[trigger] it.stack@[i])) && node_entries(
            *it.stack@[i],
        ).to_multiset().subset_of(it.all@)
    &&& match it.leaf {
        Option::Some(v) => {
            &&& it.leaf_pos <= v@.len()
            &&& forall|k: int|
                0 <= k < v@.len() ==> #[trigger] it.all@.count((v@[k].bbox, v@[k].item)) > 0
        },
        Option::None => true,
    }
}

/// The hitting entries a traversal state has yet to deliver: those beneath
/// the stacked nodes plus those at or after the cursor in the open leaf.
pub open spec fn iter_pending<T>(it: Iter<'_, T>) -> Multiset<(BBox, T)> {
    stack_pending(it.stack@, *it.ray).add(
        match it.leaf {
            Option::Some(v) => if it.leaf_pos <= v@.len() {
                hits_ms(leaf_entries(v@).skip(it.leaf_pos as int), *it.ray)
            } else {
                Multiset::empty()
            },
            Option::None => Multiset::empty(),
        },
    )
}

/// One successful step of a traversal: the yielded item is an entry of the
/// tree under a cached box the ray hits, and it is checked off the pending
/// multiset — so a full traversal delivers exactly the hitting entries.
pub open spec fn yield_step<T>(o: Iter<'_, T>, n: Iter<'_, T>, item: T) -> bool {
    exists|bb: BBox|
        #[trigger] o.all@.count((bb, item)) > 0 && ray_hits(bb, *o.ray) && iter_pending(o)
            == iter_pending(n).insert((bb, item))
}

/// The remaining work of a traversal state.
pub open spec fn iter_measure<T>(it: Iter<'_, T>) -> nat {
    stack_measure(it.stack@) + match it.leaf {
        Option::Some(v) => if it.leaf_pos <= v@.len() {
            (v@.len() - it.leaf_pos) as nat
        } else {
            0
        },
        Option::None => 0,
    }
}

impl<'a, T> Iter<'a, T> {
    /// Opens a traversal over one tree for one ray.
    fn new(rtree: &'a RTree<T>, ray: &'a Ray) -> (it: Iter<'a, T>)
        requires
            ray.wf(),
            tree_wf(*rtree),
        ensures
            iter_wf(it),
            it.all@ == tree_entries(*rtree).to_multiset(),
            it.ray == ray,
            iter_pending(it) == hits_ms(tree_entries(*rtree), *ray),
    {
        broadcast use vstd::multiset::group_multiset_axioms;

        let ghost all = tree_entries(*rtree).to_multiset();
        let mut stack: Vec<&'a RTreeNode<T>> = Vec::new();
        match &rtree.0 {
            Some(root) => {
                stack.push(root);
                proof {
                    assert(stack@.drop_last() =~= Seq::<&RTreeNode<T>>::empty());
                    assert(stack_pending(Seq::<&RTreeNode<T>>::empty(), *ray)
                        == Multiset::<(BBox, T)>::empty());
                    assert(stack@.last() == root);
                    assert(stack_pending(stack@, *ray) =~= hits_ms(node_entries(*root), *ray));
                }
            },
            None => {},
        }
        let it = Iter { stack, leaf: None, leaf_pos: 0, ray, all: Ghost(all) };
        proof {
            assert(iter_pending(it) =~= stack_pending(it.stack@, *ray));
        }
        it
    }

    /// Produces the next stored item whose cached box the ray hits, or
    /// nothing once the traversal is exhausted. Every yielded item is an
    /// entry of the tree whose cached box the ray hits, and each successful
    /// step checks one such entry off the pending multiset — so pulling
    /// until exhaustion delivers exactly the hitting entries, each once.
    pub fn next(&mut self) -> (r: Option<&'a T>)
        requires
            iter_wf(*old(self)),
        ensures
            iter_wf(*final(self)),
            final(self).all == old(self).all,
            final(self).ray == old(self).ray,
            r matches Some(x) ==> yield_step(*old(self), *final(self), *x),
            r is None ==> iter_pending(*old(self)) == Multiset::<(BBox, T)>::empty()
                && iter_pending(*final(self)) == Multiset::<(BBox, T)>::empty(),
    {
        broadcast use vstd::seq_lib::group_to_multiset_ensures;
        broadcast use vstd::multiset::group_multiset_axioms;

        loop
            invariant
                iter_wf(*self),
                self.all == old(self).all,
                self.ray == old(self).ray,
                iter_pending(*self) == iter_pending(*old(self)),
            decreases iter_measure(*self),
        {
            let ghost it0 = *self;
            if self.leaf.is_some() {
                let v = self.leaf.unwrap();
                if self.leaf_pos < v.len() {
                    let ghost pos0 = self.leaf_pos as int;
                    let ghost ll = leaf_entries(v@);
                    let e = &v[self.leaf_pos];
                    self.leaf_pos = self.leaf_pos + 1;
                    proof {
                        lemma_hits_ms_drop_first(ll.skip(pos0), *self.ray);
                        assert(ll.skip(pos0)[0] == (e.bbox, e.item));
                        assert(ll.skip(pos0).drop_first() =~= ll.skip(pos0 + 1));
                    }
                    if e.bbox.intersects(self.ray) {
                        proof {
                            assert(old(self).all@.count((e.bbox, e.item)) > 0 && ray_hits(
                                e.bbox,
                                *old(self).ray,
                            ));
                            assert(iter_pending(it0) =~= iter_pending(*self).insert(
                                (e.bbox, e.item),
                            ));
                            assert(yield_step(*old(self), *self, e.item));
                        }
                        return Some(&e.item);
                    }
                    proof {
                        assert(iter_pending(*self) =~= iter_pending(it0));
                    }
                    continue ;
                }
                proof {
                    assert(leaf_entries(v@).skip(v@.len() as int) =~= Seq::<(BBox, T)>::empty());
                }
                self.leaf = None;
                proof {
                    assert(iter_pending(*self) =~= iter_pending(it0));
                }
            }
            let ghost it1 = *self;
            let ghost spre = self.stack@;
            let popped = self.stack.pop();
            match popped {
                None => {
                    proof {
                        assert(iter_pending(it1) =~= Multiset::<(BBox, T)>::empty());
                        assert(iter_pending(*self) =~= Multiset::<(BBox, T)>::empty());
                    }
                    return None;
                },
                Some(node) => {
                    let ghost s0 = self.stack@;
                    proof {
                        assert(s0 =~= spre.drop_last());
                        assert(spre.last() == node);
                        assert(stack_pending(spre, *self.ray) == stack_pending(
                            s0,
                            *self.ray,
                        ).add(hits_ms(node_entries(*node), *self.ray)));
                    }
                    match &node.storage {
                        NodeStorage::Leaf(items) => {
                            self.leaf = Some(items);
                            self.leaf_pos = 0;
                            proof {
                                let f = |e: LeafItem<T>| (e.bbox, e.item);
                                assert forall|k: int| 0 <= k < items@.len() implies #[trigger] self.all@.count(
                                    (items@[k].bbox, items@[k].item),
                                ) > 0 by {
                                    assert(node_entries(*node) =~= items@.map_values(f));
                                    assert(node_entries(*node)[k] == (
                                        items@[k].bbox,
                                        items@[k].item,
                                    ));
                                    assert(node_entries(*node).contains(
                                        (items@[k].bbox, items@[k].item),
                                    ));
                                    node_entries(*node).to_multiset_ensures();
                                    assert(node_entries(*node).to_multiset().count(
                                        (items@[k].bbox, items@[k].item),
                                    ) > 0);
                                }
                                assert(node_entries(*node) =~= leaf_entries(items@));
                                assert(leaf_entries(items@).skip(0) =~= leaf_entries(items@));
                                assert(iter_pending(*self) =~= iter_pending(it1));
                            }
                        },
                        NodeStorage::Interior(children) => {
                            let ghost ch = children@;
                            let ghost base = stack_measure(self.stack@);
                            let ghost base_p = stack_pending(self.stack@, *self.ray);
                            let mut i: usize = 0;
                            proof {
                                assert(stack_pending(self.stack@, *self.ray) =~= base_p.add(
                                    hits_ms(entries_upto(ch, 0), *self.ray),
                                ));
                            }
                            while i < children.len()
                                invariant
                                    iter_wf(*self),
                                    self.all == old(self).all,
                                    self.ray == old(self).ray,
                                    self.leaf is None,
                                    i <= children.len(),
                                    ch == children@,
                                    node.storage == NodeStorage::Interior(*children),
                                    wf_node(*node),
                                    node_entries(*node).to_multiset().subset_of(self.all@),
                                    stack_measure(self.stack@) <= base + size_upto(ch, i as int),
                                    stack_pending(self.stack@, *self.ray) == base_p.add(
                                        hits_ms(entries_upto(ch, i as int), *self.ray),
                                    ),
                                decreases children.len() - i,
                            {
                                proof {
                                    lemma_size_upto_monotone(ch, i + 1, ch.len() as int);
                                    assert(entries_upto(ch, i + 1) == entries_upto(ch, i as int)
                                        + node_entries(ch[i as int]));
                                    lemma_hits_ms_concat(
                                        entries_upto(ch, i as int),
                                        node_entries(ch[i as int]),
                                        *self.ray,
                                    );
                                    assert(wf_node(ch[i as int]));
                                }
                                if children[i].bbox.intersects(self.ray) {
                                    let c = &children[i];
                                    proof {
                                        lemma_stack_measure_push(self.stack@, c);
                                        lemma_stack_pending_push(self.stack@, c, *self.ray);
                                        lemma_seq_entries_remove(ch, i as int);
                                        assert forall|x: (BBox, T)|
                                            node_entries(*c).to_multiset().count(x)
                                                <= self.all@.count(x) by {
                                            assert(seq_entries(ch).to_multiset() == seq_entries(
                                                ch.remove(i as int),
                                            ).to_multiset().add(node_entries(ch[i as int]).to_multiset()));
                                            assert(node_entries(*c).to_multiset().count(x)
                                                <= seq_entries(ch).to_multiset().count(x));
                                            assert(seq_entries(ch).to_multiset().count(x)
                                                <= self.all@.count(x));
                                        }
                                    }
                                    self.stack.push(c);
                                    proof {
                                        assert(stack_pending(self.stack@, *self.ray) =~= base_p.add(
                                            hits_ms(entries_upto(ch, i + 1), *self.ray),
                                        ));
                                    }
                                } else {
                                    proof {
                                        lemma_pruned_node_empty(ch[i as int], *self.ray);
                                        assert(stack_pending(self.stack@, *self.ray) =~= base_p.add(
                                            hits_ms(entries_upto(ch, i + 1), *self.ray),
                                        ));
                                    }
                                }
                                i = i + 1;
                            }
                            proof {
                                assert(node_entries(*node) == entries_upto(ch, ch.len() as int));
                                assert(iter_pending(*self) =~= iter_pending(it1));
                            }
                        },
                    }
                },
            }
        }
    }
}

impl<T: Mbr> RTree<T> {
    /// Opens a lazy ray query: a traversal that yields references to the
    /// stored items whose cached boxes the ray hits, visiting no subtree
    /// whose bounding box the ray misses. Its pending multiset starts as
    /// exactly the tree's hitting entries, so pulling the traversal dry
    /// yields each of them once.
    pub fn iter_ray<'a>(&'a self, ray: &'a Ray) -> (it: Iter<'a, T>)
        requires
            ray.wf(),
            tree_wf(*self),
        ensures
            iter_wf(it),
            it.all@ == tree_entries(*self).to_multiset(),
            it.ray == ray,
            iter_pending(it) == hits_ms(tree_entries(*self), *ray),
    {
        Iter::new(self, ray)
    }
}

/// Rearranges multiset sums: when one part of a whole is replaced by two
/// parts that together hold one extra element, the whole gains exactly that
/// element.
proof fn lemma_multiset_split_shuffle<A>(
    chn: Multiset<A>,
    chu: Multiset<A>,
    ch0: Multiset<A>,
    rm: Multiset<A>,
    m1: Multiset<A>,
    m2: Multiset<A>,
    mc: Multiset<A>,
    x: A,
)
    requires
        chn == chu.add(m2),
        chu == rm.add(m1),
        ch0 == rm.add(mc),
        m1.add(m2) == mc.insert(x),
    ensures
        chn == ch0.insert(x),
{
    broadcast use vstd::multiset::group_multiset_axioms;

    assert forall|y: A| chn.count(y) == ch0.insert(x).count(y) by {
        assert(chn.count(y) == chu.count(y) + m2.count(y));
        assert(chu.count(y) == rm.count(y) + m1.count(y));
        assert(ch0.count(y) == rm.count(y) + mc.count(y));
        assert(m1.add(m2).count(y) == mc.insert(x).count(y));
        assert(m1.add(m2).count(y) == m1.count(y) + m2.count(y));
        assert(mc.insert(x).count(y) == mc.count(y) + Multiset::singleton(x).count(y));
        assert(ch0.insert(x).count(y) == ch0.count(y) + Multiset::singleton(x).count(y));
    }
    assert(chn =~= ch0.insert(x));
}

/// Replacing one node of a sequence with a node holding the same entries
/// plus one more adds exactly that entry to the sequence's entry multiset.
proof fn lemma_insert_entries_update<T>(
    ch: Seq<RTreeNode<T>>,
    k: int,
    c1: RTreeNode<T>,
    entry: (BBox, T),
)
    requires
        0 <= k < ch.len(),
        node_entries(c1).to_multiset() == node_entries(ch[k]).to_multiset().insert(entry),
    ensures
        seq_entries(ch.update(k, c1)).to_multiset() == seq_entries(ch).to_multiset().insert(entry),
{
    broadcast use vstd::multiset::group_multiset_axioms;

    let chn = ch.update(k, c1);
    lemma_seq_entries_remove(chn, k);
    lemma_seq_entries_remove(ch, k);
    assert(chn.remove(k) =~= ch.remove(k));
    assert(chn[k] == c1);
    assert(seq_entries(chn).to_multiset() =~= seq_entries(ch).to_multiset().insert(entry));
}

/// Expanding one box of a sequence by a second box expands the sequence's
/// union by that box.
proof fn lemma_union_all_update_expand(s: Seq<BBox>, k: int, b: BBox)
    requires
        0 <= k < s.len(),
    ensures
        spec_union_all(s.update(k, spec_union(s[k], b))) == spec_union(spec_union_all(s), b),
{
    let sn = s.update(k, spec_union(s[k], b));
    lemma_union_all_remove(sn, k);
    lemma_union_all_remove(s, k);
    assert(sn.remove(k) =~= s.remove(k));
}

/// Replacing one box of a sequence relates the new union to the union of
/// the rest and the new box.
proof fn lemma_union_all_update_remove(s: Seq<BBox>, k: int, nb: BBox)
    requires
        0 <= k < s.len(),
    ensures
        spec_union_all(s.update(k, nb)) == spec_union(spec_union_all(s.remove(k)), nb),
{
    let sn = s.update(k, nb);
    lemma_union_all_remove(sn, k);
    assert(sn.remove(k) =~= s.remove(k));
}

/// The R-tree: an optional root node. Height grows only when the root
/// itself splits, in which case a new interior root adopts the two halves.
pub struct RTree<T>(pub Option<RTreeNode<T>>);

/// Well-formedness of a tree: its root, if any, is a well-formed node.
pub open spec fn tree_wf<T>(t: RTree<T>) -> bool {
    match t.0 {
        Option::Some(n) => wf_node(n),
        Option::None => true,
    }
}

/// Every cached box and item stored in the tree.
pub open spec fn tree_entries<T>(t: RTree<T>) -> Seq<(BBox, T)> {
    match t.0 {
        Option::Some(n) => node_entries(n),
        Option::None => Seq::empty(),
    }
}

/// The height of the tree: 0 when empty.
pub open spec fn tree_height<T>(t: RTree<T>) -> nat {
    match t.0 {
        Option::Some(n) => height(n),
        Option::None => 0,
    }
}

/// After an insertion the tree holds exactly the old entries plus the new
/// item under its cached box.
pub open spec fn tree_inserted<T>(o: RTree<T>, b: BBox, item: T, n: RTree<T>) -> bool {
    tree_entries(n).to_multiset() == tree_entries(o).to_multiset().insert((b, item))
}

/// The root overflowed and split: the tree's new root is an interior node
/// holding exactly the two split halves, its box is their union, and it
/// stands one level above the old root `rt`.
pub open spec fn root_grew<T>(rt: RTreeNode<T>, t: RTree<T>) -> bool {
    match t.0 {
        Option::Some(nr) => match nr.storage {
            NodeStorage::Interior(nc) => {
                &&& nc@.len() == 2
                &&& nr.bbox == spec_union(nc@[0].bbox, nc@[1].bbox)
                &&& height(nr) == height(rt) + 1
            },
            _ => false,
        },
        Option::None => false,
    }
}

impl<T: Mbr> RTree<T> {
    /// An empty tree.
    pub fn new() -> (t: RTree<T>)
        ensures
            tree_wf(t),
            tree_entries(t) == Seq::<(BBox, T)>::empty(),
            tree_height(t) == 0,
    {
        RTree(None)
    }

    /// Inserts an item. The tree stays well-formed — so no node ever holds
    /// more than [`NODE_SIZE`] direct children and all leaves stay at one
    /// depth — and the entries grow by exactly the new item under its
    /// cached box. The height grows by at most one: when it grows, the old
    /// root was at capacity and the new root is an interior node holding
    /// exactly the two split halves, its box their union ([`root_grew`]);
    /// and a full leaf root always overflows, so the 65th insertion into a
    /// tree built as a single full leaf grows the height.
    pub fn insert(&mut self, item: T)
        requires
            tree_wf(*old(self)),
        ensures
            tree_wf(*final(self)),
            exists|b: BBox| #[trigger] tree_inserted(*old(self), b, item, *final(self)),
            old(self).0 is None ==> tree_height(*final(self)) == 1,
            old(self).0 is Some ==> tree_height(*old(self)) <= tree_height(*final(self))
                <= tree_height(*old(self)) + 1,
            match old(self).0 {
                Option::Some(rt) => tree_height(*final(self)) > tree_height(*old(self))
                    ==> storage_len(rt.storage) == NODE_SIZE && root_grew(rt, *final(self)),
                Option::None => true,
            },
            match old(self).0 {
                Option::Some(rt) => rt.storage matches NodeStorage::Leaf(v0) && v0@.len()
                    >= NODE_SIZE ==> tree_height(*final(self)) == tree_height(*old(self)) + 1,
                Option::None => true,
            },
    {
        broadcast use vstd::seq_lib::group_to_multiset_ensures;
        broadcast use vstd::multiset::group_multiset_axioms;

        if self.0.is_none() {
            let n = RTreeNode::new(item);
            let ghost b = node_entries(n)[0].0;
            self.0 = Some(n);
            proof {
                assert(node_entries(n) =~= Seq::empty().push((b, item)));
                assert(tree_inserted(*old(self), b, item, *self));
            }
            return ;
        }
        let mut node = self.0.take().unwrap();
        let ghost root0 = node;
        let res = node.insert(item);
        let ghost b = choose|b: BBox| post_insert(root0, b, item, node, res);
        match res {
            InsertionResult::Fit => {
                self.0 = Some(node);
                proof {
                    assert(tree_inserted(*old(self), b, item, *self));
                    assert(tree_height(*self) == tree_height(*old(self)));
                }
            },
            InsertionResult::Expanded => {
                self.0 = Some(node);
                proof {
                    assert(tree_inserted(*old(self), b, item, *self));
                    assert(tree_height(*self) == tree_height(*old(self)));
                }
            },
            InsertionResult::Split(sib) => {
                let ghost n1 = node;
                let ghost n2 = sib;
                let bb = union_bbox(&node.bbox, &sib.bbox);
                let mut children: Vec<RTreeNode<T>> = Vec::new();
                children.push(node);
                children.push(sib);
                let root = RTreeNode { bbox: bb, storage: NodeStorage::Interior(children) };
                self.0 = Some(root);
                proof {
                    let ch = seq![n1, n2];
                    assert(children@ =~= ch);
                    assert(child_boxes(root) =~= seq![n1.bbox].push(n2.bbox));
                    crate::bbox::lemma_union_all_singleton(n1.bbox);
                    assert(seq![n1.bbox].push(n2.bbox).drop_last() =~= seq![n1.bbox]);
                    assert(root.bbox == spec_union_all(child_boxes(root)));
                    assert forall|i: int| 0 <= i < ch.len() implies wf_node(#[trigger] ch[i])
                        && height(ch[i]) == height(root) - 1 by {
                        assert(height(root) == 1 + height(n1));
                    }
                    assert(wf_node(root));
                    assert(node_entries(root) == seq_entries(ch));
                    assert(ch =~= seq![n1].push(n2));
                    lemma_seq_entries_push(seq![n1], n2);
                    assert(seq![n1] =~= Seq::empty().push(n1));
                    lemma_seq_entries_push(Seq::empty(), n1);
                    lemma_entries_empty_multiset(seq_entries(Seq::<RTreeNode<T>>::empty()));
                    lemma_multiset_commutative(seq_entries(seq![n1]), node_entries(n2));
                    lemma_multiset_commutative(
                        seq_entries(Seq::<RTreeNode<T>>::empty()),
                        node_entries(n1),
                    );
                    assert(node_entries(root).to_multiset() =~= node_entries(
                        n1,
                    ).to_multiset().add(node_entries(n2).to_multiset()));
                    assert(tree_inserted(*old(self), b, item, *self));
                    assert(tree_height(*self) == height(root0) + 1);
                    assert(children@[0] == n1 && children@[1] == n2);
                    assert(root_grew(root0, *self));
                }
            },
        }
    }
}

impl<T> RTreeNode<T> {
    /// Whether this node is at capacity.
    pub fn is_full(&self) -> (r: bool)
        ensures
            r == (storage_len(self.storage) >= NODE_SIZE),
    {
        NODE_SIZE <= self.storage.shallow_len()
    }

    /// The number of direct children or entries.
    pub fn shallow_len(&self) -> (r: usize)
        ensures
            r == storage_len(self.storage),
    {
        self.storage.shallow_len()
    }

    /// The number of stored items beneath this node.
    pub fn deep_len(&self) -> (r: usize)
        requires
            node_entries(*self).len() <= usize::MAX,
        ensures
            r == node_entries(*self).len(),
        decreases *self,
    {
        self.storage.deep_len()
    }
}

} // verus!
