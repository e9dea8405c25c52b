//! K-d tree: a binary tree over an arena of primitives. Nodes split on a
//! cycling axis at the median of the members' bound coordinates; a member
//! straddling the split plane is referenced by both children — a
//! duplicate-reference partition, never an error.

use vstd::prelude::*;
use vstd::assert_sets_equal;
use crate::geometry::{Ray, AABBox, Intersect, hit_matches};
use crate::object::{Primitive, copy_prims};
use crate::vec3::{Vec3, dist2_s};
use crate::space_partition::{
    SpacePartition, keep, lemma_keep_push, lemma_keep_contains, objects_ok,
};

verus! {

pub const MIN_OBJECTS_IN_LEAF: usize = 32;

/// Tree where every non-leaf divides the space into two regions
/// using an axis-aligned plane
pub struct KdTree {
    pub root: Node,
    pub objects: Vec<Primitive>,
}

pub enum Node {
    /// Partitioned node
    Branch(AABBox, Box<Node>, Box<Node>),
    /// Leaf with objects (vec of indexes)
    Leaf(AABBox, Vec<usize>),
}

pub open spec fn node_box(n: Node) -> AABBox {
    match n {
        Node::Branch(b, _, _) => b,
        Node::Leaf(b, _) => b,
    }
}

/// Well-formed boxes throughout; every leaf index points into the arena;
/// and every node's box encloses its members — a branch box contains both
/// children's boxes, a leaf box the bounds of each referenced member.
pub open spec fn node_wf(n: Node, objects: Seq<Primitive>) -> bool
    decreases n,
{
    match n {
        Node::Branch(b, l, r) => b.wf() && node_wf(*l, objects) && node_wf(*r, objects)
            && b.contains_box(node_box(*l)) && b.contains_box(node_box(*r)),
        Node::Leaf(b, idxs) => b.wf() && forall|i: int|
            0 <= i < idxs@.len() ==> (#[trigger] idxs@[i]) < objects.len() && b.contains_box(
                objects[idxs@[i] as int].bounds_model(),
            ),
    }
}

/// The set of arena indices the tree's leaves reference.
pub open spec fn node_indices(n: Node) -> Set<usize>
    decreases n,
{
    match n {
        Node::Branch(_, l, r) => node_indices(*l).union(node_indices(*r)),
        Node::Leaf(_, idxs) => idxs@.to_set(),
    }
}

/// Some member of the arena admits the hit under its own jitter law.
pub open spec fn member_dir_ok(objects: Seq<Primitive>, ray: Ray, h: Ray) -> bool {
    exists|i: int| 0 <= i < objects.len() && (#[trigger] objects[i]).dir_ok(ray, h)
}

/// The nearest hit of a leaf's first `k` members, scanned in order; of two
/// hits at equal distance the later member stands, as in a minimum scan
/// that replaces on equality.
pub open spec fn leaf_fold(objects: Seq<Primitive>, idxs: Seq<usize>, ray: Ray, k: int) -> Option<
    Ray,
>
    decreases k,
{
    if k <= 0 || k > idxs.len() {
        Option::None
    } else {
        let prev = leaf_fold(objects, idxs, ray, k - 1);
        let cur = objects[idxs[k - 1] as int].hit_model(ray);
        match (prev, cur) {
            (_, Option::None) => prev,
            (Option::None, _) => cur,
            (Option::Some(hp), Option::Some(hc)) => if dist2_s(ray.origin, hc.origin) <= dist2_s(
                ray.origin,
                hp.origin,
            ) {
                cur
            } else {
                prev
            },
        }
    }
}

/// The traversal model: nothing if the ray misses the node's box; at a
/// branch the nearer of the two children's results, the left child winning
/// ties; at a leaf the nearest member hit.
pub open spec fn node_hit(n: Node, objects: Seq<Primitive>, ray: Ray) -> Option<Ray>
    decreases n,
{
    if !node_box(n).slab_hit(ray) {
        Option::None
    } else {
        match n {
            Node::Branch(_, l, r) => {
                let lh = node_hit(*l, objects, ray);
                let rh = node_hit(*r, objects, ray);
                match (lh, rh) {
                    (Option::Some(hl), Option::Some(hr)) => if dist2_s(ray.origin, hl.origin)
                        <= dist2_s(ray.origin, hr.origin) {
                        lh
                    } else {
                        rh
                    },
                    (Option::Some(_), Option::None) => lh,
                    (Option::None, _) => rh,
                }
            },
            Node::Leaf(_, idxs) => leaf_fold(objects, idxs@, ray, idxs@.len() as int),
        }
    }
}

/// A coordinate by axis number: x, y, z.
pub open spec fn axis_s(v: Vec3, axis: int) -> int {
    if axis == 0 {
        v.x as int
    } else if axis == 1 {
        v.y as int
    } else {
        v.z as int
    }
}

fn axis_coord(v: Vec3, axis: usize) -> (r: i128)
    requires
        axis < 3,
    ensures
        r as int == axis_s(v, axis as int),
{
    if axis == 0 {
        v.x
    } else if axis == 1 {
        v.y
    } else {
        v.z
    }
}

/// Membership test of the left part: bound minimum at or below the median.
pub open spec fn left_pred(objects: Seq<Primitive>, axis: int, median: i128) -> spec_fn(
    usize,
) -> bool {
    |u: usize| axis_s(objects[u as int].bounds_model().min, axis) <= median as int
}

/// Membership test of the right part: bound maximum at or above the median.
pub open spec fn right_pred(objects: Seq<Primitive>, axis: int, median: i128) -> spec_fn(
    usize,
) -> bool {
    |u: usize| axis_s(objects[u as int].bounds_model().max, axis) >= median as int
}

pub open spec fn sorted(s: Seq<i128>) -> bool {
    forall|i: int, j: int| 0 <= i <= j < s.len() ==> s[i] <= s[j]
}

/// The arena indices `0, 1, …, n-1` in order.
pub open spec fn identity_idxs(n: int) -> Seq<usize> {
    Seq::new(n as nat, |i: int| i as usize)
}

/// The union of the bounds of the first `k` referenced members.
pub open spec fn merged_box(objects: Seq<Primitive>, idxs: Seq<usize>, k: int) -> AABBox
    decreases k,
{
    if k <= 1 || k > idxs.len() {
        objects[idxs[0] as int].bounds_model()
    } else {
        merged_box(objects, idxs, k - 1).merge_s(objects[idxs[k - 1] as int].bounds_model())
    }
}

/// The merged box of the first `k` members contains each one's bounds.
proof fn lemma_merged_contains(objects: Seq<Primitive>, idxs: Seq<usize>, k: int, i: int)
    requires
        0 <= i < k <= idxs.len(),
    ensures
        merged_box(objects, idxs, k).contains_box(objects[idxs[i] as int].bounds_model()),
    decreases k,
{
    if k > 1 && i < k - 1 {
        lemma_merged_contains(objects, idxs, k - 1, i);
    }
}

/// A box containing the bounds of the first `k` members contains their
/// merged box.
proof fn lemma_merged_within(objects: Seq<Primitive>, idxs: Seq<usize>, k: int, big: AABBox)
    requires
        1 <= k <= idxs.len(),
        forall|i: int|
            0 <= i < k ==> big.contains_box(objects[(#[trigger] idxs[i]) as int].bounds_model()),
    ensures
        big.contains_box(merged_box(objects, idxs, k)),
    decreases k,
{
    if k > 1 {
        lemma_merged_within(objects, idxs, k - 1, big);
    }
}

/// The bounding box a primitive reports is well-formed.
proof fn lemma_bounds_model_wf(p: Primitive)
    requires
        p.wf(),
    ensures
        p.bounds_model().wf(),
{
}

fn copy_usizes(v: &Vec<usize>) -> (r: Vec<usize>)
    ensures
        r@ == v@,
{
    let mut out: Vec<usize> = Vec::new();
    let mut k: usize = 0;
    while k < v.len()
        invariant
            0 <= k <= v@.len(),
            out@ == v@.take(k as int),
        decreases v@.len() - k as int,
    {
        out.push(v[k]);
        proof {
            assert(v@.take(k as int + 1) =~= v@.take(k as int).push(v@[k as int]));
        }
        k = k + 1;
    }
    proof {
        assert(v@.take(v@.len() as int) =~= v@);
    }
    out
}

/// Sort by repeated selection of the minimum: the result is an ordered
/// rearrangement of the input.
fn sort_scalars(v: Vec<i128>) -> (r: Vec<i128>)
    ensures
        r@.to_multiset() == v@.to_multiset(),
        sorted(r@),
        r@.len() == v@.len(),
{
    proof {
        broadcast use vstd::seq_lib::group_to_multiset_ensures;

    }
    let mut rest = v;
    let mut out: Vec<i128> = Vec::new();
    while rest.len() > 0
        invariant
            out@.to_multiset().add(rest@.to_multiset()) == v@.to_multiset(),
            sorted(out@),
            forall|i: int, j: int|
                0 <= i < out@.len() && 0 <= j < rest@.len() ==> out@[i] <= rest@[j],
            out@.len() + rest@.len() == v@.len(),
        decreases rest@.len(),
    {
        let mut mi: usize = 0;
        let mut k: usize = 1;
        while k < rest.len()
            invariant
                0 <= mi < rest@.len(),
                1 <= k <= rest@.len(),
                forall|j: int| 0 <= j < k as int ==> rest@[mi as int] <= rest@[j],
            decreases rest@.len() - k as int,
        {
            if rest[k] < rest[mi] {
                mi = k;
            }
            k = k + 1;
        }
        let ghost old_rest = rest@;
        let x = rest.remove(mi);
        out.push(x);
        proof {
            broadcast use vstd::seq_lib::group_to_multiset_ensures;

            assert(rest@ == old_rest.remove(mi as int));
            assert(rest@.to_multiset() =~= old_rest.to_multiset().remove(x));
            assert(old_rest.to_multiset().contains(x)) by {
                assert(old_rest[mi as int] == x);
                assert(old_rest.contains(x));
            }
            assert(out@.to_multiset().add(rest@.to_multiset()) =~= v@.to_multiset());
            assert forall|i: int, j: int|
                0 <= i < out@.len() && 0 <= j < rest@.len() implies out@[i] <= rest@[j] by {
                if i < out@.len() - 1 {
                    if j < mi as int {
                        assert(rest@[j] == old_rest[j]);
                    } else {
                        assert(rest@[j] == old_rest[j + 1]);
                    }
                } else {
                    assert(out@[i] == x);
                    if j < mi as int {
                        assert(rest@[j] == old_rest[j]);
                    } else {
                        assert(rest@[j] == old_rest[j + 1]);
                    }
                }
            }
        }
    }
    out
}

/// The median of the combined multiset of all members' minimum and maximum
/// coordinates along the axis: the middle element in sorted order.
fn median_coord(all_objects: &Vec<Primitive>, object_idxs: &Vec<usize>, axis: usize) -> (r: i128)
    requires
        1 <= object_idxs@.len(),
        forall|i: int|
            0 <= i < object_idxs@.len() ==> (#[trigger] object_idxs@[i]) < all_objects@.len(),
        objects_ok(all_objects@),
        axis < 3,
{
    let mut vals: Vec<i128> = Vec::new();
    let mut k: usize = 0;
    while k < object_idxs.len()
        invariant
            0 <= k <= object_idxs@.len(),
            vals@.len() == 2 * k as int,
            forall|i: int|
                0 <= i < object_idxs@.len() ==> (#[trigger] object_idxs@[i])
                    < all_objects@.len(),
            objects_ok(all_objects@),
            axis < 3,
        decreases object_idxs@.len() - k as int,
    {
        let b = all_objects[object_idxs[k]].bounds();
        vals.push(axis_coord(b.min, axis));
        vals.push(axis_coord(b.max, axis));
        k = k + 1;
    }
    let sorted_vals = sort_scalars(vals);
    let mid = sorted_vals.len() / 2;
    assert(mid < sorted_vals@.len());
    sorted_vals[mid]
}

#[verifier::rlimit(100)]
fn build_node(all_objects: &Vec<Primitive>, object_idxs: &Vec<usize>, current_axis: usize) -> (r:
    Node)
    requires
        1 <= object_idxs@.len(),
        forall|i: int|
            0 <= i < object_idxs@.len() ==> (#[trigger] object_idxs@[i]) < all_objects@.len(),
        objects_ok(all_objects@),
        current_axis < 3,
    ensures
        node_wf(r, all_objects@),
        node_indices(r) == object_idxs@.to_set(),
        node_box(r) == merged_box(all_objects@, object_idxs@, object_idxs@.len() as int),
        object_idxs@.len() < MIN_OBJECTS_IN_LEAF as int ==> (r matches Node::Leaf(b, ids)
            && ids@ == object_idxs@),
    decreases object_idxs@.len(),
{
    let mut bbox = all_objects[object_idxs[0]].bounds();
    let mut i: usize = 1;
    while i < object_idxs.len()
        invariant
            1 <= i <= object_idxs@.len(),
            bbox.wf(),
            bbox == merged_box(all_objects@, object_idxs@, i as int),
            forall|t: int|
                0 <= t < object_idxs@.len() ==> (#[trigger] object_idxs@[t])
                    < all_objects@.len(),
            objects_ok(all_objects@),
        decreases object_idxs@.len() - i as int,
    {
        bbox = bbox.merge(&all_objects[object_idxs[i]].bounds());
        i = i + 1;
    }

    proof {
        assert forall|t: int| 0 <= t < object_idxs@.len() implies bbox.contains_box(
            all_objects@[(#[trigger] object_idxs@[t]) as int].bounds_model(),
        ) by {
            lemma_merged_contains(all_objects@, object_idxs@, object_idxs@.len() as int, t);
        }
    }
    if object_idxs.len() < MIN_OBJECTS_IN_LEAF {
        return Node::Leaf(bbox, copy_usizes(object_idxs));
    }
    let median = median_coord(all_objects, object_idxs, current_axis);

    // partition into two vectors; a member may enter both
    let ghost lp = left_pred(all_objects@, current_axis as int, median);
    let ghost rp = right_pred(all_objects@, current_axis as int, median);
    let mut left_objs: Vec<usize> = Vec::new();
    let mut right_objs: Vec<usize> = Vec::new();
    let mut k: usize = 0;
    while k < object_idxs.len()
        invariant
            0 <= k <= object_idxs@.len(),
            lp == left_pred(all_objects@, current_axis as int, median),
            rp == right_pred(all_objects@, current_axis as int, median),
            left_objs@ == keep(object_idxs@.take(k as int), lp),
            right_objs@ == keep(object_idxs@.take(k as int), rp),
            forall|t: int|
                0 <= t < object_idxs@.len() ==> (#[trigger] object_idxs@[t])
                    < all_objects@.len(),
            objects_ok(all_objects@),
            current_axis < 3,
        decreases object_idxs@.len() - k as int,
    {
        let idx = object_idxs[k];
        let b = all_objects[idx].bounds();
        proof {
            lemma_keep_push(object_idxs@.take(k as int), object_idxs@[k as int], lp);
            lemma_keep_push(object_idxs@.take(k as int), object_idxs@[k as int], rp);
            assert(object_idxs@.take(k as int + 1) =~= object_idxs@.take(k as int).push(
                object_idxs@[k as int],
            ));
        }
        if axis_coord(b.min, current_axis) <= median {
            left_objs.push(idx);
        }
        if axis_coord(b.max, current_axis) >= median {
            right_objs.push(idx);
        }
        k = k + 1;
    }
    proof {
        assert(object_idxs@.take(object_idxs@.len() as int) =~= object_idxs@);
    }

    // every member lands on at least one side; a split that makes no
    // progress (or an empty side) ends in a leaf, so recursion shrinks
    if left_objs.len() == 0 || right_objs.len() == 0 || left_objs.len() == object_idxs.len()
        || right_objs.len() == object_idxs.len() {
        return Node::Leaf(bbox, copy_usizes(object_idxs));
    }

    proof {
        lemma_keep_valid(object_idxs@, lp, all_objects@.len() as int);
        lemma_keep_valid(object_idxs@, rp, all_objects@.len() as int);
        crate::space_partition::lemma_keep_len(object_idxs@, lp);
        crate::space_partition::lemma_keep_len(object_idxs@, rp);
    }

    // create left and right nodes recursively
    let left = Box::new(build_node(all_objects, &left_objs, (current_axis + 1) % 3));
    let right = Box::new(build_node(all_objects, &right_objs, (current_axis + 1) % 3));

    proof {
        assert forall|t: int| 0 <= t < left_objs@.len() implies bbox.contains_box(
            all_objects@[(#[trigger] left_objs@[t]) as int].bounds_model(),
        ) by {
            let u = left_objs@[t];
            assert(left_objs@.contains(u));
            lemma_keep_contains(object_idxs@, lp, u);
            let j = choose|j: int| 0 <= j < object_idxs@.len() && object_idxs@[j] == u;
            lemma_merged_contains(all_objects@, object_idxs@, object_idxs@.len() as int, j);
        }
        lemma_merged_within(all_objects@, left_objs@, left_objs@.len() as int, bbox);
        assert forall|t: int| 0 <= t < right_objs@.len() implies bbox.contains_box(
            all_objects@[(#[trigger] right_objs@[t]) as int].bounds_model(),
        ) by {
            let u = right_objs@[t];
            assert(right_objs@.contains(u));
            lemma_keep_contains(object_idxs@, rp, u);
            let j = choose|j: int| 0 <= j < object_idxs@.len() && object_idxs@[j] == u;
            lemma_merged_contains(all_objects@, object_idxs@, object_idxs@.len() as int, j);
        }
        lemma_merged_within(all_objects@, right_objs@, right_objs@.len() as int, bbox);
    }

    proof {
        assert_sets_equal!(left_objs@.to_set().union(right_objs@.to_set()) == object_idxs@.to_set(), u => {
            lemma_keep_contains(object_idxs@, lp, u);
            lemma_keep_contains(object_idxs@, rp, u);
            if object_idxs@.to_set().contains(u) {
                assert(object_idxs@.contains(u));
                let t = choose|t: int| 0 <= t < object_idxs@.len() && object_idxs@[t] == u;
                assert(all_objects@[u as int].wf());
                lemma_bounds_model_wf(all_objects@[u as int]);
                assert(lp(u) || rp(u));
            }
        });
    }
    Node::Branch(bbox, left, right)
}

/// Elements kept from a list of valid arena indices stay valid.
proof fn lemma_keep_valid(s: Seq<usize>, f: spec_fn(usize) -> bool, n: int)
    requires
        forall|i: int| 0 <= i < s.len() ==> (#[trigger] s[i]) < n,
    ensures
        forall|i: int| 0 <= i < keep(s, f).len() ==> (#[trigger] keep(s, f)[i]) < n,
{
    assert forall|i: int| 0 <= i < keep(s, f).len() implies (#[trigger] keep(s, f)[i]) < n by {
        let x = keep(s, f)[i];
        assert(keep(s, f).contains(x));
        lemma_keep_contains(s, f, x);
        let j = choose|j: int| 0 <= j < s.len() && s[j] == x;
        assert(s[j] < n);
    }
}

#[verifier::rlimit(100)]
fn node_search(n: &Node, ray: Ray, all_objects: &Vec<Primitive>) -> (r: Option<Ray>)
    requires
        node_wf(*n, all_objects@),
        objects_ok(all_objects@),
        ray.wf(),
    ensures
        hit_matches(r, node_hit(*n, all_objects@, ray)),
        r matches Option::Some(h) ==> member_dir_ok(all_objects@, ray, h),
    decreases *n,
{
    let b = match n {
        Node::Branch(bb, _, _) => *bb,
        Node::Leaf(bb, _) => *bb,
    };
    if b.intersect(ray).is_none() {
        return None;
    }
    match n {
        Node::Branch(_, l, r) => {
            let lh = node_search(l, ray, all_objects);
            let rh = node_search(r, ray, all_objects);
            // nearest between left and right, if any exists
            match (lh, rh) {
                (Some(hl), Some(hr)) => {
                    if ray.origin.distance_squared(hl.origin) <= ray.origin.distance_squared(
                        hr.origin,
                    ) {
                        Some(hl)
                    } else {
                        Some(hr)
                    }
                },
                (Some(hl), None) => Some(hl),
                (None, rh2) => rh2,
            }
        },
        Node::Leaf(_, idxs) => {
            // nearest intersection
            let mut best: Option<Ray> = None;
            let mut k: usize = 0;
            while k < idxs.len()
                invariant
                    0 <= k <= idxs@.len(),
                    forall|i: int| 0 <= i < idxs@.len() ==> (#[trigger] idxs@[i]) < all_objects@.len(),
                    objects_ok(all_objects@),
                    ray.wf(),
                    hit_matches(best, leaf_fold(all_objects@, idxs@, ray, k as int)),
                    best matches Option::Some(h) ==> member_dir_ok(all_objects@, ray, h),
                decreases idxs@.len() - k as int,
            {
                let h = all_objects[idxs[k]].intersect(ray);
                best = match (best, h) {
                    (bb, None) => bb,
                    (None, hh) => hh,
                    (Some(hb), Some(hh)) => {
                        if ray.origin.distance_squared(hh.origin) <= ray.origin.distance_squared(
                            hb.origin,
                        ) {
                            Some(hh)
                        } else {
                            Some(hb)
                        }
                    },
                };
                k = k + 1;
            }
            best
        },
    }
}

impl Node {
    pub fn bounds(&self) -> (r: AABBox)
        ensures
            r == node_box(*self),
    {
        match self {
            Node::Branch(bbox, _, _) => *bbox,
            Node::Leaf(bbox, _) => *bbox,
        }
    }
}

impl KdTree {
    pub open spec fn kd_wf(self) -> bool {
        node_wf(self.root, self.objects@) && objects_ok(self.objects@)
    }
}

impl SpacePartition for KdTree {
    /// Besides the trait's own promise, the built tree is pinned down: it
    /// owns a copy of the input arena; its leaves reference exactly the
    /// arena indices (the duplicate-reference partition loses no member);
    /// its root box is the union of all members' bounds; and a set below
    /// the leaf threshold stays one leaf holding the indices in order.
    fn from_objects(objects: &Vec<Primitive>) -> (r: KdTree)
        ensures
            r.objects@ == objects@,
            node_indices(r.root) == Set::new(|u: usize| (u as int) < objects@.len()),
            node_box(r.root) == merged_box(
                objects@,
                identity_idxs(objects@.len() as int),
                objects@.len() as int,
            ),
            objects@.len() < MIN_OBJECTS_IN_LEAF as int ==> (r.root matches Node::Leaf(b, ids)
                && ids@ == identity_idxs(objects@.len() as int)),
    {
        let all_objects = copy_prims(objects);
        let mut idxs: Vec<usize> = Vec::new();
        let mut k: usize = 0;
        while k < all_objects.len()
            invariant
                0 <= k <= all_objects@.len(),
                idxs@.len() == k as int,
                forall|t: int| 0 <= t < k as int ==> (#[trigger] idxs@[t]) == t,
            decreases all_objects@.len() - k as int,
        {
            idxs.push(k);
            k = k + 1;
        }
        proof {
            assert(idxs@ =~= identity_idxs(objects@.len() as int));
        }
        let root = build_node(&all_objects, &idxs, 0);
        proof {
            assert_sets_equal!(idxs@.to_set() == Set::new(|u: usize| (u as int) < objects@.len()), u => {
                if idxs@.contains(u) {
                    let t = choose|t: int| 0 <= t < idxs@.len() && idxs@[t] == u;
                    assert((u as int) < objects@.len());
                }
                if (u as int) < objects@.len() {
                    assert(idxs@[u as int] == u);
                    assert(idxs@.contains(u));
                }
            });
        }
        KdTree { root, objects: all_objects }
    }
}

impl Intersect for KdTree {
    open spec fn wf(&self) -> bool {
        self.kd_wf()
    }

    open spec fn hit_model(&self, ray: Ray) -> Option<Ray> {
        node_hit(self.root, self.objects@, ray)
    }

    open spec fn bounds_model(&self) -> AABBox {
        node_box(self.root)
    }

    /// A hit's direction obeys the jitter law of some member of the arena.
    open spec fn dir_ok(&self, ray: Ray, h: Ray) -> bool {
        member_dir_ok(self.objects@, ray, h)
    }

    fn intersect(&self, ray: Ray) -> (r: Option<Ray>) {
        node_search(&self.root, ray, &self.objects)
    }

    fn bounds(&self) -> (r: AABBox) {
        self.root.bounds()
    }
}

} // verus!
