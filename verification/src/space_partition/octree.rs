//! Octree: each octant covers a box and either holds its members directly
//! (a leaf) or hands every member to each child octant whose box overlaps
//! its bounds — a duplicate-reference partition.

use vstd::prelude::*;
use crate::geometry::{Ray, AABBox, Intersect, hit_matches};
use crate::object::{Primitive, copy_prims};
use crate::vec3::{Vec3, dist2_s, zero_v};
use crate::space_partition::{keep, lemma_keep_push, lemma_keep_contains, objects_ok};

verus! {

pub struct Octree {
    pub root: Option<Octant>,
}

pub struct Octant {
    pub bbox: AABBox,
    pub children: Vec<Option<Box<Octant>>>,
    pub objects: Vec<Primitive>,
}

/// The membership test of one child octant.
pub open spec fn overlaps_box(b: AABBox) -> spec_fn(Primitive) -> bool {
    |p: Primitive| b.overlaps(p.bounds_model())
}

/// Pick the nearer of an accumulated hit and a new candidate; the
/// accumulated one wins ties, as the earlier element of the scan.
pub open spec fn better(ray: Ray, acc: Option<Ray>, cur: Option<Ray>) -> Option<Ray> {
    match (acc, cur) {
        (Option::None, _) => cur,
        (Option::Some(_), Option::None) => acc,
        (Option::Some(ha), Option::Some(hc)) => if dist2_s(ray.origin, hc.origin) < dist2_s(
            ray.origin,
            ha.origin,
        ) {
            cur
        } else {
            acc
        },
    }
}

impl Octant {
    /// Structural validity: a well-formed box, exactly eight child slots,
    /// well-formed members and children.
    pub open spec fn oct_wf(self) -> bool
        decreases self,
    {
        &&& self.bbox.wf()
        &&& self.children@.len() == 8
        &&& objects_ok(self.objects@)
        &&& Octant::children_wf(self.children@, 8)
    }

    pub open spec fn children_wf(cs: Seq<Option<Box<Octant>>>, k: int) -> bool
        decreases cs, k,
    {
        if k <= 0 || k > cs.len() {
            true
        } else {
            Octant::children_wf(cs, k - 1) && match cs[k - 1] {
                Option::Some(c) => c.oct_wf(),
                Option::None => true,
            }
        }
    }

    /// The build invariant: a leaf (depth exhausted or few members) holds
    /// the full member list and no children; an inner octant holds no
    /// members, and its child in each slot is built over exactly the
    /// members overlapping that octant's box, present iff there are any.
    pub open spec fn built_from(
        self,
        objects: Seq<Primitive>,
        max_depth: int,
        cur_depth: int,
        max_leaf: int,
    ) -> bool
        decreases self,
    {
        &&& self.children@.len() == 8
        &&& if cur_depth == max_depth || objects.len() <= max_leaf {
            &&& self.objects@ == objects
            &&& forall|i: int| 0 <= i < 8 ==> (#[trigger] self.children@[i]) is None
        } else {
            let boxes = self.bbox.octants_s();
            &&& self.objects@.len() == 0
            &&& Octant::child_built(
                self.children@[0],
                boxes[0],
                keep(objects, overlaps_box(boxes[0])),
                max_depth,
                cur_depth,
                max_leaf,
            )
            &&& Octant::child_built(
                self.children@[1],
                boxes[1],
                keep(objects, overlaps_box(boxes[1])),
                max_depth,
                cur_depth,
                max_leaf,
            )
            &&& Octant::child_built(
                self.children@[2],
                boxes[2],
                keep(objects, overlaps_box(boxes[2])),
                max_depth,
                cur_depth,
                max_leaf,
            )
            &&& Octant::child_built(
                self.children@[3],
                boxes[3],
                keep(objects, overlaps_box(boxes[3])),
                max_depth,
                cur_depth,
                max_leaf,
            )
            &&& Octant::child_built(
                self.children@[4],
                boxes[4],
                keep(objects, overlaps_box(boxes[4])),
                max_depth,
                cur_depth,
                max_leaf,
            )
            &&& Octant::child_built(
                self.children@[5],
                boxes[5],
                keep(objects, overlaps_box(boxes[5])),
                max_depth,
                cur_depth,
                max_leaf,
            )
            &&& Octant::child_built(
                self.children@[6],
                boxes[6],
                keep(objects, overlaps_box(boxes[6])),
                max_depth,
                cur_depth,
                max_leaf,
            )
            &&& Octant::child_built(
                self.children@[7],
                boxes[7],
                keep(objects, overlaps_box(boxes[7])),
                max_depth,
                cur_depth,
                max_leaf,
            )
        }
    }

    pub open spec fn child_built(
        c: Option<Box<Octant>>,
        child_box: AABBox,
        members: Seq<Primitive>,
        max_depth: int,
        cur_depth: int,
        max_leaf: int,
    ) -> bool
        decreases c,
    {
        match c {
            Option::None => members.len() == 0,
            Option::Some(oc) => members.len() > 0 && oc.bbox == child_box && oc.built_from(
                members,
                max_depth,
                cur_depth + 1,
                max_leaf,
            ),
        }
    }

    /// The traversal model: nothing if the ray misses the octant's box,
    /// else the nearest among the children's hits and the held members'
    /// hits, children considered first.
    pub open spec fn oct_hit(self, ray: Ray) -> Option<Ray>
        decreases self,
    {
        if !self.bbox.slab_hit(ray) {
            Option::None
        } else {
            Octant::objects_fold(
                self.objects@,
                ray,
                self.objects@.len() as int,
                Octant::children_fold(self.children@, ray, 8),
            )
        }
    }

    pub open spec fn children_fold(cs: Seq<Option<Box<Octant>>>, ray: Ray, k: int) -> Option<Ray>
        decreases cs, k,
    {
        if k <= 0 || k > cs.len() {
            Option::None
        } else {
            let prev = Octant::children_fold(cs, ray, k - 1);
            match cs[k - 1] {
                Option::Some(c) => better(ray, prev, c.oct_hit(ray)),
                Option::None => prev,
            }
        }
    }

    pub open spec fn objects_fold(objs: Seq<Primitive>, ray: Ray, k: int, acc: Option<Ray>) -> Option<
        Ray,
    >
        decreases k,
    {
        if k <= 0 || k > objs.len() {
            acc
        } else {
            better(ray, Octant::objects_fold(objs, ray, k - 1, acc), objs[k - 1].hit_model(ray))
        }
    }

    /// A primitive held somewhere in this octant's subtree.
    pub open spec fn oct_contains(self, p: Primitive) -> bool
        decreases self,
    {
        self.objects@.contains(p) || Octant::children_contain(self.children@, p, 8)
    }

    pub open spec fn children_contain(cs: Seq<Option<Box<Octant>>>, p: Primitive, k: int) -> bool
        decreases cs, k,
    {
        if k <= 0 || k > cs.len() {
            false
        } else {
            Octant::children_contain(cs, p, k - 1) || match cs[k - 1] {
                Option::Some(c) => c.oct_contains(p),
                Option::None => false,
            }
        }
    }

    /// Some held primitive admits the hit under its own jitter law.
    pub open spec fn member_dir_ok(self, ray: Ray, h: Ray) -> bool {
        exists|p: Primitive| #[trigger] self.oct_contains(p) && p.dir_ok(ray, h)
    }

    proof fn lemma_children_contain_intro(
        cs: Seq<Option<Box<Octant>>>,
        p: Primitive,
        k: int,
        i: int,
    )
        requires
            0 <= i < k <= cs.len(),
            cs[i] matches Option::Some(c) && c.oct_contains(p),
        ensures
            Octant::children_contain(cs, p, k),
        decreases k,
    {
        if i < k - 1 {
            Octant::lemma_children_contain_intro(cs, p, k - 1, i);
        }
    }

    proof fn lemma_children_wf_index(cs: Seq<Option<Box<Octant>>>, k: int, i: int)
        requires
            Octant::children_wf(cs, k),
            0 <= i < k <= cs.len(),
        ensures
            cs[i] matches Option::Some(c) ==> c.oct_wf(),
        decreases k,
    {
        if i < k - 1 {
            Octant::lemma_children_wf_index(cs, k - 1, i);
        }
    }

    fn new(
        bbox: AABBox,
        objects: &Vec<Primitive>,
        // 1-based
        max_depth: usize,
        cur_depth: usize,
        max_objects_in_leaf: usize,
    ) -> (r: Octant)
        requires
            bbox.wf(),
            objects_ok(objects@),
            1 <= cur_depth <= max_depth,
        ensures
            r.oct_wf(),
            r.bbox == bbox,
            r.built_from(
                objects@,
                max_depth as int,
                cur_depth as int,
                max_objects_in_leaf as int,
            ),
        decreases max_depth - cur_depth,
    {
        if cur_depth == max_depth || objects.len() <= max_objects_in_leaf {
            let r = Octant { bbox, children: none8(), objects: copy_prims(objects) };
            proof {
                Octant::lemma_children_wf_build(r.children@, 8);
            }
            return r;
        }
        let bboxes = bbox.octants();
        let mut children: Vec<Option<Box<Octant>>> = Vec::new();
        let mut i: usize = 0;
        while i < 8
        invariant
                0 <= i <= 8,
                children@.len() == i as int,
                bboxes@ == bbox.octants_s(),
                bboxes@.len() == 8,
                forall|t: int| 0 <= t < 8 ==> (#[trigger] bboxes@[t]).wf(),
                objects_ok(objects@),
                1 <= cur_depth < max_depth,
                forall|t: int|
                    0 <= t < i as int ==> Octant::child_built(
                        #[trigger] children@[t],
                        bboxes@[t],
                        keep(objects@, overlaps_box(bboxes@[t])),
                        max_depth as int,
                        cur_depth as int,
                        max_objects_in_leaf as int,
                    ),
                forall|t: int|
                    0 <= t < i as int ==> ((#[trigger] children@[t]) matches Option::Some(c)
                        ==> c.oct_wf()),
            decreases 8 - i as int,
        {
            let mut members: Vec<Primitive> = Vec::new();
            let mut k: usize = 0;
            while k < objects.len()
                invariant
                    0 <= k <= objects@.len(),
                    bboxes@.len() == 8,
                    0 <= i < 8,
                    members@ == keep(
                        objects@.take(k as int),
                        overlaps_box(bboxes@[i as int]),
                    ),
                    objects_ok(objects@),
                decreases objects@.len() - k as int,
            {
                let ob = objects[k].bounds();
                proof {
                    lemma_keep_push(
                        objects@.take(k as int),
                        objects@[k as int],
                        overlaps_box(bboxes@[i as int]),
                    );
                    assert(objects@.take(k as int + 1) =~= objects@.take(k as int).push(
                        objects@[k as int],
                    ));
                }
                if bboxes[i].intersect_other(&ob) {
                    members.push(objects[k]);
                }
                k = k + 1;
            }
            proof {
                assert(objects@.take(objects@.len() as int) =~= objects@);
                lemma_keep_objects_ok(objects@, overlaps_box(bboxes@[i as int]));
            }
            if members.len() == 0 {
                children.push(None);
            } else {
                let child = Octant::new(bboxes[i], &members, max_depth, cur_depth + 1, max_objects_in_leaf);
                children.push(Some(Box::new(child)));
            }
            i = i + 1;
        }
        let r = Octant { bbox, children, objects: Vec::new() };
        proof {
            assert(Octant::children_wf(r.children@, 8)) by {
                Octant::lemma_children_wf_build(r.children@, 8);
            }
        }
        r
    }

    proof fn lemma_children_wf_build(cs: Seq<Option<Box<Octant>>>, k: int)
        requires
            k <= cs.len(),
            forall|t: int|
                0 <= t < cs.len() ==> ((#[trigger] cs[t]) matches Option::Some(c) ==> c.oct_wf()),
        ensures
            Octant::children_wf(cs, k),
        decreases k,
    {
        if k > 0 {
            Octant::lemma_children_wf_build(cs, k - 1);
        }
    }

    /// The traversal: reject on the box, then take the nearest among child
    /// and member hits.
    #[verifier::rlimit(100)]
    fn search(&self, ray: Ray) -> (r: Option<Ray>)
        requires
            self.oct_wf(),
            ray.wf(),
        ensures
            hit_matches(r, self.oct_hit(ray)),
            r matches Option::Some(h) ==> self.member_dir_ok(ray, h),
        decreases *self,
    {
        if self.bbox.intersect(ray).is_none() {
            return None;
        }
        let mut best: Option<Ray> = None;
        let mut i: usize = 0;
        while i < 8
            invariant
                0 <= i <= 8,
                self.oct_wf(),
                ray.wf(),
                self.bbox.slab_hit(ray),
                hit_matches(best, Octant::children_fold(self.children@, ray, i as int)),
                best matches Option::Some(h) ==> self.member_dir_ok(ray, h),
            decreases 8 - i as int,
        {
            proof {
                Octant::lemma_children_wf_index(self.children@, 8, i as int);
            }
            match &self.children[i] {
                Some(c) => {
                    let h = c.search(ray);
                    proof {
                        if h is Some {
                            let p = choose|p: Primitive|
                                #[trigger] c.oct_contains(p) && p.dir_ok(ray, h->Some_0);
                            Octant::lemma_children_contain_intro(self.children@, p, 8, i as int);
                            assert(self.oct_contains(p));
                        }
                    }
                    best = pick_better(ray, best, h);
                },
                None => {},
            }
            i = i + 1;
        }
        let ghost ch = Octant::children_fold(self.children@, ray, 8);
        let mut k: usize = 0;
        while k < self.objects.len()
            invariant
                0 <= k <= self.objects@.len(),
                self.oct_wf(),
                ray.wf(),
                self.bbox.slab_hit(ray),
                ch == Octant::children_fold(self.children@, ray, 8),
                hit_matches(best, Octant::objects_fold(self.objects@, ray, k as int, ch)),
                best matches Option::Some(h) ==> self.member_dir_ok(ray, h),
            decreases self.objects@.len() - k as int,
        {
            let h = self.objects[k].intersect(ray);
            proof {
                if h is Some {
                    assert(self.objects@.contains(self.objects@[k as int]));
                    assert(self.oct_contains(self.objects@[k as int]));
                }
            }
            best = pick_better(ray, best, h);
            k = k + 1;
        }
        best
    }
}

/// Eight empty child slots.
fn none8() -> (r: Vec<Option<Box<Octant>>>)
    ensures
        r@.len() == 8,
        forall|i: int| 0 <= i < 8 ==> (#[trigger] r@[i]) is None,
{
    let mut v: Vec<Option<Box<Octant>>> = Vec::new();
    v.push(None);
    v.push(None);
    v.push(None);
    v.push(None);
    v.push(None);
    v.push(None);
    v.push(None);
    v.push(None);
    v
}

/// The executable form of `better`, over hits whose origins match their
/// models.
fn pick_better(ray: Ray, acc: Option<Ray>, cur: Option<Ray>) -> (r: Option<Ray>)
    requires
        ray.wf(),
        acc matches Some(h) ==> h.wf(),
        cur matches Some(h) ==> h.wf(),
    ensures
        r == match (acc, cur) {
            (Option::None, _) => cur,
            (Option::Some(_), Option::None) => acc,
            (Option::Some(ha), Option::Some(hc)) => if dist2_s(ray.origin, hc.origin) < dist2_s(
                ray.origin,
                ha.origin,
            ) {
                cur
            } else {
                acc
            },
        },
{
    match (acc, cur) {
        (None, _) => cur,
        (Some(_), None) => acc,
        (Some(ha), Some(hc)) => {
            let dc = ray.origin.distance_squared(hc.origin);
            let da = ray.origin.distance_squared(ha.origin);
            if dc < da {
                cur
            } else {
                acc
            }
        },
    }
}

proof fn lemma_keep_objects_ok(s: Seq<Primitive>, f: spec_fn(Primitive) -> bool)
    requires
        objects_ok(s),
    ensures
        objects_ok(keep(s, f)),
{
    assert forall|i: int| 0 <= i < keep(s, f).len() implies (#[trigger] keep(s, f)[i]).wf() by {
        let x = keep(s, f)[i];
        assert(keep(s, f).contains(x));
        lemma_keep_contains(s, f, x);
        let j = choose|j: int| 0 <= j < s.len() && s[j] == x;
        assert(s[j].wf());
    }
}

impl Octree {
    pub open spec fn tree_wf(self) -> bool {
        match self.root {
            Option::Some(o) => o.oct_wf(),
            Option::None => false,
        }
    }

    pub fn new(
        objects: &Vec<Primitive>,
        max_depth: usize,
        max_objects_in_leaf: usize,
        bbox: AABBox,
    ) -> (r: Octree)
        requires
            objects_ok(objects@),
            bbox.wf(),
            1 <= max_depth,
        ensures
            r.tree_wf(),
            r.root matches Option::Some(o) && o.bbox == bbox && o.built_from(
                objects@,
                max_depth as int,
                1,
                max_objects_in_leaf as int,
            ),
    {
        Octree { root: Some(Octant::new(bbox, objects, max_depth, 1, max_objects_in_leaf)) }
    }
}

impl Intersect for Octree {
    open spec fn wf(&self) -> bool {
        self.tree_wf()
    }

    open spec fn hit_model(&self, ray: Ray) -> Option<Ray> {
        match self.root {
            Option::Some(o) => o.oct_hit(ray),
            Option::None => Option::None,
        }
    }

    open spec fn bounds_model(&self) -> AABBox {
        match self.root {
            Option::Some(o) => o.bbox,
            Option::None => AABBox { min: zero_v(), max: zero_v() },
        }
    }

    /// A hit's direction obeys the jitter law of some held primitive.
    open spec fn dir_ok(&self, ray: Ray, h: Ray) -> bool {
        match self.root {
            Option::Some(o) => o.member_dir_ok(ray, h),
            Option::None => false,
        }
    }

    fn intersect(&self, ray: Ray) -> (r: Option<Ray>) {
        match &self.root {
            Some(o) => o.search(ray),
            None => None,
        }
    }

    fn bounds(&self) -> (r: AABBox) {
        match &self.root {
            Some(o) => o.bbox,
            None => AABBox { min: Vec3::new(0, 0, 0), max: Vec3::new(0, 0, 0) },
        }
    }
}

impl Intersect for Octant {
    open spec fn wf(&self) -> bool {
        self.oct_wf()
    }

    open spec fn hit_model(&self, ray: Ray) -> Option<Ray> {
        self.oct_hit(ray)
    }

    open spec fn bounds_model(&self) -> AABBox {
        self.bbox
    }

    /// A hit's direction obeys the jitter law of some held primitive.
    open spec fn dir_ok(&self, ray: Ray, h: Ray) -> bool {
        self.member_dir_ok(ray, h)
    }

    fn intersect(&self, ray: Ray) -> (r: Option<Ray>) {
        self.search(ray)
    }

    fn bounds(&self) -> (r: AABBox) {
        self.bbox
    }
}

} // verus!
