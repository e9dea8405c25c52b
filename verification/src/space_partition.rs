//! Spatial partitioning structures: trees built over the scene's primitives
//! that themselves carry the intersection capability.

pub mod kdtree;
pub mod octree;

use vstd::prelude::*;
use crate::geometry::Intersect;
use crate::object::Primitive;

verus! {

/// Every primitive of a scene list is well-formed.
pub open spec fn objects_ok(objects: Seq<Primitive>) -> bool {
    forall|i: int| 0 <= i < objects.len() ==> (#[trigger] objects[i]).wf()
}

/// A spatial partition is built once over a scene's primitives and then
/// queried through the same intersection capability as a flat list. The
/// build needs at least one member: an empty scene has no bounds to build
/// over.
pub trait SpacePartition: Intersect {
    fn from_objects(objects: &Vec<Primitive>) -> (r: Self)
        requires
            objects@.len() >= 1,
            objects_ok(objects@),
        ensures
            r.wf(),
    ;
}

/// The subsequence of elements satisfying `pred`, in order.
pub open spec fn keep<A>(s: Seq<A>, pred: spec_fn(A) -> bool) -> Seq<A>
    decreases s.len(),
{
    if s.len() == 0 {
        Seq::empty()
    } else {
        let rest = keep(s.drop_last(), pred);
        if pred(s.last()) {
            rest.push(s.last())
        } else {
            rest
        }
    }
}

/// Appending one element extends the kept subsequence by it exactly when it
/// satisfies the predicate.
pub proof fn lemma_keep_push<A>(s: Seq<A>, x: A, pred: spec_fn(A) -> bool)
    ensures
        keep(s.push(x), pred) == if pred(x) {
            keep(s, pred).push(x)
        } else {
            keep(s, pred)
        },
{
    assert(s.push(x).drop_last() =~= s);
    assert(s.push(x).last() == x);
}

/// Membership in the kept subsequence is membership plus the predicate.
pub proof fn lemma_keep_contains<A>(s: Seq<A>, pred: spec_fn(A) -> bool, x: A)
    ensures
        keep(s, pred).contains(x) <==> (s.contains(x) && pred(x)),
    decreases s.len(),
{
    if s.len() == 0 {
    } else {
        let s0 = s.drop_last();
        lemma_keep_contains(s0, pred, x);
        assert(s =~= s0.push(s.last()));
        if s0.contains(x) {
            let i = choose|i: int| 0 <= i < s0.len() && s0[i] == x;
            assert(s[i] == x);
        }
        if s.contains(x) && x != s.last() {
            let i = choose|i: int| 0 <= i < s.len() && s[i] == x;
            assert(s0[i] == x);
        }
        if keep(s, pred).contains(x) && (s0.len() == 0 || !keep(s0, pred).contains(x)) {
            if pred(s.last()) {
                let k = keep(s0, pred).push(s.last());
                assert(keep(s, pred) == k);
                let i = choose|i: int| 0 <= i < k.len() && k[i] == x;
                if i < k.len() - 1 {
                    assert(keep(s0, pred)[i] == x);
                    assert(keep(s0, pred).contains(x));
                }
            }
        }
        if s.contains(x) && pred(x) {
            if x == s.last() {
                let k = keep(s0, pred).push(s.last());
                assert(k[k.len() - 1] == x);
                assert(keep(s, pred).contains(x));
            } else {
                assert(s0.contains(x));
                assert(keep(s0, pred).contains(x));
                let i = choose|i: int| 0 <= i < keep(s0, pred).len() && keep(s0, pred)[i] == x;
                if pred(s.last()) {
                    assert(keep(s, pred)[i] == x);
                } else {
                    assert(keep(s, pred)[i] == x);
                }
            }
        }
    }
}

/// The kept subsequence never grows.
pub proof fn lemma_keep_len<A>(s: Seq<A>, pred: spec_fn(A) -> bool)
    ensures
        keep(s, pred).len() <= s.len(),
    decreases s.len(),
{
    if s.len() > 0 {
        lemma_keep_len(s.drop_last(), pred);
    }
}

} // verus!
