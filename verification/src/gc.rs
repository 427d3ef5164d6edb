//! A mark-and-sweep collector over three relations: objects `(id, size)`,
//! pointers `(from_id, to_id)` and roots `(id)`.
use vstd::prelude::*;
use crate::graph::{
    contains_key, is_path, lemma_int_views, live, reached_from, reaches, starts_and_reachable,
};

verus! {

broadcast use vstd::seq_lib::group_seq_properties;

/// An object of the heap.
#[derive(Clone, Copy, Debug, PartialEq, Eq)]
pub struct HeapObject {
    pub id: i64,
    pub size: i64,
}

/// The heap: its objects, the pointers between them and the roots.
pub struct GarbageCollector {
    pub objects: Vec<HeapObject>,
    /// `(from_id, to_id)` pairs.
    pub pointers: Vec<(i64, i64)>,
    pub roots: Vec<i64>,
}

/// The object ids reachable from a root (a root reaches itself).
pub open spec fn id_reachable(pointers: Seq<(i64, i64)>, roots: Seq<i64>, id: i64) -> bool {
    live(pointers, roots, id)
}

/// The objects whose liveness is `keep`, in their order.
fn select_objects(objects: &Vec<HeapObject>, live_ids: &Vec<i64>, keep: bool) -> (out: Vec<
    HeapObject,
>)
    ensures
        out@ == objects@.filter(|o: HeapObject| live_ids@.contains(o.id) == keep),
{
    let ghost pred = |o: HeapObject| live_ids@.contains(o.id) == keep;
    let mut out: Vec<HeapObject> = Vec::new();
    let mut i: usize = 0;
    while i < objects.len()
        invariant
            i <= objects@.len(),
            pred == (|o: HeapObject| live_ids@.contains(o.id) == keep),
            out@ == objects@.take(i as int).filter(pred),
        decreases objects@.len() - i,
    {
        proof {
            lemma_int_views(live_ids@, Seq::empty());
            assert(objects@.take(i + 1) == objects@.take(i as int).push(objects@[i as int]));
            objects@.take(i as int).lemma_filter_push(objects@[i as int], pred);
        }
        let o = objects[i];
        if contains_key(live_ids, &o.id) == keep {
            out.push(o);
        }
        i = i + 1;
    }
    assert(objects@.take(objects@.len() as int) == objects@);
    out
}

impl GarbageCollector {
    /// A collector over the given relations.
    pub fn new(objects: Vec<HeapObject>, pointers: Vec<(i64, i64)>, roots: Vec<i64>) -> (gc: Self)
        ensures
            gc.objects == objects,
            gc.pointers == pointers,
            gc.roots == roots,
    {
        GarbageCollector { objects, pointers, roots }
    }

    /// The ids reachable from the roots, the roots included, each once.
    pub fn compute_reachable(&self) -> (ids: Vec<i64>)
        ensures
            ids@.no_duplicates(),
            forall|id: i64| ids@.contains(id) <==> id_reachable(self.pointers@, self.roots@, id),
    {
        let ids = starts_and_reachable(&self.pointers, &self.roots);
        proof {
            lemma_int_views(ids@, self.pointers@);
            lemma_int_views(self.roots@, self.pointers@);
        }
        ids
    }

    /// The objects that no root reaches, in their order.
    pub fn compute_garbage(&self) -> (garbage: Vec<HeapObject>)
        ensures
            garbage@ == self.objects@.filter(
                |o: HeapObject| !id_reachable(self.pointers@, self.roots@, o.id),
            ),
    {
        let ids = self.compute_reachable();
        let garbage = select_objects(&self.objects, &ids, false);
        proof {
            let p1 = |o: HeapObject| ids@.contains(o.id) == false;
            let p2 = |o: HeapObject| !id_reachable(self.pointers@, self.roots@, o.id);
            assert(p1 == p2);
        }
        garbage
    }

    /// Keeps only the reachable objects, and the pointers between them.
    pub fn collect_garbage(&mut self)
        ensures
            final(self).objects@ == old(self).objects@.filter(
                |o: HeapObject| id_reachable(old(self).pointers@, old(self).roots@, o.id),
            ),
            final(self).pointers@ == old(self).pointers@.filter(
                |p: (i64, i64)|
                    id_reachable(old(self).pointers@, old(self).roots@, p.0) && id_reachable(
                        old(self).pointers@,
                        old(self).roots@,
                        p.1,
                    ),
            ),
            final(self).roots == old(self).roots,
    {
        let ids = self.compute_reachable();
        let ghost ptrs = self.pointers@;
        let ghost rts = self.roots@;
        let kept = select_objects(&self.objects, &ids, true);
        proof {
            let p1 = |o: HeapObject| ids@.contains(o.id) == true;
            let p2 = |o: HeapObject| id_reachable(ptrs, rts, o.id);
            assert(p1 == p2);
        }
        let ghost pred = |p: (i64, i64)| ids@.contains(p.0) && ids@.contains(p.1);
        let mut kept_ptrs: Vec<(i64, i64)> = Vec::new();
        let mut i: usize = 0;
        while i < self.pointers.len()
            invariant
                i <= self.pointers@.len(),
                pred == (|p: (i64, i64)| ids@.contains(p.0) && ids@.contains(p.1)),
                kept_ptrs@ == self.pointers@.take(i as int).filter(pred),
            decreases self.pointers@.len() - i,
        {
            proof {
                lemma_int_views(ids@, Seq::empty());
                assert(self.pointers@.take(i + 1) == self.pointers@.take(i as int).push(
                    self.pointers@[i as int],
                ));
                self.pointers@.take(i as int).lemma_filter_push(self.pointers@[i as int], pred);
            }
            let p = self.pointers[i];
            if contains_key(&ids, &p.0) && contains_key(&ids, &p.1) {
                kept_ptrs.push(p);
            }
            i = i + 1;
        }
        proof {
            assert(self.pointers@.take(self.pointers@.len() as int) == self.pointers@);
            let p2 = |p: (i64, i64)| id_reachable(ptrs, rts, p.0) && id_reachable(ptrs, rts, p.1);
            assert(pred == p2);
        }
        self.objects = kept;
        self.pointers = kept_ptrs;
    }
}

/// The pointers between two reachable objects.
pub open spec fn kept_pointers(pointers: Seq<(i64, i64)>, roots: Seq<i64>) -> Seq<(i64, i64)> {
    pointers.filter(
        |p: (i64, i64)| id_reachable(pointers, roots, p.0) && id_reachable(pointers, roots, p.1),
    )
}

/// Each node of a path from a root is reachable.
proof fn lemma_path_nodes_reachable(pointers: Seq<(i64, i64)>, roots: Seq<i64>, p: Seq<i64>, j: int)
    requires
        is_path(pointers, p),
        p.len() >= 2,
        roots.contains(p[0]),
        0 <= j < p.len(),
    ensures
        id_reachable(pointers, roots, p[j]),
{
    if j > 0 {
        let q = p.take(j + 1);
        assert forall|i: int| #![trigger q[i]] 0 <= i < q.len() - 1 implies pointers.contains(
            (q[i], q[i + 1]),
        ) by {
            assert(q[i] == p[i] && q[i + 1] == p[i + 1]);
        }
        assert(q[0] == p[0] && q[q.len() - 1] == p[j]);
        assert(is_path(pointers, q));
        assert(q.len() >= 2);
        assert(reaches(pointers, p[0], p[j]));
        assert(reached_from(pointers, roots, p[j]));
    }
}

/// A pointer between two reachable objects is kept.
proof fn lemma_edge_kept(pointers: Seq<(i64, i64)>, roots: Seq<i64>, u: i64, v: i64)
    requires
        pointers.contains((u, v)),
        id_reachable(pointers, roots, u),
        id_reachable(pointers, roots, v),
    ensures
        kept_pointers(pointers, roots).contains((u, v)),
{
    let both = |p: (i64, i64)|
        id_reachable(pointers, roots, p.0) && id_reachable(pointers, roots, p.1);
    let k = choose|k: int| 0 <= k < pointers.len() && pointers[k] == (u, v);
    pointers.lemma_filter_contains(both, k);
}

/// A collection leaves no garbage: every object it keeps is still reachable
/// through the pointers it keeps.
pub proof fn law_collection_keeps_only_reachable(
    objects: Seq<HeapObject>,
    pointers: Seq<(i64, i64)>,
    roots: Seq<i64>,
    o: HeapObject,
)
    requires
        objects.filter(|o: HeapObject| id_reachable(pointers, roots, o.id)).contains(o),
    ensures
        id_reachable(kept_pointers(pointers, roots), roots, o.id),
{
    let pred = |o: HeapObject| id_reachable(pointers, roots, o.id);
    objects.lemma_filter_contains_rev(pred, o);
    let kept = kept_pointers(pointers, roots);
    if !roots.contains(o.id) {
        let a = choose|a: i64| #[trigger] roots.contains(a) && reaches(pointers, a, o.id);
        let p = choose|p: Seq<i64>|
            #![trigger is_path(pointers, p), p[0], p[p.len() - 1]]
            p.len() >= 2 && p[0] == a && p[p.len() - 1] == o.id && is_path(pointers, p);
        assert forall|i: int| #![trigger p[i]] 0 <= i < p.len() - 1 implies kept.contains(
            (p[i], p[i + 1]),
        ) by {
            lemma_path_nodes_reachable(pointers, roots, p, i);
            lemma_path_nodes_reachable(pointers, roots, p, i + 1);
            lemma_edge_kept(pointers, roots, p[i], p[i + 1]);
        }
        assert(is_path(kept, p));
        assert(reaches(kept, a, o.id));
    }
}

} // verus!
