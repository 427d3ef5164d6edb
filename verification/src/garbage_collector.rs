//! Mark and sweep over a heap relation `(address, size)`, a references
//! relation `(from_addr, to_addr)` and a roots relation `(address)`.
use vstd::prelude::*;
use crate::graph::{contains_key, lemma_int_views, live, starts_and_reachable};

verus! {

broadcast use vstd::seq_lib::group_seq_properties;

/// A cell of the heap.
#[derive(Clone, Copy, Debug, PartialEq, Eq)]
pub struct HeapCell {
    pub address: i64,
    pub size: i64,
}

/// The roots, the heap and the references between heap cells.
pub struct GarbageCollector {
    pub roots: Vec<i64>,
    pub heap: Vec<HeapCell>,
    /// `(from_addr, to_addr)` pairs.
    pub references: Vec<(i64, i64)>,
}

/// An address is marked when it is a root or a root reaches it.
pub open spec fn marked(references: Seq<(i64, i64)>, roots: Seq<i64>, address: i64) -> bool {
    live(references, roots, address)
}

impl GarbageCollector {
    /// A collector over the given relations.
    pub fn new(roots: Vec<i64>, heap: Vec<HeapCell>, references: Vec<(i64, i64)>) -> (gc: Self)
        ensures
            gc.roots == roots,
            gc.heap == heap,
            gc.references == references,
    {
        GarbageCollector { roots, heap, references }
    }

    /// The heap cells left unmarked, in their order.
    pub fn mark_and_sweep(&self) -> (garbage: Vec<HeapCell>)
        ensures
            garbage@ == self.heap@.filter(
                |c: HeapCell| !marked(self.references@, self.roots@, c.address),
            ),
    {
        let marks = starts_and_reachable(&self.references, &self.roots);
        proof {
            lemma_int_views(marks@, self.references@);
            lemma_int_views(self.roots@, self.references@);
        }
        let ghost pred = |c: HeapCell| !marks@.contains(c.address);
        let mut garbage: Vec<HeapCell> = Vec::new();
        let mut i: usize = 0;
        while i < self.heap.len()
            invariant
                i <= self.heap@.len(),
                pred == (|c: HeapCell| !marks@.contains(c.address)),
                garbage@ == self.heap@.take(i as int).filter(pred),
            decreases self.heap@.len() - i,
        {
            proof {
                lemma_int_views(marks@, Seq::empty());
                assert(self.heap@.take(i + 1) == self.heap@.take(i as int).push(
                    self.heap@[i as int],
                ));
                self.heap@.take(i as int).lemma_filter_push(self.heap@[i as int], pred);
            }
            let c = self.heap[i];
            if !contains_key(&marks, &c.address) {
                garbage.push(c);
            }
            i = i + 1;
        }
        proof {
            assert(self.heap@.take(self.heap@.len() as int) == self.heap@);
            let p2 = |c: HeapCell| !marked(self.references@, self.roots@, c.address);
            assert(pred == p2);
        }
        garbage
    }
}

} // verus!
