//! An observed-remove set: elements are added under unique tags, a remove
//! retires the tags it has observed, and replicas merge by union.
use vstd::prelude::*;
use crate::graph::{contains_key, push_unique, views, Key};

verus! {

broadcast use vstd::seq_lib::group_seq_properties;

/// `(element, tag)` pairs as values.
pub type TagSet = Set<(Seq<char>, Seq<char>)>;

/// A replica: the `(element, tag)` pairs added, and those removed.
pub struct OrSet {
    pub adds: Vec<(String, String)>,
    pub removes: Vec<(String, String)>,
}

/// The pairs of a vector, as a set.
pub open spec fn pair_set(v: Seq<(String, String)>) -> TagSet {
    views(v).to_set()
}

/// The elements a state shows: those with an added tag not yet removed.
pub open spec fn visible(adds: TagSet, removes: TagSet) -> Set<Seq<char>> {
    Set::new(|e: Seq<char>| exists|t: Seq<char>| adds.contains((e, t)) && !removes.contains((e, t)))
}

/// The pairs of `adds` that carry `element`.
pub open spec fn observed(adds: TagSet, element: Seq<char>) -> TagSet {
    adds.filter(|p: (Seq<char>, Seq<char>)| p.0 == element)
}

/// The state two replicas merge into.
pub open spec fn merged(a: (TagSet, TagSet), b: (TagSet, TagSet)) -> (TagSet, TagSet) {
    (a.0.union(b.0), a.1.union(b.1))
}

impl OrSet {
    pub open spec fn state(&self) -> (TagSet, TagSet) {
        (pair_set(self.adds@), pair_set(self.removes@))
    }

    /// An empty replica.
    pub fn new() -> (s: Self)
        ensures
            s.state() == (TagSet::empty(), TagSet::empty()),
    {
        let s = OrSet { adds: Vec::new(), removes: Vec::new() };
        assert(s.state().0 =~= TagSet::empty());
        assert(s.state().1 =~= TagSet::empty());
        s
    }

    /// Adds `element` under `tag`.
    pub fn add(&mut self, element: &str, tag: &str)
        ensures
            final(self).state() == (old(self).state().0.insert((element@, tag@)), old(self).state().1),
    {
        let pair = (element.to_owned(), tag.to_owned());
        let ghost before = views(self.adds@);
        let mut adds = Vec::new();
        std::mem::swap(&mut adds, &mut self.adds);
        push_unique_any(&mut adds, pair);
        self.adds = adds;
        assert(pair_set(self.adds@) =~= before.to_set().insert((element@, tag@)));
    }

    /// Removes `element`: every tag of it added so far is retired.
    pub fn remove(&mut self, element: &str)
        ensures
            final(self).state() == (old(self).state().0, old(self).state().1.union(
                observed(old(self).state().0, element@),
            )),
    {
        let ghost a0 = pair_set(self.adds@);
        let ghost r0 = pair_set(self.removes@);
        let mut removes = Vec::new();
        std::mem::swap(&mut removes, &mut self.removes);
        let mut i: usize = 0;
        while i < self.adds.len()
            invariant
                a0 == pair_set(self.adds@),
                i <= self.adds@.len(),
                pair_set(removes@) == r0.union(
                    observed(pair_set(self.adds@.take(i as int)), element@),
                ),
            decreases self.adds@.len() - i,
        {
            let ghost before = pair_set(removes@);
            let ghost pi = views(self.adds@)[i as int];
            proof {
                assert(views(self.adds@.take(i + 1)) == views(self.adds@.take(i as int)).push(pi));
            }
            if crate::text::str_eq(self.adds[i].0.as_str(), element) {
                let pair = self.adds[i].duplicate();
                push_unique_any(&mut removes, pair);
            }
            proof {
                assert(pair_set(removes@) =~= r0.union(
                    observed(pair_set(self.adds@.take(i + 1)), element@),
                ));
            }
            i = i + 1;
        }
        assert(self.adds@.take(self.adds@.len() as int) == self.adds@);
        self.removes = removes;
    }

    /// The visible elements, each once.
    pub fn read(&self) -> (elements: Vec<String>)
        ensures
            views(elements@).no_duplicates(),
            views(elements@).to_set() == visible(self.state().0, self.state().1),
    {
        let ghost a = self.state().0;
        let ghost r = self.state().1;
        let mut out: Vec<String> = Vec::new();
        let mut i: usize = 0;
        while i < self.adds.len()
            invariant
                a == self.state().0,
                r == self.state().1,
                i <= self.adds@.len(),
                views(out@).no_duplicates(),
                views(out@).to_set() == visible(pair_set(self.adds@.take(i as int)), r),
            decreases self.adds@.len() - i,
        {
            let ghost before = views(out@);
            proof {
                assert(views(self.adds@.take(i + 1)) == views(self.adds@.take(i as int)).push(
                    views(self.adds@)[i as int],
                ));
            }
            let removed = contains_key(&self.removes, &self.adds[i]);
            if !removed {
                let e = self.adds[i].0.clone();
                push_unique(&mut out, e);
            }
            proof {
                let prev = pair_set(self.adds@.take(i as int));
                let next = pair_set(self.adds@.take(i + 1));
                let pi = views(self.adds@)[i as int];
                assert(removed == r.contains(pi));
                assert forall|q: (Seq<char>, Seq<char>)| next.contains(q) <==> (prev.contains(q) || q == pi) by {
                    assert(next.contains(q) == views(self.adds@.take(i + 1)).contains(q));
                    assert(prev.contains(q) == views(self.adds@.take(i as int)).contains(q));
                }
                assert forall|e: Seq<char>| views(out@).to_set().contains(e) <==> visible(next, r).contains(e) by {
                    assert(views(out@).to_set().contains(e) == views(out@).contains(e));
                    assert(before.to_set().contains(e) == before.contains(e));
                    assert(views(out@).contains(e) == (before.contains(e) || (!removed && e == pi.0)));
                    if visible(next, r).contains(e) {
                        let t = choose|t: Seq<char>| next.contains((e, t)) && !r.contains((e, t));
                        if (e, t) != pi {
                            assert(prev.contains((e, t)));
                            assert(visible(prev, r).contains(e));
                        }
                    }
                    if visible(prev, r).contains(e) {
                        let t = choose|t: Seq<char>| prev.contains((e, t)) && !r.contains((e, t));
                        assert(next.contains((e, t)));
                    }
                    if !removed && e == pi.0 {
                        assert(next.contains((e, pi.1)));
                    }
                }
                assert(views(out@).to_set() =~= visible(next, r));
            }
            i = i + 1;
        }
        assert(self.adds@.take(self.adds@.len() as int) == self.adds@);
        out
    }

    /// Merges another replica into this one.
    pub fn merge(&mut self, other: &OrSet)
        ensures
            final(self).state() == merged(old(self).state(), other.state()),
    {
        let ghost s0 = self.state();
        let mut adds = Vec::new();
        std::mem::swap(&mut adds, &mut self.adds);
        union_into(&mut adds, &other.adds);
        let mut removes = Vec::new();
        std::mem::swap(&mut removes, &mut self.removes);
        union_into(&mut removes, &other.removes);
        self.adds = adds;
        self.removes = removes;
    }
}

impl Default for OrSet {
    fn default() -> (s: Self)
        ensures
            s.state() == (TagSet::empty(), TagSet::empty()),
    {
        Self::new()
    }
}

/// Adds a pair unless it is there; the set grows by exactly that pair.
fn push_unique_any(v: &mut Vec<(String, String)>, k: (String, String))
    ensures
        pair_set(final(v)@) == pair_set(old(v)@).insert(k@),
{
    let ghost before = views(v@);
    if !contains_key(v, &k) {
        let ghost kv = k@;
        v.push(k);
        assert(views(v@) == before.push(kv));
    }
    assert(pair_set(v@) =~= pair_set(old(v)@).insert(k@));
}

/// Adds every pair of `other`.
fn union_into(v: &mut Vec<(String, String)>, other: &Vec<(String, String)>)
    ensures
        pair_set(final(v)@) == pair_set(old(v)@).union(pair_set(other@)),
{
    let ghost start = pair_set(v@);
    let mut i: usize = 0;
    while i < other.len()
        invariant
            i <= other@.len(),
            pair_set(v@) == start.union(pair_set(other@.take(i as int))),
        decreases other@.len() - i,
    {
        proof {
            assert(views(other@.take(i + 1)) == views(other@.take(i as int)).push(views(other@)[i as int]));
        }
        let k = other[i].duplicate();
        push_unique_any(v, k);
        assert(pair_set(v@) =~= start.union(pair_set(other@.take(i + 1))));
        i = i + 1;
    }
    assert(other@.take(other@.len() as int) == other@);
}

/// Merging is commutative.
pub proof fn law_merge_commutative(a: (TagSet, TagSet), b: (TagSet, TagSet))
    ensures
        merged(a, b) == merged(b, a),
{
    assert(merged(a, b).0 =~= merged(b, a).0);
    assert(merged(a, b).1 =~= merged(b, a).1);
}

/// Merging is associative.
pub proof fn law_merge_associative(a: (TagSet, TagSet), b: (TagSet, TagSet), c: (TagSet, TagSet))
    ensures
        merged(merged(a, b), c) == merged(a, merged(b, c)),
{
    assert(merged(merged(a, b), c).0 =~= merged(a, merged(b, c)).0);
    assert(merged(merged(a, b), c).1 =~= merged(a, merged(b, c)).1);
}

/// Merging a state with itself changes nothing.
pub proof fn law_merge_idempotent(a: (TagSet, TagSet))
    ensures
        merged(a, a) == a,
{
    assert(merged(a, a).0 =~= a.0);
    assert(merged(a, a).1 =~= a.1);
}

/// After a remove, the element is no longer visible on that replica.
pub proof fn law_remove_hides(adds: TagSet, removes: TagSet, element: Seq<char>)
    ensures
        !visible(adds, removes.union(observed(adds, element))).contains(element),
{
}

/// An add whose tag no replica has removed stays visible through any
/// merge: a concurrent remove elsewhere cannot retire a tag it never saw.
pub proof fn law_add_wins(a: (TagSet, TagSet), b: (TagSet, TagSet), element: Seq<char>, tag: Seq<char>)
    requires
        a.0.contains((element, tag)),
        !a.1.contains((element, tag)),
        !b.1.contains((element, tag)),
    ensures
        visible(merged(a, b).0, merged(a, b).1).contains(element),
{
    assert(merged(a, b).0.contains((element, tag)));
}

} // verus!
