//! Relations of keys as finite sets: difference and union, each result
//! holding every member once.
use vstd::prelude::*;
use crate::graph::{contains_key, push_unique, views, Key};

verus! {

broadcast use vstd::seq_lib::group_seq_properties;

/// The set a vector of keys stands for.
pub open spec fn key_set<K: View>(v: Seq<K>) -> Set<K::V> {
    views(v).to_set()
}

proof fn lemma_key_set_contains<K: View>(v: Seq<K>, x: K::V)
    ensures
        key_set(v).contains(x) == views(v).contains(x),
{
}

/// Every member of `a` that is not in `b`, once.
pub fn set_minus<K: Key>(a: &Vec<K>, b: &Vec<K>) -> (out: Vec<K>)
    ensures
        views(out@).no_duplicates(),
        key_set(out@) == key_set(a@).difference(key_set(b@)),
{
    let mut out: Vec<K> = Vec::new();
    let mut i: usize = 0;
    while i < a.len()
        invariant
            i <= a@.len(),
            views(out@).no_duplicates(),
            forall|x: K::V| views(out@).contains(x) <==> (views(a@).take(i as int).contains(x) && !views(b@).contains(x)),
        decreases a@.len() - i,
    {
        assert(views(a@).take(i + 1) == views(a@).take(i as int).push(views(a@)[i as int]));
        if !contains_key(b, &a[i]) {
            let k = a[i].duplicate();
            push_unique(&mut out, k);
        }
        i = i + 1;
    }
    assert(views(a@).take(a@.len() as int) == views(a@));
    assert forall|x: K::V| key_set(out@).contains(x) <==> key_set(a@).difference(key_set(b@)).contains(x) by {
        lemma_key_set_contains(out@, x);
        lemma_key_set_contains(a@, x);
        lemma_key_set_contains(b@, x);
    }
    assert(key_set(out@) =~= key_set(a@).difference(key_set(b@)));
    out
}

/// Every member of `a` or of `b`, once.
pub fn set_union<K: Key>(a: &Vec<K>, b: &Vec<K>) -> (out: Vec<K>)
    ensures
        views(out@).no_duplicates(),
        key_set(out@) == key_set(a@).union(key_set(b@)),
{
    let mut out: Vec<K> = Vec::new();
    let mut i: usize = 0;
    while i < a.len()
        invariant
            i <= a@.len(),
            views(out@).no_duplicates(),
            forall|x: K::V| views(out@).contains(x) <==> views(a@).take(i as int).contains(x),
        decreases a@.len() - i,
    {
        assert(views(a@).take(i + 1) == views(a@).take(i as int).push(views(a@)[i as int]));
        let k = a[i].duplicate();
        push_unique(&mut out, k);
        i = i + 1;
    }
    assert(views(a@).take(a@.len() as int) == views(a@));
    let mut j: usize = 0;
    while j < b.len()
        invariant
            j <= b@.len(),
            views(out@).no_duplicates(),
            forall|x: K::V| views(out@).contains(x) <==> (views(a@).contains(x) || views(b@).take(j as int).contains(x)),
        decreases b@.len() - j,
    {
        assert(views(b@).take(j + 1) == views(b@).take(j as int).push(views(b@)[j as int]));
        let k = b[j].duplicate();
        push_unique(&mut out, k);
        j = j + 1;
    }
    assert(views(b@).take(b@.len() as int) == views(b@));
    assert forall|x: K::V| key_set(out@).contains(x) <==> key_set(a@).union(key_set(b@)).contains(x) by {
        lemma_key_set_contains(out@, x);
        lemma_key_set_contains(a@, x);
        lemma_key_set_contains(b@, x);
    }
    assert(key_set(out@) =~= key_set(a@).union(key_set(b@)));
    out
}

/// A copy of a vector of keys.
pub fn copy_keys<K: Key>(a: &Vec<K>) -> (out: Vec<K>)
    ensures
        views(out@) == views(a@),
{
    let mut out: Vec<K> = Vec::new();
    let mut i: usize = 0;
    while i < a.len()
        invariant
            i <= a@.len(),
            views(out@) == views(a@).take(i as int),
        decreases a@.len() - i,
    {
        let k = a[i].duplicate();
        let ghost before = out@;
        assert(views(before).len() == i);
        out.push(k);
        assert(out@ == before.push(k));
        assert(out@.len() == i + 1);
        assert(views(out@) =~= views(a@).take(i + 1)) by {
            assert forall|j: int| 0 <= j < i + 1 implies views(out@)[j] == views(a@).take(i + 1)[j] by {
                if j < i {
                    assert(out@[j] == before[j]);
                    assert(views(before)[j] == views(a@).take(i as int)[j]);
                }
            }
        }
        i = i + 1;
    }
    assert(views(a@).take(a@.len() as int) == views(a@));
    out
}

} // verus!
