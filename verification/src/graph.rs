//! Reachability over a relation of edges: the transitive closure that the
//! relational programs take of a `(from, to)` relation, joined with a set of
//! starting nodes; and breadth-first search over a graph of two relations,
//! which finds each reachable node's distance from a start.
use vstd::prelude::*;
use crate::differ::position_of;
use crate::relation::{fits_heading, sorted_names, type_of, Attribute, Relation, Row, ScalarType, ScalarValue, ValueView};
use crate::text::str_less;

verus! {

broadcast use vstd::seq_lib::group_seq_properties;

/// A value that identifies a node: it can be compared and copied, and both
/// agree with its view.
pub trait Key: View + Sized {
    fn same(&self, other: &Self) -> (b: bool)
        ensures
            b == (self@ == other@),
    ;

    fn duplicate(&self) -> (c: Self)
        ensures
            c@ == self@,
    ;
}

impl Key for i64 {
    fn same(&self, other: &Self) -> (b: bool) {
        *self == *other
    }

    fn duplicate(&self) -> (c: Self) {
        *self
    }
}

impl Key for String {
    fn same(&self, other: &Self) -> (b: bool) {
        *self == *other
    }

    fn duplicate(&self) -> (c: Self) {
        self.clone()
    }
}

impl Key for (String, String) {
    fn same(&self, other: &Self) -> (b: bool) {
        self.0 == other.0 && self.1 == other.1
    }

    fn duplicate(&self) -> (c: Self) {
        (self.0.clone(), self.1.clone())
    }
}

impl Key for (i64, i64) {
    fn same(&self, other: &Self) -> (b: bool) {
        self.0 == other.0 && self.1 == other.1
    }

    fn duplicate(&self) -> (c: Self) {
        *self
    }
}

/// The views of a sequence of keys.
pub open spec fn views<K: View>(s: Seq<K>) -> Seq<K::V> {
    s.map_values(|k: K| k@)
}

/// The views of a sequence of edges.
pub open spec fn edge_views<K: View>(s: Seq<(K, K)>) -> Seq<(K::V, K::V)> {
    s.map_values(|e: (K, K)| (e.0@, e.1@))
}

/// `p` follows edges of `es` from each node to the next.
pub open spec fn is_path<V>(es: Seq<(V, V)>, p: Seq<V>) -> bool {
    forall|i: int| #![trigger p[i]] 0 <= i < p.len() - 1 ==> es.contains((p[i], p[i + 1]))
}

/// `b` can be reached from `a` by following one edge or more.
pub open spec fn reaches<V>(es: Seq<(V, V)>, a: V, b: V) -> bool {
    exists|p: Seq<V>|
        #![trigger is_path(es, p), p[0], p[p.len() - 1]]
        p.len() >= 2 && p[0] == a && p[p.len() - 1] == b && is_path(es, p)
}

/// `b` can be reached by one edge or more from some node of `starts`.
pub open spec fn reached_from<V>(es: Seq<(V, V)>, starts: Seq<V>, b: V) -> bool {
    exists|a: V| #[trigger] starts.contains(a) && reaches(es, a, b)
}

/// Whether a key occurs in a vector.
pub fn contains_key<K: Key>(v: &Vec<K>, k: &K) -> (b: bool)
    ensures
        b == views(v@).contains(k@),
{
    let mut i: usize = 0;
    while i < v.len()
        invariant
            i <= v@.len(),
            forall|j: int| 0 <= j < i ==> v@[j]@ != k@,
        decreases v@.len() - i,
    {
        if v[i].same(k) {
            assert(views(v@)[i as int] == k@);
            return true;
        }
        i = i + 1;
    }
    assert forall|j: int| 0 <= j < views(v@).len() implies views(v@)[j] != k@ by {
        assert(views(v@)[j] == v@[j]@);
    }
    false
}

/// The number of `false` entries.
pub open spec fn count_false(s: Seq<bool>) -> nat
    decreases s.len(),
{
    if s.len() == 0 {
        0
    } else {
        (if s.last() {
            0nat
        } else {
            1nat
        }) + count_false(s.drop_last())
    }
}

pub(crate) proof fn lemma_count_false_set(s: Seq<bool>, j: int)
    requires
        0 <= j < s.len(),
    ensures
        count_false(s.update(j, true)) + (if s[j] {
            0nat
        } else {
            1nat
        }) == count_false(s),
    decreases s.len(),
{
    let t = s.update(j, true);
    if j == s.len() - 1 {
        assert(t.drop_last() == s.drop_last());
    } else {
        lemma_count_false_set(s.drop_last(), j);
        assert(t.drop_last() == s.drop_last().update(j, true));
    }
}

proof fn lemma_extend_path<V>(es: Seq<(V, V)>, p: Seq<V>, v: V)
    requires
        p.len() >= 1,
        is_path(es, p),
        es.contains((p[p.len() - 1], v)),
    ensures
        is_path(es, p.push(v)),
{
    let q = p.push(v);
    assert forall|i: int| #![trigger q[i]] 0 <= i < q.len() - 1 implies es.contains(
        (q[i], q[i + 1]),
    ) by {
        if i < p.len() - 1 {
            assert(q[i] == p[i] && q[i + 1] == p[i + 1]);
        } else {
            assert(q[i] == p[p.len() - 1] && q[i + 1] == v);
        }
    }
}

/// Along a path from a start, every node after the first lies in a set
/// closed under the edges from `starts` and from itself.
proof fn lemma_path_nodes_in_closed<V>(
    es: Seq<(V, V)>,
    starts: Seq<V>,
    r: Seq<V>,
    p: Seq<V>,
    i: int,
)
    requires
        forall|k: int|
            0 <= k < es.len() && (starts.contains(#[trigger] es[k].0) || r.contains(es[k].0))
                ==> r.contains(es[k].1),
        is_path(es, p),
        p.len() >= 2,
        starts.contains(p[0]),
        1 <= i < p.len(),
    ensures
        r.contains(p[i]),
    decreases i,
{
    assert(es.contains((p[i - 1], p[i])));
    let k = choose|k: int| 0 <= k < es.len() && es[k] == (p[i - 1], p[i]);
    if i > 1 {
        lemma_path_nodes_in_closed(es, starts, r, p, i - 1);
        assert(r.contains(es[k].0));
    } else {
        assert(starts.contains(es[k].0));
    }
}

/// A set closed under the edges from `starts` and from itself holds every
/// node reached from `starts`.
proof fn lemma_closed_contains_reached<V>(es: Seq<(V, V)>, starts: Seq<V>, r: Seq<V>, b: V)
    requires
        forall|k: int|
            0 <= k < es.len() && (starts.contains(#[trigger] es[k].0) || r.contains(es[k].0))
                ==> r.contains(es[k].1),
        reached_from(es, starts, b),
    ensures
        r.contains(b),
{
    let a = choose|a: V| #[trigger] starts.contains(a) && reaches(es, a, b);
    let p = choose|p: Seq<V>|
        #![trigger is_path(es, p), p[0], p[p.len() - 1]]
        p.len() >= 2 && p[0] == a && p[p.len() - 1] == b && is_path(es, p);
    lemma_path_nodes_in_closed(es, starts, r, p, p.len() - 1);
}

/// One edge from a start, or from a node already reached, reaches its target.
proof fn lemma_reached_step<V>(es: Seq<(V, V)>, starts: Seq<V>, k: int)
    requires
        0 <= k < es.len(),
        starts.contains(es[k].0) || reached_from(es, starts, es[k].0),
    ensures
        reached_from(es, starts, es[k].1),
{
    let (u, v) = es[k];
    assert(es.contains((u, v)));
    if starts.contains(u) {
        let p = seq![u, v];
        assert(is_path(es, p)) by {
            assert forall|j: int| #![trigger p[j]] 0 <= j < p.len() - 1 implies es.contains(
                (p[j], p[j + 1]),
            ) by {
                assert(j == 0);
            }
        }
        assert(p[p.len() - 1] == v);
        assert(reaches(es, u, v));
    } else {
        let a = choose|a: V| #[trigger] starts.contains(a) && reaches(es, a, u);
        let p = choose|p: Seq<V>|
            #![trigger is_path(es, p), p[0], p[p.len() - 1]]
            p.len() >= 2 && p[0] == a && p[p.len() - 1] == u && is_path(es, p);
        lemma_extend_path(es, p, v);
        let q = p.push(v);
        assert(q[0] == a && q[q.len() - 1] == v);
        assert(reaches(es, a, v));
    }
}

/// Marks every edge whose target is `target`.
pub(crate) fn mark_target<K: Key>(edges: &Vec<(K, K)>, seen: &mut Vec<bool>, target: &K)
    requires
        old(seen)@.len() == edges@.len(),
    ensures
        final(seen)@.len() == edges@.len(),
        forall|k: int|
            #![trigger final(seen)@[k]]
            0 <= k < edges@.len() ==> final(seen)@[k] == (old(seen)@[k] || edge_views(edges@)[k].1
                == target@),
        count_false(final(seen)@) <= count_false(old(seen)@),
        (exists|k: int|
            0 <= k < edges@.len() && !old(seen)@[k] && #[trigger] edge_views(edges@)[k].1
                == target@) ==> count_false(final(seen)@) < count_false(old(seen)@),
{
    let ghost es = edge_views(edges@);
    let ghost s0 = seen@;
    let n = edges.len();
    let mut j: usize = 0;
    while j < n
        invariant
            n == edges@.len(),
            es == edge_views(edges@),
            seen@.len() == n,
            s0.len() == n,
            j <= n,
            forall|k: int|
                #![trigger seen@[k]]
                0 <= k < n ==> seen@[k] == (s0[k] || (k < j && es[k].1 == target@)),
            count_false(seen@) <= count_false(s0),
            (exists|k: int| 0 <= k < j && !s0[k] && #[trigger] es[k].1 == target@)
                ==> count_false(seen@) < count_false(s0),
        decreases n - j,
    {
        assert(es[j as int] == (edges@[j as int].0@, edges@[j as int].1@));
        let ghost before = seen@;
        let hit = edges[j].1.same(target);
        if !seen[j] && hit {
            proof {
                lemma_count_false_set(seen@, j as int);
            }
            seen.set(j, true);
        }
        proof {
            assert forall|k: int|
                #![trigger seen@[k]]
                0 <= k < n implies seen@[k] == (s0[k] || (k < j + 1 && es[k].1 == target@)) by {
                if k != j {
                    assert(seen@[k] == before[k]);
                    assert(before[k] == (s0[k] || (k < j && es[k].1 == target@)));
                } else {
                    assert(before[k] == (s0[k] || (k < j && es[k].1 == target@)));
                    assert(before[k] == s0[k]);
                }
            }
            if !s0[j as int] && es[j as int].1 == target@ {
                assert(count_false(seen@) < count_false(s0));
            }
        }
        j = j + 1;
    }
}

/// The nodes reached from `starts` by one edge or more, each once.
pub fn reachable_from<K: Key>(edges: &Vec<(K, K)>, starts: &Vec<K>) -> (r: Vec<K>)
    ensures
        views(r@).no_duplicates(),
        forall|b: K::V|
            views(r@).contains(b) <==> reached_from(edge_views(edges@), views(starts@), b),
{
    let ghost es = edge_views(edges@);
    let ghost ss = views(starts@);
    let n = edges.len();
    let mut r: Vec<K> = Vec::new();
    let mut seen: Vec<bool> = Vec::new();
    while seen.len() < n
        invariant
            seen@.len() <= n,
            forall|k: int| 0 <= k < seen@.len() ==> !seen@[k],
        decreases n - seen@.len(),
    {
        seen.push(false);
    }
    loop
        invariant
            n == edges@.len(),
            es == edge_views(edges@),
            ss == views(starts@),
            seen@.len() == n,
            forall|k: int| 0 <= k < n ==> seen@[k] == views(r@).contains(#[trigger] es[k].1),
            forall|b: K::V| views(r@).contains(b) ==> reached_from(es, ss, b),
            views(r@).no_duplicates(),
        ensures
            views(r@).no_duplicates(),
            forall|b: K::V| views(r@).contains(b) <==> reached_from(es, ss, b),
        decreases count_false(seen@),
    {
        let ghost c0 = count_false(seen@);
        let ghost r0 = r@;
        let mut fired = false;
        let mut i: usize = 0;
        while i < n
            invariant
                n == edges@.len(),
                es == edge_views(edges@),
                ss == views(starts@),
                seen@.len() == n,
                i <= n,
                forall|k: int| 0 <= k < n ==> seen@[k] == views(r@).contains(#[trigger] es[k].1),
                forall|b: K::V| views(r@).contains(b) ==> reached_from(es, ss, b),
                views(r@).no_duplicates(),
                fired ==> count_false(seen@) < c0,
                !fired ==> count_false(seen@) == c0 && r@ == r0,
                !fired ==> forall|k: int|
                    0 <= k < i ==> seen@[k] || !(ss.contains(#[trigger] es[k].0) || views(
                        r@,
                    ).contains(es[k].0)),
            decreases n - i,
        {
            assert(es[i as int] == (edges@[i as int].0@, edges@[i as int].1@));
            if !seen[i] {
                let from_start = contains_key(starts, &edges[i].0);
                let from_reached = contains_key(&r, &edges[i].0);
                if from_start || from_reached {
                    let ghost vv = es[i as int].1;
                    proof {
                        lemma_reached_step(es, ss, i as int);
                    }
                    let ghost rv_old = views(r@);
                    let v = edges[i].1.duplicate();
                    r.push(v);
                    proof {
                        assert(views(r@) == rv_old.push(vv));
                        assert forall|b: K::V| views(r@).contains(b) implies reached_from(
                            es,
                            ss,
                            b,
                        ) by {
                            if b != vv {
                                let j = choose|j: int|
                                    0 <= j < views(r@).len() && views(r@)[j] == b;
                                assert(rv_old[j] == b);
                            }
                        }
                        assert forall|x: int, y: int|
                            0 <= x < y < views(r@).len() implies views(r@)[x] != views(
                                r@,
                            )[y] by {
                            if y == views(r@).len() - 1 {
                                assert(rv_old.contains(rv_old[x]));
                            } else {
                                assert(rv_old[x] != rv_old[y]);
                            }
                        }
                    }
                    let ghost c1 = count_false(seen@);
                    mark_target(edges, &mut seen, &edges[i].1);
                    proof {
                        assert forall|k: int| 0 <= k < n implies seen@[k] == views(r@).contains(
                            #[trigger] es[k].1,
                        ) by {
                            if es[k].1 == vv {
                            } else {
                                assert(views(r@).contains(es[k].1) == rv_old.contains(es[k].1));
                            }
                        }
                    }
                    fired = true;
                }
            }
            i = i + 1;
        }
        if !fired {
            proof {
                assert forall|k: int|
                    0 <= k < es.len() && (ss.contains(#[trigger] es[k].0) || views(r@).contains(
                        es[k].0,
                    )) implies views(r@).contains(es[k].1) by {
                    assert(seen@[k]);
                }
                assert forall|b: K::V| reached_from(es, ss, b) implies views(r@).contains(b) by {
                    lemma_closed_contains_reached(es, ss, views(r@), b);
                }
            }
            break;
        }
    }
    r
}

/// `x` is a start, or is reached from one.
pub open spec fn live<V>(es: Seq<(V, V)>, starts: Seq<V>, x: V) -> bool {
    starts.contains(x) || reached_from(es, starts, x)
}

/// The starts together with every node reached from them, each once.
pub fn starts_and_reachable<K: Key>(edges: &Vec<(K, K)>, starts: &Vec<K>) -> (r: Vec<K>)
    ensures
        views(r@).no_duplicates(),
        forall|b: K::V| views(r@).contains(b) <==> live(edge_views(edges@), views(starts@), b),
{
    let ghost es = edge_views(edges@);
    let ghost ss = views(starts@);
    let mut r = reachable_from(edges, starts);
    let mut i: usize = 0;
    while i < starts.len()
        invariant
            es == edge_views(edges@),
            ss == views(starts@),
            i <= starts@.len(),
            views(r@).no_duplicates(),
            forall|b: K::V|
                views(r@).contains(b) <==> (reached_from(es, ss, b) || ss.take(i as int).contains(
                    b,
                )),
        decreases starts@.len() - i,
    {
        assert(ss[i as int] == starts@[i as int]@);
        assert(ss.take(i + 1) == ss.take(i as int).push(ss[i as int]));
        let ghost before = views(r@);
        if !contains_key(&r, &starts[i]) {
            let k = starts[i].duplicate();
            r.push(k);
            proof {
                assert(views(r@) == before.push(ss[i as int]));
                assert forall|x: int, y: int|
                    0 <= x < y < views(r@).len() implies views(r@)[x] != views(r@)[y] by {
                    if y == views(r@).len() - 1 {
                        assert(before.contains(before[x]));
                    } else {
                        assert(before[x] != before[y]);
                    }
                }
            }
        }
        i = i + 1;
    }
    assert(ss.take(starts@.len() as int) == ss);
    assert forall|b: K::V| views(r@).contains(b) <==> live(es, ss, b) by {
        assert(views(r@).contains(b) <==> (reached_from(es, ss, b) || ss.take(
            starts@.len() as int,
        ).contains(b)));
    }
    r
}

/// Adds a key unless it is already there.
pub fn push_unique<K: Key>(v: &mut Vec<K>, k: K)
    requires
        views(old(v)@).no_duplicates(),
    ensures
        views(final(v)@).no_duplicates(),
        forall|b: K::V| views(final(v)@).contains(b) <==> (views(old(v)@).contains(b) || b == k@),
        final(v)@.len() >= old(v)@.len(),
        forall|i: int| 0 <= i < old(v)@.len() ==> final(v)@[i] == old(v)@[i],
        views(old(v)@).contains(k@) ==> final(v)@ == old(v)@,
        !views(old(v)@).contains(k@) ==> final(v)@.len() == old(v)@.len() + 1,
        !views(old(v)@).contains(k@) ==> final(v)@[old(v)@.len() as int]@ == k@,
{
    if !contains_key(v, &k) {
        let ghost before = views(v@);
        let ghost kv = k@;
        v.push(k);
        proof {
            assert(views(v@) == before.push(kv));
            assert forall|x: int, y: int|
                0 <= x < y < views(v@).len() implies views(v@)[x] != views(v@)[y] by {
                if y == views(v@).len() - 1 {
                    assert(before.contains(before[x]));
                } else {
                    assert(before[x] != before[y]);
                }
            }
        }
    }
}

/// Integer keys are their own views.
pub proof fn lemma_int_views(s: Seq<i64>, es: Seq<(i64, i64)>)
    ensures
        views(s) == s,
        edge_views(es) == es,
        views(es) == es,
{
    assert(views(s) =~= s);
    assert(edge_views(es) =~= es);
    assert(views(es) =~= es);
}

/// The nodes at most `n` edges away from `s`.
pub open spec fn within<V>(es: Seq<(V, V)>, s: V, n: nat) -> Set<V>
    decreases n,
{
    if n == 0 {
        set![s]
    } else {
        let p = within(es, s, (n - 1) as nat);
        p + successors(es, p)
    }
}

/// The nodes that an edge leads to from a node of `p`.
pub open spec fn successors<V>(es: Seq<(V, V)>, p: Set<V>) -> Set<V> {
    Set::new(|b: V| exists|i: int| 0 <= i < es.len() && p.contains(es[i].0) && #[trigger] es[i].1 == b)
}

/// The fewest edges from `s` to `b` are `d`.
pub open spec fn at_distance<V>(es: Seq<(V, V)>, s: V, b: V, d: nat) -> bool {
    within(es, s, d).contains(b) && (d == 0 || !within(es, s, (d - 1) as nat).contains(b))
}

/// `p` is a path of edges from `s` to `b`.
pub open spec fn path_from_to<V>(es: Seq<(V, V)>, s: V, b: V, p: Seq<V>) -> bool {
    p.len() >= 1 && is_path(es, p) && p[0] == s && p[p.len() - 1] == b
}

proof fn lemma_within_has_path<V>(es: Seq<(V, V)>, s: V, b: V, n: nat)
    requires
        within(es, s, n).contains(b),
    ensures
        exists|p: Seq<V>| #[trigger] path_from_to(es, s, b, p) && p.len() <= n + 1,
    decreases n,
{
    if n == 0 {
        assert(b == s);
        let p = seq![s];
        assert(path_from_to(es, s, b, p));
    } else {
        let prev = within(es, s, (n - 1) as nat);
        if prev.contains(b) {
            lemma_within_has_path(es, s, b, (n - 1) as nat);
        } else {
            assert(successors(es, prev).contains(b));
            let i = choose|i: int| 0 <= i < es.len() && prev.contains(es[i].0) && #[trigger] es[i].1 == b;
            let a = es[i].0;
            lemma_within_has_path(es, s, a, (n - 1) as nat);
            let p = choose|p: Seq<V>| #[trigger] path_from_to(es, s, a, p) && p.len() <= n;
            assert(es.contains((a, b))) by {
                assert(es[i] == (a, b));
            }
            lemma_extend_path(es, p, b);
            let q = p.push(b);
            assert(q[0] == s);
            assert(path_from_to(es, s, b, q));
        }
    }
}

proof fn lemma_path_in_within<V>(es: Seq<(V, V)>, s: V, b: V, p: Seq<V>, n: nat)
    requires
        path_from_to(es, s, b, p),
        p.len() <= n + 1,
    ensures
        within(es, s, n).contains(b),
    decreases p.len(),
{
    if p.len() == 1 {
        lemma_within_grows(es, s, 0, n);
        assert(within(es, s, 0).contains(s));
    } else {
        let q = p.drop_last();
        let a = q[q.len() - 1];
        assert(is_path(es, q)) by {
            assert forall|i: int| #![trigger q[i]] 0 <= i < q.len() - 1 implies es.contains((q[i], q[i + 1])) by {
                assert(q[i] == p[i] && q[i + 1] == p[i + 1]);
            }
        }
        assert(path_from_to(es, s, a, q));
        lemma_path_in_within(es, s, a, q, (n - 1) as nat);
        assert(es.contains((p[p.len() - 2], p[p.len() - 1])));
        let k = choose|k: int| 0 <= k < es.len() && es[k] == (a, b);
        assert(successors(es, within(es, s, (n - 1) as nat)).contains(es[k].1));
    }
}

/// The distance that breadth-first search gives a node is the fewest edges
/// of a path to it: a node is at distance `d` exactly when some path from
/// the start has `d` edges and none has fewer.
pub proof fn law_distance_is_fewest_edges<V>(es: Seq<(V, V)>, s: V, b: V, d: nat)
    ensures
        at_distance(es, s, b, d) <==> (exists|p: Seq<V>| #[trigger] path_from_to(es, s, b, p) && p.len() == d + 1)
            && (forall|p: Seq<V>| #[trigger] path_from_to(es, s, b, p) ==> p.len() >= d + 1),
{
    if at_distance(es, s, b, d) {
        lemma_within_has_path(es, s, b, d);
        let p = choose|p: Seq<V>| #[trigger] path_from_to(es, s, b, p) && p.len() <= d + 1;
        assert forall|q: Seq<V>| #[trigger] path_from_to(es, s, b, q) implies q.len() >= d + 1 by {
            if q.len() < d + 1 {
                lemma_path_in_within(es, s, b, q, (d - 1) as nat);
            }
        }
        assert(p.len() == d + 1);
    }
    if (exists|p: Seq<V>| #[trigger] path_from_to(es, s, b, p) && p.len() == d + 1)
        && (forall|p: Seq<V>| #[trigger] path_from_to(es, s, b, p) ==> p.len() >= d + 1) {
        let p = choose|p: Seq<V>| #[trigger] path_from_to(es, s, b, p) && p.len() == d + 1;
        lemma_path_in_within(es, s, b, p, d);
        if d > 0 && within(es, s, (d - 1) as nat).contains(b) {
            lemma_within_has_path(es, s, b, (d - 1) as nat);
        }
    }
}

/// Nodes within `m` edges are within `n >= m` edges.
pub proof fn lemma_within_grows<V>(es: Seq<(V, V)>, s: V, m: nat, n: nat)
    requires
        m <= n,
    ensures
        within(es, s, m).subset_of(within(es, s, n)),
    decreases n,
{
    if m < n {
        lemma_within_grows(es, s, m, (n - 1) as nat);
    }
}

/// A node has one distance.
pub proof fn lemma_distance_unique<V>(es: Seq<(V, V)>, s: V, b: V, d1: nat, d2: nat)
    requires
        at_distance(es, s, b, d1),
        at_distance(es, s, b, d2),
    ensures
        d1 == d2,
{
    if d1 < d2 {
        lemma_within_grows(es, s, d1, (d2 - 1) as nat);
    }
    if d2 < d1 {
        lemma_within_grows(es, s, d2, (d1 - 1) as nat);
    }
}

/// Once a step reaches nothing new, no later step does.
proof fn lemma_within_fixpoint<V>(es: Seq<(V, V)>, s: V, k: nat, n: nat)
    requires
        within(es, s, k + 1) == within(es, s, k),
        k <= n,
    ensures
        within(es, s, n) == within(es, s, k),
    decreases n,
{
    if n > k {
        lemma_within_fixpoint(es, s, k, (n - 1) as nat);
    }
}

/// A graph: a relation of nodes and a relation of edges, with the names of
/// the node attribute and of the edges' source and target attributes.
pub struct Graph {
    pub nodes: Relation,
    pub edges: Relation,
    pub node_id_attr: String,
    pub from_attr: String,
    pub to_attr: String,
}

/// Why a search failed.
#[derive(Debug)]
pub enum GraphError {
    /// The start node is not of the node attribute's type.
    AlgebraError(String),
}

/// The edges of a relation, as pairs of the values at positions `f` and
/// `t`.
pub open spec fn edge_pairs(rows: Seq<Row>, f: int, t: int) -> Seq<(ValueView, ValueView)> {
    rows.map_values(|r: Row| (r@[f], r@[t]))
}

/// The tuple of node `b` at distance `d`, under the heading that puts the
/// node first when `node_first`.
pub open spec fn distance_row(node_first: bool, b: ValueView, d: int) -> Seq<ValueView> {
    let dv = (0u8, d as i64, false, Seq::<char>::empty(), Seq::<u8>::empty());
    if node_first {
        seq![b, dv]
    } else {
        seq![dv, b]
    }
}

/// The tuples of the nodes that the edges reach from `s`, each with its
/// distance.
pub open spec fn distance_rows(node_first: bool, es: Seq<(ValueView, ValueView)>, s: ValueView) -> Set<Seq<ValueView>> {
    Set::new(|x: Seq<ValueView>| exists|b: ValueView, d: nat| at_distance(es, s, b, d) && x == #[trigger] distance_row(node_first, b, d as int))
}

/// The name of the distance attribute.
pub open spec fn distance_name() -> Seq<char> {
    "distance"@
}

impl Graph {
    /// A graph over the two relations.
    pub fn new(nodes: Relation, edges: Relation, node_id_attr: &str, from_attr: &str, to_attr: &str) -> (g: Graph)
        ensures
            g.nodes == nodes,
            g.edges == edges,
            g.node_id_attr@ == node_id_attr@,
            g.from_attr@ == from_attr@,
            g.to_attr@ == to_attr@,
    {
        Graph {
            nodes,
            edges,
            node_id_attr: node_id_attr.to_owned(),
            from_attr: from_attr.to_owned(),
            to_attr: to_attr.to_owned(),
        }
    }

    /// The graph is laid out as a search needs: the node attribute is a
    /// node attribute, the source and target attributes are edge attributes
    /// of the node type, and no name clashes with `distance`.
    pub open spec fn well_formed(&self) -> bool {
        let h = self.nodes.heading@;
        let eh = self.edges.heading@;
        &&& self.nodes.wf()
        &&& self.edges.wf()
        &&& exists|a: int| 0 <= a < h.len() && (#[trigger] h[a]).name@ == self.node_id_attr@
        &&& exists|a: int| 0 <= a < eh.len() && (#[trigger] eh[a]).name@ == self.from_attr@
        &&& exists|a: int| 0 <= a < eh.len() && (#[trigger] eh[a]).name@ == self.to_attr@
        &&& forall|a: int, c: int| 0 <= a < h.len() && 0 <= c < eh.len() && h[a].name@ == self.node_id_attr@
            && (eh[c].name@ == self.from_attr@ || eh[c].name@ == self.to_attr@) ==> #[trigger] eh[c].ty == #[trigger] h[a].ty
        &&& self.node_id_attr@ != distance_name()
    }

    /// The position of the node attribute.
    pub open spec fn node_pos(&self) -> int {
        choose|a: int| 0 <= a < self.nodes.heading@.len() && (#[trigger] self.nodes.heading@[a]).name@ == self.node_id_attr@
    }

    /// The edges of the graph.
    pub open spec fn edge_list(&self) -> Seq<(ValueView, ValueView)> {
        let eh = self.edges.heading@;
        let f = choose|a: int| 0 <= a < eh.len() && (#[trigger] eh[a]).name@ == self.from_attr@;
        let t = choose|a: int| 0 <= a < eh.len() && (#[trigger] eh[a]).name@ == self.to_attr@;
        edge_pairs(self.edges.tuples@, f, t)
    }

    /// Breadth-first search from `start`: a relation of each node that the
    /// edges reach from the start, with its distance, the fewest edges
    /// that lead to it (0 for the start).
    pub fn bfs(&self, start: ScalarValue) -> (r: Result<Relation, GraphError>)
        requires
            self.well_formed(),
            self.edges.tuples@.len() < i64::MAX,
        ensures
            match r {
                Ok(rel) => type_of(start@) == self.nodes.heading@[self.node_pos()].ty && rel.wf()
                    && rel.heading@.len() == 2
                    && (rel.heading@[0].name@ == self.node_id_attr@ || rel.heading@[1].name@ == self.node_id_attr@)
                    && rel.tuple_set() == distance_rows(rel.heading@[0].name@ == self.node_id_attr@, self.edge_list(), start@),
                Err(_) => type_of(start@) != self.nodes.heading@[self.node_pos()].ty,
            },
    {
        let ghost es = self.edge_list();
        let node_pos = position_of(&self.nodes.heading, &self.node_id_attr);
        let np = match node_pos {
            Some(p) => p,
            None => {
                assert(false);
                return Err(GraphError::AlgebraError("node attribute missing".to_owned()));
            },
        };
        proof {
            crate::importer::lemma_names_distinct(self.nodes.heading@);
            assert(self.node_pos() == np as int);
        }
        let node_ty = self.nodes.heading[np].ty;
        if start.scalar_type() != node_ty {
            return Err(GraphError::AlgebraError("start node is not of the node type".to_owned()));
        }
        let fp = match position_of(&self.edges.heading, &self.from_attr) {
            Some(p) => p,
            None => {
                assert(false);
                return Err(GraphError::AlgebraError("source attribute missing".to_owned()));
            },
        };
        let tp = match position_of(&self.edges.heading, &self.to_attr) {
            Some(p) => p,
            None => {
                assert(false);
                return Err(GraphError::AlgebraError("target attribute missing".to_owned()));
            },
        };
        proof {
            crate::importer::lemma_names_distinct(self.edges.heading@);
            let eh = self.edges.heading@;
            assert((choose|a: int| 0 <= a < eh.len() && (#[trigger] eh[a]).name@ == self.from_attr@) == fp as int);
            assert((choose|a: int| 0 <= a < eh.len() && (#[trigger] eh[a]).name@ == self.to_attr@) == tp as int);
            assert(es == edge_pairs(self.edges.tuples@, fp as int, tp as int));
        }
        let (visited, dist) = self.levels(&start, fp, tp);
        // The result heading, sorted by name.
        let node_first = str_less(self.node_id_attr.as_str(), "distance");
        let na = Attribute { name: self.node_id_attr.clone(), ty: node_ty };
        let da = Attribute { name: "distance".to_owned(), ty: ScalarType::Int };
        let heading = if node_first { vec![na, da] } else { vec![da, na] };
        proof {
            crate::relation::lemma_lex_total(self.node_id_attr@, distance_name());
        }
        let mut result = Relation::new(heading);
        let mut i: usize = 0;
        while i < visited.len()
            invariant
                result.wf(),
                i <= visited@.len(),
                visited@.len() == dist@.len(),
                result.heading@.len() == 2,
                node_first == (result.heading@[0].name@ == self.node_id_attr@),
                result.heading@[0].name@ == self.node_id_attr@ || result.heading@[1].name@ == self.node_id_attr@,
                node_first ==> result.heading@[0].ty == node_ty && result.heading@[1].ty == ScalarType::Int,
                !node_first ==> result.heading@[1].ty == node_ty && result.heading@[0].ty == ScalarType::Int,
                forall|k: int| 0 <= k < visited@.len() ==> type_of((#[trigger] visited@[k])@) == node_ty,
                forall|k: int| 0 <= k < dist@.len() ==> #[trigger] dist@[k] >= 0,
                forall|k: int| 0 <= k < visited@.len() ==> at_distance(es, start@, (#[trigger] visited@[k])@, dist@[k] as nat),
                result.tuple_set() == Set::new(|x: Seq<ValueView>| exists|k: int| 0 <= k < i
                    && x == distance_row(node_first, (#[trigger] visited@[k])@, dist@[k] as int)),
            decreases visited@.len() - i,
        {
            let d = ScalarValue::Int(dist[i]);
            let b = visited[i].duplicate();
            let row = if node_first { Row { values: vec![b, d] } } else { Row { values: vec![d, b] } };
            assert(row@ =~= distance_row(node_first, visited@[i as int]@, dist@[i as int] as int));
            let ghost before = result.tuple_set();
            result.insert(row);
            assert(result.tuple_set() =~= Set::new(|x: Seq<ValueView>| exists|k: int| 0 <= k < i + 1
                && x == distance_row(node_first, (#[trigger] visited@[k])@, dist@[k] as int))) by {
                assert forall|x: Seq<ValueView>| result.tuple_set().contains(x) implies exists|k: int| 0 <= k < i + 1
                    && x == distance_row(node_first, (#[trigger] visited@[k])@, dist@[k] as int) by {
                    if x != row@ {
                        assert(before.contains(x));
                    }
                }
            }
            i = i + 1;
        }
        proof {
            let target = distance_rows(node_first, es, start@);
            assert forall|x: Seq<ValueView>| result.tuple_set().contains(x) implies target.contains(x) by {
                let k = choose|k: int| 0 <= k < visited@.len() && x == distance_row(node_first, (#[trigger] visited@[k])@, dist@[k] as int);
                assert(dist@[k] >= 0);
                assert(at_distance(es, start@, visited@[k]@, dist@[k] as nat));
                assert(x == distance_row(node_first, visited@[k]@, (dist@[k] as nat) as int));
            }
            assert forall|x: Seq<ValueView>| target.contains(x) implies result.tuple_set().contains(x) by {
                let (b, d) = choose|b: ValueView, d: nat| at_distance(es, start@, b, d) && x == #[trigger] distance_row(node_first, b, d as int);
                assert(views(visited@).contains(b));
                let k = choose|k: int| 0 <= k < views(visited@).len() && views(visited@)[k] == b;
                assert(visited@[k]@ == b);
                assert(dist@[k] >= 0);
                lemma_distance_unique(es, start@, b, d, dist@[k] as nat);
            }
            assert(result.tuple_set() =~= target);
        }
        Ok(result)
    }

    /// The targets of edges from a node of `frontier` that are not in
    /// `visited`, each once.
    fn next_frontier(&self, fp: usize, tp: usize, frontier: &Vec<ScalarValue>, visited: &Vec<ScalarValue>) -> (next: Vec<ScalarValue>)
        requires
            self.edges.wf(),
            fp < self.edges.heading@.len(),
            tp < self.edges.heading@.len(),
        ensures
            views(next@).no_duplicates(),
            forall|b: ValueView| views(next@).contains(b) <==> (!views(visited@).contains(b) && exists|i: int|
                0 <= i < self.edges.tuples@.len() && views(frontier@).contains(edge_pairs(self.edges.tuples@, fp as int, tp as int)[i].0)
                && #[trigger] edge_pairs(self.edges.tuples@, fp as int, tp as int)[i].1 == b),
            forall|k: int| 0 <= k < next@.len() ==> type_of((#[trigger] next@[k])@) == self.edges.heading@[tp as int].ty,
    {
        let ghost es = edge_pairs(self.edges.tuples@, fp as int, tp as int);
        let mut next: Vec<ScalarValue> = Vec::new();
        let mut e: usize = 0;
        while e < self.edges.tuples.len()
            invariant
                es == edge_pairs(self.edges.tuples@, fp as int, tp as int),
                self.edges.wf(),
                fp < self.edges.heading@.len(),
                tp < self.edges.heading@.len(),
                e <= self.edges.tuples@.len(),
                views(next@).no_duplicates(),
                forall|b: ValueView| views(next@).contains(b) <==> (!views(visited@).contains(b) && exists|i: int|
                    0 <= i < e && views(frontier@).contains(es[i].0) && #[trigger] es[i].1 == b),
                forall|k: int| 0 <= k < next@.len() ==> type_of((#[trigger] next@[k])@) == self.edges.heading@[tp as int].ty,
            decreases self.edges.tuples@.len() - e,
        {
            let t = &self.edges.tuples[e];
            assert(fits_heading(self.edges.heading@, *t));
            assert(t@.len() == t.values@.len());
            let a = &t.values[fp];
            let b = &t.values[tp];
            let ghost bv = b@;
            assert(es[e as int].0 == a@ && es[e as int].1 == bv);
            let in_frontier = contains_key(frontier, a);
            let seen = contains_key(visited, b);
            let ghost before = views(next@);
            if in_frontier && !seen {
                assert(type_of(bv) == self.edges.heading@[tp as int].ty);
                push_unique(&mut next, b.duplicate());
                assert forall|k: int| 0 <= k < next@.len() implies type_of((#[trigger] next@[k])@) == self.edges.heading@[tp as int].ty by {
                    if k >= before.len() {
                        assert(views(next@)[k] == next@[k]@);
                        assert(views(next@).contains(next@[k]@));
                    }
                }
            }
            assert forall|x: ValueView| views(next@).contains(x) <==> (!views(visited@).contains(x) && exists|i: int|
                0 <= i < e + 1 && views(frontier@).contains(es[i].0) && #[trigger] es[i].1 == x) by {
                if views(next@).contains(x) {
                    if x != bv || !(in_frontier && !seen) {
                        assert(before.contains(x));
                    }
                }
                if !views(visited@).contains(x) && exists|i: int|
                    0 <= i < e + 1 && views(frontier@).contains(es[i].0) && #[trigger] es[i].1 == x {
                    let i = choose|i: int|
                        0 <= i < e + 1 && views(frontier@).contains(es[i].0) && #[trigger] es[i].1 == x;
                    if i == e {
                        assert(in_frontier && !seen);
                    } else {
                        assert(before.contains(x));
                    }
                }
            }
            e = e + 1;
        }
        next
    }

    /// The nodes that the edges reach from `start`, each once, with their
    /// distances.
    #[verifier::loop_isolation(false)]
    #[verifier::spinoff_prover]
    #[verifier::rlimit(60)]
    fn levels(&self, start: &ScalarValue, fp: usize, tp: usize) -> (r: (Vec<ScalarValue>, Vec<i64>))
        requires
            self.well_formed(),
            fp < self.edges.heading@.len(),
            tp < self.edges.heading@.len(),
            self.edges.heading@[fp as int].name@ == self.from_attr@,
            self.edges.heading@[tp as int].name@ == self.to_attr@,
            self.edge_list() == edge_pairs(self.edges.tuples@, fp as int, tp as int),
            type_of(start@) == self.nodes.heading@[self.node_pos()].ty,
            self.edges.tuples@.len() < i64::MAX,
        ensures
            r.0@.len() == r.1@.len(),
            forall|k: int| 0 <= k < r.0@.len() ==> type_of((#[trigger] r.0@[k])@) == self.nodes.heading@[self.node_pos()].ty,
            forall|k: int| 0 <= k < r.1@.len() ==> #[trigger] r.1@[k] >= 0,
            forall|k: int| 0 <= k < r.0@.len() ==> at_distance(self.edge_list(), start@, (#[trigger] r.0@[k])@, r.1@[k] as nat),
            forall|b: ValueView, d: nat| at_distance(self.edge_list(), start@, b, d) ==> views(r.0@).contains(b),
    {
        let ghost es = self.edge_list();
        let ghost s = start@;
        let ghost nty = self.nodes.heading@[self.node_pos()].ty;
        proof {
            let h = self.nodes.heading@;
            let eh = self.edges.heading@;
            assert(h[self.node_pos()].name@ == self.node_id_attr@);
            assert(eh[tp as int].ty == nty);
        }
        let n_edges = self.edges.tuples.len();
        let mut visited: Vec<ScalarValue> = vec![start.duplicate()];
        let mut dist: Vec<i64> = vec![0];
        let mut frontier: Vec<ScalarValue> = vec![start.duplicate()];
        let mut level: i64 = 0;
        proof {
            assert(views(visited@) =~= seq![s]);
            assert(views(frontier@) =~= seq![s]);
            assert(views(visited@).to_set() =~= within(es, s, 0));
            assert(views(frontier@).to_set() =~= within(es, s, 0));
            assert(at_distance(es, s, s, 0));
        }
        loop
            invariant
                es == self.edge_list(),
                es == edge_pairs(self.edges.tuples@, fp as int, tp as int),
                n_edges == self.edges.tuples@.len(),
                n_edges < i64::MAX,
                0 <= level,
                level + 1 <= visited@.len() <= n_edges + 1,
                visited@.len() == dist@.len(),
                views(visited@).no_duplicates(),
                views(visited@).to_set() == within(es, s, level as nat),
                level == 0 ==> views(frontier@).to_set() == within(es, s, 0),
                level > 0 ==> views(frontier@).to_set() == within(es, s, level as nat).difference(within(es, s, (level - 1) as nat)),
                forall|k: int| 0 <= k < visited@.len() ==> type_of((#[trigger] visited@[k])@) == nty,
                forall|k: int| 0 <= k < dist@.len() ==> #[trigger] dist@[k] >= 0,
                forall|k: int| 0 <= k < visited@.len() ==> at_distance(es, s, (#[trigger] visited@[k])@, dist@[k] as nat),
            decreases n_edges + 1 - visited@.len(),
        {
            let next = self.next_frontier(fp, tp, &frontier, &visited);
            proof {
                lemma_level_step(es, s, level as nat, views(visited@), views(frontier@), views(next@));
            }
            if next.len() == 0 {
                proof {
                    assert(views(next@).to_set() =~= Set::<ValueView>::empty());
                    assert(within(es, s, (level + 1) as nat) =~= within(es, s, level as nat));
                    assert forall|b: ValueView, d: nat| at_distance(es, s, b, d) implies views(visited@).contains(b) by {
                        if d <= level {
                            lemma_within_grows(es, s, d, level as nat);
                        } else {
                            lemma_within_fixpoint(es, s, level as nat, d);
                        }
                        assert(views(visited@).to_set().contains(b));
                    }
                }
                break;
            }
            let ghost vbefore = visited@;
            let ghost dbefore = dist@;
            let ghost old_len = visited@.len();
            let ghost old_v = views(visited@);
            let ghost nv = views(next@);
            proof {
                assert(level < i64::MAX);
                assert(forall|k: int| 0 <= k < old_len ==> dbefore[k] >= 0 && at_distance(es, s, (#[trigger] vbefore[k])@, dbefore[k] as nat));
                assert forall|b: ValueView| nv.contains(b) implies !old_v.to_set().contains(b) && within(es, s, (level + 1) as nat).contains(b) by {
                    assert(nv.to_set().contains(b));
                }
            }
            let mut j: usize = 0;
            while j < next.len()
                invariant
                    j <= next@.len(),
                    nv == views(next@),
                    visited@.len() == dist@.len(),
                    visited@.len() == old_len + j,
                    forall|k: int| 0 <= k < old_len ==> #[trigger] visited@[k] == vbefore[k],
                    forall|k: int| 0 <= k < old_len ==> #[trigger] dist@[k] == dbefore[k],
                    views(visited@) == old_v + nv.take(j as int),
                    forall|k: int| 0 <= k < visited@.len() ==> type_of((#[trigger] visited@[k])@) == nty,
                    forall|k: int| 0 <= k < next@.len() ==> type_of((#[trigger] next@[k])@) == nty,
                    forall|k: int| old_len <= k < visited@.len() ==> dist@[k] == level + 1,
                    level < i64::MAX,
                decreases next@.len() - j,
            {
                let ghost before = views(visited@);
                visited.push(next[j].duplicate());
                dist.push(level + 1);
                assert(views(visited@) =~= before.push(next@[j as int]@));
                assert(nv.take(j + 1) =~= nv.take(j as int).push(next@[j as int]@));
                j = j + 1;
            }
            proof {
                assert(nv.take(nv.len() as int) =~= nv);
                assert(views(visited@) == old_v + nv);
                assert forall|x: int, y: int| 0 <= x < y < views(visited@).len() implies views(visited@)[x] != views(visited@)[y] by {
                    if y >= old_len && x < old_len {
                        assert(old_v.contains(old_v[x]));
                        assert(old_v.to_set().contains(old_v[x]));
                        assert(nv.contains(nv[y - old_len]));
                    } else if y >= old_len {
                        assert(nv[x - old_len] != nv[y - old_len]);
                    } else {
                        assert(old_v[x] != old_v[y]);
                    }
                }
                assert(views(visited@).to_set() =~= within(es, s, (level + 1) as nat)) by {
                    assert forall|b: ValueView| views(visited@).to_set().contains(b) <==> within(es, s, (level + 1) as nat).contains(b) by {
                        if views(visited@).contains(b) {
                            let k = choose|k: int| 0 <= k < views(visited@).len() && views(visited@)[k] == b;
                            if k < old_len {
                                assert(old_v.contains(b));
                            } else {
                                assert(nv.contains(b));
                            }
                        }
                        if within(es, s, (level + 1) as nat).contains(b) {
                            if old_v.to_set().contains(b) {
                                let k = choose|k: int| 0 <= k < old_v.len() && old_v[k] == b;
                                assert(views(visited@)[k] == b);
                            } else {
                                assert(nv.to_set().contains(b));
                                let k = choose|k: int| 0 <= k < nv.len() && nv[k] == b;
                                assert(views(visited@)[old_len + k] == b);
                            }
                        }
                    }
                }
                assert forall|k: int| 0 <= k < visited@.len() implies dist@[k] >= 0 && at_distance(es, s, (#[trigger] visited@[k])@, dist@[k] as nat) by {
                    if k < old_len {
                        assert(visited@[k] == vbefore[k]);
                        assert(dist@[k] == dbefore[k]);
                        assert(dbefore[k] >= 0 && at_distance(es, s, vbefore[k]@, dbefore[k] as nat));
                    } else {
                        let b = visited@[k]@;
                        assert(b == views(visited@)[k]);
                        assert(b == nv[k - old_len]);
                        assert(nv.contains(b));
                        assert(!old_v.to_set().contains(b));
                        assert(nv.to_set().contains(b));
                        assert(within(es, s, (level + 1) as nat).contains(b));
                        assert(!within(es, s, level as nat).contains(b));
                        assert(dist@[k] == level + 1);
                        assert(at_distance(es, s, b, (level + 1) as nat));
                    }
                }
                assert forall|k: int| 0 <= k < dist@.len() implies #[trigger] dist@[k] >= 0 by {
                    if k < old_len {
                        assert(dist@[k] == dbefore[k]);
                    }
                }
                // Counting: every visited node but the start is an edge target.
                let targets = es.map_values(|p: (ValueView, ValueView)| p.1);
                assert forall|b: ValueView| views(visited@).to_set().contains(b) implies targets.to_set().insert(s).contains(b) by {
                    if b != s {
                        assert(within(es, s, (level + 1) as nat).contains(b));
                        lemma_within_in_targets(es, s, (level + 1) as nat, b);
                        let i = choose|i: int| 0 <= i < es.len() && es[i].1 == b;
                        assert(targets[i] == b);
                    }
                }
                views(visited@).unique_seq_to_set();
                targets.lemma_cardinality_of_set();
                vstd::set_lib::lemma_len_subset(views(visited@).to_set(), targets.to_set().insert(s));
            }
            frontier = next;
            level = level + 1;
            proof {
                assert(views(frontier@).to_set() =~= within(es, s, level as nat).difference(within(es, s, (level - 1) as nat)));
            }
        }
        (visited, dist)
    }
}

/// One level of the search: with `v` the nodes within `k` steps and `f`
/// those exactly `k` steps away, the new targets of `f` outside `v` are
/// those exactly `k + 1` steps away.
proof fn lemma_level_step<V>(es: Seq<(V, V)>, s: V, k: nat, v: Seq<V>, f: Seq<V>, n: Seq<V>)
    requires
        v.to_set() == within(es, s, k),
        k == 0 ==> f.to_set() == within(es, s, 0),
        k > 0 ==> f.to_set() == within(es, s, k).difference(within(es, s, (k - 1) as nat)),
        forall|b: V| n.contains(b) <==> (!v.contains(b) && exists|i: int| 0 <= i < es.len() && f.contains(es[i].0) && #[trigger] es[i].1 == b),
    ensures
        within(es, s, k + 1) == within(es, s, k) + n.to_set(),
        n.to_set() == within(es, s, k + 1).difference(within(es, s, k)),
        forall|b: V| n.contains(b) ==> !v.to_set().contains(b),
{
    let wk = within(es, s, k);
    let nk = within(es, s, k + 1);
    assert(nk == wk + successors(es, wk));
    assert forall|b: V| nk.contains(b) <==> wk.contains(b) || n.to_set().contains(b) by {
        if nk.contains(b) && !wk.contains(b) {
            let i = choose|i: int| 0 <= i < es.len() && wk.contains(es[i].0) && #[trigger] es[i].1 == b;
            if k > 0 {
                let prev = within(es, s, (k - 1) as nat);
                if prev.contains(es[i].0) {
                    assert(within(es, s, k) == prev + successors(es, prev));
                    assert(successors(es, prev).contains(b));
                }
            }
            assert(f.to_set().contains(es[i].0));
            assert(f.contains(es[i].0));
            assert(!v.to_set().contains(b));
            assert(n.contains(b));
        }
        if n.to_set().contains(b) {
            assert(n.contains(b));
            let i = choose|i: int| 0 <= i < es.len() && f.contains(es[i].0) && #[trigger] es[i].1 == b;
            assert(f.to_set().contains(es[i].0));
            if k > 0 {
                assert(wk.contains(es[i].0));
            }
            assert(successors(es, wk).contains(b));
        }
    }
    assert(nk =~= wk + n.to_set());
    assert forall|b: V| n.contains(b) implies !v.to_set().contains(b) by {
        assert(!v.contains(b));
    }
    assert(n.to_set() =~= nk.difference(wk));
}

/// A node within some steps other than the start is the target of an edge.
proof fn lemma_within_in_targets<V>(es: Seq<(V, V)>, s: V, n: nat, b: V)
    requires
        within(es, s, n).contains(b),
        b != s,
    ensures
        exists|i: int| 0 <= i < es.len() && es[i].1 == b,
    decreases n,
{
    if n > 0 {
        let p = within(es, s, (n - 1) as nat);
        if p.contains(b) {
            lemma_within_in_targets(es, s, (n - 1) as nat, b);
        } else {
            let i = choose|i: int| 0 <= i < es.len() && p.contains(es[i].0) && #[trigger] es[i].1 == b;
        }
    }
}

} // verus!
