//! The difference between two relations of one heading: without a key,
//! the tuples inserted and deleted; with a key, tuples whose key appears on
//! both sides with other values are updates.
use vstd::prelude::*;
use crate::graph::{contains_key, views, Key};
use crate::relation::{copy_heading, fits_heading, Attribute, Relation, Row, ValueView};

verus! {

broadcast use vstd::seq_lib::group_seq_properties;

/// Why two relations could not be compared.
#[derive(Clone, Debug, PartialEq, Eq)]
pub enum DiffError {
    /// The relations have different headings.
    TypeMismatch,
    /// The key names an attribute that the heading lacks.
    KeyAttributeMissing(String),
}

/// What changed from one relation to another.
pub struct DiffReport {
    /// Tuples of the new relation that are not in the old one.
    pub inserted: Relation,
    /// Tuples of the old relation that are not in the new one.
    pub deleted: Relation,
    /// Pairs (old tuple, new tuple) of one key and different values.
    pub updated: Vec<(Row, Row)>,
}

impl DiffReport {
    /// Whether nothing changed.
    pub fn is_empty(&self) -> (b: bool)
        ensures
            b == (self.inserted.tuples@.len() == 0 && self.deleted.tuples@.len() == 0 && self.updated@.len() == 0),
    {
        self.inserted.is_empty() && self.deleted.is_empty() && self.updated.len() == 0
    }
}

/// The values of a tuple at the key positions.
pub open spec fn key_of(r: Seq<ValueView>, idx: Seq<usize>) -> Seq<ValueView> {
    idx.map_values(|i: usize| r[i as int])
}

/// Some tuple of `rows` has key `k`.
pub open spec fn has_key(rows: Seq<Row>, idx: Seq<usize>, k: Seq<ValueView>) -> bool {
    exists|t: int| 0 <= t < rows.len() && #[trigger] key_of(rows[t]@, idx) == k
}

/// Tuple `t` is the last of `rows` with its key.
pub open spec fn last_with_key(rows: Seq<Row>, idx: Seq<usize>, t: int) -> bool {
    &&& 0 <= t < rows.len()
    &&& forall|u: int| t < u < rows.len() ==> key_of(#[trigger] rows[u]@, idx) != key_of(rows[t]@, idx)
}

/// The updates found among the first `n` new tuples, in order: each new
/// tuple whose key the old relation has, paired with the last old tuple of
/// that key, when the two differ.
pub open spec fn updates(old: Seq<Row>, new: Seq<Row>, idx: Seq<usize>, n: int) -> Seq<(Seq<ValueView>, Seq<ValueView>)>
    decreases n,
{
    if n <= 0 {
        Seq::empty()
    } else {
        let rest = updates(old, new, idx, n - 1);
        let t = new[n - 1];
        if exists|w: int| #[trigger] last_with_key(old, idx, w) && key_of(old[w]@, idx) == key_of(t@, idx) {
            let w = choose|w: int| #[trigger] last_with_key(old, idx, w) && key_of(old[w]@, idx) == key_of(t@, idx);
            if old[w]@ != t@ {
                rest.push((old[w]@, t@))
            } else {
                rest
            }
        } else {
            rest
        }
    }
}

/// Position `i` of the key names an attribute the heading lacks.
pub open spec fn key_missing(heading: Seq<Attribute>, key: Seq<String>, i: int) -> bool {
    0 <= i < key.len() && forall|a: int| 0 <= a < heading.len() ==> (#[trigger] heading[a]).name@ != key[i]@
}

/// The key positions: `idx[i]` is where the heading holds key attribute `i`.
pub open spec fn key_positions(heading: Seq<Attribute>, key: Seq<String>, idx: Seq<usize>) -> bool {
    &&& idx.len() == key.len()
    &&& forall|i: int| 0 <= i < key.len() ==> (#[trigger] idx[i]) < heading.len() && heading[idx[i] as int].name@ == key[i]@
}

/// The key's positions in the heading, or the first key attribute that the
/// heading lacks.
fn find_key(heading: &Vec<Attribute>, key: &Vec<String>) -> (r: Result<Vec<usize>, usize>)
    ensures
        r is Ok ==> key_positions(heading@, key@, r->Ok_0@),
        r is Err ==> key_missing(heading@, key@, r->Err_0 as int) && forall|j: int|
            0 <= j < r->Err_0 ==> !key_missing(heading@, key@, j),
{
    let mut idx: Vec<usize> = Vec::new();
    let mut i: usize = 0;
    while i < key.len()
        invariant
            i <= key@.len(),
            idx@.len() == i,
            forall|k: int| 0 <= k < i ==> (#[trigger] idx@[k]) < heading@.len() && heading@[idx@[k] as int].name@ == key@[k]@,
        decreases key@.len() - i,
    {
        let found = position_of(heading, &key[i]);
        match found {
            Some(a) => {
                assert(heading@[a as int].name@ == key@[i as int]@);
                let ghost before = idx@;
                idx.push(a);
                proof {
                    assert forall|k: int| 0 <= k < i + 1 implies (#[trigger] idx@[k]) < heading@.len() && heading@[idx@[k] as int].name@ == key@[k]@ by {
                        if k < i {
                            assert(idx@[k] == before[k]);
                        } else {
                            assert(idx@[k] == a);
                        }
                    }
                }
            },
            None => {
                proof {
                    assert forall|j: int| 0 <= j < i implies !key_missing(heading@, key@, j) by {
                        assert(heading@[idx@[j] as int].name@ == key@[j]@);
                    }
                }
                return Err(i);
            },
        }
        i = i + 1;
    }
    Ok(idx)
}

/// The position of the attribute named `name`.
pub(crate) fn position_of(heading: &Vec<Attribute>, name: &String) -> (r: Option<usize>)
    ensures
        r is Some ==> r->0 < heading@.len() && heading@[r->0 as int].name@ == name@,
        r is None ==> forall|a: int| 0 <= a < heading@.len() ==> (#[trigger] heading@[a]).name@ != name@,
{
    let mut a: usize = 0;
    while a < heading.len()
        invariant
            a <= heading@.len(),
            forall|x: int| 0 <= x < a ==> (#[trigger] heading@[x]).name@ != name@,
        decreases heading@.len() - a,
    {
        if heading[a].name == *name {
            return Some(a);
        }
        a = a + 1;
    }
    None
}

/// Whether two tuples agree on the key positions.
fn key_eq(a: &Row, b: &Row, idx: &Vec<usize>) -> (r: bool)
    requires
        forall|i: int| 0 <= i < idx@.len() ==> (#[trigger] idx@[i]) < a.values@.len() && idx@[i] < b.values@.len(),
    ensures
        r == (key_of(a@, idx@) == key_of(b@, idx@)),
{
    let mut i: usize = 0;
    while i < idx.len()
        invariant
            forall|k: int| 0 <= k < idx@.len() ==> (#[trigger] idx@[k]) < a.values@.len() && idx@[k] < b.values@.len(),
            i <= idx@.len(),
            forall|k: int| 0 <= k < i ==> key_of(a@, idx@)[k] == key_of(b@, idx@)[k],
        decreases idx@.len() - i,
    {
        let p = idx[i];
        if !a.values[p].same(&b.values[p]) {
            assert(key_of(a@, idx@)[i as int] != key_of(b@, idx@)[i as int]);
            return false;
        }
        i = i + 1;
    }
    assert(key_of(a@, idx@) =~= key_of(b@, idx@));
    true
}

/// The last tuple of `rows` with the key of `r`, if any.
fn last_with_key_of(rows: &Vec<Row>, idx: &Vec<usize>, r: &Row, Ghost(h): Ghost<Seq<Attribute>>) -> (w: Option<usize>)
    requires
        forall|k: int| 0 <= k < rows@.len() ==> fits_heading(h, #[trigger] rows@[k]),
        fits_heading(h, *r),
        forall|i: int| 0 <= i < idx@.len() ==> (#[trigger] idx@[i]) < h.len(),
    ensures
        w is Some ==> last_with_key(rows@, idx@, w->0 as int) && key_of(rows@[w->0 as int]@, idx@) == key_of(r@, idx@),
        w is None ==> !has_key(rows@, idx@, key_of(r@, idx@)),
{
    let mut t: usize = rows.len();
    while t > 0
        invariant
            t <= rows@.len(),
            forall|k: int| 0 <= k < rows@.len() ==> fits_heading(h, #[trigger] rows@[k]),
            fits_heading(h, *r),
            forall|i: int| 0 <= i < idx@.len() ==> (#[trigger] idx@[i]) < h.len(),
            forall|u: int| t <= u < rows@.len() ==> key_of(#[trigger] rows@[u]@, idx@) != key_of(r@, idx@),
        decreases t,
    {
        t = t - 1;
        assert(fits_heading(h, rows@[t as int]));
        if key_eq(&rows[t], r, idx) {
            return Some(t);
        }
    }
    None
}

/// Whether two headings are equal.
pub(crate) fn same_heading(a: &Vec<Attribute>, b: &Vec<Attribute>) -> (r: bool)
    ensures
        r == (views(a@) == views(b@)),
{
    if a.len() != b.len() {
        assert(views(a@).len() != views(b@).len());
        return false;
    }
    let mut i: usize = 0;
    while i < a.len()
        invariant
            a@.len() == b@.len(),
            i <= a@.len(),
            forall|k: int| 0 <= k < i ==> a@[k]@ == b@[k]@,
        decreases a@.len() - i,
    {
        if !a[i].same(&b[i]) {
            assert(views(a@)[i as int] != views(b@)[i as int]);
            return false;
        }
        i = i + 1;
    }
    assert(views(a@) =~= views(b@));
    true
}

/// The tuples of `a` that `b` lacks, over `a`'s heading.
fn minus(a: &Relation, b: &Relation) -> (r: Relation)
    requires
        a.wf(),
    ensures
        r.wf(),
        views(r.heading@) == views(a.heading@),
        r.tuple_set() == a.tuple_set().difference(b.tuple_set()),
{
    let heading = copy_heading(&a.heading);
    let mut r = Relation::new(heading);
    let mut k: usize = 0;
    while k < a.tuples.len()
        invariant
            a.wf(),
            r.wf(),
            views(r.heading@) == views(a.heading@),
            forall|i: int| 0 <= i < a.heading@.len() ==> (#[trigger] r.heading@[i]).ty == a.heading@[i].ty,
            r.heading@.len() == a.heading@.len(),
            k <= a.tuples@.len(),
            r.tuple_set() == views(a.tuples@.take(k as int)).to_set().difference(b.tuple_set()),
        decreases a.tuples@.len() - k,
    {
        let t = &a.tuples[k];
        assert(views(a.tuples@.take(k + 1)) == views(a.tuples@.take(k as int)).push(t@));
        if !b.contains(t) {
            assert(fits_heading(a.heading@, *t));
            let row = t.duplicate();
            assert(fits_heading(r.heading@, row));
            r.insert(row);
        }
        assert(r.tuple_set() =~= views(a.tuples@.take(k + 1)).to_set().difference(b.tuple_set()));
        k = k + 1;
    }
    assert(a.tuples@.take(a.tuples@.len() as int) == a.tuples@);
    r
}

/// The pairs of an update list as values.
pub open spec fn pair_views(v: Seq<(Row, Row)>) -> Seq<(Seq<ValueView>, Seq<ValueView>)> {
    v.map_values(|p: (Row, Row)| (p.0@, p.1@))
}

/// `q` is a new tuple whose key the old relation lacks.
pub open spec fn keyed_inserted(old: Seq<Row>, new: Seq<Row>, idx: Seq<usize>, q: Seq<ValueView>) -> bool {
    exists|j: int| 0 <= j < new.len() && #[trigger] new[j]@ == q && !has_key(old, idx, key_of(q, idx))
}

/// `q` is the last old tuple of its key, and the new relation lacks that key.
pub open spec fn keyed_deleted(old: Seq<Row>, new: Seq<Row>, idx: Seq<usize>, q: Seq<ValueView>) -> bool {
    exists|t: int| #[trigger] last_with_key(old, idx, t) && old[t]@ == q && !has_key(new, idx, key_of(q, idx))
}

proof fn lemma_last_unique(rows: Seq<Row>, idx: Seq<usize>, a: int, b: int)
    requires
        last_with_key(rows, idx, a),
        last_with_key(rows, idx, b),
        key_of(rows[a]@, idx) == key_of(rows[b]@, idx),
    ensures
        a == b,
{
    if a < b {
        assert(key_of(rows[b]@, idx) != key_of(rows[a]@, idx));
    }
    if b < a {
        assert(key_of(rows[a]@, idx) != key_of(rows[b]@, idx));
    }
}

/// The differences when tuples are matched by the key at positions `idx`.
fn keyed_diff(old: &Relation, new: &Relation, idx: &Vec<usize>) -> (r: DiffReport)
    requires
        old.wf(),
        new.wf(),
        views(old.heading@) == views(new.heading@),
        forall|i: int| 0 <= i < idx@.len() ==> (#[trigger] idx@[i]) < old.heading@.len(),
    ensures
        r.inserted.wf(),
        r.deleted.wf(),
        views(r.inserted.heading@) == views(new.heading@),
        views(r.deleted.heading@) == views(old.heading@),
        forall|q: Seq<ValueView>| #[trigger] r.inserted.tuple_set().contains(q) <==> keyed_inserted(old.tuples@, new.tuples@, idx@, q),
        forall|q: Seq<ValueView>| #[trigger] r.deleted.tuple_set().contains(q) <==> keyed_deleted(old.tuples@, new.tuples@, idx@, q),
        pair_views(r.updated@) == updates(old.tuples@, new.tuples@, idx@, new.tuples@.len() as int),
{
    let ghost os = old.tuples@;
    let ghost ns = new.tuples@;
    let ghost h = old.heading@;
    assert(views(h).len() == views(new.heading@).len());
    assert(h.len() == new.heading@.len());
    assert forall|i: int| 0 <= i < h.len() implies (#[trigger] new.heading@[i]).ty == h[i].ty by {
        assert(views(new.heading@)[i] == views(h)[i]);
    }
    let mut inserted = Relation::new(copy_heading(&new.heading));
    let mut updated: Vec<(Row, Row)> = Vec::new();
    let mut j: usize = 0;
    while j < new.tuples.len()
        invariant
            os == old.tuples@,
            ns == new.tuples@,
            h == old.heading@,
            old.wf(),
            new.wf(),
            forall|i: int| 0 <= i < h.len() ==> (#[trigger] new.heading@[i]).ty == h[i].ty,
            h.len() == new.heading@.len(),
            forall|i: int| 0 <= i < idx@.len() ==> (#[trigger] idx@[i]) < h.len(),
            j <= ns.len(),
            inserted.wf(),
            views(inserted.heading@) == views(new.heading@),
            inserted.heading@.len() == new.heading@.len(),
            forall|i: int| 0 <= i < h.len() ==> (#[trigger] inserted.heading@[i]).ty == new.heading@[i].ty,
            forall|q: Seq<ValueView>| #[trigger] inserted.tuple_set().contains(q) <==> exists|x: int|
                0 <= x < j && #[trigger] ns[x]@ == q && !has_key(os, idx@, key_of(q, idx@)),
            pair_views(updated@) == updates(os, ns, idx@, j as int),
        decreases ns.len() - j,
    {
        let t = &new.tuples[j];
        assert(fits_heading(new.heading@, *t));
        assert(fits_heading(h, *t));
        let ghost ins0 = inserted.tuple_set();
        let found = last_with_key_of(&old.tuples, idx, t, Ghost(h));
        match found {
            Some(w) => {
                proof {
                    assert(exists|w: int| #[trigger] last_with_key(os, idx@, w) && key_of(os[w]@, idx@) == key_of(ns[j as int]@, idx@));
                    let c = choose|w: int| #[trigger] last_with_key(os, idx@, w) && key_of(os[w]@, idx@) == key_of(ns[j as int]@, idx@);
                    lemma_last_unique(os, idx@, c, w as int);
                    assert(has_key(os, idx@, key_of(t@, idx@)));
                }
                if !old.tuples[w].same(t) {
                    let ghost before = updated@;
                    updated.push((old.tuples[w].duplicate(), t.duplicate()));
                    assert(pair_views(updated@) =~= pair_views(before).push((os[w as int]@, t@)));
                }
            },
            None => {
                let row = t.duplicate();
                assert(fits_heading(inserted.heading@, row));
                inserted.insert(row);
            },
        }
        proof {
            assert forall|q: Seq<ValueView>| #[trigger] inserted.tuple_set().contains(q) <==> exists|x: int|
                0 <= x < j + 1 && #[trigger] ns[x]@ == q && !has_key(os, idx@, key_of(q, idx@)) by {
                if exists|x: int| 0 <= x < j + 1 && #[trigger] ns[x]@ == q && !has_key(os, idx@, key_of(q, idx@)) {
                    let x = choose|x: int| 0 <= x < j + 1 && #[trigger] ns[x]@ == q && !has_key(os, idx@, key_of(q, idx@));
                    if x < j {
                        assert(ins0.contains(q));
                    }
                }
            }
        }
        j = j + 1;
    }
    let mut deleted = Relation::new(copy_heading(&old.heading));
    let mut t: usize = 0;
    while t < old.tuples.len()
        invariant
            os == old.tuples@,
            ns == new.tuples@,
            h == old.heading@,
            old.wf(),
            new.wf(),
            forall|i: int| 0 <= i < h.len() ==> (#[trigger] new.heading@[i]).ty == h[i].ty,
            h.len() == new.heading@.len(),
            forall|i: int| 0 <= i < idx@.len() ==> (#[trigger] idx@[i]) < h.len(),
            t <= os.len(),
            deleted.wf(),
            views(deleted.heading@) == views(h),
            deleted.heading@.len() == h.len(),
            forall|i: int| 0 <= i < h.len() ==> (#[trigger] deleted.heading@[i]).ty == h[i].ty,
            forall|q: Seq<ValueView>| #[trigger] deleted.tuple_set().contains(q) <==> exists|x: int|
                0 <= x < t && #[trigger] last_with_key(os, idx@, x) && os[x]@ == q && !has_key(ns, idx@, key_of(q, idx@)),
        decreases os.len() - t,
    {
        let row = &old.tuples[t];
        assert(fits_heading(h, *row));
        let ghost del0 = deleted.tuple_set();
        let later = last_with_key_of(&old.tuples, idx, row, Ghost(h));
        let in_new = last_with_key_of(&new.tuples, idx, row, Ghost(h));
        let is_last = match later {
            Some(w) => w == t,
            None => false,
        };
        proof {
            if is_last {
                assert(last_with_key(os, idx@, t as int));
            }
            if last_with_key(os, idx@, t as int) {
                assert(has_key(os, idx@, key_of(row@, idx@)));
                let w = later->0;
                lemma_last_unique(os, idx@, t as int, w as int);
            }
        }
        if is_last && in_new.is_none() {
            let copy = row.duplicate();
            assert(fits_heading(deleted.heading@, copy));
            deleted.insert(copy);
        }
        proof {
            assert forall|q: Seq<ValueView>| #[trigger] deleted.tuple_set().contains(q) <==> exists|x: int|
                0 <= x < t + 1 && #[trigger] last_with_key(os, idx@, x) && os[x]@ == q && !has_key(ns, idx@, key_of(q, idx@)) by {
                if exists|x: int| 0 <= x < t + 1 && #[trigger] last_with_key(os, idx@, x) && os[x]@ == q && !has_key(ns, idx@, key_of(q, idx@)) {
                    let x = choose|x: int| 0 <= x < t + 1 && #[trigger] last_with_key(os, idx@, x) && os[x]@ == q && !has_key(ns, idx@, key_of(q, idx@));
                    if x < t {
                        assert(del0.contains(q));
                    }
                }
            }
        }
        t = t + 1;
    }
    DiffReport { inserted, deleted, updated }
}

/// The difference from `old` to `new`. Without a key, the inserted tuples
/// are those only `new` has and the deleted ones those only `old` has, and
/// there are no updates. With a key, a new tuple whose key `old` lacks is
/// inserted; a new tuple whose key `old` has is paired, if it differs, with
/// the last old tuple of that key as an update; and the last old tuple of
/// each key that `new` lacks is deleted. Relations of different headings
/// are refused, and so is a key that names an attribute the heading lacks,
/// unless both relations are empty.
pub fn diff(old: &Relation, new: &Relation, key: Option<&Vec<String>>) -> (r: Result<DiffReport, DiffError>)
    requires
        old.wf(),
        new.wf(),
    ensures
        (r matches Err(DiffError::TypeMismatch)) <==> views(old.heading@) != views(new.heading@),
        r matches Err(DiffError::KeyAttributeMissing(s)) ==> {
            &&& views(old.heading@) == views(new.heading@)
            &&& (old.tuples@.len() > 0 || new.tuples@.len() > 0)
            &&& key is Some
            &&& exists|i: int|
                #[trigger] key_missing(old.heading@, key->0@, i) && (forall|j: int|
                    0 <= j < i ==> !key_missing(old.heading@, key->0@, j)) && s@ == key->0@[i]@
        },
        (views(old.heading@) == views(new.heading@) && (old.tuples@.len() > 0 || new.tuples@.len() > 0)
            && key is Some && exists|i: int| #[trigger] key_missing(old.heading@, key->0@, i)) ==> (r matches Err(
            DiffError::KeyAttributeMissing(_),
        )),
        r is Ok ==> {
            let rep = r->Ok_0;
            &&& rep.inserted.wf()
            &&& rep.deleted.wf()
            &&& views(rep.inserted.heading@) == views(new.heading@)
            &&& views(rep.deleted.heading@) == views(old.heading@)
            &&& (old.tuples@.len() == 0 && new.tuples@.len() == 0) ==> (rep.inserted.tuples@.len() == 0
                && rep.deleted.tuples@.len() == 0 && rep.updated@.len() == 0)
            &&& key is None ==> {
                &&& rep.inserted.tuple_set() == new.tuple_set().difference(old.tuple_set())
                &&& rep.deleted.tuple_set() == old.tuple_set().difference(new.tuple_set())
                &&& rep.updated@.len() == 0
            }
            &&& key is Some ==> forall|idx: Seq<usize>|
                #[trigger] key_positions(old.heading@, key->0@, idx) ==> {
                    &&& forall|q: Seq<ValueView>|
                        #[trigger] rep.inserted.tuple_set().contains(q) <==> keyed_inserted(
                            old.tuples@,
                            new.tuples@,
                            idx,
                            q,
                        )
                    &&& forall|q: Seq<ValueView>|
                        #[trigger] rep.deleted.tuple_set().contains(q) <==> keyed_deleted(
                            old.tuples@,
                            new.tuples@,
                            idx,
                            q,
                        )
                    &&& pair_views(rep.updated@) == updates(old.tuples@, new.tuples@, idx, new.tuples@.len() as int)
                }
        },
{
    if !same_heading(&old.heading, &new.heading) {
        return Err(DiffError::TypeMismatch);
    }
    match key {
        None => {
            let inserted = minus(new, old);
            let deleted = minus(old, new);
            proof {
                if old.tuples@.len() == 0 && new.tuples@.len() == 0 {
                    assert(inserted.tuple_set() =~= Set::empty());
                    assert(deleted.tuple_set() =~= Set::empty());
                    views(inserted.tuples@).unique_seq_to_set();
                    views(deleted.tuples@).unique_seq_to_set();
                }
            }
            Ok(DiffReport { inserted, deleted, updated: Vec::new() })
        },
        Some(ks) => {
            match find_key(&old.heading, ks) {
                Err(i) => {
                    if old.tuples.len() == 0 && new.tuples.len() == 0 {
                        let inserted = Relation::new(copy_heading(&new.heading));
                        let deleted = Relation::new(copy_heading(&old.heading));
                        proof {
                            assert forall|idx: Seq<usize>| !#[trigger] key_positions(old.heading@, ks@, idx) by {
                                if key_positions(old.heading@, ks@, idx) {
                                    assert(old.heading@[idx[i as int] as int].name@ == ks@[i as int]@);
                                }
                            }
                        }
                        return Ok(DiffReport { inserted, deleted, updated: Vec::new() });
                    }
                    Err(DiffError::KeyAttributeMissing(ks[i].clone()))
                },
                Ok(idx) => {
                    proof {
                        assert forall|i: int| !#[trigger] key_missing(old.heading@, ks@, i) by {
                            if 0 <= i < ks@.len() {
                                assert(old.heading@[idx@[i] as int].name@ == ks@[i]@);
                            }
                        }
                    }
                    let rep = keyed_diff(old, new, &idx);
                    proof {
                        assert forall|other: Seq<usize>| #[trigger] key_positions(old.heading@, ks@, other) implies other == idx@ by {
                            assert forall|i: int| 0 <= i < other.len() implies other[i] == idx@[i] by {
                                let a = other[i] as int;
                                let b = idx@[i] as int;
                                if a < b {
                                    lemma_sorted_distinct(old.heading@, a, b);
                                }
                                if b < a {
                                    lemma_sorted_distinct(old.heading@, b, a);
                                }
                            }
                            assert(other =~= idx@);
                        }
                        if old.tuples@.len() == 0 && new.tuples@.len() == 0 {
                            assert(rep.inserted.tuple_set() =~= Set::empty()) by {
                                assert forall|q: Seq<ValueView>| !rep.inserted.tuple_set().contains(q) by {}
                            }
                            assert(rep.deleted.tuple_set() =~= Set::empty()) by {
                                assert forall|q: Seq<ValueView>| !rep.deleted.tuple_set().contains(q) by {}
                            }
                            views(rep.inserted.tuples@).unique_seq_to_set();
                            views(rep.deleted.tuples@).unique_seq_to_set();
                            assert(pair_views(rep.updated@).len() == 0);
                        }
                    }
                    Ok(rep)
                },
            }
        },
    }
}

proof fn lemma_sorted_distinct(h: Seq<Attribute>, a: int, b: int)
    requires
        crate::relation::sorted_names(h),
        0 <= a < b < h.len(),
    ensures
        h[a].name@ != h[b].name@,
{
    assert(crate::text::lex_less(h[a].name@, h[b].name@));
    crate::relation::lemma_lex_irreflexive(h[a].name@);
}

/// No two tuples of `rows` share a key.
pub open spec fn keys_unique(rows: Seq<Row>, idx: Seq<usize>) -> bool {
    forall|a: int, b: int| 0 <= a < rows.len() && 0 <= b < rows.len() && a != b
        ==> key_of(#[trigger] rows[a]@, idx) != key_of(#[trigger] rows[b]@, idx)
}

/// An old tuple and a new tuple with one key that differ.
pub open spec fn changed_pair(old: Seq<Row>, new: Seq<Row>, idx: Seq<usize>, n: int, p: (Seq<ValueView>, Seq<ValueView>)) -> bool {
    exists|a: int, b: int|
        0 <= a < old.len() && 0 <= b < n && #[trigger] old[a]@ == p.0 && #[trigger] new[b]@ == p.1
            && key_of(p.0, idx) == key_of(p.1, idx) && p.0 != p.1
}

proof fn lemma_updates_once(old: Seq<Row>, new: Seq<Row>, idx: Seq<usize>, n: int)
    requires
        keys_unique(old, idx),
        keys_unique(new, idx),
        0 <= n <= new.len(),
    ensures
        updates(old, new, idx, n).no_duplicates(),
        forall|p: (Seq<ValueView>, Seq<ValueView>)| updates(old, new, idx, n).contains(p) <==> changed_pair(old, new, idx, n, p),
        forall|i: int| 0 <= i < updates(old, new, idx, n).len()
            ==> exists|b: int| 0 <= b < n && new[b]@ == (#[trigger] updates(old, new, idx, n)[i]).1,
    decreases n,
{
    if n > 0 {
        lemma_updates_once(old, new, idx, n - 1);
        let rest = updates(old, new, idx, n - 1);
        let t = new[n - 1];
        let u = updates(old, new, idx, n);
        assert forall|p: (Seq<ValueView>, Seq<ValueView>)| changed_pair(old, new, idx, n - 1, p) implies changed_pair(old, new, idx, n, p) by {
            let (a, b) = choose|a: int, b: int|
                0 <= a < old.len() && 0 <= b < n - 1 && #[trigger] old[a]@ == p.0 && #[trigger] new[b]@ == p.1
                    && key_of(p.0, idx) == key_of(p.1, idx) && p.0 != p.1;
            assert(old[a]@ == p.0 && new[b]@ == p.1);
        }
        if exists|w: int| #[trigger] last_with_key(old, idx, w) && key_of(old[w]@, idx) == key_of(t@, idx) {
            let w = choose|w: int| #[trigger] last_with_key(old, idx, w) && key_of(old[w]@, idx) == key_of(t@, idx);
            if old[w]@ != t@ {
                let q = (old[w]@, t@);
                assert(u == rest.push(q));
                assert(!rest.contains(q)) by {
                    if rest.contains(q) {
                        let i = choose|i: int| 0 <= i < rest.len() && rest[i] == q;
                        let b = choose|b: int| 0 <= b < n - 1 && new[b]@ == (#[trigger] rest[i]).1;
                        assert(new[b]@ == t@);
                        assert(key_of(new[b]@, idx) == key_of(new[n - 1]@, idx));
                    }
                }
                assert forall|x: int, y: int| 0 <= x < u.len() && 0 <= y < u.len() && x != y implies u[x] != u[y] by {
                    if x < rest.len() && y < rest.len() {
                    } else if x < rest.len() {
                        assert(u[y] == q && u[x] == rest[x]);
                    } else {
                        assert(u[x] == q && u[y] == rest[y]);
                    }
                }
                assert(changed_pair(old, new, idx, n, q)) by {
                    assert(old[w]@ == q.0 && new[n - 1]@ == q.1);
                }
                assert forall|p: (Seq<ValueView>, Seq<ValueView>)| changed_pair(old, new, idx, n, p) implies u.contains(p) by {
                    let (a, b) = choose|a: int, b: int|
                        0 <= a < old.len() && 0 <= b < n && #[trigger] old[a]@ == p.0 && #[trigger] new[b]@ == p.1
                            && key_of(p.0, idx) == key_of(p.1, idx) && p.0 != p.1;
                    if b < n - 1 {
                        assert(changed_pair(old, new, idx, n - 1, p));
                        assert(rest.contains(p));
                        let i = choose|i: int| 0 <= i < rest.len() && rest[i] == p;
                        assert(u[i] == p);
                    } else {
                        assert(key_of(old[a]@, idx) == key_of(old[w]@, idx));
                        if a != w {
                            assert(key_of(old[a]@, idx) != key_of(old[w]@, idx));
                        }
                        assert(u[rest.len() as int] == p);
                    }
                }
                assert forall|p: (Seq<ValueView>, Seq<ValueView>)| u.contains(p) implies changed_pair(old, new, idx, n, p) by {
                    let i = choose|i: int| 0 <= i < u.len() && u[i] == p;
                    if i < rest.len() {
                        assert(rest[i] == p);
                        assert(rest.contains(p));
                    }
                }
                assert forall|i: int| 0 <= i < u.len() implies exists|b: int| 0 <= b < n && new[b]@ == (#[trigger] u[i]).1 by {
                    if i < rest.len() {
                        assert(u[i] == rest[i]);
                        let b = choose|b: int| 0 <= b < n - 1 && new[b]@ == (#[trigger] rest[i]).1;
                        assert(new[b]@ == u[i].1);
                    } else {
                        assert(new[n - 1]@ == u[i].1);
                    }
                }
            } else {
                assert(u == rest);
                assert forall|p: (Seq<ValueView>, Seq<ValueView>)| changed_pair(old, new, idx, n, p) implies changed_pair(old, new, idx, n - 1, p) by {
                    let (a, b) = choose|a: int, b: int|
                        0 <= a < old.len() && 0 <= b < n && #[trigger] old[a]@ == p.0 && #[trigger] new[b]@ == p.1
                            && key_of(p.0, idx) == key_of(p.1, idx) && p.0 != p.1;
                    if b == n - 1 {
                        if a != w {
                            assert(key_of(old[a]@, idx) != key_of(old[w]@, idx));
                        }
                    }
                    assert(old[a]@ == p.0 && new[b]@ == p.1);
                }
                assert forall|i: int| 0 <= i < u.len() implies exists|b: int| 0 <= b < n && new[b]@ == (#[trigger] u[i]).1 by {
                    let b = choose|b: int| 0 <= b < n - 1 && new[b]@ == (#[trigger] rest[i]).1;
                    assert(new[b]@ == u[i].1);
                }
            }
        } else {
            assert(u == rest);
            assert forall|p: (Seq<ValueView>, Seq<ValueView>)| changed_pair(old, new, idx, n, p) implies changed_pair(old, new, idx, n - 1, p) by {
                let (a, b) = choose|a: int, b: int|
                    0 <= a < old.len() && 0 <= b < n && #[trigger] old[a]@ == p.0 && #[trigger] new[b]@ == p.1
                        && key_of(p.0, idx) == key_of(p.1, idx) && p.0 != p.1;
                if b == n - 1 {
                    assert forall|v: int| a < v < old.len() implies key_of(#[trigger] old[v]@, idx) != key_of(old[a]@, idx) by {
                        assert(a != v);
                    }
                    assert(last_with_key(old, idx, a));
                }
                assert(old[a]@ == p.0 && new[b]@ == p.1);
            }
            assert forall|i: int| 0 <= i < u.len() implies exists|b: int| 0 <= b < n && new[b]@ == (#[trigger] u[i]).1 by {
                let b = choose|b: int| 0 <= b < n - 1 && new[b]@ == (#[trigger] rest[i]).1;
                assert(new[b]@ == u[i].1);
            }
        }
    }
}

/// Under keys unique within each relation, the updates of a keyed diff hold
/// each pair of an old and a new tuple with one key that differ, exactly
/// once.
pub proof fn law_updates_exactly_once(old: Seq<Row>, new: Seq<Row>, idx: Seq<usize>)
    requires
        keys_unique(old, idx),
        keys_unique(new, idx),
    ensures
        updates(old, new, idx, new.len() as int).no_duplicates(),
        forall|p: (Seq<ValueView>, Seq<ValueView>)| updates(old, new, idx, new.len() as int).contains(p)
            <==> changed_pair(old, new, idx, new.len() as int, p),
{
    lemma_updates_once(old, new, idx, new.len() as int);
}

} // verus!
