//! The difference between two states of a relation, as the tuples inserted
//! and the tuples deleted, with application, inversion and composition;
//! a change has the type of the relations it was made from, and relations of
//! another type are refused.
use vstd::prelude::*;
use crate::differ::same_heading;
use crate::graph::views;
use crate::pivot::DatabaseError;
use crate::relation::{copy_heading, fits_heading, sorted_names, type_of, Attribute, Relation, Row, ScalarType, ValueView};
use crate::sets::{copy_keys, key_set, set_minus, set_union};
use crate::text::lex_less;

verus! {

/// The change from `old` to `new`: `(new - old, old - new)`.
pub open spec fn delta_between<V>(old: Set<V>, new: Set<V>) -> (Set<V>, Set<V>) {
    (new.difference(old), old.difference(new))
}

/// A change applied to a state: deletions first, then insertions.
pub open spec fn delta_apply<V>(d: (Set<V>, Set<V>), r: Set<V>) -> Set<V> {
    r.difference(d.1).union(d.0)
}

/// The reverse change.
pub open spec fn delta_invert<V>(d: (Set<V>, Set<V>)) -> (Set<V>, Set<V>) {
    (d.1, d.0)
}

/// One change followed by another, as a single change.
pub open spec fn delta_compose<V>(d1: (Set<V>, Set<V>), d2: (Set<V>, Set<V>)) -> (Set<V>, Set<V>) {
    (d1.0.difference(d2.1).union(d2.0.difference(d1.1)), d1.1.difference(d2.0).union(d2.1.difference(d1.0)))
}

/// A change to a relation: tuples inserted and tuples deleted, both
/// relations of the change's type.
pub struct Delta {
    pub inserted: Relation,
    pub deleted: Relation,
}

/// Every tuple fits the heading.
pub open spec fn all_fit(h: Seq<Attribute>, rows: Seq<Row>) -> bool {
    forall|k: int| 0 <= k < rows.len() ==> fits_heading(h, #[trigger] rows[k])
}

/// Tuples whose values are among the tuples of relations of the type of
/// heading `h` fit it.
proof fn lemma_fit_from(h: Seq<Attribute>, rows: Seq<Row>, a: Relation, b: Relation)
    requires
        a.wf(),
        b.wf(),
        views(a.heading@) == views(h),
        views(b.heading@) == views(h),
        key_set(rows).subset_of(a.tuple_set().union(b.tuple_set())),
    ensures
        all_fit(h, rows),
{
    assert forall|k: int| 0 <= k < rows.len() implies fits_heading(h, #[trigger] rows[k]) by {
        assert(views(rows)[k] == rows[k]@);
        assert(key_set(rows).contains(rows[k]@));
        let r = if a.tuple_set().contains(rows[k]@) { a } else { b };
        let m = choose|m: int| 0 <= m < views(r.tuples@).len() && views(r.tuples@)[m] == rows[k]@;
        assert(fits_heading(r.heading@, r.tuples@[m]));
        assert(r.tuples@[m]@ == rows[k]@);
        assert(views(r.heading@).len() == r.heading@.len());
        assert(views(h).len() == h.len());
        assert forall|i: int| 0 <= i < h.len() implies type_of(#[trigger] rows[k]@[i]) == h[i].ty by {
            assert(views(r.heading@)[i] == views(h)[i]);
            assert(views(r.heading@)[i] == (r.heading@[i].name@, r.heading@[i].ty));
            assert(views(h)[i] == (h[i].name@, h[i].ty));
            assert(type_of(r.tuples@[m]@[i]) == r.heading@[i].ty);
        }
    }
}

/// The relation over (a copy of) heading `h` holding `rows`.
fn relation_from(h: &Vec<Attribute>, rows: Vec<Row>) -> (r: Relation)
    requires
        sorted_names(h@),
        all_fit(h@, rows@),
        views(rows@).no_duplicates(),
    ensures
        r.wf(),
        views(r.heading@) == views(h@),
        r.tuple_set() == key_set(rows@),
{
    let heading = copy_heading(h);
    proof {
        assert forall|i: int, j: int| 0 <= i < j < heading@.len() implies lex_less((#[trigger] heading@[i]).name@, (#[trigger] heading@[j]).name@) by {
            assert(heading@[i].name@ == h@[i].name@ && heading@[j].name@ == h@[j].name@);
        }
        assert forall|k: int| 0 <= k < rows@.len() implies fits_heading(heading@, #[trigger] rows@[k]) by {
            assert(fits_heading(h@, rows@[k]));
        }
    }
    Relation { heading, tuples: rows }
}

impl Delta {
    /// The change's invariant: two valid relations of one type.
    pub open spec fn wf(&self) -> bool {
        &&& self.inserted.wf()
        &&& self.deleted.wf()
        &&& views(self.inserted.heading@) == views(self.deleted.heading@)
    }

    /// The type of the change: its heading as names with types.
    pub open spec fn type_view(&self) -> Seq<(Seq<char>, ScalarType)> {
        views(self.inserted.heading@)
    }

    /// The change as two sets.
    pub open spec fn sets(&self) -> (Set<Seq<ValueView>>, Set<Seq<ValueView>>) {
        (self.inserted.tuple_set(), self.deleted.tuple_set())
    }

    /// A change from its two parts, which must be of one type.
    pub fn new(inserted: Relation, deleted: Relation) -> (r: Result<Self, DatabaseError>)
        requires
            inserted.wf(),
            deleted.wf(),
        ensures
            (r is Ok) == (views(inserted.heading@) == views(deleted.heading@)),
            r matches Ok(d) ==> d.inserted == inserted && d.deleted == deleted && d.wf(),
            r matches Err(e) ==> e matches DatabaseError::AlgebraError(m)
                && m@ == "Type mismatch: Inserted and deleted relations must have the same type"@,
    {
        if !same_heading(&inserted.heading, &deleted.heading) {
            return Err(DatabaseError::AlgebraError(
                "Type mismatch: Inserted and deleted relations must have the same type".to_owned(),
            ));
        }
        Ok(Delta { inserted, deleted })
    }

    /// The change that turns `old` into `new`, which must be of one type.
    pub fn between(old: &Relation, new: &Relation) -> (r: Result<Self, DatabaseError>)
        requires
            old.wf(),
            new.wf(),
        ensures
            (r is Ok) == (views(old.heading@) == views(new.heading@)),
            r matches Ok(d) ==> d.wf() && d.type_view() == views(old.heading@)
                && d.sets() == delta_between(old.tuple_set(), new.tuple_set()),
            r matches Err(e) ==> e matches DatabaseError::AlgebraError(m)
                && m@ == "Type mismatch: Cannot compute delta between relations of different types"@,
    {
        if !same_heading(&old.heading, &new.heading) {
            return Err(DatabaseError::AlgebraError(
                "Type mismatch: Cannot compute delta between relations of different types".to_owned(),
            ));
        }
        let ins = set_minus(&new.tuples, &old.tuples);
        let del = set_minus(&old.tuples, &new.tuples);
        proof {
            lemma_fit_from(old.heading@, ins@, *old, *new);
            lemma_fit_from(old.heading@, del@, *old, *new);
        }
        let inserted = relation_from(&old.heading, ins);
        let deleted = relation_from(&old.heading, del);
        Ok(Delta { inserted, deleted })
    }

    /// The state after the change: deleted tuples removed, inserted ones
    /// added. The relation must be of the change's type.
    pub fn apply(&self, relation: &Relation) -> (r: Result<Relation, DatabaseError>)
        requires
            self.wf(),
            relation.wf(),
        ensures
            (r is Ok) == (views(relation.heading@) == self.type_view()),
            r matches Ok(out) ==> out.wf() && views(out.heading@) == views(relation.heading@)
                && out.tuple_set() == delta_apply(self.sets(), relation.tuple_set()),
            r matches Err(e) ==> e matches DatabaseError::AlgebraError(m)
                && m@ == "Type mismatch: Cannot apply delta to relation of different type"@,
    {
        if !same_heading(&relation.heading, &self.inserted.heading) {
            return Err(DatabaseError::AlgebraError(
                "Type mismatch: Cannot apply delta to relation of different type".to_owned(),
            ));
        }
        let kept = set_minus(&relation.tuples, &self.deleted.tuples);
        let rows = set_union(&kept, &self.inserted.tuples);
        proof {
            lemma_fit_from(relation.heading@, rows@, *relation, self.inserted);
        }
        Ok(relation_from(&relation.heading, rows))
    }

    /// The reverse change: what was inserted is deleted and the other way
    /// round.
    pub fn invert(&self) -> (d: Self)
        requires
            self.wf(),
        ensures
            d.wf(),
            d.type_view() == self.type_view(),
            d.sets() == delta_invert(self.sets()),
    {
        let ins = copy_keys(&self.deleted.tuples);
        let del = copy_keys(&self.inserted.tuples);
        proof {
            assert(key_set(ins@) == self.deleted.tuple_set());
            assert(key_set(del@) == self.inserted.tuple_set());
            lemma_fit_from(self.inserted.heading@, ins@, self.deleted, self.deleted);
            lemma_fit_from(self.inserted.heading@, del@, self.inserted, self.inserted);
        }
        let inserted = relation_from(&self.inserted.heading, ins);
        let deleted = relation_from(&self.inserted.heading, del);
        Delta { inserted, deleted }
    }

    /// This change followed by `other`, as one change; both must be of one
    /// type.
    pub fn compose(&self, other: &Self) -> (r: Result<Self, DatabaseError>)
        requires
            self.wf(),
            other.wf(),
        ensures
            (r is Ok) == (self.type_view() == other.type_view()),
            r matches Ok(d) ==> d.wf() && d.type_view() == self.type_view()
                && d.sets() == delta_compose(self.sets(), other.sets()),
            r matches Err(e) ==> e matches DatabaseError::AlgebraError(m)
                && m@ == "Type mismatch: Cannot compose deltas of different types"@,
    {
        if !same_heading(&self.inserted.heading, &other.inserted.heading) {
            return Err(DatabaseError::AlgebraError("Type mismatch: Cannot compose deltas of different types".to_owned()));
        }
        let i1 = set_minus(&self.inserted.tuples, &other.deleted.tuples);
        let i2 = set_minus(&other.inserted.tuples, &self.deleted.tuples);
        let d1 = set_minus(&self.deleted.tuples, &other.inserted.tuples);
        let d2 = set_minus(&other.deleted.tuples, &self.inserted.tuples);
        let ins = set_union(&i1, &i2);
        let del = set_union(&d1, &d2);
        proof {
            lemma_fit_from(self.inserted.heading@, ins@, self.inserted, other.inserted);
            lemma_fit_from(self.inserted.heading@, del@, self.deleted, other.deleted);
        }
        let inserted = relation_from(&self.inserted.heading, ins);
        let deleted = relation_from(&self.inserted.heading, del);
        Ok(Delta { inserted, deleted })
    }
}

/// Applying the change between two states to the first gives the second.
pub proof fn law_apply_between<V>(old: Set<V>, new: Set<V>)
    ensures
        delta_apply(delta_between(old, new), old) == new,
{
    assert(delta_apply(delta_between(old, new), old) =~= new);
}

/// Inverting the change between two states gives the change back.
pub proof fn law_invert_between<V>(old: Set<V>, new: Set<V>)
    ensures
        delta_invert(delta_between(old, new)) == delta_between(new, old),
        delta_apply(delta_invert(delta_between(old, new)), new) == old,
{
    assert(delta_apply(delta_invert(delta_between(old, new)), new) =~= old);
}

/// The composition of the changes `r1 -> r2` and `r2 -> r3`, applied to
/// `r1`, gives `r3`.
pub proof fn law_compose_between<V>(r1: Set<V>, r2: Set<V>, r3: Set<V>)
    ensures
        delta_apply(delta_compose(delta_between(r1, r2), delta_between(r2, r3)), r1) == r3,
{
    assert(delta_apply(delta_compose(delta_between(r1, r2), delta_between(r2, r3)), r1) =~= r3);
}

/// Composing a change with its inverse leaves nothing to do.
pub proof fn law_compose_inverse<V>(old: Set<V>, new: Set<V>)
    ensures
        delta_compose(delta_between(old, new), delta_invert(delta_between(old, new))) == (Set::<V>::empty(), Set::<V>::empty()),
{
    let c = delta_compose(delta_between(old, new), delta_invert(delta_between(old, new)));
    assert(c.0 =~= Set::<V>::empty());
    assert(c.1 =~= Set::<V>::empty());
}

} // verus!
