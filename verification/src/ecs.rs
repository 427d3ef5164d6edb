//! An entity component system over relations.
//!
//! An entity is an integer. A component is a relation whose heading holds
//! `entity_id` and the component's own attributes, keyed by `entity_id`: an
//! entity has at most one tuple in each component. A system joins a target
//! component with others on the entity and replaces the target tuples with
//! what an updater makes of the joined tuples.
use vstd::prelude::*;
use crate::graph::{views, Key};
use crate::relation::{fits_heading, sorted_names, type_of, Attribute, Relation, Row, ScalarType, ScalarValue, ValueView};
use crate::text::{lex_less, str_less};
use crate::relation::{lemma_lex_irreflexive, lemma_lex_total, lemma_lex_transitive};

verus! {

/// An entity.
pub type Entity = i64;

/// The attribute that holds the entity in every component.
pub const ENTITY_ID_ATTR: &'static str = "entity_id";

/// The name of the entity attribute.
pub open spec fn entity_attr() -> Seq<char> {
    seq!['e', 'n', 't', 'i', 't', 'y', '_', 'i', 'd']
}

/// A named tuple: attribute names with their values.
pub type NamedTuple = Vec<(String, ScalarValue)>;

/// A named tuple as mathematical data.
pub open spec fn named_view(t: Seq<(String, ScalarValue)>) -> Seq<(Seq<char>, ValueView)> {
    t.map_values(|p: (String, ScalarValue)| (p.0@, p.1@))
}

/// Why an operation on a world failed.
#[derive(Debug)]
pub enum WorldError {
    /// A component declared the reserved attribute; the message says so.
    AlgebraError(String),
    /// A component of this name is already registered.
    ComponentExists(String),
    /// No component of this name is registered.
    ComponentNotFound(String),
    /// The entity already has a tuple in the component.
    KeyViolation(Entity),
    /// The entity has no tuple in the component.
    TupleMismatch,
    /// The values do not make a tuple of the component's heading.
    InvalidTuple,
}

/// A registered component: its name and its relation.
pub struct Component {
    pub name: String,
    pub relation: Relation,
}

/// The entities and components of a world.
pub struct World {
    pub components: Vec<Component>,
    pub next_entity_id: Entity,
}

/// The attributes of a heading as a set of names with types.
pub open spec fn attr_set(h: Seq<Attribute>) -> Set<(Seq<char>, ScalarType)> {
    views(h).to_set()
}

/// The heading holds `entity_id`, of type integer.
pub open spec fn has_entity_key(h: Seq<Attribute>) -> bool {
    exists|k: int| 0 <= k < h.len() && (#[trigger] h[k]).name@ == entity_attr() && h[k].ty == ScalarType::Int
}

/// No two tuples agree on the attribute at position `x`.
pub open spec fn keyed_at(rows: Seq<Row>, x: int) -> bool {
    forall|a: int, b: int| 0 <= a < rows.len() && 0 <= b < rows.len() && (#[trigger] rows[a])@[x] == (#[trigger] rows[b])@[x] ==> a == b
}

/// A component's invariant: a valid relation whose heading holds the entity
/// key, and at most one tuple per entity.
pub open spec fn component_wf(c: Component) -> bool {
    &&& c.relation.wf()
    &&& has_entity_key(c.relation.heading@)
    &&& forall|x: int| 0 <= x < c.relation.heading@.len() && (#[trigger] c.relation.heading@[x]).name@ == entity_attr()
        ==> keyed_at(c.relation.tuples@, x)
}

/// Whether a component named `name` is registered.
pub open spec fn registered(cs: Seq<Component>, name: Seq<char>) -> bool {
    exists|i: int| 0 <= i < cs.len() && (#[trigger] cs[i]).name@ == name
}

impl World {
    /// The world's invariant: valid components with distinct names.
    pub open spec fn wf(&self) -> bool {
        &&& forall|i: int| 0 <= i < self.components@.len() ==> component_wf(#[trigger] self.components@[i])
        &&& forall|i: int, j: int| 0 <= i < j < self.components@.len()
            ==> (#[trigger] self.components@[i]).name@ != (#[trigger] self.components@[j]).name@
    }

    /// An empty world whose first entity is 1.
    pub fn new() -> (w: World)
        ensures
            w.wf(),
            w.components@.len() == 0,
            w.next_entity_id == 1,
    {
        World { components: Vec::new(), next_entity_id: 1 }
    }

    /// A new entity: the next identifier, which is then used up.
    pub fn spawn(&mut self) -> (r: Result<Entity, WorldError>)
        requires
            old(self).next_entity_id < i64::MAX,
        ensures
            r == Ok::<Entity, WorldError>(old(self).next_entity_id),
            final(self).next_entity_id == old(self).next_entity_id + 1,
            final(self).components == old(self).components,
    {
        let id = self.next_entity_id;
        self.next_entity_id = self.next_entity_id + 1;
        Ok(id)
    }
}

/// A declaration as names with types.
pub open spec fn attr_views(a: Seq<(String, ScalarType)>) -> Seq<(Seq<char>, ScalarType)> {
    a.map_values(|p: (String, ScalarType)| (p.0@, p.1))
}

/// The attributes of a component declared with `attrs`: `entity_id` of type
/// integer, then each declared attribute in turn, a later one replacing an
/// earlier one of the same name.
pub open spec fn declared(attrs: Seq<(Seq<char>, ScalarType)>) -> Set<(Seq<char>, ScalarType)>
    decreases attrs.len(),
{
    if attrs.len() == 0 {
        set![(entity_attr(), ScalarType::Int)]
    } else {
        declared(attrs.drop_last()).filter(|p: (Seq<char>, ScalarType)| p.0 != attrs.last().0).insert(attrs.last())
    }
}

/// Some declared attribute is named `entity_id`.
pub open spec fn declares_reserved(attrs: Seq<(Seq<char>, ScalarType)>) -> bool {
    exists|i: int| 0 <= i < attrs.len() && (#[trigger] attrs[i]).0 == entity_attr()
}

/// The message of a declaration of the reserved attribute.
pub open spec fn reserved_message() -> Seq<char> {
    "Attribute name 'entity_id' is reserved"@
}

proof fn lemma_declared_keeps_entity(attrs: Seq<(Seq<char>, ScalarType)>)
    requires
        !declares_reserved(attrs),
    ensures
        declared(attrs).contains((entity_attr(), ScalarType::Int)),
    decreases attrs.len(),
{
    if attrs.len() > 0 {
        assert(attrs.last() == attrs[attrs.len() - 1]);
        assert(!declares_reserved(attrs.drop_last())) by {
            if declares_reserved(attrs.drop_last()) {
                let i = choose|i: int| 0 <= i < attrs.drop_last().len() && (#[trigger] attrs.drop_last()[i]).0 == entity_attr();
                assert(attrs[i] == attrs.drop_last()[i]);
            }
        }
        lemma_declared_keeps_entity(attrs.drop_last());
    }
}

impl World {
    /// Registers component `name` with the given attributes and `entity_id`
    /// as its key. Fails, changing nothing, when an attribute is named
    /// `entity_id`, or else when the name is already registered.
    #[verifier::loop_isolation(false)]
    pub fn register_component(&mut self, name: &str, attributes: &Vec<(String, ScalarType)>) -> (r: Result<(), WorldError>)
        requires
            old(self).wf(),
        ensures
            final(self).wf(),
            final(self).next_entity_id == old(self).next_entity_id,
            declares_reserved(attr_views(attributes@)) ==> (r matches Err(WorldError::AlgebraError(m)) && m@ == reserved_message()),
            !declares_reserved(attr_views(attributes@)) && registered(old(self).components@, name@)
                ==> (r matches Err(WorldError::ComponentExists(n)) && n@ == name@),
            r is Err ==> final(self).components@ == old(self).components@,
            (r is Ok) == (!declares_reserved(attr_views(attributes@)) && !registered(old(self).components@, name@)),
            r is Ok ==> {
                let c = final(self).components@.last();
                &&& final(self).components@.len() == old(self).components@.len() + 1
                &&& final(self).components@.drop_last() == old(self).components@
                &&& c.name@ == name@
                &&& attr_set(c.relation.heading@) == declared(attr_views(attributes@))
                &&& c.relation.tuples@.len() == 0
            },
    {
        let mut h: Vec<Attribute> = Vec::new();
        h.push(Attribute { name: ENTITY_ID_ATTR.to_owned(), ty: ScalarType::Int });
        proof {
            reveal_strlit("entity_id");
            assert(ENTITY_ID_ATTR@ == entity_attr());
            assert(views(h@) =~= seq![(entity_attr(), ScalarType::Int)]);
            assert(attr_views(attributes@).take(0).len() == 0);
            assert(declared(attr_views(attributes@).take(0)) == set![(entity_attr(), ScalarType::Int)]);
            assert(seq![(entity_attr(), ScalarType::Int)].to_set() =~= set![(entity_attr(), ScalarType::Int)]) by {
                let x = (entity_attr(), ScalarType::Int);
                assert(seq![x][0] == x);
            }
            assert(attr_set(h@) =~= declared(attr_views(attributes@).take(0)));
        }
        let mut i: usize = 0;
        while i < attributes.len()
            invariant
                i <= attributes@.len(),
                sorted_names(h@),
                attr_set(h@) == declared(attr_views(attributes@).take(i as int)),
                !declares_reserved(attr_views(attributes@).take(i as int)),
            decreases attributes@.len() - i,
        {
            let ghost av = attr_views(attributes@);
            proof {
                reveal_strlit("entity_id");
                assert(av[i as int] == (attributes@[i as int].0@, attributes@[i as int].1));
            }
            if crate::text::str_eq(attributes[i].0.as_str(), ENTITY_ID_ATTR) {
                proof {
                    assert(av[i as int].0 == entity_attr());
                }
                return Err(WorldError::AlgebraError("Attribute name 'entity_id' is reserved".to_owned()));
            }
            with_attribute(&mut h, attributes[i].0.clone(), attributes[i].1);
            proof {
                assert(av.take(i + 1).drop_last() =~= av.take(i as int));
                assert(av.take(i + 1).last() == av[i as int]);
                assert(!declares_reserved(av.take(i + 1))) by {
                    if declares_reserved(av.take(i + 1)) {
                        let j = choose|j: int| 0 <= j < av.take(i + 1).len() && (#[trigger] av.take(i + 1)[j]).0 == entity_attr();
                        if j < i {
                            assert(av.take(i as int)[j] == av.take(i + 1)[j]);
                        } else {
                            assert(av.take(i + 1)[j] == av[i as int]);
                        }
                    }
                }
            }
            i = i + 1;
        }
        proof {
            assert(attr_views(attributes@).take(attributes@.len() as int) =~= attr_views(attributes@));
            lemma_declared_keeps_entity(attr_views(attributes@));
        }
        let mut j: usize = 0;
        while j < self.components.len()
            invariant
                j <= self.components@.len(),
                forall|k: int| 0 <= k < j ==> (#[trigger] self.components@[k]).name@ != name@,
            decreases self.components@.len() - j,
        {
            if crate::text::str_eq(self.components[j].name.as_str(), name) {
                return Err(WorldError::ComponentExists(name.to_owned()));
            }
            j = j + 1;
        }
        let ghost before = self.components@;
        let relation = Relation::new(h);
        proof {
            let e = (entity_attr(), ScalarType::Int);
            assert(attr_set(relation.heading@).contains(e));
            let k = choose|k: int| 0 <= k < views(relation.heading@).len() && views(relation.heading@)[k] == e;
            assert(relation.heading@[k].name@ == entity_attr() && relation.heading@[k].ty == ScalarType::Int);
        }
        self.components.push(Component { name: name.to_owned(), relation });
        proof {
            assert(self.components@.drop_last() =~= before);
            assert(component_wf(self.components@.last()));
        }
        Ok(())
    }
}

/// The value of integer `e`.
pub open spec fn int_view(e: i64) -> ValueView {
    (0u8, e, false, Seq::empty(), Seq::empty())
}

/// Tuple `r` of heading `h` holds entity `e`.
pub open spec fn row_has_entity(h: Seq<Attribute>, r: Seq<ValueView>, e: i64) -> bool {
    exists|x: int| 0 <= x < h.len() && (#[trigger] h[x]).name@ == entity_attr() && r[x] == int_view(e)
}

/// The component holds a tuple of entity `e`.
pub open spec fn has_entity(c: Component, e: i64) -> bool {
    exists|k: int| 0 <= k < c.relation.tuples@.len() && row_has_entity(c.relation.heading@, (#[trigger] c.relation.tuples@[k])@, e)
}

/// No name occurs twice.
pub open spec fn names_distinct(d: Seq<(Seq<char>, ValueView)>) -> bool {
    forall|a: int, b: int| 0 <= a < d.len() && 0 <= b < d.len() && (#[trigger] d[a]).0 == (#[trigger] d[b]).0 ==> a == b
}

/// Whether `d` gives a value for `n`.
pub open spec fn names_value(d: Seq<(Seq<char>, ValueView)>, n: Seq<char>) -> bool {
    exists|j: int| 0 <= j < d.len() && (#[trigger] d[j]).0 == n
}

/// The value that `d` gives for `n`.
pub open spec fn value_in(d: Seq<(Seq<char>, ValueView)>, n: Seq<char>) -> ValueView {
    d[choose|j: int| 0 <= j < d.len() && (#[trigger] d[j]).0 == n].1
}

/// Heading `h` has an attribute named `n` of type `t`.
pub open spec fn heading_has(h: Seq<Attribute>, n: Seq<char>, t: ScalarType) -> bool {
    exists|k: int| 0 <= k < h.len() && (#[trigger] h[k]).name@ == n && h[k].ty == t
}

/// The named values make a tuple of heading `h` once `entity_id` is set:
/// each value other than `entity_id` belongs to an attribute of its type,
/// and each attribute other than `entity_id` gets a value.
pub open spec fn data_fits(h: Seq<Attribute>, d: Seq<(Seq<char>, ValueView)>) -> bool {
    &&& forall|j: int| 0 <= j < d.len() && (#[trigger] d[j]).0 != entity_attr() ==> heading_has(h, d[j].0, type_of(d[j].1))
    &&& forall|k: int| 0 <= k < h.len() && (#[trigger] h[k]).name@ != entity_attr() ==> names_value(d, h[k].name@)
}

/// The tuple of heading `h` made of the named values `d`, with entity `e`.
pub open spec fn entity_tuple(h: Seq<Attribute>, d: Seq<(Seq<char>, ValueView)>, e: i64) -> Seq<ValueView> {
    Seq::new(h.len(), |k: int| if h[k].name@ == entity_attr() { int_view(e) } else { value_in(d, h[k].name@) })
}

/// A tuple of heading `h` as named values.
pub open spec fn named_of(h: Seq<Attribute>, r: Seq<ValueView>) -> Seq<(Seq<char>, ValueView)> {
    Seq::new(h.len(), |k: int| (h[k].name@, r[k]))
}

/// A sorted heading names each attribute once.
proof fn lemma_sorted_distinct(h: Seq<Attribute>, a: int, b: int)
    requires
        sorted_names(h),
        0 <= a < h.len(),
        0 <= b < h.len(),
        h[a].name@ == h[b].name@,
    ensures
        a == b,
{
    if a < b {
        assert(lex_less(h[a].name@, h[b].name@));
        lemma_lex_irreflexive(h[a].name@);
    } else if b < a {
        assert(lex_less(h[b].name@, h[a].name@));
        lemma_lex_irreflexive(h[a].name@);
    }
}

/// The position of the data value named `n`, if any.
fn find_value(data: &NamedTuple, n: &String) -> (r: Option<usize>)
    ensures
        r matches Some(j) ==> j < data@.len() && named_view(data@)[j as int].0 == n@,
        r is None ==> !names_value(named_view(data@), n@),
{
    let mut j: usize = 0;
    while j < data.len()
        invariant
            j <= data@.len(),
            forall|x: int| 0 <= x < j ==> (#[trigger] named_view(data@)[x]).0 != n@,
        decreases data@.len() - j,
    {
        if data[j].0 == *n {
            return Some(j);
        }
        j = j + 1;
    }
    None
}

/// The position of the attribute named `n` in a heading, if any.
fn find_attribute(h: &Vec<Attribute>, n: &String) -> (r: Option<usize>)
    ensures
        r matches Some(k) ==> k < h@.len() && h@[k as int].name@ == n@,
        r is None ==> forall|k: int| 0 <= k < h@.len() ==> (#[trigger] h@[k]).name@ != n@,
{
    let mut k: usize = 0;
    while k < h.len()
        invariant
            k <= h@.len(),
            forall|x: int| 0 <= x < k ==> (#[trigger] h@[x]).name@ != n@,
        decreases h@.len() - k,
    {
        if h[k].name == *n {
            return Some(k);
        }
        k = k + 1;
    }
    None
}

/// The tuple of heading `h` made of the named values with entity `e`, or
/// none when they do not fit the heading.
#[verifier::loop_isolation(false)]
fn build_tuple(h: &Vec<Attribute>, data: &NamedTuple, e: Entity) -> (r: Option<Row>)
    requires
        sorted_names(h@),
        has_entity_key(h@),
        names_distinct(named_view(data@)),
    ensures
        r is Some <==> data_fits(h@, named_view(data@)),
        r matches Some(row) ==> row@ == entity_tuple(h@, named_view(data@), e) && fits_heading(h@, row),
{
    let ghost d = named_view(data@);
    let ghost t = entity_tuple(h@, d, e);
    let mut values: Vec<ScalarValue> = Vec::new();
    let mut k: usize = 0;
    while k < h.len()
        invariant
            k <= h@.len(),
            values@.len() == k,
            forall|x: int| 0 <= x < k ==> (#[trigger] values@[x])@ == t[x],
            forall|x: int| 0 <= x < k ==> type_of((#[trigger] values@[x])@) == h@[x].ty,
            forall|x: int| 0 <= x < k && (#[trigger] h@[x]).name@ != entity_attr() ==> names_value(d, h@[x].name@),
        decreases h@.len() - k,
    {
        proof {
            reveal_strlit("entity_id");
            assert(ENTITY_ID_ATTR@ == entity_attr());
        }
        if crate::text::str_eq(h[k].name.as_str(), ENTITY_ID_ATTR) {
            proof {
                let x = choose|x: int| 0 <= x < h@.len() && (#[trigger] h@[x]).name@ == entity_attr() && h@[x].ty == ScalarType::Int;
                lemma_sorted_distinct(h@, x, k as int);
            }
            values.push(ScalarValue::Int(e));
        } else {
            match find_value(data, &h[k].name) {
                None => {
                    proof {
                        assert(h@[k as int].name@ != entity_attr());
                    }
                    return None;
                },
                Some(j) => {
                    let v = &data[j].1;
                    if v.scalar_type() != h[k].ty {
                        proof {
                            assert(d[j as int].0 == h@[k as int].name@);
                            assert(d[j as int].0 != entity_attr());
                            if heading_has(h@, d[j as int].0, type_of(d[j as int].1)) {
                                let x = choose|x: int| 0 <= x < h@.len() && (#[trigger] h@[x]).name@ == d[j as int].0 && h@[x].ty == type_of(d[j as int].1);
                                lemma_sorted_distinct(h@, x, k as int);
                            }
                        }
                        return None;
                    }
                    proof {
                        let c = choose|c: int| 0 <= c < d.len() && (#[trigger] d[c]).0 == h@[k as int].name@;
                        assert(d[c].0 == d[j as int].0);
                        assert(value_in(d, h@[k as int].name@) == d[j as int].1);
                        assert(names_value(d, h@[k as int].name@));
                    }
                    values.push(v.duplicate());
                },
            }
        }
        k = k + 1;
    }
    let mut j: usize = 0;
    while j < data.len()
        invariant
            j <= data@.len(),
            forall|x: int| 0 <= x < j && (#[trigger] d[x]).0 != entity_attr() ==> heading_has(h@, d[x].0, type_of(d[x].1)),
        decreases data@.len() - j,
    {
        proof {
            reveal_strlit("entity_id");
            assert(ENTITY_ID_ATTR@ == entity_attr());
            assert(d[j as int].0 == data@[j as int].0@);
        }
        if !crate::text::str_eq(data[j].0.as_str(), ENTITY_ID_ATTR) {
            proof {
                        assert(ENTITY_ID_ATTR@ == entity_attr());
                        assert(d[j as int].0 == data@[j as int].0@);
                        assert(d[j as int].0 != entity_attr());
            }
            match find_attribute(h, &data[j].0) {
                None => {
                    proof {
                        assert(!heading_has(h@, d[j as int].0, type_of(d[j as int].1)));
                    }
                    return None;
                },
                Some(x) => {
                    proof {
                        assert(d[j as int].0 == h@[x as int].name@);
                        assert(h@[x as int].name@ != entity_attr());
                        assert(t[x as int] == value_in(d, h@[x as int].name@));
                        let c = choose|c: int| 0 <= c < d.len() && (#[trigger] d[c]).0 == h@[x as int].name@;
                        assert(d[c].0 == d[j as int].0);
                        assert(type_of(values@[x as int]@) == h@[x as int].ty);
                        assert(values@[x as int]@ == d[j as int].1);
                        assert(heading_has(h@, d[j as int].0, type_of(d[j as int].1)));
                    }
                },
            }
        }
        j = j + 1;
    }
    let row = Row { values };
    proof {
        assert(row@ =~= t);
        assert forall|x: int| 0 <= x < h@.len() && (#[trigger] h@[x]).name@ != entity_attr() implies names_value(d, h@[x].name@) by {
            assert(t[x] == value_in(d, h@[x].name@));
        }
    }
    Some(row)
}

/// Adds attribute `name` of type `ty` to a sorted heading, replacing the type
/// of an attribute of that name.
fn with_attribute(h: &mut Vec<Attribute>, name: String, ty: ScalarType)
    requires
        sorted_names(old(h)@),
    ensures
        sorted_names(final(h)@),
        attr_set(final(h)@) == attr_set(old(h)@).filter(|p: (Seq<char>, ScalarType)| p.0 != name@).insert((name@, ty)),
{
    let ghost old_h = h@;
    let mut i: usize = 0;
    while i < h.len() && str_less(h[i].name.as_str(), name.as_str())
        invariant
            h@ == old_h,
            sorted_names(old_h),
            i <= h@.len(),
            forall|k: int| 0 <= k < i ==> lex_less((#[trigger] h@[k]).name@, name@),
        decreases h@.len() - i,
    {
        i = i + 1;
    }
    proof {
        assert forall|k: int| i <= k < h@.len() implies !lex_less((#[trigger] h@[k]).name@, name@) by {
            if k > i {
                lemma_lex_total(h@[i as int].name@, name@);
                lemma_lex_transitive(h@[i as int].name@, h@[k].name@, name@);
                if lex_less(h@[k].name@, name@) {
                    lemma_lex_total(h@[i as int].name@, h@[k].name@);
                }
            }
        }
    }
    if i < h.len() && h[i].name == name {
        let ghost replaced = h@[i as int];
        h.set(i, Attribute { name, ty });
        proof {
            let nh = h@;
            assert forall|a: int, b: int| 0 <= a < b < nh.len() implies lex_less((#[trigger] nh[a]).name@, (#[trigger] nh[b]).name@) by {
                assert(nh[a].name@ == old_h[a].name@);
                assert(nh[b].name@ == old_h[b].name@);
            }
            let target = attr_set(old_h).filter(|p: (Seq<char>, ScalarType)| p.0 != name@).insert((name@, ty));
            assert forall|p: (Seq<char>, ScalarType)| attr_set(nh).contains(p) implies target.contains(p) by {
                let k = choose|k: int| 0 <= k < views(nh).len() && views(nh)[k] == p;
                if k != i {
                    assert(views(old_h)[k] == p);
                    if p.0 == name@ {
                        if k < i {
                            lemma_lex_irreflexive(name@);
                        } else {
                            lemma_lex_irreflexive(name@);
                        }
                    }
                }
            }
            assert forall|p: (Seq<char>, ScalarType)| target.contains(p) implies attr_set(nh).contains(p) by {
                if p == (name@, ty) {
                    assert(views(nh)[i as int] == p);
                } else {
                    let k = choose|k: int| 0 <= k < views(old_h).len() && views(old_h)[k] == p;
                    if k == i {
                        assert(p.0 == name@);
                    }
                    assert(views(nh)[k] == p);
                }
            }
            assert(attr_set(nh) =~= target);
        }
    } else {
        proof {
            if i < h@.len() {
                lemma_lex_total(h@[i as int].name@, name@);
            }
        }
        h.insert(i, Attribute { name, ty });
        proof {
            let nh = h@;
            assert forall|a: int, b: int| 0 <= a < b < nh.len() implies lex_less((#[trigger] nh[a]).name@, (#[trigger] nh[b]).name@) by {
                if b < i {
                    assert(nh[a] == old_h[a] && nh[b] == old_h[b]);
                } else if a > i {
                    assert(nh[a] == old_h[a - 1] && nh[b] == old_h[b - 1]);
                } else if a == i {
                    assert(nh[b] == old_h[b - 1]);
                    if b - 1 > i {
                        lemma_lex_transitive(name@, old_h[i as int].name@, old_h[b - 1].name@);
                    }
                } else if b == i {
                    assert(nh[a] == old_h[a]);
                } else {
                    assert(nh[a] == old_h[a] && nh[b] == old_h[b - 1]);
                    lemma_lex_transitive(old_h[a].name@, old_h[i as int].name@, old_h[b - 1].name@);
                    if b - 1 > i {
                        lemma_lex_transitive(old_h[a].name@, old_h[i as int].name@, old_h[b - 1].name@);
                    }
                }
            }
            let target = attr_set(old_h).filter(|p: (Seq<char>, ScalarType)| p.0 != name@).insert((name@, ty));
            assert forall|p: (Seq<char>, ScalarType)| attr_set(nh).contains(p) implies target.contains(p) by {
                let k = choose|k: int| 0 <= k < views(nh).len() && views(nh)[k] == p;
                if k < i {
                    assert(views(old_h)[k] == p);
                    lemma_lex_irreflexive(name@);
                } else if k > i {
                    assert(views(old_h)[k - 1] == p);
                    if p.0 == name@ {
                        assert(!lex_less(old_h[k - 1].name@, name@));
                        assert(old_h[k - 1].name@ == name@);
                        if k - 1 > i {
                            assert(lex_less(old_h[i as int].name@, old_h[k - 1].name@));
                            lemma_lex_total(old_h[i as int].name@, name@);
                        }
                    }
                }
            }
            assert forall|p: (Seq<char>, ScalarType)| target.contains(p) implies attr_set(nh).contains(p) by {
                if p == (name@, ty) {
                    assert(views(nh)[i as int] == p);
                } else {
                    let k = choose|k: int| 0 <= k < views(old_h).len() && views(old_h)[k] == p;
                    if k < i {
                        assert(views(nh)[k] == p);
                    } else {
                        assert(views(nh)[k + 1] == p);
                    }
                }
            }
            assert(attr_set(nh) =~= target);
        }
    }
}

/// The position of `entity_id` in a component's heading.
fn entity_position(h: &Vec<Attribute>) -> (pos: usize)
    requires
        has_entity_key(h@),
    ensures
        pos < h@.len(),
        h@[pos as int].name@ == entity_attr(),
{
    let name = ENTITY_ID_ATTR.to_owned();
    proof {
        reveal_strlit("entity_id");
        assert(name@ == entity_attr());
    }
    match find_attribute(h, &name) {
        Some(k) => k,
        None => {
            proof {
                let x = choose|x: int| 0 <= x < h@.len() && (#[trigger] h@[x]).name@ == entity_attr() && h@[x].ty == ScalarType::Int;
                assert(h@[x].name@ != name@);
            }
            0
        },
    }
}

/// The position of entity `e`'s tuple in a component, if it has one.
fn entity_row_index(c: &Component, pos: usize, e: Entity) -> (r: Option<usize>)
    requires
        component_wf(*c),
        pos < c.relation.heading@.len(),
        c.relation.heading@[pos as int].name@ == entity_attr(),
    ensures
        r matches Some(k) ==> k < c.relation.tuples@.len() && c.relation.tuples@[k as int]@[pos as int] == int_view(e),
        r is None <==> !has_entity(*c, e),
{
    let ghost h = c.relation.heading@;
    let mut k: usize = 0;
    while k < c.relation.tuples.len()
        invariant
            k <= c.relation.tuples@.len(),
            component_wf(*c),
            h == c.relation.heading@,
            pos < h.len(),
            h[pos as int].name@ == entity_attr(),
            forall|j: int| 0 <= j < k ==> (#[trigger] c.relation.tuples@[j])@[pos as int] != int_view(e),
        decreases c.relation.tuples@.len() - k,
    {
        proof {
            assert(fits_heading(h, c.relation.tuples@[k as int]));
        }
        let found = match &c.relation.tuples[k].values[pos] {
            ScalarValue::Int(v) => *v == e,
            _ => false,
        };
        if found {
            proof {
                assert(row_has_entity(h, c.relation.tuples@[k as int]@, e));
            }
            return Some(k);
        }
        k = k + 1;
    }
    proof {
        if has_entity(*c, e) {
            let j = choose|j: int| 0 <= j < c.relation.tuples@.len() && row_has_entity(h, (#[trigger] c.relation.tuples@[j])@, e);
            let x = choose|x: int| 0 <= x < h.len() && (#[trigger] h[x]).name@ == entity_attr() && c.relation.tuples@[j]@[x] == int_view(e);
            lemma_sorted_distinct(h, x, pos as int);
        }
    }
    None
}

impl World {
    /// The position of the component named `name`, if registered.
    fn component_index(&self, name: &str) -> (r: Option<usize>)
        ensures
            r matches Some(i) ==> i < self.components@.len() && self.components@[i as int].name@ == name@,
            r is None <==> !registered(self.components@, name@),
    {
        let mut i: usize = 0;
        while i < self.components.len()
            invariant
                i <= self.components@.len(),
                forall|k: int| 0 <= k < i ==> (#[trigger] self.components@[k]).name@ != name@,
            decreases self.components@.len() - i,
        {
            if crate::text::str_eq(self.components[i].name.as_str(), name) {
                return Some(i);
            }
            i = i + 1;
        }
        None
    }

    /// Gives entity `entity` the component `component_name` with the named
    /// values `data` (an `entity_id` among them is replaced by the entity).
    /// Fails, changing nothing, when the component is not registered, when
    /// the values do not make a tuple of its heading, or when the entity
    /// already has the component.
    #[verifier::loop_isolation(false)]
    pub fn add_component(&mut self, entity: Entity, component_name: &str, data: NamedTuple) -> (r: Result<(), WorldError>)
        requires
            old(self).wf(),
            names_distinct(named_view(data@)),
        ensures
            final(self).wf(),
            final(self).next_entity_id == old(self).next_entity_id,
            final(self).components@.len() == old(self).components@.len(),
            r is Err ==> final(self).components@ == old(self).components@,
            !registered(old(self).components@, component_name@)
                ==> (r matches Err(WorldError::ComponentNotFound(n)) && n@ == component_name@),
            forall|i: int| 0 <= i < old(self).components@.len() && (#[trigger] old(self).components@[i]).name@ == component_name@ ==> {
                let c = old(self).components@[i];
                let h = c.relation.heading@;
                let d = named_view(data@);
                &&& !data_fits(h, d) ==> r == Err::<(), WorldError>(WorldError::InvalidTuple)
                &&& data_fits(h, d) && has_entity(c, entity) ==> r == Err::<(), WorldError>(WorldError::KeyViolation(entity))
                &&& data_fits(h, d) && !has_entity(c, entity) ==> r is Ok
                &&& r is Ok ==> {
                    &&& final(self).components@[i].name == c.name
                    &&& final(self).components@[i].relation.heading == c.relation.heading
                    &&& final(self).components@[i].relation.tuple_set() == c.relation.tuple_set().insert(entity_tuple(h, d, entity))
                }
            },
            r is Ok ==> forall|j: int| 0 <= j < old(self).components@.len() && (#[trigger] old(self).components@[j]).name@ != component_name@
                ==> final(self).components@[j] == old(self).components@[j],
    {
        let i = match self.component_index(component_name) {
            None => {
                return Err(WorldError::ComponentNotFound(component_name.to_owned()));
            },
            Some(i) => i,
        };
        proof {
            assert(component_wf(self.components@[i as int]));
            assert forall|j: int| 0 <= j < self.components@.len() && (#[trigger] self.components@[j]).name@ == component_name@ implies j == i by {
                if j < i {
                    assert(self.components@[j].name@ != self.components@[i as int].name@);
                } else if j > i {
                    assert(self.components@[i as int].name@ != self.components@[j].name@);
                }
            }
        }
        let pos = entity_position(&self.components[i].relation.heading);
        let row = match build_tuple(&self.components[i].relation.heading, &data, entity) {
            None => {
                return Err(WorldError::InvalidTuple);
            },
            Some(row) => row,
        };
        if entity_row_index(&self.components[i], pos, entity).is_some() {
            return Err(WorldError::KeyViolation(entity));
        }
        let ghost before = self.components@;
        let ghost h = before[i as int].relation.heading@;
        let mut c = self.components.remove(i);
        proof {
            assert(c == before[i as int]);
        }
        let ghost old_rows = c.relation.tuples@;
        c.relation.insert(row);
        proof {
            let rows = c.relation.tuples@;
            assert(row@[pos as int] == int_view(entity));
            assert forall|x: int| 0 <= x < h.len() && (#[trigger] h[x]).name@ == entity_attr() implies keyed_at(rows, x) by {
                lemma_sorted_distinct(h, x, pos as int);
                assert forall|a: int, b: int| 0 <= a < rows.len() && 0 <= b < rows.len() && (#[trigger] rows[a])@[x] == (#[trigger] rows[b])@[x] implies a == b by {
                    if a < old_rows.len() && b < old_rows.len() {
                        assert(rows[a] == old_rows[a] && rows[b] == old_rows[b]);
                    } else if a < old_rows.len() {
                        assert(rows[a] == old_rows[a]);
                        assert(row_has_entity(h, old_rows[a]@, entity));
                    } else if b < old_rows.len() {
                        assert(rows[b] == old_rows[b]);
                        assert(row_has_entity(h, old_rows[b]@, entity));
                    }
                }
            }
            assert(component_wf(c));
        }
        self.components.insert(i, c);
        proof {
            assert(self.components@ =~= before.update(i as int, c));
        }
        Ok(())
    }

    /// The tuple of entity `entity` in component `component_name`, as named
    /// values. Fails when the component is not registered or the entity does
    /// not have it.
    pub fn get_component(&self, entity: Entity, component_name: &str) -> (r: Result<NamedTuple, WorldError>)
        requires
            self.wf(),
        ensures
            !registered(self.components@, component_name@)
                ==> (r matches Err(WorldError::ComponentNotFound(n)) && n@ == component_name@),
            forall|i: int| 0 <= i < self.components@.len() && (#[trigger] self.components@[i]).name@ == component_name@ ==> {
                let c = self.components@[i];
                &&& (r is Ok) == has_entity(c, entity)
                &&& !has_entity(c, entity) ==> r == Err::<NamedTuple, WorldError>(WorldError::TupleMismatch)
                &&& r is Ok ==> exists|k: int| 0 <= k < c.relation.tuples@.len()
                    && row_has_entity(c.relation.heading@, (#[trigger] c.relation.tuples@[k])@, entity)
                    && named_view(r->Ok_0@) == named_of(c.relation.heading@, c.relation.tuples@[k]@)
            },
    {
        let i = match self.component_index(component_name) {
            None => {
                return Err(WorldError::ComponentNotFound(component_name.to_owned()));
            },
            Some(i) => i,
        };
        proof {
            assert(component_wf(self.components@[i as int]));
            assert forall|j: int| 0 <= j < self.components@.len() && (#[trigger] self.components@[j]).name@ == component_name@ implies j == i by {
                if j < i {
                    assert(self.components@[j].name@ != self.components@[i as int].name@);
                } else if j > i {
                    assert(self.components@[i as int].name@ != self.components@[j].name@);
                }
            }
        }
        let c = &self.components[i];
        let pos = entity_position(&c.relation.heading);
        let k = match entity_row_index(c, pos, entity) {
            None => {
                return Err(WorldError::TupleMismatch);
            },
            Some(k) => k,
        };
        let ghost h = c.relation.heading@;
        let row = &c.relation.tuples[k];
        proof {
            assert(fits_heading(h, *row));
        }
        let mut t: NamedTuple = Vec::new();
        let mut x: usize = 0;
        while x < c.relation.heading.len()
            invariant
                x <= h.len(),
                h == c.relation.heading@,
                row@.len() == h.len(),
                row.values@.len() == h.len(),
                t@.len() == x,
                forall|y: int| 0 <= y < x ==> (#[trigger] named_view(t@)[y]) == named_of(h, row@)[y],
            decreases h.len() - x,
        {
            let ghost prev = t@;
            t.push((c.relation.heading[x].name.clone(), row.values[x].duplicate()));
            proof {
                assert(named_view(t@)[x as int] == named_of(h, row@)[x as int]);
                assert forall|y: int| 0 <= y < x implies (#[trigger] named_view(t@)[y]) == named_of(h, row@)[y] by {
                    assert(t@[y] == prev[y]);
                    assert(named_view(prev)[y] == named_of(h, row@)[y]);
                }
            }
            x = x + 1;
        }
        proof {
            assert(named_view(t@) =~= named_of(h, row@));
            assert(row_has_entity(h, row@, entity));
        }
        Ok(t)
    }
}

impl World {
    /// Takes component `component_name` away from entity `entity`, if it has
    /// it. Fails, changing nothing, when the component is not registered.
    #[verifier::loop_isolation(false)]
    pub fn remove_component(&mut self, entity: Entity, component_name: &str) -> (r: Result<(), WorldError>)
        requires
            old(self).wf(),
        ensures
            final(self).wf(),
            final(self).next_entity_id == old(self).next_entity_id,
            final(self).components@.len() == old(self).components@.len(),
            (r is Ok) == registered(old(self).components@, component_name@),
            r is Err ==> final(self).components@ == old(self).components@,
            !registered(old(self).components@, component_name@)
                ==> (r matches Err(WorldError::ComponentNotFound(n)) && n@ == component_name@),
            forall|i: int| 0 <= i < old(self).components@.len() && (#[trigger] old(self).components@[i]).name@ == component_name@ ==> {
                let c = old(self).components@[i];
                let h = c.relation.heading@;
                &&& final(self).components@[i].name == c.name
                &&& final(self).components@[i].relation.heading == c.relation.heading
                &&& final(self).components@[i].relation.tuple_set()
                    == c.relation.tuple_set().filter(|t: Seq<ValueView>| !row_has_entity(h, t, entity))
            },
            forall|j: int| 0 <= j < old(self).components@.len() && (#[trigger] old(self).components@[j]).name@ != component_name@
                ==> final(self).components@[j] == old(self).components@[j],
    {
        let i = match self.component_index(component_name) {
            None => {
                return Err(WorldError::ComponentNotFound(component_name.to_owned()));
            },
            Some(i) => i,
        };
        proof {
            assert(component_wf(self.components@[i as int]));
            assert forall|j: int| 0 <= j < self.components@.len() && (#[trigger] self.components@[j]).name@ == component_name@ implies j == i by {
                if j < i {
                    assert(self.components@[j].name@ != self.components@[i as int].name@);
                } else if j > i {
                    assert(self.components@[i as int].name@ != self.components@[j].name@);
                }
            }
        }
        let ghost before = self.components@;
        let ghost c0 = before[i as int];
        let ghost h = c0.relation.heading@;
        let pos = entity_position(&self.components[i].relation.heading);
        match entity_row_index(&self.components[i], pos, entity) {
            None => {
                proof {
                    let rows = c0.relation.tuples@;
                    assert forall|t: Seq<ValueView>| c0.relation.tuple_set().contains(t) implies !row_has_entity(h, t, entity) by {
                        let k = choose|k: int| 0 <= k < views(rows).len() && views(rows)[k] == t;
                        assert(t == rows[k]@);
                    }
                    assert(c0.relation.tuple_set().filter(|t: Seq<ValueView>| !row_has_entity(h, t, entity)) =~= c0.relation.tuple_set());
                }
                Ok(())
            },
            Some(k) => {
                let mut c = self.components.remove(i);
                proof {
                    assert(c == c0);
                }
                let ghost rows = c.relation.tuples@;
                c.relation.tuples.remove(k);
                proof {
                    let nrows = c.relation.tuples@;
                    assert(nrows =~= rows.remove(k as int));
                    assert(views(nrows) =~= views(rows).remove(k as int));
                    assert forall|a: int, b: int| 0 <= a < b < views(nrows).len() implies views(nrows)[a] != views(nrows)[b] by {
                        let oa = if a < k { a } else { a + 1 };
                        let ob = if b < k { b } else { b + 1 };
                        assert(views(nrows)[a] == views(rows)[oa]);
                        assert(views(nrows)[b] == views(rows)[ob]);
                    }
                    assert(views(nrows).no_duplicates());
                    assert forall|x: int| 0 <= x < h.len() && (#[trigger] h[x]).name@ == entity_attr() implies keyed_at(nrows, x) by {
                        assert(keyed_at(rows, x));
                        assert forall|a: int, b: int| 0 <= a < nrows.len() && 0 <= b < nrows.len() && (#[trigger] nrows[a])@[x] == (#[trigger] nrows[b])@[x] implies a == b by {
                            let oa = if a < k { a } else { a + 1 };
                            let ob = if b < k { b } else { b + 1 };
                            assert(nrows[a] == rows[oa] && nrows[b] == rows[ob]);
                        }
                    }
                    assert forall|m: int| 0 <= m < nrows.len() implies fits_heading(h, #[trigger] nrows[m]) by {
                        let om = if m < k { m } else { m + 1 };
                        assert(nrows[m] == rows[om]);
                    }
                    assert(component_wf(c));
                    let target = c0.relation.tuple_set().filter(|t: Seq<ValueView>| !row_has_entity(h, t, entity));
                    assert forall|t: Seq<ValueView>| c.relation.tuple_set().contains(t) implies target.contains(t) by {
                        let m = choose|m: int| 0 <= m < views(nrows).len() && views(nrows)[m] == t;
                        let om = if m < k { m } else { m + 1 };
                        assert(views(rows)[om] == t);
                        assert(om != k);
                        if row_has_entity(h, t, entity) {
                            let x = choose|x: int| 0 <= x < h.len() && (#[trigger] h[x]).name@ == entity_attr() && t[x] == int_view(entity);
                            lemma_sorted_distinct(h, x, pos as int);
                            assert(keyed_at(rows, x));
                            assert(rows[om]@[x] == rows[k as int]@[x]);
                        }
                    }
                    assert forall|t: Seq<ValueView>| target.contains(t) implies c.relation.tuple_set().contains(t) by {
                        let m = choose|m: int| 0 <= m < views(rows).len() && views(rows)[m] == t;
                        if m == k {
                            assert(row_has_entity(h, t, entity));
                        } else {
                            let nm = if m < k { m } else { m - 1 };
                            assert(views(nrows)[nm] == t);
                        }
                    }
                    assert(c.relation.tuple_set() =~= target);
                }
                self.components.insert(i, c);
                proof {
                    assert(self.components@ =~= before.update(i as int, c));
                }
                Ok(())
            },
        }
    }
}

/// The position of the component named `n`, when one is registered.
pub open spec fn component_at(cs: Seq<Component>, n: Seq<char>) -> int {
    choose|i: int| 0 <= i < cs.len() && (#[trigger] cs[i]).name@ == n
}

/// The position of entity `e`'s tuple in `c`, when it has one.
pub open spec fn entity_row_at(c: Component, e: i64) -> int {
    choose|k: int| 0 <= k < c.relation.tuples@.len() && row_has_entity(c.relation.heading@, (#[trigger] c.relation.tuples@[k])@, e)
}

/// `a` and `s` give equal values for the names they share.
pub open spec fn agrees(a: Seq<(Seq<char>, ValueView)>, s: Seq<(Seq<char>, ValueView)>) -> bool {
    forall|i: int| 0 <= i < s.len() && names_value(a, (#[trigger] s[i]).0) ==> value_in(a, s[i].0) == s[i].1
}

/// `a` extended by the values of `s` whose names it lacks, in order.
pub open spec fn merged(a: Seq<(Seq<char>, ValueView)>, s: Seq<(Seq<char>, ValueView)>) -> Seq<(Seq<char>, ValueView)>
    decreases s.len(),
{
    if s.len() == 0 {
        a
    } else {
        let m = merged(a, s.drop_last());
        if names_value(m, s.last().0) {
            m
        } else {
            m.push(s.last())
        }
    }
}

/// The named tuple of entity `e` joined with its tuples in the components
/// at positions `idx`, in turn: none when a component lacks the entity or
/// disagrees on a shared attribute.
pub open spec fn join_with(cs: Seq<Component>, idx: Seq<usize>, e: i64, acc: Seq<(Seq<char>, ValueView)>) -> Option<Seq<(Seq<char>, ValueView)>>
    decreases idx.len(),
{
    if idx.len() == 0 {
        Some(acc)
    } else {
        match join_with(cs, idx.drop_last(), e, acc) {
            None => None,
            Some(a) => {
                let c = cs[idx.last() as int];
                if has_entity(c, e) {
                    let s = named_of(c.relation.heading@, c.relation.tuples@[entity_row_at(c, e)]@);
                    if agrees(a, s) {
                        Some(merged(a, s))
                    } else {
                        None
                    }
                } else {
                    None
                }
            },
        }
    }
}

/// A tuple of a sorted heading names each attribute once.
proof fn lemma_named_of_distinct(h: Seq<Attribute>, r: Seq<ValueView>)
    requires
        sorted_names(h),
    ensures
        names_distinct(named_of(h, r)),
{
    assert forall|a: int, b: int| 0 <= a < named_of(h, r).len() && 0 <= b < named_of(h, r).len() && (#[trigger] named_of(h, r)[a]).0 == (#[trigger] named_of(h, r)[b]).0 implies a == b by {
        lemma_sorted_distinct(h, a, b);
    }
}

/// A tuple as named values, in heading order.
fn named_row(h: &Vec<Attribute>, row: &Row) -> (t: NamedTuple)
    requires
        fits_heading(h@, *row),
    ensures
        named_view(t@) == named_of(h@, row@),
{
    let mut t: NamedTuple = Vec::new();
    let mut x: usize = 0;
    while x < h.len()
        invariant
            x <= h@.len(),
            row@.len() == h@.len(),
            row.values@.len() == h@.len(),
            t@.len() == x,
            forall|y: int| 0 <= y < x ==> (#[trigger] named_view(t@)[y]) == named_of(h@, row@)[y],
        decreases h@.len() - x,
    {
        let ghost prev = t@;
        t.push((h[x].name.clone(), row.values[x].duplicate()));
        proof {
            assert(named_view(t@)[x as int] == named_of(h@, row@)[x as int]);
            assert forall|y: int| 0 <= y < x implies (#[trigger] named_view(t@)[y]) == named_of(h@, row@)[y] by {
                assert(t@[y] == prev[y]);
                assert(named_view(prev)[y] == named_of(h@, row@)[y]);
            }
        }
        x = x + 1;
    }
    assert(named_view(t@) =~= named_of(h@, row@));
    t
}

/// Whether `a` and `s` agree on the names they share.
fn agree(a: &NamedTuple, s: &NamedTuple) -> (b: bool)
    requires
        names_distinct(named_view(a@)),
    ensures
        b == agrees(named_view(a@), named_view(s@)),
{
    let ghost av = named_view(a@);
    let ghost sv = named_view(s@);
    let mut i: usize = 0;
    while i < s.len()
        invariant
            i <= s@.len(),
            names_distinct(av),
            av == named_view(a@),
            sv == named_view(s@),
            forall|x: int| 0 <= x < i && names_value(av, (#[trigger] sv[x]).0) ==> value_in(av, sv[x].0) == sv[x].1,
        decreases s@.len() - i,
    {
        match find_value(a, &s[i].0) {
            None => {},
            Some(j) => {
                proof {
                    assert(av[j as int].0 == sv[i as int].0);
                    let c = choose|c: int| 0 <= c < av.len() && (#[trigger] av[c]).0 == sv[i as int].0;
                    assert(av[c].0 == av[j as int].0);
                    assert(value_in(av, sv[i as int].0) == av[j as int].1);
                }
                if !a[j].1.same(&s[i].1) {
                    return false;
                }
            },
        }
        i = i + 1;
    }
    true
}

/// Extends `a` by the values of `s` whose names it lacks, in order.
fn merge_into(a: &mut NamedTuple, s: &NamedTuple)
    requires
        names_distinct(named_view(old(a)@)),
    ensures
        named_view(final(a)@) == merged(named_view(old(a)@), named_view(s@)),
        names_distinct(named_view(final(a)@)),
{
    let ghost a0 = named_view(a@);
    let ghost sv = named_view(s@);
    let mut i: usize = 0;
    while i < s.len()
        invariant
            i <= s@.len(),
            sv == named_view(s@),
            named_view(a@) == merged(a0, sv.take(i as int)),
            names_distinct(named_view(a@)),
        decreases s@.len() - i,
    {
        proof {
            assert(sv.take(i + 1).drop_last() =~= sv.take(i as int));
            assert(sv.take(i + 1).last() == sv[i as int]);
        }
        match find_value(a, &s[i].0) {
            None => {
                let ghost prev = a@;
                a.push((s[i].0.clone(), s[i].1.duplicate()));
                proof {
                    assert(named_view(a@) =~= named_view(prev).push(sv[i as int]));
                    let av = named_view(a@);
                    assert forall|x: int, y: int| 0 <= x < av.len() && 0 <= y < av.len() && (#[trigger] av[x]).0 == (#[trigger] av[y]).0 implies x == y by {
                        if x < prev.len() && y < prev.len() {
                            assert(av[x] == named_view(prev)[x] && av[y] == named_view(prev)[y]);
                        } else if x < prev.len() {
                            assert(av[x] == named_view(prev)[x]);
                        } else if y < prev.len() {
                            assert(av[y] == named_view(prev)[y]);
                        }
                    }
                }
            },
            Some(j) => {
                proof {
                    assert(named_view(a@)[j as int].0 == sv[i as int].0);
                }
            },
        }
        i = i + 1;
    }
    proof {
        assert(sv.take(s@.len() as int) =~= sv);
    }
}

/// The entity of tuple `r` of heading `h`.
pub open spec fn entity_of(h: Seq<Attribute>, r: Seq<ValueView>) -> i64 {
    r[choose|x: int| 0 <= x < h.len() && (#[trigger] h[x]).name@ == entity_attr()].1
}

/// The joined tuples of the target tuples `rows` of heading `h` with the
/// components at positions `idx`, in the order of `rows`, each with its
/// entity.
pub open spec fn joined_rows(cs: Seq<Component>, h: Seq<Attribute>, rows: Seq<Row>, idx: Seq<usize>) -> Seq<(i64, Seq<(Seq<char>, ValueView)>)>
    decreases rows.len(),
{
    if rows.len() == 0 {
        Seq::empty()
    } else {
        let prev = joined_rows(cs, h, rows.drop_last(), idx);
        let r = rows.last()@;
        match join_with(cs, idx, entity_of(h, r), named_of(h, r)) {
            Some(t) => prev.push((entity_of(h, r), t)),
            None => prev,
        }
    }
}

/// The names of a list of components.
pub open spec fn name_views(names: Seq<String>) -> Seq<Seq<char>> {
    names.map_values(|n: String| n@)
}

/// The positions of the named components.
pub open spec fn positions(cs: Seq<Component>, names: Seq<Seq<char>>) -> Seq<usize> {
    names.map_values(|n: Seq<char>| component_at(cs, n) as usize)
}

/// Joined tuples as mathematical data.
pub open spec fn joined_view(v: Seq<(Entity, NamedTuple)>) -> Seq<(i64, Seq<(Seq<char>, ValueView)>)> {
    v.map_values(|p: (Entity, NamedTuple)| (p.0, named_view(p.1@)))
}

/// The first of `names` that is not registered, at position `i`.
pub open spec fn first_unregistered(cs: Seq<Component>, names: Seq<Seq<char>>, i: int) -> bool {
    &&& 0 <= i < names.len()
    &&& !registered(cs, names[i])
    &&& forall|j: int| 0 <= j < i ==> registered(cs, #[trigger] names[j])
}

proof fn lemma_join_prefix_none(cs: Seq<Component>, idx: Seq<usize>, e: i64, acc: Seq<(Seq<char>, ValueView)>, m: int)
    requires
        0 <= m <= idx.len(),
        join_with(cs, idx.take(m), e, acc) is None,
    ensures
        join_with(cs, idx, e, acc) is None,
    decreases idx.len() - m,
{
    if m == idx.len() {
        assert(idx.take(m) =~= idx);
    } else {
        assert(idx.take(m + 1).drop_last() =~= idx.take(m));
        lemma_join_prefix_none(cs, idx, e, acc, m + 1);
    }
}

impl World {
    /// The component position of a registered name is the one `component_at`
    /// picks.
    proof fn lemma_component_at(&self, i: int)
        requires
            self.wf(),
            0 <= i < self.components@.len(),
        ensures
            component_at(self.components@, self.components@[i].name@) == i,
    {
        let n = self.components@[i].name@;
        let j = component_at(self.components@, n);
        assert(self.components@[j].name@ == n);
        if j < i {
            assert(self.components@[j].name@ != self.components@[i].name@);
        } else if j > i {
            assert(self.components@[i].name@ != self.components@[j].name@);
        }
    }

    /// Entity `e`'s tuple joined with its tuples in the components at
    /// positions `idx`, starting from the named values `acc`.
    #[verifier::loop_isolation(false)]
    fn join_entity(&self, idx: &Vec<usize>, e: Entity, acc: NamedTuple) -> (r: Option<NamedTuple>)
        requires
            self.wf(),
            forall|j: int| 0 <= j < idx@.len() ==> (#[trigger] idx@[j]) < self.components@.len(),
            names_distinct(named_view(acc@)),
        ensures
            (r is Some) == (join_with(self.components@, idx@, e, named_view(acc@)) is Some),
            r is Some ==> join_with(self.components@, idx@, e, named_view(acc@)) == Some(named_view(r->Some_0@)),
    {
        let ghost acc0 = named_view(acc@);
        let ghost cs = self.components@;
        let mut acc = acc;
        proof {
            assert(idx@.take(0) =~= Seq::<usize>::empty());
        }
        let mut j: usize = 0;
        while j < idx.len()
            invariant
                j <= idx@.len(),
                join_with(cs, idx@.take(j as int), e, acc0) == Some(named_view(acc@)),
                names_distinct(named_view(acc@)),
            decreases idx@.len() - j,
        {
            proof {
                assert(idx@.take(j + 1).drop_last() =~= idx@.take(j as int));
                assert(idx@.take(j + 1).last() == idx@[j as int]);
            }
            let c = &self.components[idx[j]];
            proof {
                assert(component_wf(*c));
            }
            let pos = entity_position(&c.relation.heading);
            match entity_row_index(c, pos, e) {
                None => {
                    proof {
                        lemma_join_prefix_none(cs, idx@, e, acc0, j + 1);
                    }
                    return None;
                },
                Some(m) => {
                    let ghost h = c.relation.heading@;
                    proof {
                        assert(row_has_entity(h, c.relation.tuples@[m as int]@, e));
                        let k = entity_row_at(*c, e);
                        let x = choose|x: int| 0 <= x < h.len() && (#[trigger] h[x]).name@ == entity_attr() && c.relation.tuples@[k]@[x] == int_view(e);
                        lemma_sorted_distinct(h, x, pos as int);
                        assert(keyed_at(c.relation.tuples@, pos as int));
                        assert(c.relation.tuples@[k]@[pos as int] == c.relation.tuples@[m as int]@[pos as int]);
                        assert(k == m);
                        assert(fits_heading(h, c.relation.tuples@[m as int]));
                    }
                    let s = named_row(&c.relation.heading, &c.relation.tuples[m]);
                    if !agree(&acc, &s) {
                        proof {
                            lemma_join_prefix_none(cs, idx@, e, acc0, j + 1);
                        }
                        return None;
                    }
                    merge_into(&mut acc, &s);
                },
            }
            j = j + 1;
        }
        proof {
            assert(idx@.take(idx@.len() as int) =~= idx@);
        }
        Some(acc)
    }

    /// The tuples of component `target_component` joined, entity by entity,
    /// with those of `join_components` in turn, each with its entity, in the
    /// order of the target's tuples. Fails when the target, or else one of
    /// the others, is not registered, naming the first missing one.
    #[verifier::loop_isolation(false)]
    pub fn joined_tuples(&self, target_component: &str, join_components: &Vec<String>) -> (r: Result<Vec<(Entity, NamedTuple)>, WorldError>)
        requires
            self.wf(),
        ensures
            !registered(self.components@, target_component@)
                ==> (r matches Err(WorldError::ComponentNotFound(n)) && n@ == target_component@),
            registered(self.components@, target_component@) ==> match r {
                Err(WorldError::ComponentNotFound(n)) => exists|i: int| #[trigger] first_unregistered(self.components@, name_views(join_components@), i)
                    && n@ == join_components@[i]@,
                Err(_) => false,
                Ok(v) => {
                    let c = self.components@[component_at(self.components@, target_component@)];
                    &&& forall|i: int| 0 <= i < join_components@.len() ==> registered(self.components@, #[trigger] name_views(join_components@)[i])
                    &&& joined_view(v@) == joined_rows(self.components@, c.relation.heading@, c.relation.tuples@,
                        positions(self.components@, name_views(join_components@)))
                },
            },
    {
        let ghost cs = self.components@;
        let ghost names = name_views(join_components@);
        let ti = match self.component_index(target_component) {
            None => {
                return Err(WorldError::ComponentNotFound(target_component.to_owned()));
            },
            Some(i) => i,
        };
        proof {
            self.lemma_component_at(ti as int);
        }
        let mut idx: Vec<usize> = Vec::new();
        let mut j: usize = 0;
        while j < join_components.len()
            invariant
                j <= join_components@.len(),
                idx@ == positions(cs, names.take(j as int)),
                forall|x: int| 0 <= x < idx@.len() ==> (#[trigger] idx@[x]) < cs.len(),
                forall|x: int| 0 <= x < j ==> registered(cs, #[trigger] names[x]),
            decreases join_components@.len() - j,
        {
            match self.component_index(join_components[j].as_str()) {
                None => {
                    proof {
                        assert(first_unregistered(cs, names, j as int));
                    }
                    return Err(WorldError::ComponentNotFound(join_components[j].clone()));
                },
                Some(i) => {
                    proof {
                        self.lemma_component_at(i as int);
                    }
                    idx.push(i);
                    proof {
                        assert(positions(cs, names.take(j + 1)) =~= positions(cs, names.take(j as int)).push(i));
                    }
                },
            }
            j = j + 1;
        }
        proof {
            assert(names.take(join_components@.len() as int) =~= names);
        }
        let c = &self.components[ti];
        let ghost h = c.relation.heading@;
        let ghost rows = c.relation.tuples@;
        proof {
            assert(component_wf(*c));
            assert(rows.take(0) =~= Seq::<Row>::empty());
        }
        let pos = entity_position(&c.relation.heading);
        let mut out: Vec<(Entity, NamedTuple)> = Vec::new();
        let mut k: usize = 0;
        while k < c.relation.tuples.len()
            invariant
                k <= rows.len(),
                joined_view(out@) == joined_rows(cs, h, rows.take(k as int), idx@),
            decreases rows.len() - k,
        {
            let row = &c.relation.tuples[k];
            proof {
                assert(fits_heading(h, *row));
                let x = choose|x: int| 0 <= x < h.len() && (#[trigger] h[x]).name@ == entity_attr() && h[x].ty == ScalarType::Int;
                lemma_sorted_distinct(h, x, pos as int);
                assert(rows.take(k + 1).drop_last() =~= rows.take(k as int));
                assert(rows.take(k + 1).last() == rows[k as int]);
            }
            let e = match &row.values[pos] {
                ScalarValue::Int(v) => *v,
                _ => {
                    proof {
                        assert(type_of(row@[pos as int]) == ScalarType::Int);
                    }
                    0
                },
            };
            proof {
                let x = choose|x: int| 0 <= x < h.len() && (#[trigger] h[x]).name@ == entity_attr();
                lemma_sorted_distinct(h, x, pos as int);
                assert(entity_of(h, row@) == e);
                lemma_named_of_distinct(h, row@);
            }
            let acc = named_row(&c.relation.heading, row);
            match self.join_entity(&idx, e, acc) {
                Some(t) => {
                    let ghost prev = out@;
                    out.push((e, t));
                    proof {
                        assert(joined_view(out@) =~= joined_view(prev).push((e, named_view(t@))));
                    }
                },
                None => {},
            }
            k = k + 1;
        }
        proof {
            assert(rows.take(rows.len() as int) =~= rows);
        }
        Ok(out)
    }
}

/// The position of the last update of entity `e`, or -1.
pub open spec fn last_update(ups: Seq<(i64, Seq<(Seq<char>, ValueView)>)>, e: i64) -> int
    decreases ups.len(),
{
    if ups.len() == 0 {
        -1
    } else if ups.last().0 == e {
        ups.len() - 1
    } else {
        last_update(ups.drop_last(), e)
    }
}

proof fn lemma_last_update(ups: Seq<(i64, Seq<(Seq<char>, ValueView)>)>, e: i64)
    ensures
        -1 <= last_update(ups, e) < ups.len(),
        last_update(ups, e) >= 0 ==> ups[last_update(ups, e)].0 == e,
    decreases ups.len(),
{
    if ups.len() > 0 && ups.last().0 != e {
        lemma_last_update(ups.drop_last(), e);
    }
}

/// Tuple `r` of heading `h` after the updates: the last update of its
/// entity made into a tuple, or `r` itself when there is none.
pub open spec fn replaced(h: Seq<Attribute>, r: Seq<ValueView>, ups: Seq<(i64, Seq<(Seq<char>, ValueView)>)>) -> Seq<ValueView> {
    let i = last_update(ups, entity_of(h, r));
    if i < 0 {
        r
    } else {
        entity_tuple(h, ups[i].1, entity_of(h, r))
    }
}

/// The tuples of `c` after the updates.
pub open spec fn updated_set(c: Component, ups: Seq<(i64, Seq<(Seq<char>, ValueView)>)>) -> Set<Seq<ValueView>> {
    Set::new(|t: Seq<ValueView>| exists|k: int| 0 <= k < c.relation.tuples@.len()
        && t == replaced(c.relation.heading@, (#[trigger] c.relation.tuples@[k])@, ups))
}

/// How many of the tuples `rows` of heading `h` an update names.
pub open spec fn count_updated(h: Seq<Attribute>, rows: Seq<Row>, ups: Seq<(i64, Seq<(Seq<char>, ValueView)>)>) -> nat
    decreases rows.len(),
{
    if rows.len() == 0 {
        0
    } else {
        count_updated(h, rows.drop_last(), ups) + if last_update(ups, entity_of(h, rows.last()@)) >= 0 { 1nat } else { 0nat }
    }
}

/// The components `new` are `old` after the updates `ups` to the component
/// at `ti`, with outcome `r`: when an update does not make a tuple of its
/// heading, nothing changes and the outcome is `InvalidTuple`; otherwise
/// each tuple named by an update is replaced by its entity's last update and
/// the outcome is the number of tuples replaced.
pub open spec fn applied(
    old: Seq<Component>,
    new: Seq<Component>,
    ti: int,
    ups: Seq<(i64, Seq<(Seq<char>, ValueView)>)>,
    r: Result<usize, WorldError>,
) -> bool {
    let c = old[ti];
    let h = c.relation.heading@;
    &&& new.len() == old.len()
    &&& (exists|i: int| 0 <= i < ups.len() && !data_fits(h, (#[trigger] ups[i]).1))
        ==> r == Err::<usize, WorldError>(WorldError::InvalidTuple) && new == old
    &&& (forall|i: int| 0 <= i < ups.len() ==> data_fits(h, (#[trigger] ups[i]).1)) ==> {
        &&& r == Ok::<usize, WorldError>(count_updated(h, c.relation.tuples@, ups) as usize)
        &&& new[ti].name == c.name
        &&& new[ti].relation.heading == c.relation.heading
        &&& new[ti].relation.tuple_set() == updated_set(c, ups)
        &&& forall|j: int| 0 <= j < old.len() && j != ti ==> new[j] == old[j]
    }
}

/// The entity of a tuple of a component is the integer at `entity_id`.
proof fn lemma_entity_of(h: Seq<Attribute>, r: Row, pos: int)
    requires
        sorted_names(h),
        0 <= pos < h.len(),
        h[pos].name@ == entity_attr(),
        h[pos].ty == ScalarType::Int,
        fits_heading(h, r),
    ensures
        r@[pos] == int_view(entity_of(h, r@)),
        forall|e: i64| row_has_entity(h, r@, e) <==> entity_of(h, r@) == e,
{
    let x = choose|x: int| 0 <= x < h.len() && (#[trigger] h[x]).name@ == entity_attr();
    lemma_sorted_distinct(h, x, pos);
    assert(type_of(r@[pos]) == ScalarType::Int);
    assert(r@[pos] == r.values@[pos]@);
    assert(r.values@[pos] is Int);
    assert forall|e: i64| row_has_entity(h, r@, e) <==> entity_of(h, r@) == e by {
        if row_has_entity(h, r@, e) {
            let y = choose|y: int| 0 <= y < h.len() && (#[trigger] h[y]).name@ == entity_attr() && r@[y] == int_view(e);
            lemma_sorted_distinct(h, y, pos);
        }
        if entity_of(h, r@) == e {
            assert(row_has_entity(h, r@, e));
        }
    }
}

/// The position of the last update of entity `e`, if any.
fn last_update_of(ups: &Vec<(Entity, NamedTuple)>, e: Entity) -> (r: Option<usize>)
    ensures
        r is None ==> last_update(joined_view(ups@), e) == -1,
        r matches Some(i) ==> i < ups@.len() && last_update(joined_view(ups@), e) == i,
{
    let ghost u = joined_view(ups@);
    let mut found: Option<usize> = None;
    let mut i: usize = 0;
    proof {
        assert(u.take(0).len() == 0);
    }
    while i < ups.len()
        invariant
            i <= ups@.len(),
            u == joined_view(ups@),
            found is None ==> last_update(u.take(i as int), e) == -1,
            found matches Some(f) ==> f < i && last_update(u.take(i as int), e) == f,
        decreases ups@.len() - i,
    {
        proof {
            assert(u.take(i + 1).drop_last() =~= u.take(i as int));
            assert(u.take(i + 1).last() == u[i as int]);
        }
        if ups[i].0 == e {
            found = Some(i);
        }
        i = i + 1;
    }
    proof {
        assert(u.take(ups@.len() as int) =~= u);
    }
    found
}

impl World {
    /// Applies updates `(entity, values)` to component `target_component`:
    /// each tuple whose entity has an update is replaced by the tuple that
    /// its last update makes with the entity; the count of replaced tuples.
    /// Fails, changing nothing, when the component is not registered or an
    /// update does not make a tuple of its heading.
    #[verifier::loop_isolation(false)]
    pub fn apply_updates(&mut self, target_component: &str, updates: &Vec<(Entity, NamedTuple)>) -> (r: Result<usize, WorldError>)
        requires
            old(self).wf(),
            forall|i: int| 0 <= i < updates@.len() ==> names_distinct(named_view((#[trigger] updates@[i]).1@)),
        ensures
            final(self).wf(),
            final(self).next_entity_id == old(self).next_entity_id,
            !registered(old(self).components@, target_component@)
                ==> (r matches Err(WorldError::ComponentNotFound(n)) && n@ == target_component@)
                && final(self).components@ == old(self).components@,
            registered(old(self).components@, target_component@) ==> applied(old(self).components@, final(self).components@,
                component_at(old(self).components@, target_component@), joined_view(updates@), r),
    {
        let ghost before = self.components@;
        let ghost ups = joined_view(updates@);
        let ti = match self.component_index(target_component) {
            None => {
                return Err(WorldError::ComponentNotFound(target_component.to_owned()));
            },
            Some(i) => i,
        };
        proof {
            self.lemma_component_at(ti as int);
            assert(component_wf(before[ti as int]));
        }
        let ghost c0 = before[ti as int];
        let ghost h = c0.relation.heading@;
        let mut built: Vec<Row> = Vec::new();
        let mut i: usize = 0;
        while i < updates.len()
            invariant
                i <= updates@.len(),
                self.components@ == before,
                built@.len() == i,
                forall|x: int| 0 <= x < i ==> data_fits(h, (#[trigger] ups[x]).1),
                forall|x: int| 0 <= x < i ==> (#[trigger] built@[x])@ == entity_tuple(h, ups[x].1, ups[x].0) && fits_heading(h, built@[x]),
            decreases updates@.len() - i,
        {
            proof {
                assert(ups[i as int] == (updates@[i as int].0, named_view(updates@[i as int].1@)));
            }
            match build_tuple(&self.components[ti].relation.heading, &updates[i].1, updates[i].0) {
                None => {
                    return Err(WorldError::InvalidTuple);
                },
                Some(row) => {
                    built.push(row);
                },
            }
            i = i + 1;
        }
        let pos = entity_position(&self.components[ti].relation.heading);
        proof {
            let x = choose|x: int| 0 <= x < h.len() && (#[trigger] h[x]).name@ == entity_attr() && h[x].ty == ScalarType::Int;
            lemma_sorted_distinct(h, x, pos as int);
        }
        let mut c = self.components.remove(ti);
        proof {
            assert(c == c0);
        }
        let ghost rows = c.relation.tuples@;
        let mut new_rows: Vec<Row> = Vec::new();
        let mut count: usize = 0;
        let mut k: usize = 0;
        proof {
            assert(rows.take(0).len() == 0);
        }
        while k < c.relation.tuples.len()
            invariant
                k <= rows.len(),
                c == c0,
                rows == c.relation.tuples@,
                new_rows@.len() == k,
                count == count_updated(h, rows.take(k as int), ups),
                count <= k,
                forall|x: int| 0 <= x < k ==> (#[trigger] new_rows@[x])@ == replaced(h, rows[x]@, ups),
                forall|x: int| 0 <= x < k ==> fits_heading(h, #[trigger] new_rows@[x]),
            decreases rows.len() - k,
        {
            let row = &c.relation.tuples[k];
            proof {
                assert(fits_heading(h, *row));
                lemma_entity_of(h, *row, pos as int);
                assert(rows.take(k + 1).drop_last() =~= rows.take(k as int));
                assert(rows.take(k + 1).last() == rows[k as int]);
            }
            let e = match &row.values[pos] {
                ScalarValue::Int(v) => *v,
                _ => 0,
            };
            proof {
                assert(e == entity_of(h, rows[k as int]@));
                lemma_last_update(ups, e);
            }
            let ghost prev = new_rows@;
            match last_update_of(updates, e) {
                None => {
                    new_rows.push(row.duplicate());
                },
                Some(u) => {
                    new_rows.push(built[u].duplicate());
                    count = count + 1;
                },
            }
            proof {
                assert(new_rows@[k as int]@ == replaced(h, rows[k as int]@, ups));
                assert forall|x: int| 0 <= x < k implies (#[trigger] new_rows@[x])@ == replaced(h, rows[x]@, ups) by {
                    assert(new_rows@[x] == prev[x]);
                }
            }
            k = k + 1;
        }
        proof {
            assert(rows.take(rows.len() as int) =~= rows);
            let nr = new_rows@;
            assert forall|x: int| 0 <= x < nr.len() implies (#[trigger] nr[x])@[pos as int] == rows[x]@[pos as int] by {
                lemma_entity_of(h, rows[x], pos as int);
            }
            assert(keyed_at(rows, pos as int));
            assert forall|a: int, b: int| 0 <= a < b < views(nr).len() implies views(nr)[a] != views(nr)[b] by {
                assert(views(nr)[a] == nr[a]@);
                assert(views(nr)[b] == nr[b]@);
                if nr[a]@ == nr[b]@ {
                    assert(nr[a]@[pos as int] == nr[b]@[pos as int]);
                }
            }
            assert forall|x: int| 0 <= x < h.len() && (#[trigger] h[x]).name@ == entity_attr() implies keyed_at(nr, x) by {
                lemma_sorted_distinct(h, x, pos as int);
            }
        }
        c.relation.tuples = new_rows;
        proof {
            assert(component_wf(c));
            assert forall|t: Seq<ValueView>| c.relation.tuple_set().contains(t) implies updated_set(c0, ups).contains(t) by {
                let m = choose|m: int| 0 <= m < views(c.relation.tuples@).len() && views(c.relation.tuples@)[m] == t;
                assert(t == replaced(h, rows[m]@, ups));
            }
            assert forall|t: Seq<ValueView>| updated_set(c0, ups).contains(t) implies c.relation.tuple_set().contains(t) by {
                let m = choose|m: int| 0 <= m < rows.len() && t == replaced(h, (#[trigger] rows[m])@, ups);
                assert(views(c.relation.tuples@)[m] == t);
            }
            assert(c.relation.tuple_set() =~= updated_set(c0, ups));
        }
        self.components.insert(ti, c);
        proof {
            assert(self.components@ =~= before.update(ti as int, c));
        }
        Ok(count)
    }
}

impl World {
    /// Runs a system: joins component `target_component` with
    /// `join_components` entity by entity, hands each joined tuple to
    /// `updater`, and replaces each joined entity's tuple in the target with
    /// the one that the returned values make; the count of replaced tuples.
    /// Fails as `joined_tuples` does, or, changing nothing, when returned
    /// values do not make a tuple of the target's heading.
    pub fn run_update_system<F: Fn(&NamedTuple) -> NamedTuple>(
        &mut self,
        target_component: &str,
        join_components: &Vec<String>,
        updater: F,
    ) -> (r: Result<usize, WorldError>)
        requires
            old(self).wf(),
            forall|t: &NamedTuple| #[trigger] updater.requires((t,)),
            forall|t: &NamedTuple, out: NamedTuple| #[trigger] updater.ensures((t,), out) ==> names_distinct(named_view(out@)),
        ensures
            final(self).wf(),
            final(self).next_entity_id == old(self).next_entity_id,
            !registered(old(self).components@, target_component@)
                ==> (r matches Err(WorldError::ComponentNotFound(n)) && n@ == target_component@)
                && final(self).components@ == old(self).components@,
            registered(old(self).components@, target_component@)
                && (exists|i: int| #[trigger] first_unregistered(old(self).components@, name_views(join_components@), i))
                ==> (r matches Err(WorldError::ComponentNotFound(n)) && exists|i: int|
                    #[trigger] first_unregistered(old(self).components@, name_views(join_components@), i) && n@ == join_components@[i]@)
                && final(self).components@ == old(self).components@,
            registered(old(self).components@, target_component@)
                && (forall|i: int| 0 <= i < join_components@.len() ==> registered(old(self).components@, #[trigger] name_views(join_components@)[i]))
                ==> {
                    let cs = old(self).components@;
                    let ti = component_at(cs, target_component@);
                    let jr = joined_rows(cs, cs[ti].relation.heading@, cs[ti].relation.tuples@, positions(cs, name_views(join_components@)));
                    exists|ins: Seq<NamedTuple>, outs: Seq<NamedTuple>| {
                        &&& ins.len() == jr.len()
                        &&& outs.len() == jr.len()
                        &&& forall|i: int| 0 <= i < jr.len() ==> named_view((#[trigger] ins[i])@) == jr[i].1 && updater.ensures((&ins[i],), outs[i])
                        &&& applied(cs, final(self).components@, ti, Seq::new(jr.len(), |i: int| (jr[i].0, named_view(outs[i]@))), r)
                    }
                },
    {
        let ghost cs = old(self).components@;
        let joined = match self.joined_tuples(target_component, join_components) {
            Err(e) => {
                return Err(e);
            },
            Ok(v) => v,
        };
        let ghost jr = joined_view(joined@);
        let mut updates: Vec<(Entity, NamedTuple)> = Vec::new();
        let mut i: usize = 0;
        while i < joined.len()
            invariant
                i <= joined@.len(),
                self.components@ == cs,
                jr == joined_view(joined@),
                updates@.len() == i,
                forall|t: &NamedTuple| #[trigger] updater.requires((t,)),
                forall|t: &NamedTuple, out: NamedTuple| #[trigger] updater.ensures((t,), out) ==> names_distinct(named_view(out@)),
                forall|x: int| 0 <= x < i ==> (#[trigger] updates@[x]).0 == joined@[x].0 && updater.ensures((&joined@[x].1,), updates@[x].1),
                forall|x: int| 0 <= x < i ==> names_distinct(named_view((#[trigger] updates@[x]).1@)),
            decreases joined@.len() - i,
        {
            let out = updater(&joined[i].1);
            updates.push((joined[i].0, out));
            i = i + 1;
        }
        let ghost ins = joined@.map_values(|p: (Entity, NamedTuple)| p.1);
        let ghost outs = updates@.map_values(|p: (Entity, NamedTuple)| p.1);
        let r = self.apply_updates(target_component, &updates);
        proof {
            assert(joined_view(updates@) =~= Seq::new(jr.len(), |i: int| (jr[i].0, named_view(outs[i]@))));
            assert forall|i: int| 0 <= i < jr.len() implies named_view((#[trigger] ins[i])@) == jr[i].1 && updater.ensures((&ins[i],), outs[i]) by {
                assert(ins[i] == joined@[i].1);
                assert(outs[i] == updates@[i].1);
            }
            let ti = component_at(cs, target_component@);
            assert(jr == joined_rows(cs, cs[ti].relation.heading@, cs[ti].relation.tuples@, positions(cs, name_views(join_components@))));
            assert(ins.len() == jr.len() && outs.len() == jr.len());
            assert(applied(cs, self.components@, ti, Seq::new(jr.len(), |i: int| (jr[i].0, named_view(outs[i]@))), r));
        }
        r
    }
}

/// A tuple of a component's tuple set is one of its tuples.
proof fn lemma_in_set(c: Component, t: Seq<ValueView>)
    requires
        c.relation.tuple_set().contains(t),
    ensures
        exists|k: int| 0 <= k < c.relation.tuples@.len() && (#[trigger] c.relation.tuples@[k])@ == t,
{
    let k = choose|k: int| 0 <= k < views(c.relation.tuples@).len() && views(c.relation.tuples@)[k] == t;
    assert(c.relation.tuples@[k]@ == t);
}

/// Reading after adding: once entity `e` has been given a component with
/// values `d` (the component `c` becoming `c2`, as `add_component` states),
/// the component's tuple of `e`, the one `get_component` reads, is the tuple
/// made of `d` and `e`.
pub proof fn law_get_after_add(c: Component, c2: Component, d: Seq<(Seq<char>, ValueView)>, e: i64)
    requires
        component_wf(c),
        !has_entity(c, e),
        c2.relation.heading == c.relation.heading,
        c2.relation.tuple_set() == c.relation.tuple_set().insert(entity_tuple(c.relation.heading@, d, e)),
    ensures
        forall|k: int| 0 <= k < c2.relation.tuples@.len() && row_has_entity(c2.relation.heading@, (#[trigger] c2.relation.tuples@[k])@, e)
            ==> c2.relation.tuples@[k]@ == entity_tuple(c.relation.heading@, d, e),
{
    let h = c.relation.heading@;
    assert forall|k: int| 0 <= k < c2.relation.tuples@.len() && row_has_entity(c2.relation.heading@, (#[trigger] c2.relation.tuples@[k])@, e)
        implies c2.relation.tuples@[k]@ == entity_tuple(h, d, e) by {
        let t = c2.relation.tuples@[k]@;
        assert(views(c2.relation.tuples@)[k] == t);
        assert(views(c2.relation.tuples@).contains(t));
        assert(c2.relation.tuple_set().contains(t));
        if t != entity_tuple(h, d, e) {
            assert(c.relation.tuple_set().contains(t));
            lemma_in_set(c, t);
            let m = choose|m: int| 0 <= m < c.relation.tuples@.len() && (#[trigger] c.relation.tuples@[m])@ == t;
            assert(row_has_entity(h, c.relation.tuples@[m]@, e));
        }
    }
}

/// Reading after removing: once entity `e`'s component has been removed
/// (the component `c` becoming `c2`, as `remove_component` states), the
/// component has no tuple of `e`, so `get_component` fails.
pub proof fn law_get_after_remove(c: Component, c2: Component, e: i64)
    requires
        c2.relation.heading == c.relation.heading,
        c2.relation.tuple_set() == c.relation.tuple_set().filter(|t: Seq<ValueView>| !row_has_entity(c.relation.heading@, t, e)),
    ensures
        !has_entity(c2, e),
{
    if has_entity(c2, e) {
        let k = choose|k: int| 0 <= k < c2.relation.tuples@.len() && row_has_entity(c2.relation.heading@, (#[trigger] c2.relation.tuples@[k])@, e);
        assert(views(c2.relation.tuples@)[k] == c2.relation.tuples@[k]@);
        assert(views(c2.relation.tuples@).contains(c2.relation.tuples@[k]@));
        assert(c2.relation.tuple_set().contains(c2.relation.tuples@[k]@));
    }
}

proof fn lemma_join_with_has(cs: Seq<Component>, idx: Seq<usize>, e: i64, acc: Seq<(Seq<char>, ValueView)>)
    requires
        join_with(cs, idx, e, acc) is Some,
    ensures
        forall|j: int| 0 <= j < idx.len() ==> has_entity(cs[#[trigger] idx[j] as int], e),
    decreases idx.len(),
{
    if idx.len() > 0 {
        lemma_join_with_has(cs, idx.drop_last(), e, acc);
        assert forall|j: int| 0 <= j < idx.len() implies has_entity(cs[#[trigger] idx[j] as int], e) by {
            if j < idx.len() - 1 {
                assert(idx.drop_last()[j] == idx[j]);
            }
        }
    }
}

/// Systems act on the entities that have every joined component: each
/// joined tuple's entity has a tuple in each of the joined components.
pub proof fn law_joined_entities_have_components(cs: Seq<Component>, h: Seq<Attribute>, rows: Seq<Row>, idx: Seq<usize>)
    ensures
        forall|i: int, j: int| 0 <= i < joined_rows(cs, h, rows, idx).len() && 0 <= j < idx.len()
            ==> has_entity(cs[#[trigger] idx[j] as int], (#[trigger] joined_rows(cs, h, rows, idx)[i]).0),
    decreases rows.len(),
{
    if rows.len() > 0 {
        law_joined_entities_have_components(cs, h, rows.drop_last(), idx);
        let r = rows.last()@;
        let prev = joined_rows(cs, h, rows.drop_last(), idx);
        match join_with(cs, idx, entity_of(h, r), named_of(h, r)) {
            Some(t) => {
                lemma_join_with_has(cs, idx, entity_of(h, r), named_of(h, r));
                assert forall|i: int, j: int| 0 <= i < joined_rows(cs, h, rows, idx).len() && 0 <= j < idx.len()
                    implies has_entity(cs[#[trigger] idx[j] as int], (#[trigger] joined_rows(cs, h, rows, idx)[i]).0) by {
                    if i < prev.len() {
                        assert(joined_rows(cs, h, rows, idx)[i] == prev[i]);
                    }
                }
            },
            None => {},
        }
    }
}

} // verus!
