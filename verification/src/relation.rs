//! Relations with a heading: a set of tuples over named, typed attributes.
//! The heading is kept sorted by attribute name, and each tuple holds its
//! values in heading order.
use vstd::prelude::*;
use crate::graph::{contains_key, views, Key};
use crate::text::{lex_less, str_less};

verus! {

broadcast use vstd::seq_lib::group_seq_properties;

/// The type of an attribute.
#[derive(Clone, Copy, Debug, PartialEq, Eq, Structural)]
pub enum ScalarType {
    Int,
    Bool,
    String,
    Bytes,
}

/// A value of an attribute.
#[derive(Clone, Debug, PartialEq, Eq)]
pub enum ScalarValue {
    Int(i64),
    Bool(bool),
    String(String),
    Bytes(Vec<u8>),
}

/// A value as mathematical data: the variant, then its payload.
pub type ValueView = (u8, i64, bool, Seq<char>, Seq<u8>);

impl View for ScalarValue {
    type V = ValueView;

    open spec fn view(&self) -> ValueView {
        match self {
            ScalarValue::Int(i) => (0u8, *i, false, Seq::empty(), Seq::empty()),
            ScalarValue::Bool(b) => (1u8, 0i64, *b, Seq::empty(), Seq::empty()),
            ScalarValue::String(s) => (2u8, 0i64, false, s@, Seq::empty()),
            ScalarValue::Bytes(v) => (3u8, 0i64, false, Seq::empty(), v@),
        }
    }
}

/// Whether two byte vectors are equal.
fn same_bytes(a: &Vec<u8>, b: &Vec<u8>) -> (r: bool)
    ensures
        r == (a@ == b@),
{
    if a.len() != b.len() {
        return false;
    }
    let mut i: usize = 0;
    while i < a.len()
        invariant
            a@.len() == b@.len(),
            i <= a@.len(),
            forall|k: int| 0 <= k < i ==> a@[k] == b@[k],
        decreases a@.len() - i,
    {
        if a[i] != b[i] {
            return false;
        }
        i = i + 1;
    }
    assert(a@ =~= b@);
    true
}

/// A copy of a byte vector.
pub fn copy_bytes(a: &Vec<u8>) -> (c: Vec<u8>)
    ensures
        c@ == a@,
{
    let mut c: Vec<u8> = Vec::new();
    let mut i: usize = 0;
    while i < a.len()
        invariant
            i <= a@.len(),
            c@ == a@.take(i as int),
        decreases a@.len() - i,
    {
        c.push(a[i]);
        assert(c@ =~= a@.take(i + 1));
        i = i + 1;
    }
    assert(a@.take(a@.len() as int) =~= a@);
    c
}

impl Key for ScalarValue {
    fn same(&self, other: &Self) -> (b: bool) {
        match (self, other) {
            (ScalarValue::Int(x), ScalarValue::Int(y)) => *x == *y,
            (ScalarValue::Bool(x), ScalarValue::Bool(y)) => *x == *y,
            (ScalarValue::String(x), ScalarValue::String(y)) => *x == *y,
            (ScalarValue::Bytes(x), ScalarValue::Bytes(y)) => same_bytes(x, y),
            _ => false,
        }
    }

    fn duplicate(&self) -> (c: Self) {
        match self {
            ScalarValue::Int(x) => ScalarValue::Int(*x),
            ScalarValue::Bool(x) => ScalarValue::Bool(*x),
            ScalarValue::String(x) => ScalarValue::String(x.clone()),
            ScalarValue::Bytes(x) => ScalarValue::Bytes(copy_bytes(x)),
        }
    }
}

/// The type of a value.
pub open spec fn type_of(v: ValueView) -> ScalarType {
    if v.0 == 0 {
        ScalarType::Int
    } else if v.0 == 1 {
        ScalarType::Bool
    } else if v.0 == 2 {
        ScalarType::String
    } else {
        ScalarType::Bytes
    }
}

impl ScalarValue {
    /// The type of the value.
    pub fn scalar_type(&self) -> (t: ScalarType)
        ensures
            t == type_of(self@),
    {
        match self {
            ScalarValue::Int(_) => ScalarType::Int,
            ScalarValue::Bool(_) => ScalarType::Bool,
            ScalarValue::String(_) => ScalarType::String,
            ScalarValue::Bytes(_) => ScalarType::Bytes,
        }
    }
}

/// A named, typed attribute.
#[derive(Clone, Debug, PartialEq, Eq)]
pub struct Attribute {
    pub name: String,
    pub ty: ScalarType,
}

impl View for Attribute {
    type V = (Seq<char>, ScalarType);

    open spec fn view(&self) -> Self::V {
        (self.name@, self.ty)
    }
}

impl Key for Attribute {
    fn same(&self, other: &Self) -> (b: bool) {
        self.name == other.name && self.ty == other.ty
    }

    fn duplicate(&self) -> (c: Self) {
        Attribute { name: self.name.clone(), ty: self.ty }
    }
}

/// A tuple: its values in heading order.
#[derive(Clone, Debug, PartialEq, Eq)]
pub struct Row {
    pub values: Vec<ScalarValue>,
}

impl View for Row {
    type V = Seq<ValueView>;

    open spec fn view(&self) -> Seq<ValueView> {
        views(self.values@)
    }
}

impl Key for Row {
    fn same(&self, other: &Self) -> (b: bool) {
        if self.values.len() != other.values.len() {
            assert(self@.len() != other@.len());
            return false;
        }
        let mut i: usize = 0;
        while i < self.values.len()
            invariant
                self.values@.len() == other.values@.len(),
                i <= self.values@.len(),
                forall|k: int| 0 <= k < i ==> self.values@[k]@ == other.values@[k]@,
            decreases self.values@.len() - i,
        {
            if !self.values[i].same(&other.values[i]) {
                assert(self@[i as int] != other@[i as int]);
                return false;
            }
            i = i + 1;
        }
        assert(self@ =~= other@);
        true
    }

    fn duplicate(&self) -> (c: Self) {
        let mut values: Vec<ScalarValue> = Vec::new();
        let mut i: usize = 0;
        while i < self.values.len()
            invariant
                i <= self.values@.len(),
                views(values@) == views(self.values@).take(i as int),
            decreases self.values@.len() - i,
        {
            let ghost before = views(values@);
            values.push(self.values[i].duplicate());
            assert(views(values@) =~= before.push(self.values@[i as int]@));
            assert(views(self.values@).take(i + 1) =~= views(self.values@).take(i as int).push(self.values@[i as int]@));
            i = i + 1;
        }
        assert(views(self.values@).take(self.values@.len() as int) =~= views(self.values@));
        Row { values }
    }
}

/// A heading and a set of tuples.
#[derive(Debug)]
pub struct Relation {
    pub heading: Vec<Attribute>,
    pub tuples: Vec<Row>,
}

/// The attribute names are strictly increasing.
pub open spec fn sorted_names(h: Seq<Attribute>) -> bool {
    forall|i: int, j: int| 0 <= i < j < h.len() ==> lex_less((#[trigger] h[i]).name@, (#[trigger] h[j]).name@)
}

/// The row has one value per attribute, of the attribute's type.
pub open spec fn fits_heading(h: Seq<Attribute>, r: Row) -> bool {
    &&& r@.len() == h.len()
    &&& forall|i: int| 0 <= i < h.len() ==> type_of(#[trigger] r@[i]) == h[i].ty
}

impl Relation {
    /// The relation's invariant: a sorted heading, tuples that fit it, and
    /// no tuple twice.
    pub open spec fn wf(&self) -> bool {
        &&& sorted_names(self.heading@)
        &&& forall|k: int| 0 <= k < self.tuples@.len() ==> fits_heading(self.heading@, #[trigger] self.tuples@[k])
        &&& views(self.tuples@).no_duplicates()
    }

    /// The tuples as a set of value sequences.
    pub open spec fn tuple_set(&self) -> Set<Seq<ValueView>> {
        views(self.tuples@).to_set()
    }

    /// The number of tuples.
    pub fn cardinality(&self) -> (n: usize)
        ensures
            n == self.tuples@.len(),
    {
        self.tuples.len()
    }

    /// The number of attributes.
    pub fn degree(&self) -> (n: usize)
        ensures
            n == self.heading@.len(),
    {
        self.heading.len()
    }

    /// Whether the relation holds no tuple.
    pub fn is_empty(&self) -> (b: bool)
        ensures
            b == (self.tuples@.len() == 0),
    {
        self.tuples.len() == 0
    }

    /// Whether the relation holds `row`.
    pub fn contains(&self, row: &Row) -> (b: bool)
        ensures
            b == self.tuple_set().contains(row@),
    {
        contains_key(&self.tuples, row)
    }

    /// The position of attribute `name` in the heading.
    pub fn attribute_index(&self, name: &String) -> (r: Option<usize>)
        ensures
            r is Some ==> r->0 < self.heading@.len() && self.heading@[r->0 as int].name@ == name@,
            r is None ==> forall|i: int| 0 <= i < self.heading@.len() ==> (#[trigger] self.heading@[i]).name@ != name@,
    {
        let mut i: usize = 0;
        while i < self.heading.len()
            invariant
                i <= self.heading@.len(),
                forall|k: int| 0 <= k < i ==> (#[trigger] self.heading@[k]).name@ != name@,
            decreases self.heading@.len() - i,
        {
            if self.heading[i].name == *name {
                return Some(i);
            }
            i = i + 1;
        }
        None
    }
}

/// A copy of a heading.
pub fn copy_heading(h: &Vec<Attribute>) -> (c: Vec<Attribute>)
    ensures
        views(c@) == views(h@),
        c@.len() == h@.len(),
        forall|i: int| 0 <= i < h@.len() ==> (#[trigger] c@[i]).name@ == h@[i].name@ && c@[i].ty == h@[i].ty,
{
    let mut c: Vec<Attribute> = Vec::new();
    let mut i: usize = 0;
    while i < h.len()
        invariant
            i <= h@.len(),
            c@.len() == i,
            forall|k: int| 0 <= k < i ==> (#[trigger] c@[k]).name@ == h@[k].name@ && c@[k].ty == h@[k].ty,
        decreases h@.len() - i,
    {
        c.push(h[i].duplicate());
        i = i + 1;
    }
    assert(views(c@) =~= views(h@));
    c
}

/// `a` comes before `b`: by variant, then by payload (numbers by value,
/// `false` before `true`, strings and bytes lexicographically).
pub open spec fn value_less(a: ValueView, b: ValueView) -> bool {
    if a.0 != b.0 {
        a.0 < b.0
    } else if a.0 == 0 {
        a.1 < b.1
    } else if a.0 == 1 {
        !a.2 && b.2
    } else if a.0 == 2 {
        lex_less(a.3, b.3)
    } else {
        bytes_less(a.4, b.4)
    }
}

/// Lexicographic order on byte sequences.
pub open spec fn bytes_less(a: Seq<u8>, b: Seq<u8>) -> bool
    decreases a.len(),
{
    if a.len() == 0 {
        b.len() > 0
    } else if b.len() == 0 {
        false
    } else if a[0] != b[0] {
        a[0] < b[0]
    } else {
        bytes_less(a.drop_first(), b.drop_first())
    }
}

/// Lexicographic order on tuples.
pub open spec fn row_less(a: Seq<ValueView>, b: Seq<ValueView>) -> bool
    decreases a.len(),
{
    if a.len() == 0 {
        b.len() > 0
    } else if b.len() == 0 {
        false
    } else if a[0] != b[0] {
        value_less(a[0], b[0])
    } else {
        row_less(a.drop_first(), b.drop_first())
    }
}

pub proof fn lemma_lex_irreflexive(a: Seq<char>)
    ensures
        !lex_less(a, a),
    decreases a.len(),
{
    if a.len() > 0 {
        lemma_lex_irreflexive(a.drop_first());
    }
}

pub proof fn lemma_lex_total(a: Seq<char>, b: Seq<char>)
    ensures
        a != b ==> lex_less(a, b) || lex_less(b, a),
        lex_less(a, b) ==> !lex_less(b, a),
    decreases a.len(),
{
    if a.len() > 0 && b.len() > 0 {
        lemma_lex_total(a.drop_first(), b.drop_first());
        if a != b && a[0] == b[0] {
            assert(a =~= seq![a[0]] + a.drop_first());
            assert(b =~= seq![b[0]] + b.drop_first());
        }
    }
}

pub proof fn lemma_lex_transitive(a: Seq<char>, b: Seq<char>, c: Seq<char>)
    ensures
        lex_less(a, b) && lex_less(b, c) ==> lex_less(a, c),
    decreases a.len(),
{
    if a.len() > 0 && b.len() > 0 && c.len() > 0 {
        lemma_lex_transitive(a.drop_first(), b.drop_first(), c.drop_first());
    }
}

pub proof fn lemma_bytes_irreflexive(a: Seq<u8>)
    ensures
        !bytes_less(a, a),
    decreases a.len(),
{
    if a.len() > 0 {
        lemma_bytes_irreflexive(a.drop_first());
    }
}

pub proof fn lemma_bytes_total(a: Seq<u8>, b: Seq<u8>)
    ensures
        a != b ==> bytes_less(a, b) || bytes_less(b, a),
        bytes_less(a, b) ==> !bytes_less(b, a),
    decreases a.len(),
{
    if a.len() > 0 && b.len() > 0 {
        lemma_bytes_total(a.drop_first(), b.drop_first());
        if a != b && a[0] == b[0] {
            assert(a =~= seq![a[0]] + a.drop_first());
            assert(b =~= seq![b[0]] + b.drop_first());
        }
    }
}

pub proof fn lemma_bytes_transitive(a: Seq<u8>, b: Seq<u8>, c: Seq<u8>)
    ensures
        bytes_less(a, b) && bytes_less(b, c) ==> bytes_less(a, c),
    decreases a.len(),
{
    if a.len() > 0 && b.len() > 0 && c.len() > 0 {
        lemma_bytes_transitive(a.drop_first(), b.drop_first(), c.drop_first());
    }
}

pub proof fn lemma_value_order(a: ValueView, b: ValueView, c: ValueView)
    ensures
        !value_less(a, a),
        value_less(a, b) ==> !value_less(b, a),
        value_less(a, b) && value_less(b, c) ==> value_less(a, c),
{
    lemma_lex_irreflexive(a.3);
    lemma_lex_total(a.3, b.3);
    lemma_lex_transitive(a.3, b.3, c.3);
    lemma_bytes_irreflexive(a.4);
    lemma_bytes_total(a.4, b.4);
    lemma_bytes_transitive(a.4, b.4, c.4);
}

/// Values of one variant differ only in that variant's payload.
pub open spec fn well_formed_value(v: ValueView) -> bool {
    &&& v.0 <= 3
    &&& v.0 != 0 ==> v.1 == 0
    &&& v.0 != 1 ==> !v.2
    &&& v.0 != 2 ==> v.3 == Seq::<char>::empty()
    &&& v.0 != 3 ==> v.4 == Seq::<u8>::empty()
}

pub proof fn lemma_value_total(a: ValueView, b: ValueView)
    requires
        well_formed_value(a),
        well_formed_value(b),
    ensures
        a != b ==> value_less(a, b) || value_less(b, a),
{
    lemma_lex_total(a.3, b.3);
    lemma_bytes_total(a.4, b.4);
}

pub proof fn lemma_row_order(a: Seq<ValueView>, b: Seq<ValueView>, c: Seq<ValueView>)
    ensures
        !row_less(a, a),
        row_less(a, b) ==> !row_less(b, a),
        row_less(a, b) && row_less(b, c) ==> row_less(a, c),
    decreases a.len(),
{
    if a.len() > 0 {
        lemma_value_order(a[0], a[0], a[0]);
        lemma_row_order(a.drop_first(), a.drop_first(), a.drop_first());
    }
    if a.len() > 0 && b.len() > 0 {
        lemma_value_order(a[0], b[0], b[0]);
        lemma_row_order(a.drop_first(), b.drop_first(), b.drop_first());
    }
    if a.len() > 0 && b.len() > 0 && c.len() > 0 {
        lemma_value_order(a[0], b[0], c[0]);
        lemma_row_order(a.drop_first(), b.drop_first(), c.drop_first());
    }
}

pub proof fn lemma_row_total(a: Seq<ValueView>, b: Seq<ValueView>)
    requires
        forall|i: int| 0 <= i < a.len() ==> well_formed_value(#[trigger] a[i]),
        forall|i: int| 0 <= i < b.len() ==> well_formed_value(#[trigger] b[i]),
    ensures
        a != b ==> row_less(a, b) || row_less(b, a),
    decreases a.len(),
{
    if a.len() > 0 && b.len() > 0 {
        lemma_value_total(a[0], b[0]);
        lemma_row_total(a.drop_first(), b.drop_first());
        if a != b && a[0] == b[0] {
            assert(a =~= seq![a[0]] + a.drop_first());
            assert(b =~= seq![b[0]] + b.drop_first());
        }
    }
}

pub proof fn lemma_views_well_formed(v: ScalarValue)
    ensures
        well_formed_value(v@),
{
}

/// Whether value `a` comes before value `b`.
pub fn value_lt(a: &ScalarValue, b: &ScalarValue) -> (r: bool)
    ensures
        r == value_less(a@, b@),
{
    match (a, b) {
        (ScalarValue::Int(x), ScalarValue::Int(y)) => *x < *y,
        (ScalarValue::Bool(x), ScalarValue::Bool(y)) => !*x && *y,
        (ScalarValue::String(x), ScalarValue::String(y)) => str_less(x.as_str(), y.as_str()),
        (ScalarValue::Bytes(x), ScalarValue::Bytes(y)) => bytes_lt(x, y),
        _ => {
            let ta: u8 = match a {
                ScalarValue::Int(_) => 0,
                ScalarValue::Bool(_) => 1,
                ScalarValue::String(_) => 2,
                ScalarValue::Bytes(_) => 3,
            };
            let tb: u8 = match b {
                ScalarValue::Int(_) => 0,
                ScalarValue::Bool(_) => 1,
                ScalarValue::String(_) => 2,
                ScalarValue::Bytes(_) => 3,
            };
            ta < tb
        },
    }
}

/// Whether bytes `a` come before bytes `b`.
fn bytes_lt(a: &Vec<u8>, b: &Vec<u8>) -> (r: bool)
    ensures
        r == bytes_less(a@, b@),
{
    let mut i: usize = 0;
    assert(a@.skip(0) =~= a@);
    assert(b@.skip(0) =~= b@);
    while i < a.len() && i < b.len()
        invariant
            i <= a@.len(),
            i <= b@.len(),
            bytes_less(a@, b@) == bytes_less(a@.skip(i as int), b@.skip(i as int)),
        decreases a@.len() - i,
    {
        let x = a[i];
        let y = b[i];
        if x != y {
            assert(a@.skip(i as int)[0] == x);
            assert(b@.skip(i as int)[0] == y);
            return x < y;
        }
        assert(a@.skip(i as int).drop_first() == a@.skip(i + 1));
        assert(b@.skip(i as int).drop_first() == b@.skip(i + 1));
        i = i + 1;
    }
    i < b.len()
}

/// Whether row `a` comes before row `b`.
pub fn row_lt(a: &Row, b: &Row) -> (r: bool)
    ensures
        r == row_less(a@, b@),
{
    let mut i: usize = 0;
    assert(a@.skip(0) =~= a@);
    assert(b@.skip(0) =~= b@);
    while i < a.values.len() && i < b.values.len()
        invariant
            i <= a@.len(),
            i <= b@.len(),
            a@.len() == a.values@.len(),
            b@.len() == b.values@.len(),
            row_less(a@, b@) == row_less(a@.skip(i as int), b@.skip(i as int)),
        decreases a@.len() - i,
    {
        let x = &a.values[i];
        let y = &b.values[i];
        if !x.same(y) {
            assert(a@.skip(i as int)[0] == x@);
            assert(b@.skip(i as int)[0] == y@);
            return value_lt(x, y);
        }
        assert(a@.skip(i as int).drop_first() == a@.skip(i + 1));
        assert(b@.skip(i as int).drop_first() == b@.skip(i + 1));
        i = i + 1;
    }
    i < b.values.len()
}

impl Relation {
    /// An empty relation over a heading sorted by attribute name.
    pub fn new(heading: Vec<Attribute>) -> (r: Relation)
        requires
            sorted_names(heading@),
        ensures
            r.wf(),
            r.heading == heading,
            r.tuples@.len() == 0,
    {
        Relation { heading, tuples: Vec::new() }
    }

    /// Adds a tuple that fits the heading; returns whether it was new.
    pub fn insert(&mut self, row: Row) -> (added: bool)
        requires
            old(self).wf(),
            fits_heading(old(self).heading@, row),
        ensures
            final(self).wf(),
            final(self).heading == old(self).heading,
            final(self).tuple_set() == old(self).tuple_set().insert(row@),
            added == !old(self).tuple_set().contains(row@),
            forall|k: int| 0 <= k < old(self).tuples@.len() ==> final(self).tuples@[k] == old(self).tuples@[k],
            added ==> final(self).tuples@ == old(self).tuples@.push(row),
            !added ==> final(self).tuples@ == old(self).tuples@,
    {
        if contains_key(&self.tuples, &row) {
            false
        } else {
            let ghost before = self.tuples@;
            let ghost rv = row@;
            self.tuples.push(row);
            proof {
                assert(views(self.tuples@) == views(before).push(rv));
                assert forall|x: int, y: int| 0 <= x < y < views(self.tuples@).len() implies views(self.tuples@)[x] != views(self.tuples@)[y] by {
                    if y == views(self.tuples@).len() - 1 {
                        assert(views(before).contains(views(before)[x]));
                    }
                }
                assert(self.tuple_set() =~= views(before).to_set().insert(rv));
            }
            true
        }
    }
}

/// Whether a tuple fits a heading: one value per attribute, of its type.
pub fn row_fits(h: &Vec<Attribute>, row: &Row) -> (b: bool)
    ensures
        b == fits_heading(h@, *row),
{
    if row.values.len() != h.len() {
        assert(row@.len() == row.values@.len());
        return false;
    }
    let mut x: usize = 0;
    while x < h.len()
        invariant
            x <= h@.len(),
            row.values@.len() == h@.len(),
            forall|y: int| 0 <= y < x ==> type_of((#[trigger] row.values@[y])@) == h@[y].ty,
        decreases h@.len() - x,
    {
        if row.values[x].scalar_type() != h[x].ty {
            assert(row@[x as int] == row.values@[x as int]@);
            return false;
        }
        x = x + 1;
    }
    assert forall|y: int| 0 <= y < h@.len() implies type_of(#[trigger] row@[y]) == h@[y].ty by {
        assert(row@[y] == row.values@[y]@);
    }
    true
}

impl Relation {
    /// Whether the relation keeps its invariant (see `wf`): a heading sorted
    /// by name, tuples that fit it, and no tuple twice.
    #[verifier::loop_isolation(false)]
    pub fn is_valid(&self) -> (b: bool)
        ensures
            b == self.wf(),
    {
        let h = &self.heading;
        let mut i: usize = 1;
        while i < h.len()
            invariant
                1 <= i,
                h@.len() > 0 ==> i <= h@.len(),
                forall|a: int, b: int| 0 <= a < b < i && b < h@.len() ==> lex_less((#[trigger] h@[a]).name@, (#[trigger] h@[b]).name@),
            decreases h@.len() - i,
        {
            if !str_less(h[i - 1].name.as_str(), h[i].name.as_str()) {
                proof {
                    if sorted_names(h@) {
                        assert(lex_less(h@[i - 1].name@, h@[i as int].name@));
                    }
                }
                return false;
            }
            proof {
                assert forall|a: int, b: int| 0 <= a < b < i + 1 && b < h@.len() implies lex_less((#[trigger] h@[a]).name@, (#[trigger] h@[b]).name@) by {
                    if b == i && a < i - 1 {
                        lemma_lex_transitive(h@[a].name@, h@[i - 1].name@, h@[b].name@);
                    }
                }
            }
            i = i + 1;
        }
        let mut k: usize = 0;
        while k < self.tuples.len()
            invariant
                sorted_names(h@),
                k <= self.tuples@.len(),
                forall|m: int| 0 <= m < k ==> fits_heading(h@, #[trigger] self.tuples@[m]),
            decreases self.tuples@.len() - k,
        {
            let t = &self.tuples[k];
            if t.values.len() != h.len() {
                proof {
                    assert(t@.len() == t.values@.len());
                    assert(!fits_heading(h@, self.tuples@[k as int]));
                }
                return false;
            }
            let mut x: usize = 0;
            while x < h.len()
                invariant
                    x <= h@.len(),
                    t.values@.len() == h@.len(),
                    forall|y: int| 0 <= y < x ==> type_of((#[trigger] t.values@[y])@) == h@[y].ty,
                decreases h@.len() - x,
            {
                if t.values[x].scalar_type() != h[x].ty {
                    proof {
                        assert(t@[x as int] == t.values@[x as int]@);
                        assert(!fits_heading(h@, self.tuples@[k as int]));
                    }
                    return false;
                }
                x = x + 1;
            }
            proof {
                assert forall|y: int| 0 <= y < h@.len() implies type_of(#[trigger] t@[y]) == h@[y].ty by {
                    assert(t@[y] == t.values@[y]@);
                }
            }
            k = k + 1;
        }
        let mut a: usize = 0;
        while a < self.tuples.len()
            invariant
                sorted_names(h@),
                forall|m: int| 0 <= m < self.tuples@.len() ==> fits_heading(h@, #[trigger] self.tuples@[m]),
                a <= self.tuples@.len(),
                forall|p: int, q: int| 0 <= p < a && 0 <= q < self.tuples@.len() && p != q
                    ==> (#[trigger] views(self.tuples@)[p]) != (#[trigger] views(self.tuples@)[q]),
            decreases self.tuples@.len() - a,
        {
            let mut b: usize = a + 1;
            while b < self.tuples.len()
                invariant
                    a < self.tuples@.len(),
                    a + 1 <= b <= self.tuples@.len(),
                    forall|q: int| a < q < b ==> views(self.tuples@)[a as int] != (#[trigger] views(self.tuples@)[q]),
                decreases self.tuples@.len() - b,
            {
                if self.tuples[a].same(&self.tuples[b]) {
                    proof {
                        assert(views(self.tuples@)[a as int] == views(self.tuples@)[b as int]);
                    }
                    return false;
                }
                b = b + 1;
            }
            a = a + 1;
        }
        true
    }
}

} // verus!
