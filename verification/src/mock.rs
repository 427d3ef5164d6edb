//! Random relations for testing: a builder that fills a heading with
//! random tuples.
//!
//! Integers, booleans and bytes are drawn at random; strings are 5 to 15
//! random ASCII letters and digits; byte strings hold 1 to 32 bytes. A seed
//! makes the draws repeatable. Since a relation is a set, a tuple drawn
//! twice is kept once.
use vstd::prelude::*;
use rand::rngs::StdRng;
use rand::{RngExt, SeedableRng};
use crate::graph::{views, Key};
use crate::relation::{fits_heading, sorted_names, type_of, Attribute, Relation, Row, ScalarType, ScalarValue, ValueView};

verus! {

/// The random number generator of `rand`, seeded or fresh.
#[verifier::external_type_specification]
#[verifier::external_body]
pub struct ExStdRng(StdRng);

/// `StdRng::seed_from_u64`: a generator whose draws the seed fixes.
#[verifier::external_body]
fn seeded_rng(seed: u64) -> StdRng {
    StdRng::seed_from_u64(seed)
}

/// `StdRng::from_rng(&mut rand::rng())`: a generator seeded from the
/// thread's generator.
#[verifier::external_body]
fn fresh_rng() -> StdRng {
    StdRng::from_rng(&mut rand::rng())
}

/// `RngExt::random::<i64>`: any integer.
#[verifier::external_body]
fn random_i64(rng: &mut StdRng) -> i64 {
    rng.random::<i64>()
}

/// `RngExt::random::<bool>`: either boolean.
#[verifier::external_body]
fn random_bool(rng: &mut StdRng) -> bool {
    rng.random::<bool>()
}

/// `RngExt::random::<u8>`: any byte.
#[verifier::external_body]
fn random_u8(rng: &mut StdRng) -> u8 {
    rng.random::<u8>()
}

/// `RngExt::random_range(lo..=hi)`: a number from `lo` to `hi`; the range
/// must not be empty.
#[verifier::external_body]
fn random_between(rng: &mut StdRng, lo: usize, hi: usize) -> (n: usize)
    requires
        lo <= hi,
    ensures
        lo <= n <= hi,
{
    rng.random_range(lo..=hi)
}

/// An ASCII letter or digit.
pub open spec fn alphanumeric(c: char) -> bool {
    ('a' <= c <= 'z') || ('A' <= c <= 'Z') || ('0' <= c <= '9')
}

/// `rng.sample(rand::distr::Alphanumeric) as char`: an ASCII letter or
/// digit.
#[verifier::external_body]
fn random_alphanumeric(rng: &mut StdRng) -> (c: char)
    ensures
        alphanumeric(c),
{
    rng.sample(rand::distr::Alphanumeric) as char
}

/// A value that the generator can give for type `t`: of that type, with a
/// string of 5 to 15 letters and digits, or 1 to 32 bytes.
pub open spec fn mock_value(v: ValueView, t: ScalarType) -> bool {
    &&& type_of(v) == t
    &&& t == ScalarType::String ==> 5 <= v.3.len() <= 15 && forall|i: int| 0 <= i < v.3.len() ==> alphanumeric(#[trigger] v.3[i])
    &&& t == ScalarType::Bytes ==> 1 <= v.4.len() <= 32
}

/// A tuple that the generator can give for the heading.
pub open spec fn mock_tuple(h: Seq<Attribute>, t: Seq<ValueView>) -> bool {
    &&& t.len() == h.len()
    &&& forall|i: int| 0 <= i < h.len() ==> mock_value(#[trigger] t[i], h[i].ty)
}

/// A builder of random relations over a heading.
pub struct MockRelation {
    heading: Vec<Attribute>,
    count: usize,
    seed: Option<u64>,
}

impl MockRelation {
    /// The heading.
    pub closed spec fn heading_view(&self) -> Seq<Attribute> {
        self.heading@
    }

    /// The number of tuples to draw.
    pub closed spec fn count_view(&self) -> usize {
        self.count
    }

    /// The seed, if any.
    pub closed spec fn seed_view(&self) -> Option<u64> {
        self.seed
    }

    /// A builder for the heading, drawing no tuple and unseeded.
    pub fn new(heading: Vec<Attribute>) -> (m: Self)
        ensures
            m.heading_view() == heading@,
            m.count_view() == 0,
            m.seed_view() is None,
    {
        MockRelation { heading, count: 0, seed: None }
    }

    /// The number of tuples to draw; a tuple drawn twice is kept once, so
    /// the relation may hold fewer.
    pub fn count(self, count: usize) -> (m: Self)
        ensures
            m.heading_view() == self.heading_view(),
            m.count_view() == count,
            m.seed_view() == self.seed_view(),
    {
        MockRelation { count, ..self }
    }

    /// The seed that makes the draws repeatable.
    pub fn seed(self, seed: u64) -> (m: Self)
        ensures
            m.heading_view() == self.heading_view(),
            m.count_view() == self.count_view(),
            m.seed_view() == Some(seed),
    {
        MockRelation { seed: Some(seed), ..self }
    }

    /// Draws the relation: `count` random tuples over the heading, each
    /// kept once.
    pub fn generate(self) -> (r: Relation)
        requires
            sorted_names(self.heading_view()),
        ensures
            r.wf(),
            r.heading@ == self.heading_view(),
            r.tuples@.len() <= self.count_view(),
            self.count_view() > 0 ==> r.tuples@.len() >= 1,
            forall|k: int| 0 <= k < r.tuples@.len() ==> mock_tuple(r.heading@, #[trigger] r.tuples@[k]@),
            exists|drawn: Seq<Row>| {
                &&& drawn.len() == self.count_view()
                &&& forall|k: int| 0 <= k < drawn.len() ==> mock_tuple(self.heading_view(), #[trigger] drawn[k]@)
                &&& r.tuple_set() == views(drawn).to_set()
            },
    {
        let mut rng = match self.seed {
            Some(s) => seeded_rng(s),
            None => fresh_rng(),
        };
        let ghost h = self.heading@;
        let mut drawn: Vec<Row> = Vec::new();
        let mut i: usize = 0;
        while i < self.count
            invariant
                i <= self.count,
                drawn@.len() == i,
                h == self.heading@,
                forall|k: int| 0 <= k < i ==> mock_tuple(h, #[trigger] drawn@[k]@) && fits_heading(h, drawn@[k]),
            decreases self.count - i,
        {
            let row = generate_tuple(&self.heading, &mut rng);
            drawn.push(row);
            i = i + 1;
        }
        let ghost d = drawn@;
        let relation = relation_of_rows(self.heading, drawn);
        proof {
            if self.count > 0 {
                assert(views(d)[0] == d[0]@);
                assert(views(d).contains(d[0]@));
                assert(views(d).to_set().contains(d[0]@));
                if relation.tuples@.len() == 0 {
                    assert(relation.tuple_set() =~= Set::empty());
                }
            }
            assert forall|k: int| 0 <= k < relation.tuples@.len() implies mock_tuple(relation.heading@, #[trigger] relation.tuples@[k]@) by {
                assert(views(relation.tuples@)[k] == relation.tuples@[k]@);
                assert(relation.tuple_set().contains(relation.tuples@[k]@));
                let m = choose|m: int| 0 <= m < views(d).len() && views(d)[m] == relation.tuples@[k]@;
                assert(mock_tuple(h, d[m]@));
            }
        }
        relation
    }
}

/// The relation over heading `h` that holds the given tuples, each once.
pub fn relation_of_rows(h: Vec<Attribute>, rows: Vec<Row>) -> (r: Relation)
    requires
        sorted_names(h@),
        forall|k: int| 0 <= k < rows@.len() ==> fits_heading(h@, #[trigger] rows@[k]),
    ensures
        r.wf(),
        r.heading@ == h@,
        r.tuple_set() == views(rows@).to_set(),
        r.tuples@.len() <= rows@.len(),
{
    let ghost hv = h@;
    let mut relation = Relation::new(h);
    let mut i: usize = 0;
    proof {
        assert(relation.tuple_set() =~= views(rows@.take(0)).to_set());
    }
    while i < rows.len()
        invariant
            relation.wf(),
            relation.heading@ == hv,
            i <= rows@.len(),
            forall|k: int| 0 <= k < rows@.len() ==> fits_heading(hv, #[trigger] rows@[k]),
            relation.tuple_set() == views(rows@.take(i as int)).to_set(),
            relation.tuples@.len() <= i,
        decreases rows@.len() - i,
    {
        let ghost before = relation.tuple_set();
        relation.insert(rows[i].duplicate());
        proof {
            let a = views(rows@.take(i as int));
            let b = views(rows@.take(i + 1));
            assert(b =~= a.push(rows@[i as int]@));
            assert forall|x: Seq<ValueView>| b.to_set().contains(x) <==> before.insert(rows@[i as int]@).contains(x) by {
                if b.contains(x) {
                    let m = choose|m: int| 0 <= m < b.len() && b[m] == x;
                    if m < a.len() {
                        assert(a[m] == x);
                    }
                }
                if a.contains(x) {
                    let m = choose|m: int| 0 <= m < a.len() && a[m] == x;
                    assert(b[m] == x);
                }
                if x == rows@[i as int]@ {
                    assert(b[i as int] == x);
                }
            }
            assert(b.to_set() =~= before.insert(rows@[i as int]@));
        }
        i = i + 1;
    }
    proof {
        assert(rows@.take(rows@.len() as int) =~= rows@);
    }
    relation
}

/// A random tuple over the heading.
fn generate_tuple(h: &Vec<Attribute>, rng: &mut StdRng) -> (row: Row)
    ensures
        fits_heading(h@, row),
        mock_tuple(h@, row@),
{
    let mut values: Vec<ScalarValue> = Vec::new();
    let mut i: usize = 0;
    while i < h.len()
        invariant
            i <= h@.len(),
            values@.len() == i,
            forall|k: int| 0 <= k < i ==> mock_value((#[trigger] values@[k])@, h@[k].ty),
        decreases h@.len() - i,
    {
        let v = generate_value(h[i].ty, rng);
        values.push(v);
        i = i + 1;
    }
    Row { values }
}

/// A random value of type `t`.
fn generate_value(t: ScalarType, rng: &mut StdRng) -> (v: ScalarValue)
    ensures
        mock_value(v@, t),
{
    match t {
        ScalarType::Int => ScalarValue::Int(random_i64(rng)),
        ScalarType::Bool => ScalarValue::Bool(random_bool(rng)),
        ScalarType::String => {
            let len = random_between(rng, 5, 15);
            let mut s = String::new();
            let mut i: usize = 0;
            while i < len
                invariant
                    i <= len,
                    s@.len() == i,
                    forall|k: int| 0 <= k < i ==> alphanumeric(#[trigger] s@[k]),
                decreases len - i,
            {
                let c = random_alphanumeric(rng);
                crate::text::push_char(&mut s, c);
                i = i + 1;
            }
            ScalarValue::String(s)
        },
        ScalarType::Bytes => {
            let len = random_between(rng, 1, 32);
            let mut bytes: Vec<u8> = Vec::new();
            let mut i: usize = 0;
            while i < len
                invariant
                    i <= len,
                    bytes@.len() == i,
                decreases len - i,
            {
                bytes.push(random_u8(rng));
                i = i + 1;
            }
            ScalarValue::Bytes(bytes)
        },
    }
}

} // verus!
