//! A knowledge graph as one relation of `(subject, predicate, object)`
//! triples, queried by conjunctions of triple patterns whose variables are
//! matched by joining the per-pattern matches on shared variables.
use vstd::prelude::*;
use crate::graph::{push_unique, views};

verus! {

broadcast use vstd::seq_lib::group_seq_properties;

/// A component of a triple pattern: a concrete value, or a variable bound
/// during query evaluation.
#[derive(Debug, Clone, PartialEq, Eq)]
pub enum Term {
    Value(String),
    Variable(String),
}

impl Term {
    /// A variable term.
    pub fn var(name: &str) -> (t: Term)
        ensures
            t matches Term::Variable(v) && v@ == name@,
    {
        Term::Variable(name.to_owned())
    }

    /// A value term.
    pub fn val(value: &str) -> (t: Term)
        ensures
            t matches Term::Value(v) && v@ == value@,
    {
        Term::Value(value.to_owned())
    }
}

/// A condition on one triple, e.g. `?person type Artist`.
#[derive(Debug, Clone)]
pub struct TriplePattern {
    pub subject: Term,
    pub predicate: Term,
    pub object: Term,
}

impl TriplePattern {
    /// A pattern from its three terms.
    pub fn new(subject: Term, predicate: Term, object: Term) -> (p: Self)
        ensures
            p.subject == subject,
            p.predicate == predicate,
            p.object == object,
    {
        TriplePattern { subject, predicate, object }
    }
}

/// A fact of the graph.
#[derive(Debug, Clone, PartialEq, Eq)]
pub struct Triple {
    pub subject: String,
    pub predicate: String,
    pub object: String,
}

/// Why a query was refused.
#[derive(Debug, Clone, PartialEq, Eq)]
pub enum QueryError {
    /// The query cannot be answered; the message says why ("Empty query"
    /// for a query with no pattern).
    AlgebraError(String),
}

/// The answers of a query: one row of values per answer, aligned with the
/// query's variables.
#[derive(Debug, Clone)]
pub struct QueryResult {
    pub variables: Vec<String>,
    pub rows: Vec<Vec<String>>,
}

/// The graph.
pub struct KnowledgeGraph {
    pub triples: Vec<Triple>,
}

pub open spec fn triple_view(t: Triple) -> (Seq<char>, Seq<char>, Seq<char>) {
    (t.subject@, t.predicate@, t.object@)
}

/// The variables of a term.
pub open spec fn term_vars(t: Term) -> Set<Seq<char>> {
    match t {
        Term::Value(_) => Set::empty(),
        Term::Variable(x) => set![x@],
    }
}

/// The variables of a pattern.
pub open spec fn pattern_vars(p: TriplePattern) -> Set<Seq<char>> {
    term_vars(p.subject) + term_vars(p.predicate) + term_vars(p.object)
}

/// The variables of a conjunction of patterns.
pub open spec fn query_vars(ps: Seq<TriplePattern>) -> Set<Seq<char>>
    decreases ps.len(),
{
    if ps.len() == 0 {
        Set::empty()
    } else {
        query_vars(ps.drop_last()) + pattern_vars(ps.last())
    }
}

/// A term fits a component under an assignment of the variables.
pub open spec fn term_fits(t: Term, comp: Seq<char>, m: Map<Seq<char>, Seq<char>>) -> bool {
    match t {
        Term::Value(v) => v@ == comp,
        Term::Variable(x) => m.contains_key(x@) && m[x@] == comp,
    }
}

/// A pattern fits a triple under an assignment of the variables.
pub open spec fn pattern_fits(p: TriplePattern, t: Triple, m: Map<Seq<char>, Seq<char>>) -> bool {
    term_fits(p.subject, t.subject@, m) && term_fits(p.predicate, t.predicate@, m) && term_fits(
        p.object,
        t.object@,
        m,
    )
}

/// An answer of a query: an assignment of exactly its variables under
/// which every pattern fits some triple of the graph.
pub open spec fn is_answer(
    triples: Seq<Triple>,
    ps: Seq<TriplePattern>,
    m: Map<Seq<char>, Seq<char>>,
) -> bool {
    &&& m.dom() == query_vars(ps)
    &&& forall|k: int|
        #![trigger ps[k]]
        0 <= k < ps.len() ==> exists|i: int|
            0 <= i < triples.len() && pattern_fits(ps[k], #[trigger] triples[i], m)
}

/// The assignment a row stands for.
pub open spec fn row_map(vars: Seq<Seq<char>>, row: Seq<Seq<char>>) -> Map<Seq<char>, Seq<char>> {
    Map::new(|k: Seq<char>| vars.contains(k), |k: Seq<char>| row[vars.index_of(k)])
}

/// The component of `t` that the first occurrence of variable `x` in `p`
/// stands for.
pub open spec fn var_component(p: TriplePattern, t: Triple, x: Seq<char>) -> Seq<char> {
    if p.subject matches Term::Variable(v) && v@ == x {
        t.subject@
    } else if p.predicate matches Term::Variable(v) && v@ == x {
        t.predicate@
    } else {
        t.object@
    }
}

/// A row of distinct variables maps each variable to its value.
proof fn lemma_row_map(vars: Seq<Seq<char>>, row: Seq<Seq<char>>, i: int)
    requires
        vars.no_duplicates(),
        0 <= i < vars.len(),
    ensures
        row_map(vars, row).contains_key(vars[i]),
        row_map(vars, row)[vars[i]] == row[i],
{
    assert(vars.contains(vars[i]));
    let j = vars.index_of(vars[i]);
    assert(0 <= j < vars.len() && vars[j] == vars[i]);
    assert(j == i);
}

/// Two assignments that agree on the variables of a pattern agree on
/// whether it fits.
proof fn lemma_fits_agree(
    p: TriplePattern,
    t: Triple,
    m1: Map<Seq<char>, Seq<char>>,
    m2: Map<Seq<char>, Seq<char>>,
)
    requires
        forall|x: Seq<char>|
            #[trigger] pattern_vars(p).contains(x) ==> m1.contains_key(x) && m2.contains_key(x)
                && m1[x] == m2[x],
    ensures
        pattern_fits(p, t, m1) == pattern_fits(p, t, m2),
{
    if let Term::Variable(x) = p.subject {
        assert(pattern_vars(p).contains(x@));
    }
    if let Term::Variable(x) = p.predicate {
        assert(pattern_vars(p).contains(x@));
    }
    if let Term::Variable(x) = p.object {
        assert(pattern_vars(p).contains(x@));
    }
}

/// Under an assignment that fits, each variable of the pattern has the
/// value of its first occurrence.
proof fn lemma_fits_determines(p: TriplePattern, t: Triple, m: Map<Seq<char>, Seq<char>>, x: Seq<char>)
    requires
        pattern_fits(p, t, m),
        pattern_vars(p).contains(x),
    ensures
        m.contains_key(x),
        m[x] == var_component(p, t, x),
{
}

/// The variables of each of the first `k` patterns are among theirs.
proof fn lemma_vars_prefix(ps: Seq<TriplePattern>, j: int, k: int)
    requires
        0 <= j < k <= ps.len(),
    ensures
        pattern_vars(ps[j]).subset_of(query_vars(ps.take(k))),
    decreases k,
{
    let q = ps.take(k);
    assert(q.drop_last() == ps.take(k - 1));
    assert(q.last() == ps[k - 1]);
    if j < k - 1 {
        lemma_vars_prefix(ps, j, k - 1);
    }
}

/// The variables of one more pattern.
proof fn lemma_vars_step(ps: Seq<TriplePattern>, k: int)
    requires
        0 <= k < ps.len(),
    ensures
        query_vars(ps.take(k + 1)) == query_vars(ps.take(k)) + pattern_vars(ps[k]),
{
    let q = ps.take(k + 1);
    assert(q.drop_last() == ps.take(k));
    assert(q.last() == ps[k]);
}

/// An answer of `k + 1` patterns, restricted to the variables of the first
/// `k`, answers those.
proof fn lemma_answer_restrict(
    triples: Seq<Triple>,
    ps: Seq<TriplePattern>,
    k: int,
    m: Map<Seq<char>, Seq<char>>,
)
    requires
        0 <= k < ps.len(),
        is_answer(triples, ps.take(k + 1), m),
    ensures
        is_answer(triples, ps.take(k), m.restrict(query_vars(ps.take(k)))),
{
    lemma_vars_step(ps, k);
    let qk = query_vars(ps.take(k));
    let m0 = m.restrict(qk);
    assert(m0.dom() =~= qk);
    let pk = ps.take(k);
    let pk1 = ps.take(k + 1);
    assert forall|j: int| #![trigger pk[j]] 0 <= j < pk.len() implies exists|i: int|
        0 <= i < triples.len() && pattern_fits(pk[j], #[trigger] triples[i], m0) by {
        assert(pk1[j] == pk[j]);
        let i = choose|i: int| 0 <= i < triples.len() && pattern_fits(pk1[j], #[trigger] triples[i], m);
        lemma_vars_prefix(ps, j, k);
        assert(pk[j] == ps[j]);
        lemma_fits_agree(pk[j], triples[i], m, m0);
    }
}

/// Whether a term fits a component under the assignment of a row.
fn term_fits_row(term: &Term, comp: &String, vars: &Vec<String>, row: &Vec<String>) -> (fits: bool)
    requires
        views(vars@).no_duplicates(),
        row@.len() == vars@.len(),
    ensures
        fits == term_fits(*term, comp@, row_map(views(vars@), views(row@))),
{
    proof {
        assert(views(row@).len() == views(vars@).len());
    }
    match term {
        Term::Value(v) => *v == *comp,
        Term::Variable(x) => {
            let mut i: usize = 0;
            while i < vars.len()
                invariant
                    i <= vars@.len(),
                    views(vars@).no_duplicates(),
                    row@.len() == vars@.len(),
                    *term == Term::Variable(*x),
                    forall|j: int| 0 <= j < i ==> vars@[j]@ != x@,
                decreases vars@.len() - i,
            {
                if vars[i] == *x {
                    proof {
                        assert(views(vars@)[i as int] == x@);
                        lemma_row_map(views(vars@), views(row@), i as int);
                        assert(views(row@)[i as int] == row@[i as int]@);
                    }
                    let r = row[i] == *comp;
                    proof {
                        let m = row_map(views(vars@), views(row@));
                        assert(views(vars@)[i as int] == x@);
                        assert(m.contains_key(x@) && m[x@] == views(row@)[i as int]);
                        assert(r == (m[x@] == comp@));
                        assert(*term == Term::Variable(*x));
                        assert(term_fits(*term, comp@, m) == (m.contains_key(x@) && m[x@] == comp@));
                    }
                    return r;
                }
                i = i + 1;
            }
            proof {
                assert(!views(vars@).contains(x@)) by {
                    if views(vars@).contains(x@) {
                        let j = choose|j: int| 0 <= j < views(vars@).len() && views(vars@)[j] == x@;
                        assert(vars@[j]@ == x@);
                    }
                }
            }
            false
        },
    }
}

/// The component of `t` for variable `x`.
fn component_for(p: &TriplePattern, t: &Triple, x: &String) -> (c: String)
    ensures
        c@ == var_component(*p, *t, x@),
{
    if let Term::Variable(v) = &p.subject {
        if *v == *x {
            return t.subject.clone();
        }
    }
    if let Term::Variable(v) = &p.predicate {
        if *v == *x {
            return t.predicate.clone();
        }
    }
    t.object.clone()
}

/// Adds the variable of a term, if it is one and is new.
fn add_term_var(vars: &mut Vec<String>, term: &Term)
    requires
        views(old(vars)@).no_duplicates(),
    ensures
        views(final(vars)@).no_duplicates(),
        final(vars)@.len() >= old(vars)@.len(),
        forall|i: int| 0 <= i < old(vars)@.len() ==> final(vars)@[i] == old(vars)@[i],
        forall|x: Seq<char>|
            #![trigger views(final(vars)@).contains(x)]
            #![trigger views(old(vars)@).contains(x)]
            #![trigger term_vars(*term).contains(x)]
            views(final(vars)@).contains(x) <==> (views(old(vars)@).contains(x) || term_vars(
                *term,
            ).contains(x)),
{
    if let Term::Variable(x) = term {
        push_unique(vars, x.clone());
    }
}

/// Whether two rows hold the same values.
fn same_row(a: &Vec<String>, b: &Vec<String>) -> (same: bool)
    ensures
        same == (views(a@) == views(b@)),
{
    if a.len() != b.len() {
        assert(views(a@).len() != views(b@).len());
        return false;
    }
    let mut i: usize = 0;
    while i < a.len()
        invariant
            a@.len() == b@.len(),
            i <= a@.len(),
            forall|j: int| 0 <= j < i ==> a@[j]@ == b@[j]@,
        decreases a@.len() - i,
    {
        if a[i] != b[i] {
            assert(views(a@)[i as int] != views(b@)[i as int]);
            return false;
        }
        i = i + 1;
    }
    assert(views(a@) =~= views(b@));
    true
}

/// `m` gives each of the first `n` variables the value of `row` there.
pub open spec fn agrees_on_prefix(
    vars: Seq<Seq<char>>,
    n: int,
    row: Seq<Seq<char>>,
    m: Map<Seq<char>, Seq<char>>,
) -> bool {
    forall|i: int| #![trigger vars[i]] 0 <= i < n ==> m.contains_key(vars[i]) && m[vars[i]] == row[i]
}

/// Some row of `rows` stands for `m`.
pub open spec fn covered(rows: Seq<Vec<String>>, vars: Seq<Seq<char>>, m: Map<Seq<char>, Seq<char>>) -> bool {
    exists|j: int| 0 <= j < rows.len() && row_map(vars, views(#[trigger] rows[j]@)) == m
}

/// `m` extends some row of `rows` and `p` fits some triple under it.
pub open spec fn extends_some(
    rows: Seq<Vec<String>>,
    triples: Seq<Triple>,
    vars: Seq<Seq<char>>,
    n: int,
    p: TriplePattern,
    m: Map<Seq<char>, Seq<char>>,
) -> bool {
    exists|a: int, i: int|
        #![trigger rows[a], triples[i]]
        0 <= a < rows.len() && 0 <= i < triples.len() && agrees_on_prefix(vars, n, views(rows[a]@), m)
            && pattern_fits(p, triples[i], m)
}

/// The rows hold pairwise different values.
pub open spec fn distinct_rows(rows: Seq<Vec<String>>) -> bool {
    forall|i: int, j: int|
        0 <= i < j < rows.len() ==> views(#[trigger] rows[i]@) != views(#[trigger] rows[j]@)
}

/// The row that extends `row` by the values `p` and `t` give the later
/// variables is the only assignment of all the variables that agrees with
/// `row` and under which `p` fits `t`.
proof fn lemma_extension_unique(
    vars: Seq<Seq<char>>,
    n: int,
    row: Seq<Seq<char>>,
    new_row: Seq<Seq<char>>,
    p: TriplePattern,
    t: Triple,
    m: Map<Seq<char>, Seq<char>>,
)
    requires
        vars.no_duplicates(),
        0 <= n <= vars.len(),
        new_row.len() == vars.len(),
        forall|i: int| 0 <= i < n ==> new_row[i] == row[i],
        forall|i: int| n <= i < vars.len() ==> new_row[i] == var_component(p, t, vars[i]),
        forall|i: int| n <= i < vars.len() ==> pattern_vars(p).contains(#[trigger] vars[i]),
        m.dom() == vars.to_set(),
        agrees_on_prefix(vars, n, row, m),
        pattern_fits(p, t, m),
    ensures
        row_map(vars, new_row) == m,
{
    let r = row_map(vars, new_row);
    assert forall|k: Seq<char>| #[trigger] r.contains_key(k) <==> m.contains_key(k) by {
        assert(vars.to_set().contains(k) == vars.contains(k));
    }
    assert forall|k: Seq<char>| #[trigger] r.contains_key(k) implies r[k] == m[k] by {
        let i = choose|i: int| 0 <= i < vars.len() && vars[i] == k;
        lemma_row_map(vars, new_row, i);
        if i >= n {
            lemma_fits_determines(p, t, m, k);
        }
    }
    assert(r =~= m);
}

/// The row that extends `row` for pattern `p` and triple `t`: the later
/// variables take the values `t` gives them.
fn extend_row(p: &TriplePattern, t: &Triple, row: &Vec<String>, vars: &Vec<String>, n: usize) -> (out: Vec<String>)
    requires
        row@.len() == n,
        n <= vars@.len(),
    ensures
        out@.len() == vars@.len(),
        forall|i: int| 0 <= i < n ==> views(out@)[i] == views(row@)[i],
        forall|i: int| n <= i < vars@.len() ==> views(out@)[i] == var_component(*p, *t, views(vars@)[i]),
{
    let mut out: Vec<String> = Vec::new();
    let mut i: usize = 0;
    while i < vars.len()
        invariant
            row@.len() == n,
            n <= vars@.len(),
            i <= vars@.len(),
            out@.len() == i,
            forall|j: int| 0 <= j < i && j < n ==> out@[j]@ == row@[j]@,
            forall|j: int| n <= j < i ==> out@[j]@ == var_component(*p, *t, vars@[j]@),
        decreases vars@.len() - i,
    {
        if i < n {
            out.push(row[i].clone());
        } else {
            out.push(component_for(p, t, &vars[i]));
        }
        i = i + 1;
    }
    out
}

/// Whether `p` fits `t` under the assignment of `row`.
fn pattern_fits_row(p: &TriplePattern, t: &Triple, vars: &Vec<String>, row: &Vec<String>) -> (fits: bool)
    requires
        views(vars@).no_duplicates(),
        row@.len() == vars@.len(),
    ensures
        fits == pattern_fits(*p, *t, row_map(views(vars@), views(row@))),
{
    term_fits_row(&p.subject, &t.subject, vars, row) && term_fits_row(&p.predicate, &t.predicate, vars, row)
        && term_fits_row(&p.object, &t.object, vars, row)
}

/// Whether some row holds the values of `row`.
fn has_row(rows: &Vec<Vec<String>>, row: &Vec<String>) -> (found: bool)
    ensures
        found == exists|j: int| 0 <= j < rows@.len() && views(#[trigger] rows@[j]@) == views(row@),
{
    let mut j: usize = 0;
    while j < rows.len()
        invariant
            j <= rows@.len(),
            forall|i: int| 0 <= i < j ==> views(#[trigger] rows@[i]@) != views(row@),
        decreases rows@.len() - j,
    {
        if same_row(&rows[j], row) {
            return true;
        }
        j = j + 1;
    }
    false
}

/// `r` holds exactly the answers of `ps`, each once, over exactly its
/// variables.
pub open spec fn answers_exactly(triples: Seq<Triple>, ps: Seq<TriplePattern>, r: QueryResult) -> bool {
    &&& views(r.variables@).no_duplicates()
    &&& views(r.variables@).to_set() == query_vars(ps)
    &&& forall|j: int| 0 <= j < r.rows@.len() ==> (#[trigger] r.rows@[j])@.len() == r.variables@.len()
    &&& distinct_rows(r.rows@)
    &&& forall|j: int|
        0 <= j < r.rows@.len() ==> is_answer(
            triples,
            ps,
            row_map(views(r.variables@), views(#[trigger] r.rows@[j]@)),
        )
    &&& forall|m: Map<Seq<char>, Seq<char>>|
        #[trigger] is_answer(triples, ps, m) ==> covered(r.rows@, views(r.variables@), m)
}

/// A stage of the evaluation: the answers of the first `k` patterns.
pub open spec fn stage(
    triples: Seq<Triple>,
    ps: Seq<TriplePattern>,
    k: int,
    vars: Seq<Seq<char>>,
    rows: Seq<Vec<String>>,
) -> bool {
    &&& vars.no_duplicates()
    &&& vars.to_set() == query_vars(ps.take(k))
    &&& forall|j: int| 0 <= j < rows.len() ==> (#[trigger] rows[j])@.len() == vars.len()
    &&& distinct_rows(rows)
    &&& forall|j: int|
        0 <= j < rows.len() ==> is_answer(triples, ps.take(k), row_map(vars, views(#[trigger] rows[j]@)))
    &&& forall|m: Map<Seq<char>, Seq<char>>|
        #[trigger] is_answer(triples, ps.take(k), m) ==> covered(rows, vars, m)
}

/// Each row found for one more pattern answers the longer query.
proof fn lemma_stage_sound(
    triples: Seq<Triple>,
    ps: Seq<TriplePattern>,
    k: int,
    old_vars: Seq<Seq<char>>,
    rows: Seq<Vec<String>>,
    vars: Seq<Seq<char>>,
    m: Map<Seq<char>, Seq<char>>,
)
    requires
        0 <= k < ps.len(),
        stage(triples, ps, k, old_vars, rows),
        vars.no_duplicates(),
        old_vars.len() <= vars.len(),
        forall|i: int| 0 <= i < old_vars.len() ==> vars[i] == old_vars[i],
        vars.to_set() == query_vars(ps.take(k + 1)),
        m.dom() == vars.to_set(),
        extends_some(rows, triples, vars, old_vars.len() as int, ps[k], m),
    ensures
        is_answer(triples, ps.take(k + 1), m),
{
    let n = old_vars.len() as int;
    let (a, i) = choose|a: int, i: int|
        #![trigger rows[a], triples[i]]
        0 <= a < rows.len() && 0 <= i < triples.len() && agrees_on_prefix(vars, n, views(rows[a]@), m)
            && pattern_fits(ps[k], triples[i], m);
    let m0 = row_map(old_vars, views(rows[a]@));
    assert(is_answer(triples, ps.take(k), m0));
    let pk1 = ps.take(k + 1);
    assert forall|j: int| #![trigger pk1[j]] 0 <= j < pk1.len() implies exists|i2: int|
        0 <= i2 < triples.len() && pattern_fits(pk1[j], #[trigger] triples[i2], m) by {
        assert(pk1[j] == ps[j]);
        if j == k {
            assert(pattern_fits(pk1[j], triples[i], m));
        } else {
            assert(ps.take(k)[j] == ps[j]);
            let i2 = choose|i2: int| 0 <= i2 < triples.len() && pattern_fits(ps.take(k)[j], #[trigger] triples[i2], m0);
            lemma_vars_prefix(ps, j, k);
            assert forall|x: Seq<char>| #[trigger] pattern_vars(ps[j]).contains(x) implies m0.contains_key(x)
                && m.contains_key(x) && m0[x] == m[x] by {
                assert(query_vars(ps.take(k)).contains(x));
                assert(old_vars.to_set().contains(x));
                let i0 = choose|i0: int| 0 <= i0 < old_vars.len() && old_vars[i0] == x;
                lemma_row_map(old_vars, views(rows[a]@), i0);
                assert(vars[i0] == x);
            }
            lemma_fits_agree(ps[j], triples[i2], m0, m);
        }
    }
}

/// Each answer of one more pattern is found.
proof fn lemma_stage_complete(
    triples: Seq<Triple>,
    ps: Seq<TriplePattern>,
    k: int,
    old_vars: Seq<Seq<char>>,
    rows: Seq<Vec<String>>,
    vars: Seq<Seq<char>>,
    m: Map<Seq<char>, Seq<char>>,
) -> (ab: (int, int))
    requires
        0 <= k < ps.len(),
        stage(triples, ps, k, old_vars, rows),
        old_vars.len() <= vars.len(),
        forall|i: int| 0 <= i < old_vars.len() ==> vars[i] == old_vars[i],
        vars.to_set() == query_vars(ps.take(k + 1)),
        is_answer(triples, ps.take(k + 1), m),
    ensures
        0 <= ab.0 < rows.len(),
        0 <= ab.1 < triples.len(),
        m.dom() == vars.to_set(),
        agrees_on_prefix(vars, old_vars.len() as int, views(rows[ab.0]@), m),
        pattern_fits(ps[k], triples[ab.1], m),
{
    lemma_answer_restrict(triples, ps, k, m);
    let qk = query_vars(ps.take(k));
    let m0 = m.restrict(qk);
    assert(covered(rows, old_vars, m0));
    let a = choose|a: int| 0 <= a < rows.len() && row_map(old_vars, views(#[trigger] rows[a]@)) == m0;
    let pk1 = ps.take(k + 1);
    assert(pk1[k] == ps[k]);
    let b = choose|b: int| 0 <= b < triples.len() && pattern_fits(pk1[k], #[trigger] triples[b], m);
    let n = old_vars.len() as int;
    assert forall|i: int| #![trigger vars[i]] 0 <= i < n implies m.contains_key(vars[i]) && m[vars[i]]
        == views(rows[a]@)[i] by {
        lemma_row_map(old_vars, views(rows[a]@), i);
        assert(old_vars.to_set().contains(old_vars[i]));
        assert(qk.contains(vars[i]));
    }
    (a, b)
}

impl KnowledgeGraph {
    /// The answers of a conjunction of patterns: every assignment of its
    /// variables under which each pattern fits some triple. A query with no
    /// pattern is refused.
    pub fn query(&self, patterns: &[TriplePattern]) -> (res: Result<QueryResult, QueryError>)
        ensures
            patterns@.len() == 0 ==> (res matches Err(QueryError::AlgebraError(m)) && m@ == "Empty query"@),
            patterns@.len() > 0 ==> (res matches Ok(r) && answers_exactly(self.triples@, patterns@, r)),
    {
        if patterns.len() == 0 {
            return Err(QueryError::AlgebraError("Empty query".to_owned()));
        }
        let ghost ps = patterns@;
        let ghost triples = self.triples@;
        let mut vars: Vec<String> = Vec::new();
        let mut rows: Vec<Vec<String>> = Vec::new();
        rows.push(Vec::new());
        proof {
            let vv = views(vars@);
            assert(vv =~= Seq::<Seq<char>>::empty());
            assert(ps.take(0) =~= Seq::<TriplePattern>::empty());
            assert(vv.to_set() =~= query_vars(ps.take(0)));
            assert forall|m: Map<Seq<char>, Seq<char>>|
                #[trigger] is_answer(triples, ps.take(0), m) implies covered(rows@, vv, m) by {
                assert(row_map(vv, views(rows@[0]@)) =~= m);
            }
            assert forall|j: int| 0 <= j < rows@.len() implies is_answer(
                triples,
                ps.take(0),
                row_map(vv, views(#[trigger] rows@[j]@)),
            ) by {
                assert(row_map(vv, views(rows@[j]@)).dom() =~= Set::<Seq<char>>::empty());
            }
        }
        let mut k: usize = 0;
        while k < patterns.len()
            invariant
                ps == patterns@,
                triples == self.triples@,
                k <= ps.len(),
                stage(triples, ps, k as int, views(vars@), rows@),
            decreases ps.len() - k,
        {
            let n = vars.len();
            let p = &patterns[k];
            let ghost old_vars = views(vars@);
            let ghost old_rows = rows@;
            add_term_var(&mut vars, &p.subject);
            let ghost v1 = vars@;
            add_term_var(&mut vars, &p.predicate);
            let ghost v2 = vars@;
            add_term_var(&mut vars, &p.object);
            let ghost vv = views(vars@);
            proof {
                lemma_vars_step(ps, k as int);
                assert forall|x: Seq<char>| vv.to_set().contains(x) <==> query_vars(ps.take(k + 1)).contains(x) by {
                    assert(old_vars.to_set().contains(x) == old_vars.contains(x));
                    assert(views(v1).contains(x) == (old_vars.contains(x) || term_vars(p.subject).contains(x)));
                    assert(views(v2).contains(x) == (views(v1).contains(x) || term_vars(p.predicate).contains(x)));
                    assert(vv.contains(x) == (views(v2).contains(x) || term_vars(p.object).contains(x)));
                    assert(pattern_vars(*p).contains(x) == (term_vars(p.subject).contains(x) || term_vars(p.predicate).contains(x) || term_vars(p.object).contains(x)));
                    assert(*p == ps[k as int]);
                    assert(vv.to_set().contains(x) == vv.contains(x));
                }
                assert(vv.to_set() =~= query_vars(ps.take(k + 1)));
                assert forall|i: int| n <= i < vars@.len() implies pattern_vars(*p).contains(#[trigger] vv[i]) by {
                    assert(vv.contains(vv[i]));
                    if old_vars.contains(vv[i]) {
                        let i0 = choose|i0: int| 0 <= i0 < old_vars.len() && old_vars[i0] == vv[i];
                        assert(vv[i0] == old_vars[i0]);
                    }
                }
                assert forall|i: int| 0 <= i < old_vars.len() implies vv[i] == old_vars[i] by {
                    assert(vars@[i] == v2[i] && v2[i] == v1[i]);
                }
            }
            let next = self.join_pattern(p, &rows, &vars, n);
            proof {
                assert forall|j: int| 0 <= j < next@.len() implies is_answer(
                    triples,
                    ps.take(k + 1),
                    row_map(vv, views(#[trigger] next@[j]@)),
                ) by {
                    let m = row_map(vv, views(next@[j]@));
                    assert(m.dom() =~= vv.to_set());
                    lemma_stage_sound(triples, ps, k as int, old_vars, old_rows, vv, m);
                }
                assert forall|m: Map<Seq<char>, Seq<char>>|
                    #[trigger] is_answer(triples, ps.take(k + 1), m) implies covered(next@, vv, m) by {
                    let (a, b) = lemma_stage_complete(triples, ps, k as int, old_vars, old_rows, vv, m);
                    assert(agrees_on_prefix(vv, n as int, views(rows@[a]@), m));
                    assert(pattern_fits(*p, self.triples@[b], m));
                }
            }
            rows = next;
            k = k + 1;
        }
        assert(ps.take(ps.len() as int) == ps);
        Ok(QueryResult { variables: vars, rows })
    }

    /// An empty graph.
    pub fn new() -> (kg: Self)
        ensures
            kg.triples@.len() == 0,
    {
        KnowledgeGraph { triples: Vec::new() }
    }

    /// Adds a triple; a triple already present is not added twice.
    pub fn insert(&mut self, subject: &str, predicate: &str, object: &str)
        ensures
            ({
                let t = (subject@, predicate@, object@);
                let before = old(self).triples@.map_values(|x: Triple| triple_view(x));
                final(self).triples@.map_values(|x: Triple| triple_view(x)) == if before.contains(
                    t,
                ) {
                    before
                } else {
                    before.push(t)
                }
            }),
    {
        let ghost t = (subject@, predicate@, object@);
        let ghost before = self.triples@.map_values(|x: Triple| triple_view(x));
        let mut i: usize = 0;
        while i < self.triples.len()
            invariant
                i <= self.triples@.len(),
                before == self.triples@.map_values(|x: Triple| triple_view(x)),
                t == (subject@, predicate@, object@),
                forall|j: int| 0 <= j < i ==> before[j] != t,
            decreases self.triples@.len() - i,
        {
            let x = &self.triples[i];
            assert(before[i as int] == triple_view(self.triples@[i as int]));
            let a = crate::text::str_eq(x.subject.as_str(), subject);
            let b = crate::text::str_eq(x.predicate.as_str(), predicate);
            let c = crate::text::str_eq(x.object.as_str(), object);
            if a && b && c {
                assert(before[i as int] == t);
                return;
            }
            assert(before[i as int] != t);
            i = i + 1;
        }
        let triple = Triple {
            subject: subject.to_owned(),
            predicate: predicate.to_owned(),
            object: object.to_owned(),
        };
        self.triples.push(triple);
        assert(self.triples@.map_values(|x: Triple| triple_view(x)) =~= before.push(t));
    }
}

impl KnowledgeGraph {
    /// Adds to `next` every extension of `row` under which `p` fits a triple.
    fn join_row(
        &self,
        p: &TriplePattern,
        row: &Vec<String>,
        vars: &Vec<String>,
        n: usize,
        next: &mut Vec<Vec<String>>,
    )
        requires
            views(vars@).no_duplicates(),
            row@.len() == n,
            n <= vars@.len(),
            forall|i: int| n <= i < vars@.len() ==> pattern_vars(*p).contains(#[trigger] views(vars@)[i]),
            forall|j: int| 0 <= j < old(next)@.len() ==> (#[trigger] old(next)@[j])@.len() == vars@.len(),
            distinct_rows(old(next)@),
        ensures
            final(next)@.len() >= old(next)@.len(),
            forall|j: int| 0 <= j < old(next)@.len() ==> #[trigger] final(next)@[j] == old(next)@[j],
            forall|j: int| 0 <= j < final(next)@.len() ==> (#[trigger] final(next)@[j])@.len() == vars@.len(),
            distinct_rows(final(next)@),
            forall|j: int|
                old(next)@.len() <= j < final(next)@.len() ==> {
                    let m = row_map(views(vars@), views(#[trigger] final(next)@[j]@));
                    &&& agrees_on_prefix(views(vars@), n as int, views(row@), m)
                    &&& exists|i: int| 0 <= i < self.triples@.len() && pattern_fits(*p, #[trigger] self.triples@[i], m)
                },
            forall|m: Map<Seq<char>, Seq<char>>, b: int|
                0 <= b < self.triples@.len() && m.dom() == views(vars@).to_set() && agrees_on_prefix(
                    views(vars@),
                    n as int,
                    views(row@),
                    m,
                ) && #[trigger] pattern_fits(*p, self.triples@[b], m) ==> covered(final(next)@, views(vars@), m),
    {
        let ghost vv = views(vars@);
        let ghost start = next@;
        let mut b: usize = 0;
        while b < self.triples.len()
            invariant
                vv == views(vars@),
                vv.no_duplicates(),
                row@.len() == n,
                n <= vars@.len(),
                forall|i: int| n <= i < vars@.len() ==> pattern_vars(*p).contains(#[trigger] vv[i]),
                b <= self.triples@.len(),
                next@.len() >= start.len(),
                forall|j: int| 0 <= j < start.len() ==> #[trigger] next@[j] == start[j],
                forall|j: int| 0 <= j < next@.len() ==> (#[trigger] next@[j])@.len() == vars@.len(),
                distinct_rows(next@),
                forall|j: int|
                    start.len() <= j < next@.len() ==> {
                        let m = row_map(vv, views(#[trigger] next@[j]@));
                        &&& agrees_on_prefix(vv, n as int, views(row@), m)
                        &&& exists|i: int| 0 <= i < self.triples@.len() && pattern_fits(*p, #[trigger] self.triples@[i], m)
                    },
                forall|m: Map<Seq<char>, Seq<char>>, b0: int|
                    0 <= b0 < b && m.dom() == vv.to_set() && agrees_on_prefix(vv, n as int, views(row@), m)
                        && #[trigger] pattern_fits(*p, self.triples@[b0], m) ==> covered(next@, vv, m),
            decreases self.triples@.len() - b,
        {
            let t = &self.triples[b];
            let cand = extend_row(p, t, row, vars, n);
            let ghost cm = row_map(vv, views(cand@));
            proof {
                assert forall|i: int| #![trigger vv[i]] 0 <= i < n implies cm.contains_key(vv[i]) && cm[vv[i]] == views(row@)[i] by {
                    lemma_row_map(vv, views(cand@), i);
                }
            }
            let fits = pattern_fits_row(p, t, vars, &cand);
            let ghost before = next@;
            let present = has_row(next, &cand);
            if fits && !present {
                next.push(cand);
                proof {
                    assert forall|i: int, j: int| 0 <= i < j < next@.len() implies views(#[trigger] next@[i]@) != views(#[trigger] next@[j]@) by {
                        if j == next@.len() - 1 {
                            assert(next@[i] == before[i]);
                        } else {
                            assert(next@[i] == before[i] && next@[j] == before[j]);
                        }
                    }
                    assert(row_map(vv, views(next@[next@.len() - 1]@)) == cm);
                }
            }
            proof {
                assert forall|m: Map<Seq<char>, Seq<char>>, b0: int|
                    0 <= b0 < b + 1 && m.dom() == vv.to_set() && agrees_on_prefix(vv, n as int, views(row@), m)
                        && #[trigger] pattern_fits(*p, self.triples@[b0], m) implies covered(next@, vv, m) by {
                    if b0 == b {
                        lemma_extension_unique(vv, n as int, views(row@), views(cand@), *p, *t, m);
                        if present {
                            let j = choose|j: int| 0 <= j < before.len() && views(#[trigger] before[j]@) == views(cand@);
                            assert(next@[j] == before[j]);
                        } else {
                            assert(next@[next@.len() - 1] == cand);
                        }
                    } else {
                        let j = choose|j: int| 0 <= j < before.len() && row_map(vv, views(#[trigger] before[j]@)) == m;
                        assert(next@[j] == before[j]);
                    }
                }
                assert forall|j: int| start.len() <= j < next@.len() implies {
                    let m = row_map(vv, views(#[trigger] next@[j]@));
                    &&& agrees_on_prefix(vv, n as int, views(row@), m)
                    &&& exists|i: int| 0 <= i < self.triples@.len() && pattern_fits(*p, #[trigger] self.triples@[i], m)
                } by {
                    if j < before.len() {
                        assert(next@[j] == before[j]);
                    } else {
                        assert(next@[j] == cand);
                        assert(pattern_fits(*p, self.triples@[b as int], cm));
                    }
                }
            }
            b = b + 1;
        }
    }

    /// Every extension of a row of `rows` under which `p` fits a triple, once.
    fn join_pattern(&self, p: &TriplePattern, rows: &Vec<Vec<String>>, vars: &Vec<String>, n: usize) -> (next: Vec<Vec<String>>)
        requires
            views(vars@).no_duplicates(),
            n <= vars@.len(),
            forall|i: int| n <= i < vars@.len() ==> pattern_vars(*p).contains(#[trigger] views(vars@)[i]),
            forall|j: int| 0 <= j < rows@.len() ==> (#[trigger] rows@[j])@.len() == n,
        ensures
            forall|j: int| 0 <= j < next@.len() ==> (#[trigger] next@[j])@.len() == vars@.len(),
            distinct_rows(next@),
            forall|j: int|
                0 <= j < next@.len() ==> extends_some(
                    rows@,
                    self.triples@,
                    views(vars@),
                    n as int,
                    *p,
                    row_map(views(vars@), views(#[trigger] next@[j]@)),
                ),
            forall|m: Map<Seq<char>, Seq<char>>, a: int, b: int|
                #![trigger agrees_on_prefix(views(vars@), n as int, views(rows@[a]@), m), pattern_fits(*p, self.triples@[b], m)]
                0 <= a < rows@.len() && 0 <= b < self.triples@.len() && m.dom() == views(vars@).to_set()
                    && agrees_on_prefix(views(vars@), n as int, views(rows@[a]@), m) && pattern_fits(
                    *p,
                    self.triples@[b],
                    m,
                ) ==> covered(next@, views(vars@), m),
    {
        let ghost vv = views(vars@);
        let mut next: Vec<Vec<String>> = Vec::new();
        let mut a: usize = 0;
        while a < rows.len()
            invariant
                vv == views(vars@),
                vv.no_duplicates(),
                n <= vars@.len(),
                forall|i: int| n <= i < vars@.len() ==> pattern_vars(*p).contains(#[trigger] vv[i]),
                forall|j: int| 0 <= j < rows@.len() ==> (#[trigger] rows@[j])@.len() == n,
                a <= rows@.len(),
                forall|j: int| 0 <= j < next@.len() ==> (#[trigger] next@[j])@.len() == vars@.len(),
                distinct_rows(next@),
                forall|j: int|
                    0 <= j < next@.len() ==> extends_some(
                        rows@,
                        self.triples@,
                        vv,
                        n as int,
                        *p,
                        row_map(vv, views(#[trigger] next@[j]@)),
                    ),
                forall|m: Map<Seq<char>, Seq<char>>, a0: int, b: int|
                    #![trigger agrees_on_prefix(vv, n as int, views(rows@[a0]@), m), pattern_fits(*p, self.triples@[b], m)]
                    0 <= a0 < a && 0 <= b < self.triples@.len() && m.dom() == vv.to_set()
                        && agrees_on_prefix(vv, n as int, views(rows@[a0]@), m) && pattern_fits(
                        *p,
                        self.triples@[b],
                        m,
                    ) ==> covered(next@, vv, m),
            decreases rows@.len() - a,
        {
            let ghost before = next@;
            self.join_row(p, &rows[a], vars, n, &mut next);
            proof {
                assert forall|j: int| 0 <= j < next@.len() implies extends_some(
                    rows@,
                    self.triples@,
                    vv,
                    n as int,
                    *p,
                    row_map(vv, views(#[trigger] next@[j]@)),
                ) by {
                    if j < before.len() {
                        assert(next@[j] == before[j]);
                    } else {
                        let m = row_map(vv, views(next@[j]@));
                        let i = choose|i: int| 0 <= i < self.triples@.len() && pattern_fits(*p, #[trigger] self.triples@[i], m);
                        assert(rows@[a as int] == rows@[a as int]);
                        assert(self.triples@[i] == self.triples@[i]);
                    }
                }
                assert forall|m: Map<Seq<char>, Seq<char>>, a0: int, b: int|
                    #![trigger agrees_on_prefix(vv, n as int, views(rows@[a0]@), m), pattern_fits(*p, self.triples@[b], m)]
                    0 <= a0 < a + 1 && 0 <= b < self.triples@.len() && m.dom() == vv.to_set()
                        && agrees_on_prefix(vv, n as int, views(rows@[a0]@), m) && pattern_fits(
                        *p,
                        self.triples@[b],
                        m,
                    ) implies covered(next@, vv, m) by {
                    if a0 < a {
                        assert(covered(before, vv, m));
                        let j = choose|j: int| 0 <= j < before.len() && row_map(vv, views(#[trigger] before[j]@)) == m;
                        assert(next@[j] == before[j]);
                    }
                }
            }
            a = a + 1;
        }
        next
    }
}

} // verus!
