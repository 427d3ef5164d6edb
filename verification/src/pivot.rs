//! Pivoting a relation: the values of one attribute become columns.
//!
//! The attributes other than the pivot attribute and the value attribute
//! group the tuples; each group gives one tuple of the result, with a column
//! per pivot value, holding the value of the group's tuple with that pivot
//! value. When several tuples of a group share a pivot value, the last of
//! them in increasing tuple order wins; a column that a group lacks holds the
//! default value.
use vstd::prelude::*;
use crate::differ::{key_of, position_of};
use crate::exporter::{sorted_tuples, tuple_order, picked};
use crate::graph::{push_unique, views, Key};
use crate::importer::{attr_of, lemma_names_distinct, type_label, type_label_of};
use crate::relation::{
    fits_heading, lemma_lex_irreflexive, lemma_lex_total, lemma_lex_transitive, sorted_names,
    type_of, Attribute, Relation, Row, ScalarType, ScalarValue, ValueView,
};
use crate::text::{bool_text, decimal, lex_less, push_bool, push_int, push_str, str_eq, str_less};

verus! {

broadcast use vstd::seq_lib::group_seq_properties;

/// Why a pivot failed.
#[derive(Debug)]
pub enum DatabaseError {
    /// An attribute is not in the heading: its name, and where it was sought.
    AttributeNotFound(String, String),
    /// A pivot value is also the name of a grouping attribute.
    DuplicateAttributeName(String),
    /// The values cannot be pivoted as asked.
    AlgebraError(String),
}

/// A pivot failure as text.
pub enum PivotFailure {
    NotFound(Seq<char>, Seq<char>),
    Duplicate(Seq<char>),
    Algebra(Seq<char>),
}

/// The error as text.
pub open spec fn pivot_failure(e: DatabaseError) -> PivotFailure {
    match e {
        DatabaseError::AttributeNotFound(a, b) => PivotFailure::NotFound(a@, b@),
        DatabaseError::DuplicateAttributeName(m) => PivotFailure::Duplicate(m@),
        DatabaseError::AlgebraError(m) => PivotFailure::Algebra(m@),
    }
}

/// The column name that a pivot value gives: integers in decimal, booleans
/// as `true` or `false`, strings as they are.
pub open spec fn key_text(v: ValueView) -> Seq<char> {
    if v.0 == 0 {
        decimal(v.1 as int)
    } else if v.0 == 1 {
        bool_text(v.2)
    } else {
        v.3
    }
}

/// The message for pivoting on bytes.
pub open spec fn bytes_pivot_message() -> Seq<char> {
    "Cannot pivot on type Bytes"@
}

/// The column name of a pivot value; bytes name no column.
fn scalar_to_string_key(v: &ScalarValue) -> (r: Result<String, DatabaseError>)
    ensures
        match r {
            Ok(s) => v@.0 != 3 && s@ == key_text(v@),
            Err(e) => v@.0 == 3 && pivot_failure(e) == PivotFailure::Algebra(bytes_pivot_message()),
        },
{
    match v {
        ScalarValue::Int(x) => {
            let mut s = String::new();
            push_int(&mut s, *x);
            Ok(s)
        },
        ScalarValue::String(x) => Ok(x.clone()),
        ScalarValue::Bool(x) => {
            let mut s = String::new();
            push_bool(&mut s, *x);
            Ok(s)
        },
        ScalarValue::Bytes(_) => Err(DatabaseError::AlgebraError("Cannot pivot on type Bytes".to_owned())),
    }
}

/// The positions below `n` other than `o` and `v`, increasing.
pub open spec fn group_positions(n: int, o: int, v: int) -> Seq<usize>
    decreases n,
{
    if n <= 0 {
        Seq::empty()
    } else if n - 1 != o && n - 1 != v {
        group_positions(n - 1, o, v).push((n - 1) as usize)
    } else {
        group_positions(n - 1, o, v)
    }
}

/// The names of the grouping attributes.
pub open spec fn group_names(h: Seq<Attribute>, gp: Seq<usize>) -> Seq<Seq<char>> {
    gp.map_values(|p: usize| h[p as int].name@)
}

/// The grouping positions are increasing, below `n`, and are exactly the
/// positions other than `o` and `v`.
proof fn lemma_group_positions(n: int, o: int, v: int)
    requires
        0 <= n <= usize::MAX,
    ensures
        forall|i: int, j: int| 0 <= i < j < group_positions(n, o, v).len() ==> group_positions(n, o, v)[i] < group_positions(n, o, v)[j],
        forall|i: int| 0 <= i < group_positions(n, o, v).len() ==> #[trigger] group_positions(n, o, v)[i] < n
            && group_positions(n, o, v)[i] != o && group_positions(n, o, v)[i] != v,
        forall|p: usize| p < n && p != o && p != v ==> #[trigger] group_positions(n, o, v).contains(p),
    decreases n,
{
    if n > 0 {
        lemma_group_positions(n - 1, o, v);
        let g = group_positions(n - 1, o, v);
        let gn = group_positions(n, o, v);
        if n - 1 != o && n - 1 != v {
            assert(gn == g.push((n - 1) as usize));
            assert forall|i: int, j: int| 0 <= i < j < gn.len() implies gn[i] < gn[j] by {
                assert(gn[i] == g[i]);
                if j < g.len() {
                    assert(gn[j] == g[j]);
                }
            }
            assert forall|i: int| 0 <= i < gn.len() implies #[trigger] gn[i] < n && gn[i] != o && gn[i] != v by {
                if i < g.len() {
                    assert(gn[i] == g[i]);
                }
            }
            assert forall|p: usize| p < n && p != o && p != v implies #[trigger] gn.contains(p) by {
                if p < n - 1 {
                    assert(g.contains(p));
                    let k = choose|k: int| 0 <= k < g.len() && g[k] == p;
                    assert(gn[k] == p);
                } else {
                    assert(gn[g.len() as int] == p);
                }
            }
        } else {
            assert(gn == g);
            assert forall|p: usize| p < n && p != o && p != v implies #[trigger] gn.contains(p) by {
                assert(g.contains(p));
            }
        }
    }
}

/// The positions of the grouping attributes.
fn group_positions_of(n: usize, o: usize, v: usize) -> (gp: Vec<usize>)
    ensures
        gp@ == group_positions(n as int, o as int, v as int),
{
    let mut gp: Vec<usize> = Vec::new();
    let mut p: usize = 0;
    while p < n
        invariant
            p <= n,
            gp@ == group_positions(p as int, o as int, v as int),
        decreases n - p,
    {
        if p != o && p != v {
            gp.push(p);
        }
        p = p + 1;
    }
    gp
}

/// The pivot values' column names, over a listing of the tuples.
pub open spec fn column_names(rows: Seq<Seq<ValueView>>, o: int) -> Set<Seq<char>> {
    Set::new(|c: Seq<char>| exists|j: int| 0 <= j < rows.len() && #[trigger] key_text(rows[j][o]) == c)
}

/// `c` is the first, in name order, of the column names that are also
/// grouping names.
pub open spec fn first_collision(cols: Set<Seq<char>>, gn: Seq<Seq<char>>, c: Seq<char>) -> bool {
    &&& cols.contains(c)
    &&& gn.contains(c)
    &&& forall|d: Seq<char>| cols.contains(d) && gn.contains(d) ==> d == c || lex_less(c, d)
}

/// The message for a column name that a grouping attribute has.
pub open spec fn collision_message(c: Seq<char>) -> Seq<char> {
    "Pivoted column '"@ + c + "' conflicts with grouping attribute"@
}

/// The message for a default value of another type than the values.
pub open spec fn default_message(d: ScalarType, t: ScalarType) -> Seq<char> {
    "Default value type ("@ + type_label(d) + ") mismatch with value attribute ("@ + type_label(t) + ")"@
}

/// There is at most one first collision.
proof fn lemma_first_collision_unique(cols: Set<Seq<char>>, gn: Seq<Seq<char>>, a: Seq<char>, b: Seq<char>)
    requires
        first_collision(cols, gn, a),
        first_collision(cols, gn, b),
    ensures
        a == b,
{
    lemma_lex_total(a, b);
}

/// Strings that are strictly increasing in name order.
pub open spec fn names_increasing(s: Seq<Seq<char>>) -> bool {
    forall|i: int, j: int| 0 <= i < j < s.len() ==> lex_less(#[trigger] s[i], #[trigger] s[j])
}

/// The column names of the tuples, each once, in name order.
#[verifier::spinoff_prover]
#[verifier::rlimit(40)]
fn sorted_columns(r: &Relation, order: &Vec<usize>, o: usize) -> (cols: Vec<String>)
    requires
        r.wf(),
        o < r.heading@.len(),
        r.heading@[o as int].ty != ScalarType::Bytes,
        order@.len() == r.tuples@.len(),
        forall|k: int| 0 <= k < order@.len() ==> order@[k] < r.tuples@.len(),
    ensures
        names_increasing(views(cols@)),
        views(cols@).to_set() == column_names(picked(r.tuples@, order@), o as int),
{
    let ghost rows = picked(r.tuples@, order@);
    let mut cols: Vec<String> = Vec::new();
    let mut k: usize = 0;
    while k < order.len()
        invariant
            rows == picked(r.tuples@, order@),
            r.wf(),
            o < r.heading@.len(),
            r.heading@[o as int].ty != ScalarType::Bytes,
            order@.len() == r.tuples@.len(),
            forall|m: int| 0 <= m < order@.len() ==> order@[m] < r.tuples@.len(),
            k <= order@.len(),
            names_increasing(views(cols@)),
            views(cols@).to_set() == column_names(rows.take(k as int), o as int),
        decreases order@.len() - k,
    {
        let t = &r.tuples[order[k]];
        assert(fits_heading(r.heading@, *t));
        assert(type_of(t@[o as int]) == r.heading@[o as int].ty);
        let key = match scalar_to_string_key(&t.values[o]) {
            Ok(s) => s,
            Err(_) => {
                assert(false);
                return cols;
            },
        };
        assert(rows[k as int] == t@);
        let ghost kv = key@;
        let ghost before = views(cols@);
        // Find where the name goes.
        let mut p: usize = 0;
        while p < cols.len() && str_less(cols[p].as_str(), key.as_str())
            invariant
                p <= cols@.len(),
                kv == key@,
                before == views(cols@),
                forall|m: int| 0 <= m < p ==> lex_less(#[trigger] before[m], kv),
            decreases cols@.len() - p,
        {
            assert(before[p as int] == cols@[p as int]@);
            p = p + 1;
        }
        proof {
            assert(rows.take(k + 1) =~= rows.take(k as int).push(rows[k as int]));
            assert forall|c: Seq<char>| column_names(rows.take(k + 1), o as int).contains(c)
                <==> column_names(rows.take(k as int), o as int).contains(c) || c == kv by {
                if column_names(rows.take(k + 1), o as int).contains(c) {
                    let j = choose|j: int| 0 <= j < rows.take(k + 1).len() && #[trigger] key_text(rows.take(k + 1)[j][o as int]) == c;
                    if j < k {
                        assert(key_text(rows.take(k as int)[j][o as int]) == c);
                    }
                }
                if c == kv {
                    assert(key_text(rows.take(k + 1)[k as int][o as int]) == c);
                }
                if column_names(rows.take(k as int), o as int).contains(c) {
                    let j = choose|j: int| 0 <= j < rows.take(k as int).len() && #[trigger] key_text(rows.take(k as int)[j][o as int]) == c;
                    assert(key_text(rows.take(k + 1)[j][o as int]) == c);
                }
            }
        }
        if p < cols.len() && str_eq(cols[p].as_str(), key.as_str()) {
            proof {
                assert(before.to_set().contains(before[p as int]));
                assert(views(cols@).to_set() =~= column_names(rows.take(k + 1), o as int));
            }
        } else {
            proof {
                if p < before.len() {
                    lemma_lex_total(before[p as int], kv);
                    assert forall|m: int| p <= m < before.len() implies lex_less(kv, #[trigger] before[m]) by {
                        if m > p {
                            lemma_lex_transitive(kv, before[p as int], before[m]);
                        }
                    }
                }
            }
            cols.insert(p, key);
            proof {
                let nv = before.insert(p as int, kv);
                assert(views(cols@) =~= nv);
                before.insert_ensures(p as int, kv);
                assert forall|x: int, y: int| 0 <= x < y < nv.len() implies lex_less(#[trigger] nv[x], #[trigger] nv[y]) by {
                    if x < p && y > p {
                        assert(nv[y] == before[y - 1]);
                        if y - 1 > x {
                        } else {
                        }
                    } else if x == p && y > p {
                        assert(nv[y] == before[y - 1]);
                    } else if x > p {
                        assert(nv[x] == before[x - 1]);
                        assert(nv[y] == before[y - 1]);
                    }
                }
                let ns = column_names(rows.take(k + 1), o as int);
                let os = column_names(rows.take(k as int), o as int);
                assert(before.to_set() == os);
                assert(t@[o as int] == t.values@[o as int]@);
                assert(rows.take(k + 1)[k as int] == t@);
                assert(key_text(rows.take(k + 1)[k as int][o as int]) == kv);
                assert(ns.contains(kv));
                assert forall|c: Seq<char>| nv.to_set().contains(c) implies ns.contains(c) by {
                    assert(nv.contains(c));
                    let m = choose|m: int| 0 <= m < nv.len() && nv[m] == c;
                    if m < p {
                        assert(before[m] == c);
                        assert(before.contains(c));
                        assert(os.contains(c));
                    } else if m > p {
                        assert(before[m - 1] == c);
                        assert(before.contains(c));
                        assert(os.contains(c));
                    }
                }
                assert forall|c: Seq<char>| ns.contains(c) implies nv.to_set().contains(c) by {
                    if c == kv {
                        assert(nv[p as int] == kv);
                    } else {
                        assert(os.contains(c));
                        assert(before.to_set().contains(c));
                        assert(before.contains(c));
                        let m = choose|m: int| 0 <= m < before.len() && before[m] == c;
                        if m < p {
                            assert(nv[m] == c);
                        } else {
                            assert(nv[m + 1] == c);
                        }
                    }
                    assert(nv.contains(c));
                }
                assert(nv.to_set() =~= column_names(rows.take(k + 1), o as int));
                assert(views(cols@).to_set() =~= column_names(rows.take(k + 1), o as int));
            }
        }
        k = k + 1;
    }
    assert(rows.take(order@.len() as int) =~= rows);
    cols
}

/// The attributes of the result: the grouping attributes, and a column of
/// the value attribute's type per pivot value.
pub open spec fn pivot_attrs(h: Seq<Attribute>, gp: Seq<usize>, cols: Set<Seq<char>>, vt: ScalarType) -> Set<(Seq<char>, ScalarType)> {
    Set::new(|a: (Seq<char>, ScalarType)|
        (exists|i: int| 0 <= i < gp.len() && a.0 == (#[trigger] h[gp[i] as int]).name@ && a.1 == h[gp[i] as int].ty)
        || (cols.contains(a.0) && a.1 == vt))
}

/// Where each result attribute comes from: `(true, i)` for grouping
/// attribute `i`, `(false, c)` for pivot column `c`.
pub open spec fn sources_ok(
    hr: Seq<Attribute>,
    src: Seq<(bool, usize)>,
    h: Seq<Attribute>,
    gp: Seq<usize>,
    cols: Seq<Seq<char>>,
    vt: ScalarType,
) -> bool {
    &&& src.len() == hr.len()
    &&& forall|p: int| 0 <= p < src.len() ==> if (#[trigger] src[p]).0 {
        src[p].1 < gp.len() && hr[p].name@ == h[gp[src[p].1 as int] as int].name@ && hr[p].ty == h[gp[src[p].1 as int] as int].ty
    } else {
        src[p].1 < cols.len() && hr[p].name@ == cols[src[p].1 as int] && hr[p].ty == vt
    }
}

/// The grouping names are increasing.
proof fn lemma_group_names_increasing(h: Seq<Attribute>, gp: Seq<usize>)
    requires
        sorted_names(h),
        forall|i: int, j: int| 0 <= i < j < gp.len() ==> gp[i] < gp[j],
        forall|i: int| 0 <= i < gp.len() ==> #[trigger] gp[i] < h.len(),
    ensures
        names_increasing(group_names(h, gp)),
{
    assert forall|i: int, j: int| 0 <= i < j < group_names(h, gp).len() implies lex_less(
        #[trigger] group_names(h, gp)[i],
        #[trigger] group_names(h, gp)[j],
    ) by {
        assert(gp[i] < gp[j]);
        assert(lex_less(h[gp[i] as int].name@, h[gp[j] as int].name@));
    }
}

/// The heading of the result, sorted by name, with the source of each
/// attribute.
#[verifier::rlimit(30)]
fn pivot_heading_of(
    h: &Vec<Attribute>,
    gp: &Vec<usize>,
    cols: &Vec<String>,
    vt: ScalarType,
) -> (r: (Vec<Attribute>, Vec<(bool, usize)>))
    requires
        sorted_names(h@),
        forall|i: int, j: int| 0 <= i < j < gp@.len() ==> gp@[i] < gp@[j],
        forall|i: int| 0 <= i < gp@.len() ==> #[trigger] gp@[i] < h@.len(),
        names_increasing(views(cols@)),
        forall|c: int| 0 <= c < cols@.len() ==> !group_names(h@, gp@).contains(#[trigger] cols@[c]@),
    ensures
        sorted_names(r.0@),
        views(r.0@).to_set() == pivot_attrs(h@, gp@, views(cols@).to_set(), vt),
        sources_ok(r.0@, r.1@, h@, gp@, views(cols@), vt),
{
    let ghost gn = group_names(h@, gp@);
    let ghost cv = views(cols@);
    proof {
        lemma_group_names_increasing(h@, gp@);
    }
    let mut hr: Vec<Attribute> = Vec::new();
    let mut src: Vec<(bool, usize)> = Vec::new();
    let mut i: usize = 0;
    while i < gp.len()
        invariant
            gn == group_names(h@, gp@),
            names_increasing(gn),
            forall|x: int| 0 <= x < gp@.len() ==> #[trigger] gp@[x] < h@.len(),
            i <= gp@.len(),
            hr@.len() == i,
            forall|x: int| 0 <= x < i ==> (#[trigger] hr@[x]).name@ == gn[x] && hr@[x].ty == h@[gp@[x] as int].ty,
            src@.len() == i,
            forall|x: int| 0 <= x < i ==> #[trigger] src@[x] == (true, x as usize),
        decreases gp@.len() - i,
    {
        let a = h[gp[i]].duplicate();
        assert(a.name@ == gn[i as int]);
        hr.push(a);
        src.push((true, i));
        i = i + 1;
    }
    assert(sorted_names(hr@)) by {
        assert forall|x: int, y: int| 0 <= x < y < hr@.len() implies lex_less((#[trigger] hr@[x]).name@, (#[trigger] hr@[y]).name@) by {
            assert(lex_less(gn[x], gn[y]));
        }
    }
    let ghost ga = Set::new(|a: (Seq<char>, ScalarType)|
        exists|x: int| 0 <= x < gp@.len() && a.0 == (#[trigger] h@[gp@[x] as int]).name@ && a.1 == h@[gp@[x] as int].ty);
    assert(views(hr@).to_set() =~= ga) by {
        assert forall|a: (Seq<char>, ScalarType)| views(hr@).to_set().contains(a) implies ga.contains(a) by {
            assert(views(hr@).contains(a));
            let x = choose|x: int| 0 <= x < views(hr@).len() && views(hr@)[x] == a;
            assert(h@[gp@[x] as int].name@ == gn[x]);
        }
        assert forall|a: (Seq<char>, ScalarType)| ga.contains(a) implies views(hr@).to_set().contains(a) by {
            let x = choose|x: int| 0 <= x < gp@.len() && a.0 == (#[trigger] h@[gp@[x] as int]).name@ && a.1 == h@[gp@[x] as int].ty;
            assert(views(hr@)[x] == a);
            assert(views(hr@).contains(a));
        }
    }
    let mut c: usize = 0;
    while c < cols.len()
        invariant
            gn == group_names(h@, gp@),
            cv == views(cols@),
            names_increasing(cv),
            forall|x: int| 0 <= x < cols@.len() ==> !gn.contains(#[trigger] cols@[x]@),
            forall|x: int| 0 <= x < gp@.len() ==> #[trigger] gp@[x] < h@.len(),
            c <= cols@.len(),
            sorted_names(hr@),
            views(hr@).to_set() == ga + Set::new(|a: (Seq<char>, ScalarType)| cv.take(c as int).contains(a.0) && a.1 == vt),
            sources_ok(hr@, src@, h@, gp@, cv, vt),
            forall|p: int| 0 <= p < hr@.len() ==> (gn + cv.take(c as int)).contains((#[trigger] hr@[p]).name@),
        decreases cols@.len() - c,
    {
        let name = cols[c].clone();
        let ghost nv = name@;
        assert(nv == cv[c as int]);
        let mut p: usize = 0;
        while p < hr.len() && str_less(hr[p].name.as_str(), name.as_str())
            invariant
                p <= hr@.len(),
                nv == name@,
                forall|m: int| 0 <= m < p ==> lex_less((#[trigger] hr@[m]).name@, nv),
            decreases hr@.len() - p,
        {
            p = p + 1;
        }
        let ghost before = hr@;
        let ghost bsrc = src@;
        proof {
            // The new name differs from every name so far.
            assert forall|m: int| 0 <= m < before.len() implies (#[trigger] before[m]).name@ != nv by {
                assert((gn + cv.take(c as int)).contains(before[m].name@));
                let z = choose|z: int| 0 <= z < (gn + cv.take(c as int)).len() && (gn + cv.take(c as int))[z] == before[m].name@;
                if z < gn.len() {
                    assert(gn.contains(before[m].name@));
                    assert(!gn.contains(cols@[c as int]@));
                } else {
                    let w = z - gn.len();
                    assert(cv[w] == before[m].name@);
                    assert(lex_less(cv[w], cv[c as int]));
                    lemma_lex_irreflexive(nv);
                }
            }
            if p < before.len() {
                lemma_lex_total(before[p as int].name@, nv);
                assert forall|m: int| p <= m < before.len() implies lex_less(nv, (#[trigger] before[m]).name@) by {
                    if m > p {
                        lemma_lex_transitive(nv, before[p as int].name@, before[m].name@);
                    }
                }
            }
        }
        let a = Attribute { name, ty: vt };
        hr.insert(p, a);
        src.insert(p, (false, c));
        proof {
            let t0 = cv.take(c as int);
            let t1 = cv.take(c + 1);
            before.insert_ensures(p as int, a);
            bsrc.insert_ensures(p as int, (false, c));
            assert(hr@ == before.insert(p as int, a));
            assert(src@ == bsrc.insert(p as int, (false, c)));
            assert forall|x: int, y: int| 0 <= x < y < hr@.len() implies lex_less((#[trigger] hr@[x]).name@, (#[trigger] hr@[y]).name@) by {
                if x < p && y > p {
                    assert(hr@[y] == before[y - 1]);
                } else if x == p && y > p {
                    assert(hr@[y] == before[y - 1]);
                } else if x > p {
                    assert(hr@[x] == before[x - 1]);
                    assert(hr@[y] == before[y - 1]);
                }
            }
            assert forall|q: int| 0 <= q < src@.len() implies if (#[trigger] src@[q]).0 {
                src@[q].1 < gp@.len() && hr@[q].name@ == h@[gp@[src@[q].1 as int] as int].name@ && hr@[q].ty == h@[gp@[src@[q].1 as int] as int].ty
            } else {
                src@[q].1 < cv.len() && hr@[q].name@ == cv[src@[q].1 as int] && hr@[q].ty == vt
            } by {
                if q < p {
                    assert(src@[q] == bsrc[q]);
                    assert(hr@[q] == before[q]);
                } else if q > p {
                    assert(src@[q] == bsrc[q - 1]);
                    assert(hr@[q] == before[q - 1]);
                }
            }
            assert(t1 =~= t0.push(nv));
            assert forall|q: int| 0 <= q < hr@.len() implies (gn + t1).contains((#[trigger] hr@[q]).name@) by {
                if q == p {
                    assert((gn + t1)[gn.len() + c] == nv);
                } else {
                    let b = if q < p { before[q] } else { before[q - 1] };
                    assert(hr@[q] == b);
                    assert((gn + t0).contains(b.name@));
                    let z = choose|z: int| 0 <= z < (gn + t0).len() && (gn + t0)[z] == b.name@;
                    assert((gn + t1)[z] == b.name@);
                }
            }
            let olds = ga + Set::new(|a: (Seq<char>, ScalarType)| t0.contains(a.0) && a.1 == vt);
            let news = ga + Set::new(|a: (Seq<char>, ScalarType)| t1.contains(a.0) && a.1 == vt);
            assert(views(before).to_set() == olds);
            assert forall|x: (Seq<char>, ScalarType)| views(hr@).to_set().contains(x) implies news.contains(x) by {
                assert(views(hr@).contains(x));
                let q = choose|q: int| 0 <= q < views(hr@).len() && views(hr@)[q] == x;
                if q == p {
                    assert(t1[c as int] == nv);
                } else {
                    let b = if q < p { before[q] } else { before[q - 1] };
                    assert(hr@[q] == b);
                    let qq = if q < p { q } else { q - 1 };
                    assert(views(before)[qq] == x);
                    assert(views(before).contains(x));
                    assert(olds.contains(x));
                    if !ga.contains(x) {
                        let w = choose|w: int| 0 <= w < t0.len() && t0[w] == x.0;
                        assert(t1[w] == x.0);
                    }
                }
            }
            assert forall|x: (Seq<char>, ScalarType)| news.contains(x) implies views(hr@).to_set().contains(x) by {
                if x == (nv, vt) {
                    assert(views(hr@)[p as int] == x);
                } else {
                    if !ga.contains(x) {
                        let w = choose|w: int| 0 <= w < t1.len() && t1[w] == x.0;
                        if w == c {
                            assert(x.0 == nv);
                        } else {
                            assert(t0[w] == x.0);
                        }
                    }
                    assert(olds.contains(x));
                    assert(views(before).to_set().contains(x));
                    assert(views(before).contains(x));
                    let q = choose|q: int| 0 <= q < views(before).len() && views(before)[q] == x;
                    if q < p {
                        assert(views(hr@)[q] == x);
                    } else {
                        assert(views(hr@)[q + 1] == x);
                    }
                }
                assert(views(hr@).contains(x));
            }
            assert(views(hr@).to_set() =~= news);
        }
        c = c + 1;
    }
    proof {
        assert(cv.take(cv.len() as int) =~= cv);
        let all = ga + Set::new(|a: (Seq<char>, ScalarType)| cv.contains(a.0) && a.1 == vt);
        assert(all =~= pivot_attrs(h@, gp@, cv.to_set(), vt));
    }
    (hr, src)
}

/// The last of the first `k` tuples with group key `g` and column name
/// `c`, or -1.
pub open spec fn last_match(rows: Seq<Seq<ValueView>>, gp: Seq<usize>, o: int, g: Seq<ValueView>, c: Seq<char>, k: int) -> int
    decreases k,
{
    if k <= 0 {
        -1
    } else if key_of(rows[k - 1], gp) == g && key_text(rows[k - 1][o]) == c {
        k - 1
    } else {
        last_match(rows, gp, o, g, c, k - 1)
    }
}

/// The value of column `c` for group `g`: the value of the last tuple, in
/// increasing order, of that group and pivot value; else the default.
pub open spec fn cell(rows: Seq<Seq<ValueView>>, gp: Seq<usize>, o: int, v: int, d: ValueView, g: Seq<ValueView>, c: Seq<char>) -> ValueView {
    let j = last_match(rows, gp, o, g, c, rows.len() as int);
    if j < 0 {
        d
    } else {
        rows[j][v]
    }
}

/// The position of `n` among the grouping names, or -1.
pub open spec fn group_index(gn: Seq<Seq<char>>, n: Seq<char>) -> int {
    if exists|i: int| 0 <= i < gn.len() && gn[i] == n {
        choose|i: int| 0 <= i < gn.len() && gn[i] == n
    } else {
        -1
    }
}

/// The result tuple of group `g` over the result heading `hr`: the group's
/// values under the grouping attributes, the cells under the columns.
pub open spec fn pivot_row(
    hr: Seq<Attribute>,
    rows: Seq<Seq<ValueView>>,
    gp: Seq<usize>,
    gn: Seq<Seq<char>>,
    o: int,
    v: int,
    d: ValueView,
    g: Seq<ValueView>,
) -> Seq<ValueView> {
    Seq::new(hr.len(), |p: int|
        if group_index(gn, hr[p].name@) >= 0 {
            g[group_index(gn, hr[p].name@)]
        } else {
            cell(rows, gp, o, v, d, g, hr[p].name@)
        })
}

/// The result tuples: one per group of the tuples.
pub open spec fn pivot_rows(
    hr: Seq<Attribute>,
    rows: Seq<Seq<ValueView>>,
    gp: Seq<usize>,
    gn: Seq<Seq<char>>,
    o: int,
    v: int,
    d: ValueView,
) -> Set<Seq<ValueView>> {
    Set::new(|x: Seq<ValueView>| exists|j: int| 0 <= j < rows.len() && x == pivot_row(hr, rows, gp, gn, o, v, d, #[trigger] key_of(rows[j], gp)))
}

/// An optional value is the value attribute of tuple `j`, or none when
/// `j` is -1.
pub open spec fn holds(x: Option<ScalarValue>, j: int, rows: Seq<Seq<ValueView>>, v: int) -> bool {
    if j < 0 {
        x is None
    } else {
        x matches Some(y) && y@ == rows[j][v]
    }
}

/// The group key of a tuple.
fn key_row(t: &Row, gp: &Vec<usize>) -> (k: Row)
    requires
        forall|i: int| 0 <= i < gp@.len() ==> #[trigger] gp@[i] < t@.len(),
    ensures
        k@ == key_of(t@, gp@),
{
    let mut values: Vec<ScalarValue> = Vec::new();
    let mut i: usize = 0;
    while i < gp.len()
        invariant
            forall|x: int| 0 <= x < gp@.len() ==> #[trigger] gp@[x] < t@.len(),
            t@.len() == t.values@.len(),
            i <= gp@.len(),
            values@.len() == i,
            forall|x: int| 0 <= x < i ==> (#[trigger] values@[x])@ == t@[gp@[x] as int],
        decreases gp@.len() - i,
    {
        values.push(t.values[gp[i]].duplicate());
        i = i + 1;
    }
    let k = Row { values };
    assert(k@ =~= key_of(t@, gp@));
    k
}

/// The position of a column name.
fn column_index(cols: &Vec<String>, c: &String) -> (r: Option<usize>)
    ensures
        match r {
            Some(i) => i < cols@.len() && cols@[i as int]@ == c@,
            None => !views(cols@).contains(c@),
        },
{
    let mut i: usize = 0;
    while i < cols.len()
        invariant
            i <= cols@.len(),
            forall|x: int| 0 <= x < i ==> (#[trigger] cols@[x])@ != c@,
        decreases cols@.len() - i,
    {
        if str_eq(cols[i].as_str(), c.as_str()) {
            return Some(i);
        }
        i = i + 1;
    }
    assert forall|x: int| 0 <= x < views(cols@).len() implies views(cols@)[x] != c@ by {
        assert(cols@[x]@ != c@);
    }
    None
}

/// Increasing names are distinct.
proof fn lemma_increasing_distinct(s: Seq<Seq<char>>)
    requires
        names_increasing(s),
    ensures
        forall|i: int, j: int| 0 <= i < s.len() && 0 <= j < s.len() && i != j ==> s[i] != s[j],
{
    assert forall|i: int, j: int| 0 <= i < s.len() && 0 <= j < s.len() && i != j implies s[i] != s[j] by {
        lemma_lex_irreflexive(s[i]);
        if i < j {
            assert(lex_less(s[i], s[j]));
        } else {
            assert(lex_less(s[j], s[i]));
        }
    }
}

/// The cells of group `g`: for each column, the value of the last tuple of
/// the group with that column's pivot value.
#[verifier::spinoff_prover]
fn cell_values(r: &Relation, order: &Vec<usize>, gp: &Vec<usize>, o: usize, v: usize, cols: &Vec<String>, g: &Row) -> (cells: Vec<Option<ScalarValue>>)
    requires
        r.wf(),
        o < r.heading@.len(),
        v < r.heading@.len(),
        !(r.heading@[o as int].ty == ScalarType::Bytes && r.tuples@.len() > 0),
        forall|i: int| 0 <= i < gp@.len() ==> #[trigger] gp@[i] < r.heading@.len(),
        order@.len() == r.tuples@.len(),
        forall|k: int| 0 <= k < order@.len() ==> order@[k] < r.tuples@.len(),
        names_increasing(views(cols@)),
        views(cols@).to_set() == column_names(picked(r.tuples@, order@), o as int),
    ensures
        cells@.len() == cols@.len(),
        forall|c: int| 0 <= c < cols@.len() ==> holds(
            #[trigger] cells@[c],
            last_match(picked(r.tuples@, order@), gp@, o as int, g@, cols@[c]@, r.tuples@.len() as int),
            picked(r.tuples@, order@),
            v as int,
        ),
{
    let ghost rows = picked(r.tuples@, order@);
    proof {
        lemma_increasing_distinct(views(cols@));
    }
    let mut cells: Vec<Option<ScalarValue>> = Vec::new();
    let mut c: usize = 0;
    while c < cols.len()
        invariant
            c <= cols@.len(),
            cells@.len() == c,
            forall|x: int| 0 <= x < c ==> (#[trigger] cells@[x]) is None,
        decreases cols@.len() - c,
    {
        cells.push(None);
        c = c + 1;
    }
    let mut j: usize = 0;
    while j < order.len()
        invariant
            rows == picked(r.tuples@, order@),
            r.wf(),
            o < r.heading@.len(),
            v < r.heading@.len(),
            !(r.heading@[o as int].ty == ScalarType::Bytes && r.tuples@.len() > 0),
            forall|i: int| 0 <= i < gp@.len() ==> #[trigger] gp@[i] < r.heading@.len(),
            order@.len() == r.tuples@.len(),
            forall|k: int| 0 <= k < order@.len() ==> order@[k] < r.tuples@.len(),
            forall|x: int, y: int| 0 <= x < views(cols@).len() && 0 <= y < views(cols@).len() && x != y ==> views(cols@)[x] != views(cols@)[y],
            views(cols@).to_set() == column_names(rows, o as int),
            j <= order@.len(),
            cells@.len() == cols@.len(),
            forall|x: int| 0 <= x < cols@.len() ==> holds(#[trigger] cells@[x], last_match(rows, gp@, o as int, g@, cols@[x]@, j as int), rows, v as int),
        decreases order@.len() - j,
    {
        let t = &r.tuples[order[j]];
        assert(rows[j as int] == t@);
        assert(fits_heading(r.heading@, *t));
        let kt = key_row(t, gp);
        if kt.same(g) {
            assert(type_of(t@[o as int]) == r.heading@[o as int].ty);
            assert(t@[o as int] == t.values@[o as int]@);
            match scalar_to_string_key(&t.values[o]) {
                Ok(name) => {
                    proof {
                        assert(key_text(rows[j as int][o as int]) == name@);
                        assert(column_names(rows, o as int).contains(name@));
                        assert(views(cols@).to_set().contains(name@));
                        assert(views(cols@).contains(name@));
                    }
                    match column_index(cols, &name) {
                        Some(ci) => {
                            let ghost before = cells@;
                            assert(t@[v as int] == t.values@[v as int]@);
                            cells.set(ci, Some(t.values[v].duplicate()));
                            assert forall|x: int| 0 <= x < cols@.len() implies holds(#[trigger] cells@[x], last_match(rows, gp@, o as int, g@, cols@[x]@, j + 1), rows, v as int) by {
                                if x != ci {
                                    assert(views(cols@)[x] != views(cols@)[ci as int]);
                                    assert(cells@[x] == before[x]);
                                }
                            }
                        },
                        None => {
                            assert(false);
                        },
                    }
                },
                Err(_) => {
                    assert(false);
                },
            }
        } else {
            assert forall|x: int| 0 <= x < cols@.len() implies holds(#[trigger] cells@[x], last_match(rows, gp@, o as int, g@, cols@[x]@, j + 1), rows, v as int) by {
                assert(key_of(rows[j as int], gp@) != g@);
            }
        }
        j = j + 1;
    }
    cells
}

/// The result tuple of group `g`.
fn build_row(
    r: &Relation,
    order: &Vec<usize>,
    gp: &Vec<usize>,
    o: usize,
    v: usize,
    cols: &Vec<String>,
    d: &ScalarValue,
    hr: &Vec<Attribute>,
    src: &Vec<(bool, usize)>,
    g: &Row,
) -> (row: Row)
    requires
        r.wf(),
        o < r.heading@.len(),
        v < r.heading@.len(),
        !(r.heading@[o as int].ty == ScalarType::Bytes && r.tuples@.len() > 0),
        type_of(d@) == r.heading@[v as int].ty,
        forall|i: int, j: int| 0 <= i < j < gp@.len() ==> gp@[i] < gp@[j],
        forall|i: int| 0 <= i < gp@.len() ==> #[trigger] gp@[i] < r.heading@.len(),
        order@.len() == r.tuples@.len(),
        forall|k: int| 0 <= k < order@.len() ==> order@[k] < r.tuples@.len(),
        names_increasing(views(cols@)),
        views(cols@).to_set() == column_names(picked(r.tuples@, order@), o as int),
        forall|c: int| 0 <= c < cols@.len() ==> !group_names(r.heading@, gp@).contains(#[trigger] cols@[c]@),
        sources_ok(hr@, src@, r.heading@, gp@, views(cols@), r.heading@[v as int].ty),
        exists|j: int| 0 <= j < r.tuples@.len() && g@ == #[trigger] key_of(picked(r.tuples@, order@)[j], gp@),
    ensures
        fits_heading(hr@, row),
        row@ == pivot_row(hr@, picked(r.tuples@, order@), gp@, group_names(r.heading@, gp@), o as int, v as int, d@, g@),
{
    let ghost rows = picked(r.tuples@, order@);
    let ghost h = r.heading@;
    let ghost gn = group_names(h, gp@);
    let ghost j0 = choose|j: int| 0 <= j < r.tuples@.len() && g@ == #[trigger] key_of(picked(r.tuples@, order@)[j], gp@);
    proof {
        lemma_group_names_increasing(h, gp@);
        lemma_increasing_distinct(gn);
        assert(rows[j0] == r.tuples@[order@[j0] as int]@);
        assert(fits_heading(h, r.tuples@[order@[j0] as int]));
    }
    let cells = cell_values(r, order, gp, o, v, cols, g);
    let mut values: Vec<ScalarValue> = Vec::new();
    let mut p: usize = 0;
    while p < hr.len()
        invariant
            rows == picked(r.tuples@, order@),
            h == r.heading@,
            gn == group_names(h, gp@),
            forall|x: int, y: int| 0 <= x < gn.len() && 0 <= y < gn.len() && x != y ==> gn[x] != gn[y],
            forall|c: int| 0 <= c < cols@.len() ==> !gn.contains(#[trigger] cols@[c]@),
            sources_ok(hr@, src@, h, gp@, views(cols@), h[v as int].ty),
            forall|i: int| 0 <= i < gp@.len() ==> #[trigger] gp@[i] < h.len(),
            0 <= j0 < rows.len(),
            g@ == key_of(rows[j0], gp@),
            fits_heading(h, r.tuples@[order@[j0] as int]),
            rows[j0] == r.tuples@[order@[j0] as int]@,
            v < h.len(),
            type_of(d@) == h[v as int].ty,
            cells@.len() == cols@.len(),
            forall|c: int| 0 <= c < cols@.len() ==> holds(#[trigger] cells@[c], last_match(rows, gp@, o as int, g@, cols@[c]@, rows.len() as int), rows, v as int),
            forall|q: int| 0 <= q < rows.len() ==> fits_heading(h, r.tuples@[order@[q] as int]) && #[trigger] rows[q] == r.tuples@[order@[q] as int]@,
            p <= hr@.len(),
            values@.len() == p,
            forall|q: int| 0 <= q < p ==> (#[trigger] values@[q])@ == pivot_row(hr@, rows, gp@, gn, o as int, v as int, d@, g@)[q]
                && type_of(values@[q]@) == hr@[q].ty,
        decreases hr@.len() - p,
    {
        let (is_group, idx) = src[p];
        let ghost n = hr@[p as int].name@;
        if is_group {
            proof {
                assert(src@[p as int].0);
                assert(n == gn[idx as int]);
                assert(group_index(gn, n) == idx as int);
                assert(g@[idx as int] == rows[j0][gp@[idx as int] as int]);
                assert(g.values@.len() == g@.len());
                assert(type_of(r.tuples@[order@[j0] as int]@[gp@[idx as int] as int]) == h[gp@[idx as int] as int].ty);
            }
            values.push(g.values[idx].duplicate());
            assert(values@[p as int]@ == pivot_row(hr@, rows, gp@, gn, o as int, v as int, d@, g@)[p as int]);
        } else {
            proof {
                assert(!src@[p as int].0);
                assert(n == cols@[idx as int]@);
                assert(!gn.contains(n));
                assert(group_index(gn, n) == -1);
            }
            match &cells[idx] {
                Some(x) => {
                    proof {
                        let jm = last_match(rows, gp@, o as int, g@, n, rows.len() as int);
                        assert(holds(cells@[idx as int], jm, rows, v as int));
                        assert(jm >= 0);
                        lemma_last_match_range(rows, gp@, o as int, g@, n, rows.len() as int);
                        assert(fits_heading(h, r.tuples@[order@[jm] as int]));
                        assert(rows[jm] == r.tuples@[order@[jm] as int]@);
                        assert(type_of(r.tuples@[order@[jm] as int]@[v as int]) == h[v as int].ty);
                    }
                    values.push(x.duplicate());
                    assert(values@[p as int]@ == pivot_row(hr@, rows, gp@, gn, o as int, v as int, d@, g@)[p as int]);
                },
                None => {
                    values.push(d.duplicate());
                    assert(values@[p as int]@ == pivot_row(hr@, rows, gp@, gn, o as int, v as int, d@, g@)[p as int]);
                },
            }
        }
        p = p + 1;
    }
    let row = Row { values };
    assert(row@ =~= pivot_row(hr@, rows, gp@, gn, o as int, v as int, d@, g@));
    row
}

/// `last_match` finds one of the tuples counted, or -1.
proof fn lemma_last_match_range(rows: Seq<Seq<ValueView>>, gp: Seq<usize>, o: int, g: Seq<ValueView>, c: Seq<char>, k: int)
    requires
        0 <= k,
    ensures
        -1 <= last_match(rows, gp, o, g, c, k) < k,
    decreases k,
{
    if k > 0 {
        lemma_last_match_range(rows, gp, o, g, c, k - 1);
    }
}

/// The groups of the tuples, each once.
fn group_keys(r: &Relation, order: &Vec<usize>, gp: &Vec<usize>) -> (keys: Vec<Row>)
    requires
        r.wf(),
        forall|i: int| 0 <= i < gp@.len() ==> #[trigger] gp@[i] < r.heading@.len(),
        order@.len() == r.tuples@.len(),
        forall|k: int| 0 <= k < order@.len() ==> order@[k] < r.tuples@.len(),
    ensures
        views(keys@).no_duplicates(),
        forall|q: Seq<ValueView>| views(keys@).contains(q) <==> exists|j: int| 0 <= j < r.tuples@.len() && q == #[trigger] key_of(picked(r.tuples@, order@)[j], gp@),
{
    let ghost rows = picked(r.tuples@, order@);
    let mut keys: Vec<Row> = Vec::new();
    let mut k: usize = 0;
    while k < order.len()
        invariant
            rows == picked(r.tuples@, order@),
            r.wf(),
            forall|i: int| 0 <= i < gp@.len() ==> #[trigger] gp@[i] < r.heading@.len(),
            order@.len() == r.tuples@.len(),
            forall|m: int| 0 <= m < order@.len() ==> order@[m] < r.tuples@.len(),
            k <= order@.len(),
            views(keys@).no_duplicates(),
            forall|q: Seq<ValueView>| views(keys@).contains(q) <==> exists|j: int| 0 <= j < k && q == #[trigger] key_of(rows[j], gp@),
        decreases order@.len() - k,
    {
        let t = &r.tuples[order[k]];
        assert(fits_heading(r.heading@, *t));
        assert(rows[k as int] == t@);
        let kt = key_row(t, gp);
        push_unique(&mut keys, kt);
        assert forall|q: Seq<ValueView>| views(keys@).contains(q) <==> exists|j: int| 0 <= j < k + 1 && q == #[trigger] key_of(rows[j], gp@) by {
            if views(keys@).contains(q) && q != key_of(rows[k as int], gp@) {
                let j = choose|j: int| 0 <= j < k && q == #[trigger] key_of(rows[j], gp@);
            }
            if exists|j: int| 0 <= j < k + 1 && q == #[trigger] key_of(rows[j], gp@) {
                let j = choose|j: int| 0 <= j < k + 1 && q == #[trigger] key_of(rows[j], gp@);
                if j < k {
                    assert(exists|j: int| 0 <= j < k && q == #[trigger] key_of(rows[j], gp@));
                }
            }
        }
        k = k + 1;
    }
    keys
}

/// The first reason the pivot of tuples `rows` over heading `h` on `on`
/// with values `val` and default `d` fails, if any: a missing pivot or
/// value attribute, pivoting on bytes, a pivot value that names a grouping
/// attribute (the first in name order), a default of another type.
pub open spec fn pivot_failure_of(h: Seq<Attribute>, rows: Seq<Seq<ValueView>>, on: Seq<char>, val: Seq<char>, d: ValueView) -> Option<PivotFailure> {
    let o = attr_of(h, on);
    let v = attr_of(h, val);
    let gn = group_names(h, group_positions(h.len() as int, o, v));
    let cols = column_names(rows, o);
    if o < 0 {
        Some(PivotFailure::NotFound(on, "relation"@))
    } else if v < 0 {
        Some(PivotFailure::NotFound(val, "relation"@))
    } else if h[o].ty == ScalarType::Bytes && rows.len() > 0 {
        Some(PivotFailure::Algebra(bytes_pivot_message()))
    } else if exists|c: Seq<char>| first_collision(cols, gn, c) {
        Some(PivotFailure::Duplicate(collision_message(choose|c: Seq<char>| first_collision(cols, gn, c))))
    } else if type_of(d) != h[v].ty {
        Some(PivotFailure::Algebra(default_message(type_of(d), h[v].ty)))
    } else {
        None
    }
}

/// `p` is the pivot of `r` on `on` with values `val` and default `d`: its
/// heading is the grouping attributes and a column per pivot value, sorted
/// by name; its tuples are one per group (see `pivot_row`).
pub open spec fn is_pivot(r: &Relation, on: Seq<char>, val: Seq<char>, d: ValueView, p: &Relation) -> bool {
    let h = r.heading@;
    let rows = sorted_tuples(r);
    let o = attr_of(h, on);
    let v = attr_of(h, val);
    let gp = group_positions(h.len() as int, o, v);
    &&& p.wf()
    &&& views(p.heading@).to_set() == pivot_attrs(h, gp, column_names(rows, o), h[v].ty)
    &&& p.tuple_set() == pivot_rows(p.heading@, rows, gp, group_names(h, gp), o, v, d)
}

/// Finds the pivot and value attributes and the pivot columns, and checks
/// that no column repeats a grouping attribute.
fn scan_columns_and_validate(relation: &Relation, order: &Vec<usize>, on_attr: &str, value_attr: &str) -> (r: Result<(usize, usize, Vec<usize>, Vec<String>), DatabaseError>)
    requires
        relation.wf(),
        order@.len() == relation.tuples@.len(),
        forall|k: int| 0 <= k < order@.len() ==> order@[k] < relation.tuples@.len(),
    ensures
        match r {
            Ok((o, v, gp, cols)) => {
                let h = relation.heading@;
                let rows = picked(relation.tuples@, order@);
                &&& o as int == attr_of(h, on_attr@)
                &&& v as int == attr_of(h, value_attr@)
                &&& o < h.len() && v < h.len()
                &&& !(h[o as int].ty == ScalarType::Bytes && rows.len() > 0)
                &&& gp@ == group_positions(h.len() as int, o as int, v as int)
                &&& names_increasing(views(cols@))
                &&& views(cols@).to_set() == column_names(rows, o as int)
                &&& forall|c: int| 0 <= c < cols@.len() ==> !group_names(h, gp@).contains(#[trigger] cols@[c]@)
                &&& !(exists|c: Seq<char>| first_collision(column_names(rows, o as int), group_names(h, gp@), c))
            },
            Err(e) => {
                let h = relation.heading@;
                let rows = picked(relation.tuples@, order@);
                let o = attr_of(h, on_attr@);
                let v = attr_of(h, value_attr@);
                let gn = group_names(h, group_positions(h.len() as int, o, v));
                let cols = column_names(rows, o);
                ||| o < 0 && pivot_failure(e) == PivotFailure::NotFound(on_attr@, "relation"@)
                ||| o >= 0 && v < 0 && pivot_failure(e) == PivotFailure::NotFound(value_attr@, "relation"@)
                ||| o >= 0 && v >= 0 && h[o].ty == ScalarType::Bytes && rows.len() > 0
                    && pivot_failure(e) == PivotFailure::Algebra(bytes_pivot_message())
                ||| o >= 0 && v >= 0 && !(h[o].ty == ScalarType::Bytes && rows.len() > 0)
                    && exists|c: Seq<char>| first_collision(cols, gn, c) && pivot_failure(e) == PivotFailure::Duplicate(collision_message(c))
            },
        },
{
    let h = &relation.heading;
    proof {
        lemma_names_distinct(h@);
    }
    let on = on_attr.to_owned();
    let val = value_attr.to_owned();
    let o = match position_of(h, &on) {
        Some(o) => o,
        None => {
            return Err(DatabaseError::AttributeNotFound(on, "relation".to_owned()));
        },
    };
    assert(attr_of(h@, on_attr@) == o as int);
    let v = match position_of(h, &val) {
        Some(v) => v,
        None => {
            return Err(DatabaseError::AttributeNotFound(val, "relation".to_owned()));
        },
    };
    assert(attr_of(h@, value_attr@) == v as int);
    let gp = group_positions_of(h.len(), o, v);
    proof {
        lemma_group_positions(h@.len() as int, o as int, v as int);
    }
    let ghost rows = picked(relation.tuples@, order@);
    let cols: Vec<String> = if h[o].ty == ScalarType::Bytes {
        if order.len() > 0 {
            return Err(DatabaseError::AlgebraError("Cannot pivot on type Bytes".to_owned()));
        }
        assert(column_names(rows, o as int) =~= Set::<Seq<char>>::empty());
        Vec::new()
    } else {
        sorted_columns(relation, order, o)
    };
    let ghost gn = group_names(h@, gp@);
    let ghost cs = column_names(rows, o as int);
    assert(forall|x: int| 0 <= x < gp@.len() ==> #[trigger] gp@[x] < h@.len());
    // The first column, in name order, that a grouping attribute has.
    let mut c: usize = 0;
    while c < cols.len()
        invariant
            c <= cols@.len(),
            names_increasing(views(cols@)),
            views(cols@).to_set() == cs,
            gn == group_names(h@, gp@),
            forall|x: int| 0 <= x < gp@.len() ==> #[trigger] gp@[x] < h@.len(),
            forall|x: int| 0 <= x < c ==> !gn.contains(#[trigger] cols@[x]@),
            attr_of(h@, on_attr@) == o as int,
            attr_of(h@, value_attr@) == v as int,
            o < h@.len() && v < h@.len(),
            h@ == relation.heading@,
            rows == picked(relation.tuples@, order@),
            !(h@[o as int].ty == ScalarType::Bytes && rows.len() > 0),
            gp@ == group_positions(h@.len() as int, o as int, v as int),
            cs == column_names(rows, o as int),
        decreases cols@.len() - c,
    {
        let mut i: usize = 0;
        while i < gp.len()
            invariant
                i <= gp@.len(),
                c < cols@.len(),
                gn == group_names(h@, gp@),
                views(cols@).to_set() == cs,
                names_increasing(views(cols@)),
                forall|x: int| 0 <= x < c ==> !gn.contains(#[trigger] cols@[x]@),
                forall|x: int| 0 <= x < gp@.len() ==> #[trigger] gp@[x] < h@.len(),
                attr_of(h@, on_attr@) == o as int,
                attr_of(h@, value_attr@) == v as int,
                o < h@.len() && v < h@.len(),
                h@ == relation.heading@,
                rows == picked(relation.tuples@, order@),
                !(h@[o as int].ty == ScalarType::Bytes && rows.len() > 0),
                gp@ == group_positions(h@.len() as int, o as int, v as int),
                cs == column_names(rows, o as int),

                forall|x: int| 0 <= x < i ==> gn[x] != cols@[c as int]@,
            decreases gp@.len() - i,
        {
            if str_eq(h[gp[i]].name.as_str(), cols[c].as_str()) {
                let mut msg = "Pivoted column '".to_owned();
                push_str(&mut msg, cols[c].as_str());
                push_str(&mut msg, "' conflicts with grouping attribute");
                proof {
                    let cc = cols@[c as int]@;
                    assert(gn[i as int] == cc);
                    assert(views(cols@)[c as int] == cc);
                    assert(views(cols@).contains(cc));
                    assert(cs.contains(cc));
                    assert forall|dd: Seq<char>| cs.contains(dd) && gn.contains(dd) implies dd == cc || lex_less(cc, dd) by {
                        assert(views(cols@).to_set().contains(dd));
                        assert(views(cols@).contains(dd));
                        let m = choose|m: int| 0 <= m < views(cols@).len() && views(cols@)[m] == dd;
                        if m < c {
                            assert(!gn.contains(cols@[m]@));
                        } else if m > c {
                            assert(lex_less(views(cols@)[c as int], views(cols@)[m]));
                        }
                    }
                    assert(first_collision(cs, gn, cc));
                    assert(msg@ == collision_message(cc));
                }
                return Err(DatabaseError::DuplicateAttributeName(msg));
            }
            i = i + 1;
        }
        assert(!gn.contains(cols@[c as int]@));
        c = c + 1;
    }
    proof {
        assert forall|cc: Seq<char>| !first_collision(cs, gn, cc) by {
            if cs.contains(cc) && gn.contains(cc) {
                assert(views(cols@).to_set().contains(cc));
                assert(views(cols@).contains(cc));
                let m = choose|m: int| 0 <= m < views(cols@).len() && views(cols@)[m] == cc;
                assert(!gn.contains(cols@[m]@));
            }
        }
    }
    Ok((o, v, gp, cols))
}

/// The heading of the result, after checking that the default value has
/// the value attribute's type.
fn construct_pivot_heading(
    h: &Vec<Attribute>,
    gp: &Vec<usize>,
    cols: &Vec<String>,
    vt: ScalarType,
    default_value: &ScalarValue,
) -> (r: Result<(Vec<Attribute>, Vec<(bool, usize)>), DatabaseError>)
    requires
        sorted_names(h@),
        forall|i: int, j: int| 0 <= i < j < gp@.len() ==> gp@[i] < gp@[j],
        forall|i: int| 0 <= i < gp@.len() ==> #[trigger] gp@[i] < h@.len(),
        names_increasing(views(cols@)),
        forall|c: int| 0 <= c < cols@.len() ==> !group_names(h@, gp@).contains(#[trigger] cols@[c]@),
    ensures
        match r {
            Ok((hr, src)) => type_of(default_value@) == vt && sorted_names(hr@)
                && views(hr@).to_set() == pivot_attrs(h@, gp@, views(cols@).to_set(), vt)
                && sources_ok(hr@, src@, h@, gp@, views(cols@), vt),
            Err(e) => type_of(default_value@) != vt
                && pivot_failure(e) == PivotFailure::Algebra(default_message(type_of(default_value@), vt)),
        },
{
    let dt = default_value.scalar_type();
    if dt != vt {
        let mut msg = "Default value type (".to_owned();
        let a = type_label_of(dt);
        push_str(&mut msg, a.as_str());
        push_str(&mut msg, ") mismatch with value attribute (");
        let b = type_label_of(vt);
        push_str(&mut msg, b.as_str());
        push_str(&mut msg, ")");
        return Err(DatabaseError::AlgebraError(msg));
    }
    Ok(pivot_heading_of(h, gp, cols, vt))
}

/// The result relation: one tuple per group.
#[verifier::loop_isolation(false)]
fn group_and_build_tuples(
    r: &Relation,
    order: &Vec<usize>,
    o: usize,
    v: usize,
    gp: &Vec<usize>,
    cols: &Vec<String>,
    d: &ScalarValue,
    hr: Vec<Attribute>,
    src: &Vec<(bool, usize)>,
) -> (p: Relation)
    requires
        r.wf(),
        o < r.heading@.len(),
        v < r.heading@.len(),
        !(r.heading@[o as int].ty == ScalarType::Bytes && r.tuples@.len() > 0),
        type_of(d@) == r.heading@[v as int].ty,
        forall|i: int, j: int| 0 <= i < j < gp@.len() ==> gp@[i] < gp@[j],
        forall|i: int| 0 <= i < gp@.len() ==> #[trigger] gp@[i] < r.heading@.len(),
        order@.len() == r.tuples@.len(),
        forall|k: int| 0 <= k < order@.len() ==> order@[k] < r.tuples@.len(),
        names_increasing(views(cols@)),
        views(cols@).to_set() == column_names(picked(r.tuples@, order@), o as int),
        forall|c: int| 0 <= c < cols@.len() ==> !group_names(r.heading@, gp@).contains(#[trigger] cols@[c]@),
        sorted_names(hr@),
        sources_ok(hr@, src@, r.heading@, gp@, views(cols@), r.heading@[v as int].ty),
    ensures
        p.wf(),
        p.heading@ == hr@,
        p.tuple_set() == pivot_rows(hr@, picked(r.tuples@, order@), gp@, group_names(r.heading@, gp@), o as int, v as int, d@),
{
    let ghost rows = picked(r.tuples@, order@);
    let ghost gn = group_names(r.heading@, gp@);
    let ghost hv = hr@;
    let keys = group_keys(r, order, gp);
    let mut result = Relation::new(hr);
    let mut gi: usize = 0;
    assert(result.tuple_set() =~= Set::<Seq<ValueView>>::empty());
    while gi < keys.len()
        invariant
            result.wf(),
            result.heading@ == hv,
            gi <= keys@.len(),
            forall|q: Seq<ValueView>| views(keys@).contains(q) <==> exists|j: int| 0 <= j < r.tuples@.len() && q == #[trigger] key_of(rows[j], gp@),
            result.tuple_set() == Set::new(|x: Seq<ValueView>| exists|m: int| 0 <= m < gi && x == pivot_row(hv, rows, gp@, gn, o as int, v as int, d@, #[trigger] keys@[m]@)),
        decreases keys@.len() - gi,
    {
        let g = &keys[gi];
        proof {
            assert(views(keys@)[gi as int] == g@);
            assert(views(keys@).contains(g@));
        }
        let row = build_row(r, order, gp, o, v, cols, d, &result.heading, src, g);
        assert(row@ == pivot_row(hv, rows, gp@, gn, o as int, v as int, d@, keys@[gi as int]@));
        let ghost before = result.tuple_set();
        result.insert(row);
        assert(result.tuple_set() =~= Set::new(|x: Seq<ValueView>| exists|m: int| 0 <= m < gi + 1 && x == pivot_row(hv, rows, gp@, gn, o as int, v as int, d@, #[trigger] keys@[m]@))) by {
            assert forall|x: Seq<ValueView>| result.tuple_set().contains(x) implies exists|m: int| 0 <= m < gi + 1 && x == pivot_row(hv, rows, gp@, gn, o as int, v as int, d@, #[trigger] keys@[m]@) by {
                if x != pivot_row(hv, rows, gp@, gn, o as int, v as int, d@, keys@[gi as int]@) {
                    assert(before.contains(x));
                }
            }
        }
        gi = gi + 1;
    }
    assert(result.tuple_set() =~= pivot_rows(hv, rows, gp@, gn, o as int, v as int, d@)) by {
        assert forall|x: Seq<ValueView>| result.tuple_set().contains(x) implies pivot_rows(hv, rows, gp@, gn, o as int, v as int, d@).contains(x) by {
            let m = choose|m: int| 0 <= m < keys@.len() && x == pivot_row(hv, rows, gp@, gn, o as int, v as int, d@, #[trigger] keys@[m]@);
            assert(views(keys@)[m] == keys@[m]@);
            assert(views(keys@).contains(keys@[m]@));
            let j = choose|j: int| 0 <= j < r.tuples@.len() && keys@[m]@ == #[trigger] key_of(rows[j], gp@);
            assert(x == pivot_row(hv, rows, gp@, gn, o as int, v as int, d@, key_of(rows[j], gp@)));
        }
        assert forall|x: Seq<ValueView>| pivot_rows(hv, rows, gp@, gn, o as int, v as int, d@).contains(x) implies result.tuple_set().contains(x) by {
            let j = choose|j: int| 0 <= j < rows.len() && x == pivot_row(hv, rows, gp@, gn, o as int, v as int, d@, #[trigger] key_of(rows[j], gp@));
            let q = key_of(rows[j], gp@);
            assert(views(keys@).contains(q));
            let m = choose|m: int| 0 <= m < views(keys@).len() && views(keys@)[m] == q;
            assert(keys@[m]@ == q);
        }
    }
    result
}

/// Pivots a relation on attribute `on_attr`, filling the new columns with
/// the values of attribute `value_attr`, and `default_value` where a group
/// lacks a column.
pub fn pivot(relation: &Relation, on_attr: &str, value_attr: &str, default_value: ScalarValue) -> (r: Result<Relation, DatabaseError>)
    requires
        relation.wf(),
    ensures
        match r {
            Ok(p) => pivot_failure_of(relation.heading@, sorted_tuples(relation), on_attr@, value_attr@, default_value@) is None
                && is_pivot(relation, on_attr@, value_attr@, default_value@, &p),
            Err(e) => pivot_failure_of(relation.heading@, sorted_tuples(relation), on_attr@, value_attr@, default_value@)
                == Some(pivot_failure(e)),
        },
{
    let order = tuple_order(relation);
    let (o, v, gp, cols) = match scan_columns_and_validate(relation, &order, on_attr, value_attr) {
        Ok(x) => x,
        Err(e) => {
            proof {
                let h = relation.heading@;
                let rows = sorted_tuples(relation);
                let o = attr_of(h, on_attr@);
                let v = attr_of(h, value_attr@);
                let gn = group_names(h, group_positions(h.len() as int, o, v));
                let cols = column_names(rows, o);
                if o >= 0 && v >= 0 && !(h[o].ty == ScalarType::Bytes && rows.len() > 0) {
                    let c = choose|c: Seq<char>| first_collision(cols, gn, c) && pivot_failure(e) == PivotFailure::Duplicate(collision_message(c));
                    lemma_first_collision_unique(cols, gn, c, choose|c: Seq<char>| first_collision(cols, gn, c));
                }
            }
            return Err(e);
        },
    };
    let n = relation.heading.len();
    proof {
        lemma_group_positions(n as int, o as int, v as int);
    }
    let vt = relation.heading[v].ty;
    let (hr, src) = match construct_pivot_heading(&relation.heading, &gp, &cols, vt, &default_value) {
        Ok(x) => x,
        Err(e) => {
            return Err(e);
        },
    };
    let ghost hv = hr@;
    let p = group_and_build_tuples(relation, &order, o, v, &gp, &cols, &default_value, hr, &src);
    Ok(p)
}

/// Any collision between a pivoted column name and a grouping name is
/// reported: among the colliding names there is a first one in name order,
/// and it is unique, so the failure names it.
pub proof fn law_collision_reported(cols: Set<Seq<char>>, gn: Seq<Seq<char>>)
    requires
        exists|d: Seq<char>| cols.contains(d) && gn.contains(d),
    ensures
        exists|c: Seq<char>| first_collision(cols, gn, c),
        forall|a: Seq<char>, b: Seq<char>| first_collision(cols, gn, a) && first_collision(cols, gn, b) ==> a == b,
    decreases gn.len(),
{
    assert forall|a: Seq<char>, b: Seq<char>| first_collision(cols, gn, a) && first_collision(cols, gn, b) implies a == b by {
        lemma_first_collision_unique(cols, gn, a, b);
    }
    let x = gn.last();
    let pre = gn.drop_last();
    if exists|d: Seq<char>| cols.contains(d) && pre.contains(d) {
        law_collision_reported(cols, pre);
        let c = choose|c: Seq<char>| first_collision(cols, pre, c);
        let k = choose|k: int| 0 <= k < pre.len() && pre[k] == c;
        assert(gn[k] == c);
        if cols.contains(x) && lex_less(x, c) {
            assert forall|d: Seq<char>| cols.contains(d) && gn.contains(d) implies d == x || lex_less(x, d) by {
                let j = choose|j: int| 0 <= j < gn.len() && gn[j] == d;
                if j < pre.len() {
                    assert(pre[j] == d);
                    if d != c {
                        lemma_lex_transitive(x, c, d);
                    }
                }
            }
            assert(gn[gn.len() - 1] == x);
            assert(first_collision(cols, gn, x));
        } else {
            assert forall|d: Seq<char>| cols.contains(d) && gn.contains(d) implies d == c || lex_less(c, d) by {
                let j = choose|j: int| 0 <= j < gn.len() && gn[j] == d;
                if j < pre.len() {
                    assert(pre[j] == d);
                } else {
                    assert(d == x);
                    lemma_lex_total(x, c);
                }
            }
            assert(first_collision(cols, gn, c));
        }
    } else {
        let d = choose|d: Seq<char>| cols.contains(d) && gn.contains(d);
        let j = choose|j: int| 0 <= j < gn.len() && gn[j] == d;
        if j < pre.len() {
            assert(pre[j] == d);
        }
        assert(d == x);
        assert forall|e: Seq<char>| cols.contains(e) && gn.contains(e) implies e == x || lex_less(x, e) by {
            let i = choose|i: int| 0 <= i < gn.len() && gn[i] == e;
            if i < pre.len() {
                assert(pre[i] == e);
            }
        }
        assert(first_collision(cols, gn, x));
    }
}

/// The column a pivot value names is the value's text: read back as a
/// value of its type, the column name gives the pivot value again (so
/// distinct values of one type name distinct columns), and the booleans
/// name the columns `true` and `false`.
pub proof fn law_pivot_column_names(v: ValueView, b: bool)
    requires
        crate::relation::well_formed_value(v),
        v.0 != 3,
    ensures
        crate::importer::str_scalar(key_text(v), crate::relation::type_of(v)) == Ok::<ValueView, Seq<char>>(v),
        key_text(crate::importer::bool_view(b)) == (if b { "true"@ } else { "false"@ }),
        key_text(crate::importer::string_view(v.3)) == v.3,
{
    crate::importer::law_scalar_text_round_trip(v);
    reveal_strlit("true");
    reveal_strlit("false");
    assert(bool_text(true) =~= "true"@);
    assert(bool_text(false) =~= "false"@);
    assert(key_text(v) == crate::importer::value_text(v));
}

} // verus!
