//! Exporting relations as delimited text, as JSON and as ASCII tables.
//!
//! A relation is a set, but an export lists its tuples in one fixed order:
//! increasing by their values, compared attribute by attribute in heading
//! order. The same relation therefore always gives the same text.
use vstd::prelude::*;
use crate::csv::{csv_quoted, quote_csv_field, strings_view};
use crate::graph::{views, Key};
use crate::relation::{
    lemma_row_order, lemma_row_total, lemma_views_well_formed, row_less, row_lt, well_formed_value,
    fits_heading, Attribute, Relation, Row, ScalarValue, ValueView,
};
use crate::text::{
    bool_text, byte_len, concat, decimal, digits, joined, lemma_concat_step, lemma_joined_step,
    push_bool, push_char, push_digits, push_int, push_repeat, push_str, repeat, utf8_len,
};

verus! {

broadcast use vstd::seq_lib::group_seq_properties;

/// Each tuple of `s` comes before every later one.
pub open spec fn strictly_sorted(s: Seq<Seq<ValueView>>) -> bool {
    forall|i: int, j: int| 0 <= i < j < s.len() ==> row_less(#[trigger] s[i], #[trigger] s[j])
}

/// `s` lists the set `t`, each tuple once, in increasing order.
pub open spec fn lists_in_order(s: Seq<Seq<ValueView>>, t: Set<Seq<ValueView>>) -> bool {
    strictly_sorted(s) && s.to_set() == t
}

/// The tuples of `r` in increasing order.
pub open spec fn sorted_tuples(r: &Relation) -> Seq<Seq<ValueView>> {
    choose|s: Seq<Seq<ValueView>>| lists_in_order(s, r.tuple_set())
}

/// The rows at the given positions, as values.
pub open spec fn picked(rows: Seq<Row>, order: Seq<usize>) -> Seq<Seq<ValueView>> {
    order.map_values(|k: usize| rows[k as int]@)
}

/// Two increasing listings of one set are the same listing.
pub proof fn lemma_listing_unique(a: Seq<Seq<ValueView>>, b: Seq<Seq<ValueView>>)
    requires
        strictly_sorted(a),
        strictly_sorted(b),
        a.to_set() == b.to_set(),
    ensures
        a == b,
    decreases a.len(),
{
    if a.len() == 0 {
        if b.len() > 0 {
            assert(b.to_set().contains(b[0]));
        }
        assert(a =~= b);
    } else if b.len() == 0 {
        assert(a.to_set().contains(a[0]));
    } else {
        assert(a.to_set().contains(a[0]));
        assert(b.to_set().contains(b[0]));
        let j = choose|j: int| 0 <= j < b.len() && b[j] == a[0];
        let i = choose|i: int| 0 <= i < a.len() && a[i] == b[0];
        lemma_row_order(a[0], b[0], a[0]);
        lemma_row_order(b[0], a[0], b[0]);
        if j > 0 && i > 0 {
            assert(row_less(b[0], b[j]));
            assert(row_less(a[0], a[i]));
        }
        if i == 0 {
            assert(a[0] == b[0]);
        } else {
            assert(j == 0 || a[0] == b[0]);
        }
        assert(a[0] == b[0]);
        let a1 = a.drop_first();
        let b1 = b.drop_first();
        assert forall|x: Seq<ValueView>| a1.to_set().contains(x) implies b1.to_set().contains(x) by {
            let k = choose|k: int| 0 <= k < a1.len() && a1[k] == x;
            assert(a[k + 1] == x);
            assert(row_less(a[0], a[k + 1]));
            assert(a.to_set().contains(x));
            let m = choose|m: int| 0 <= m < b.len() && b[m] == x;
            if m == 0 {
                assert(row_less(a[0], a[0]));
            }
            assert(b1[m - 1] == x);
        }
        assert forall|x: Seq<ValueView>| b1.to_set().contains(x) implies a1.to_set().contains(x) by {
            let k = choose|k: int| 0 <= k < b1.len() && b1[k] == x;
            assert(b[k + 1] == x);
            assert(row_less(b[0], b[k + 1]));
            assert(b.to_set().contains(x));
            let m = choose|m: int| 0 <= m < a.len() && a[m] == x;
            if m == 0 {
                assert(row_less(b[0], b[0]));
            }
            assert(a1[m - 1] == x);
        }
        assert(a1.to_set() =~= b1.to_set());
        lemma_listing_unique(a1, b1);
        assert(a =~= seq![a[0]] + a1);
        assert(b =~= seq![b[0]] + b1);
    }
}

/// Every value of a row is a well-formed value.
proof fn lemma_row_values_well_formed(r: Row)
    ensures
        forall|i: int| 0 <= i < r@.len() ==> well_formed_value(#[trigger] r@[i]),
{
    assert forall|i: int| 0 <= i < r@.len() implies well_formed_value(#[trigger] r@[i]) by {
        lemma_views_well_formed(r.values@[i]);
    }
}

/// The positions of the tuples of `r`, in increasing order of the tuples.
pub fn sorted_order(r: &Relation) -> (order: Vec<usize>)
    requires
        r.wf(),
    ensures
        order@.len() == r.tuples@.len(),
        forall|k: int| 0 <= k < order@.len() ==> order@[k] < r.tuples@.len(),
        lists_in_order(picked(r.tuples@, order@), r.tuple_set()),
{
    let ghost rows = r.tuples@;
    let mut order: Vec<usize> = Vec::new();
    let mut i: usize = 0;
    while i < r.tuples.len()
        invariant
            rows == r.tuples@,
            views(rows).no_duplicates(),
            i <= rows.len(),
            order@.len() == i,
            forall|k: int| 0 <= k < order@.len() ==> order@[k] < i,
            strictly_sorted(picked(rows, order@)),
            picked(rows, order@).to_set() == views(rows).take(i as int).to_set(),
        decreases rows.len() - i,
    {
        let t = &r.tuples[i];
        let mut p: usize = 0;
        while p < order.len() && !row_lt(t, &r.tuples[order[p]])
            invariant
                rows == r.tuples@,
                i < rows.len(),
                *t == rows[i as int],
                p <= order@.len(),
                forall|k: int| 0 <= k < order@.len() ==> order@[k] < i,
                forall|k: int| 0 <= k < p ==> !row_less(t@, #[trigger] picked(rows, order@)[k]),
            decreases order@.len() - p,
        {
            p = p + 1;
        }
        let ghost s = picked(rows, order@);
        let ghost tv = t@;
        proof {
            lemma_row_values_well_formed(*t);
            assert forall|k: int| 0 <= k < p implies row_less(#[trigger] s[k], tv) by {
                let o = order@[k] as int;
                assert(s[k] == rows[o]@);
                assert(views(rows)[o] == s[k]);
                assert(views(rows)[i as int] == tv);
                lemma_row_values_well_formed(rows[o]);
                lemma_row_total(s[k], tv);
            }
            if p < order@.len() {
                assert forall|k: int| p <= k < s.len() implies row_less(tv, #[trigger] s[k]) by {
                    if k > p {
                        lemma_row_order(tv, s[p as int], s[k]);
                    }
                }
            }
        }
        order.insert(p, i);
        proof {
            s.insert_ensures(p as int, tv);
            let ns = picked(rows, order@);
            assert(ns =~= s.insert(p as int, tv));
            assert forall|x: int, y: int| 0 <= x < y < ns.len() implies row_less(#[trigger] ns[x], #[trigger] ns[y]) by {
                if x < p && y < p {
                } else if x < p && y == p {
                } else if x < p {
                    assert(ns[y] == s[y - 1]);
                } else if x == p {
                    assert(ns[y] == s[y - 1]);
                } else {
                    assert(ns[x] == s[x - 1]);
                    assert(ns[y] == s[y - 1]);
                }
            }
            assert(views(rows).take(i + 1) =~= views(rows).take(i as int).push(tv));
            assert forall|x: Seq<ValueView>| ns.to_set().contains(x) <==> views(rows).take(i + 1).to_set().contains(x) by {
                if ns.to_set().contains(x) {
                    let k = choose|k: int| 0 <= k < ns.len() && ns[k] == x;
                    if k < p {
                        assert(s.to_set().contains(s[k]));
                    } else if k > p {
                        assert(ns[k] == s[k - 1]);
                        assert(s.to_set().contains(s[k - 1]));
                    }
                    assert(views(rows).take(i + 1).contains(x));
                }
                if views(rows).take(i + 1).to_set().contains(x) {
                    if x == tv {
                        assert(ns[p as int] == tv);
                    } else {
                        assert(views(rows).take(i as int).to_set().contains(x));
                        assert(s.to_set().contains(x));
                        let k = choose|k: int| 0 <= k < s.len() && s[k] == x;
                        if k < p {
                            assert(ns[k] == x);
                        } else {
                            assert(ns[k + 1] == x);
                        }
                    }
                    assert(ns.contains(x));
                }
            }
            assert(ns.to_set() =~= views(rows).take(i + 1).to_set());
        }
        i = i + 1;
    }
    proof {
        assert(views(rows).take(rows.len() as int) =~= views(rows));
    }
    order
}

/// The tuples of `r` in increasing order, as positions, with their listing
/// being `sorted_tuples(r)`.
pub fn tuple_order(r: &Relation) -> (order: Vec<usize>)
    requires
        r.wf(),
    ensures
        order@.len() == r.tuples@.len(),
        forall|k: int| 0 <= k < order@.len() ==> order@[k] < r.tuples@.len(),
        picked(r.tuples@, order@) == sorted_tuples(r),
        lists_in_order(sorted_tuples(r), r.tuple_set()),
{
    let order = sorted_order(r);
    proof {
        let s = picked(r.tuples@, order@);
        assert(lists_in_order(s, r.tuple_set()));
        let c = sorted_tuples(r);
        assert(lists_in_order(c, r.tuple_set()));
        lemma_listing_unique(s, c);
    }
    order
}

/// The error type of `serde_json`, carried through unchanged.
#[verifier::external_type_specification]
#[verifier::external_body]
pub struct ExJsonError(serde_json::Error);

/// The error type of `std::fmt`, carried through unchanged.
#[verifier::external_type_specification]
#[verifier::external_body]
pub struct ExFmtError(std::fmt::Error);

/// Why an export failed.
#[derive(Debug)]
pub enum ExporterError {
    /// The JSON serializer refused the document.
    JsonError(serde_json::Error),
    /// Writing the text failed.
    FmtError(std::fmt::Error),
}

/// A tuple as a JSON object: each attribute name with its value, in
/// heading order.
pub open spec fn json_object(h: Seq<Attribute>, r: Seq<ValueView>) -> Seq<(Seq<char>, ValueView)> {
    Seq::new(h.len(), |k: int| (h[k].name@, r[k]))
}

/// The JSON objects of the tuples `rows` of heading `h`, in order.
pub open spec fn json_objects_of(h: Seq<Attribute>, rows: Seq<Seq<ValueView>>) -> Seq<Seq<(Seq<char>, ValueView)>> {
    rows.map_values(|r: Seq<ValueView>| json_object(h, r))
}

/// A list of objects of named values as mathematical data.
pub open spec fn objects_view(o: Seq<Vec<(String, ScalarValue)>>) -> Seq<Seq<(Seq<char>, ValueView)>> {
    o.map_values(|v: Vec<(String, ScalarValue)>| v@.map_values(|p: (String, ScalarValue)| (p.0@, p.1@)))
}

/// The text that `serde_json::to_string_pretty` writes for an array of
/// objects with the given members: integers as numbers, strings as strings,
/// booleans as booleans, bytes as arrays of numbers.
pub uninterp spec fn json_pretty_text(objs: Seq<Seq<(Seq<char>, ValueView)>>) -> Seq<char>;

/// `serde_json::to_string_pretty` on an array of `serde_json::Map` objects
/// built from the named values: the result is the text that the function
/// gives for them. Serializing maps with string keys and plain values does
/// not fail, so a text is always returned.
#[verifier::external_body]
fn write_json_pretty(objs: &Vec<Vec<(String, ScalarValue)>>) -> (s: String)
    ensures
        s@ == json_pretty_text(objects_view(objs@)),
{
    let value = |v: &ScalarValue| match v {
        ScalarValue::Int(i) => serde_json::Value::from(*i),
        ScalarValue::Bool(b) => serde_json::Value::from(*b),
        ScalarValue::String(t) => serde_json::Value::from(t.clone()),
        ScalarValue::Bytes(b) => serde_json::Value::from(b.clone()),
    };
    let arr: Vec<serde_json::Map<String, serde_json::Value>> =
        objs.iter().map(|o| o.iter().map(|(k, v)| (k.clone(), value(v))).collect()).collect();
    serde_json::to_string_pretty(&arr).unwrap_or_default()
}

/// The JSON objects of the relation's tuples, in increasing order of the
/// tuples.
pub fn json_objects(relation: &Relation) -> (o: Vec<Vec<(String, ScalarValue)>>)
    requires
        relation.wf(),
    ensures
        objects_view(o@) == json_objects_of(relation.heading@, sorted_tuples(relation)),
{
    let order = tuple_order(relation);
    let ghost h = relation.heading@;
    let ghost rows = sorted_tuples(relation);
    let mut out: Vec<Vec<(String, ScalarValue)>> = Vec::new();
    let mut i: usize = 0;
    while i < order.len()
        invariant
            relation.wf(),
            h == relation.heading@,
            rows == sorted_tuples(relation),
            order@.len() == rows.len(),
            picked(relation.tuples@, order@) == rows,
            forall|k: int| 0 <= k < order@.len() ==> order@[k] < relation.tuples@.len(),
            i <= order@.len(),
            objects_view(out@) == json_objects_of(h, rows.take(i as int)),
        decreases order@.len() - i,
    {
        let t = &relation.tuples[order[i]];
        proof {
            assert(fits_heading(h, *t));
            assert(rows[i as int] == t@);
        }
        let mut obj: Vec<(String, ScalarValue)> = Vec::new();
        let mut x: usize = 0;
        while x < relation.heading.len()
            invariant
                x <= h.len(),
                h == relation.heading@,
                t@.len() == h.len(),
                t.values@.len() == h.len(),
                obj@.len() == x,
                forall|y: int| 0 <= y < x ==> (#[trigger] obj@[y]).0@ == h[y].name@ && obj@[y].1@ == t@[y],
            decreases h.len() - x,
        {
            obj.push((relation.heading[x].name.clone(), t.values[x].duplicate()));
            x = x + 1;
        }
        let ghost prev = out@;
        out.push(obj);
        proof {
            let ov = obj@.map_values(|p: (String, ScalarValue)| (p.0@, p.1@));
            assert(ov =~= json_object(h, t@));
            assert(objects_view(out@) =~= objects_view(prev).push(ov));
            assert(rows.take(i + 1) =~= rows.take(i as int).push(rows[i as int]));
            assert(json_objects_of(h, rows.take(i + 1)) =~= json_objects_of(h, rows.take(i as int)).push(json_object(h, rows[i as int])));
        }
        i = i + 1;
    }
    proof {
        assert(rows.take(rows.len() as int) =~= rows);
    }
    out
}

/// The relation as a pretty-printed JSON array of objects, one per tuple in
/// increasing order, each naming every attribute.
pub fn to_json(relation: &Relation) -> (r: Result<String, ExporterError>)
    requires
        relation.wf(),
    ensures
        r matches Ok(s) && s@ == json_pretty_text(json_objects_of(relation.heading@, sorted_tuples(relation))),
{
    let objs = json_objects(relation);
    Ok(write_json_pretty(&objs))
}

/// A byte list as written for debugging: `[1, 2, 3]`.
pub open spec fn bytes_list(b: Seq<u8>) -> Seq<char> {
    seq!['['] + joined(b.map_values(|x: u8| digits(x as nat)), seq![',', ' ']) + seq![']']
}

/// A value as a delimited-text cell: numbers in decimal, booleans as
/// `true`/`false`, strings quoted with their quotes doubled, bytes as a list.
pub open spec fn csv_cell(v: ValueView) -> Seq<char> {
    if v.0 == 0 {
        decimal(v.1 as int)
    } else if v.0 == 1 {
        bool_text(v.2)
    } else if v.0 == 2 {
        csv_quoted(v.3)
    } else {
        bytes_list(v.4)
    }
}

/// A line of cells separated by the delimiter.
pub open spec fn csv_line(cells: Seq<Seq<char>>, d: char) -> Seq<char> {
    joined(cells, seq![d]) + seq!['\n']
}

/// The cells of a tuple.
pub open spec fn csv_cells(r: Seq<ValueView>) -> Seq<Seq<char>> {
    r.map_values(|v: ValueView| csv_cell(v))
}

/// The attribute names of a heading.
pub open spec fn names(h: Seq<Attribute>) -> Seq<Seq<char>> {
    h.map_values(|a: Attribute| a.name@)
}

/// The delimited text of a heading and tuples: a header line of attribute
/// names, then one line per tuple in the given order.
pub open spec fn csv_text(h: Seq<Attribute>, rows: Seq<Seq<ValueView>>, d: char) -> Seq<char> {
    csv_line(names(h), d) + concat(rows.map_values(|r: Seq<ValueView>| csv_line(csv_cells(r), d)))
}

/// Appends a byte list.
fn push_bytes(s: &mut String, b: &Vec<u8>)
    ensures
        final(s)@ == old(s)@ + bytes_list(b@),
{
    let ghost parts = b@.map_values(|x: u8| digits(x as nat));
    let ghost start = s@;
    push_char(s, '[');
    let mut j: usize = 0;
    while j < b.len()
        invariant
            j <= b@.len(),
            parts == b@.map_values(|x: u8| digits(x as nat)),
            s@ == start + seq!['['] + joined(parts.take(j as int), seq![',', ' ']),
        decreases b@.len() - j,
    {
        proof {
            lemma_joined_step(parts, seq![',', ' '], j as int);
        }
        if j > 0 {
            push_char(s, ',');
            push_char(s, ' ');
        }
        push_digits(s, b[j] as u64);
        proof {
            if j == 0 {
                assert(s@ =~= start + seq!['['] + joined(parts.take(1), seq![',', ' ']));
            } else {
                assert(s@ =~= start + seq!['['] + joined(parts.take(j + 1), seq![',', ' ']));
            }
        }
        j = j + 1;
    }
    assert(parts.take(b@.len() as int) =~= parts);
    push_char(s, ']');
}

/// Appends a value as a delimited-text cell.
fn push_csv_cell(s: &mut String, v: &ScalarValue)
    ensures
        final(s)@ == old(s)@ + csv_cell(v@),
{
    match v {
        ScalarValue::Int(x) => push_int(s, *x),
        ScalarValue::Bool(x) => push_bool(s, *x),
        ScalarValue::String(x) => {
            let q = quote_csv_field(x.as_str());
            push_str(s, q.as_str());
        },
        ScalarValue::Bytes(x) => push_bytes(s, x),
    }
}

/// Appends a tuple as a line of cells.
fn push_csv_row(s: &mut String, r: &Row, d: char)
    ensures
        final(s)@ == old(s)@ + csv_line(csv_cells(r@), d),
{
    let ghost cells = csv_cells(r@);
    let ghost start = s@;
    let mut i: usize = 0;
    while i < r.values.len()
        invariant
            i <= r@.len(),
            r@.len() == r.values@.len(),
            cells == csv_cells(r@),
            s@ == start + joined(cells.take(i as int), seq![d]),
        decreases r@.len() - i,
    {
        proof {
            lemma_joined_step(cells, seq![d], i as int);
            assert(cells[i as int] == csv_cell(r.values@[i as int]@));
        }
        if i > 0 {
            push_char(s, d);
        }
        push_csv_cell(s, &r.values[i]);
        proof {
            if i == 0 {
                assert(s@ =~= start + joined(cells.take(1), seq![d]));
            } else {
                assert(s@ =~= start + joined(cells.take(i + 1), seq![d]));
            }
        }
        i = i + 1;
    }
    assert(cells.take(r@.len() as int) =~= cells);
    push_char(s, '\n');
}

/// Appends the header line of attribute names.
fn push_csv_header(s: &mut String, h: &Vec<Attribute>, d: char)
    ensures
        final(s)@ == old(s)@ + csv_line(names(h@), d),
{
    let ghost parts = names(h@);
    let ghost start = s@;
    let mut i: usize = 0;
    while i < h.len()
        invariant
            i <= h@.len(),
            parts == names(h@),
            s@ == start + joined(parts.take(i as int), seq![d]),
        decreases h@.len() - i,
    {
        proof {
            lemma_joined_step(parts, seq![d], i as int);
        }
        if i > 0 {
            push_char(s, d);
        }
        push_str(s, h[i].name.as_str());
        proof {
            if i == 0 {
                assert(s@ =~= start + joined(parts.take(1), seq![d]));
            } else {
                assert(s@ =~= start + joined(parts.take(i + 1), seq![d]));
            }
        }
        i = i + 1;
    }
    assert(parts.take(h@.len() as int) =~= parts);
    push_char(s, '\n');
}

/// The relation as delimited text: a header line of the attribute names,
/// then one line per tuple, tuples in increasing order; strings are quoted.
pub fn to_csv(relation: &Relation, delimiter: char) -> (r: Result<String, ExporterError>)
    requires
        relation.wf(),
    ensures
        r matches Ok(s) && s@ == csv_text(relation.heading@, sorted_tuples(relation), delimiter),
{
    let order = tuple_order(relation);
    let ghost rows = sorted_tuples(relation);
    let ghost lines = rows.map_values(|q: Seq<ValueView>| csv_line(csv_cells(q), delimiter));
    let mut out = String::new();
    push_csv_header(&mut out, &relation.heading, delimiter);
    let ghost head = out@;
    let mut k: usize = 0;
    while k < order.len()
        invariant
            k <= order@.len(),
            order@.len() == relation.tuples@.len(),
            forall|m: int| 0 <= m < order@.len() ==> order@[m] < relation.tuples@.len(),
            picked(relation.tuples@, order@) == rows,
            lines == rows.map_values(|q: Seq<ValueView>| csv_line(csv_cells(q), delimiter)),
            head == csv_line(names(relation.heading@), delimiter),
            out@ == head + concat(lines.take(k as int)),
        decreases order@.len() - k,
    {
        proof {
            lemma_concat_step(lines, k as int);
            assert(rows[k as int] == relation.tuples@[order@[k as int] as int]@);
        }
        push_csv_row(&mut out, &relation.tuples[order[k]], delimiter);
        k = k + 1;
    }
    assert(lines.take(order@.len() as int) =~= lines);
    Ok(out)
}

/// A value as a table cell: numbers in decimal, booleans as `true` or
/// `false`, strings as they are, bytes as `<Bytes>`.
pub open spec fn table_cell(v: ValueView) -> Seq<char> {
    if v.0 == 0 {
        decimal(v.1 as int)
    } else if v.0 == 1 {
        bool_text(v.2)
    } else if v.0 == 2 {
        v.3
    } else {
        seq!['<', 'B', 'y', 't', 'e', 's', '>']
    }
}

/// The table cells of a tuple.
pub open spec fn table_cells(r: Seq<ValueView>) -> Seq<Seq<char>> {
    r.map_values(|v: ValueView| table_cell(v))
}

/// The width in bytes of column `i` over its name and the first `n` rows:
/// the longest of them.
pub open spec fn column_width(h: Seq<Attribute>, rows: Seq<Seq<ValueView>>, i: int, n: int) -> nat
    decreases n,
{
    if n <= 0 {
        utf8_len(h[i].name@)
    } else {
        let w = column_width(h, rows, i, n - 1);
        let c = utf8_len(table_cell(rows[n - 1][i]));
        if c > w {
            c
        } else {
            w
        }
    }
}

/// The widths of all columns over all rows.
pub open spec fn column_widths(h: Seq<Attribute>, rows: Seq<Seq<ValueView>>) -> Seq<nat> {
    Seq::new(h.len(), |i: int| column_width(h, rows, i, rows.len() as int))
}

/// Widths as natural numbers.
pub open spec fn nat_widths(ws: Seq<usize>) -> Seq<nat> {
    ws.map_values(|w: usize| w as nat)
}

/// A border line: `+`, then for each column `w + 2` dashes and `+`.
pub open spec fn border(ws: Seq<nat>) -> Seq<char> {
    seq!['+'] + concat(ws.map_values(|w: nat| seq!['-'] + repeat('-', w) + seq!['-', '+'])) + seq!['\n']
}

/// A cell padded with spaces to width `w`, then the column bar.
pub open spec fn padded(cell: Seq<char>, w: nat) -> Seq<char> {
    seq![' '] + cell + repeat(' ', (w - utf8_len(cell)) as nat) + seq![' ', '|']
}

/// A table line: `|`, then each cell padded to its column's width.
pub open spec fn table_line(cells: Seq<Seq<char>>, ws: Seq<nat>) -> Seq<char> {
    seq!['|'] + concat(Seq::new(cells.len(), |i: int| padded(cells[i], ws[i]))) + seq!['\n']
}

/// What a relation without attributes is shown as.
pub open spec fn empty_table() -> Seq<char> {
    seq!['(', 'e', 'm', 'p', 't', 'y', ' ', 'r', 'e', 'l', 'a', 't', 'i', 'o', 'n', ')']
}

/// The ASCII table of a heading and tuples: a border, the line of names, a
/// border, one line per tuple in the given order, and a closing border;
/// each column as wide as its widest entry.
pub open spec fn table_text(h: Seq<Attribute>, rows: Seq<Seq<ValueView>>) -> Seq<char> {
    if h.len() == 0 {
        empty_table()
    } else {
        let ws = column_widths(h, rows);
        border(ws) + table_line(names(h), ws) + border(ws) + concat(
            rows.map_values(|r: Seq<ValueView>| table_line(table_cells(r), ws)),
        ) + border(ws)
    }
}

/// A value as a table cell.
fn format_scalar_table(v: &ScalarValue) -> (s: String)
    ensures
        s@ == table_cell(v@),
{
    match v {
        ScalarValue::Int(x) => {
            let mut s = String::new();
            push_int(&mut s, *x);
            s
        },
        ScalarValue::Bool(x) => {
            let mut s = String::new();
            push_bool(&mut s, *x);
            s
        },
        ScalarValue::String(x) => x.clone(),
        ScalarValue::Bytes(_) => {
            let mut s = String::new();
            push_char(&mut s, '<');
            push_char(&mut s, 'B');
            push_char(&mut s, 'y');
            push_char(&mut s, 't');
            push_char(&mut s, 'e');
            push_char(&mut s, 's');
            push_char(&mut s, '>');
            assert(s@ =~= table_cell(v@));
            s
        },
    }
}

/// Appends a border line.
fn push_border(s: &mut String, ws: &Vec<usize>)
    ensures
        final(s)@ == old(s)@ + border(nat_widths(ws@)),
{
    let ghost parts = nat_widths(ws@).map_values(|w: nat| seq!['-'] + repeat('-', w) + seq!['-', '+']);
    push_char(s, '+');
    let ghost start = s@;
    let mut i: usize = 0;
    while i < ws.len()
        invariant
            i <= ws@.len(),
            parts == nat_widths(ws@).map_values(|w: nat| seq!['-'] + repeat('-', w) + seq!['-', '+']),
            s@ == start + concat(parts.take(i as int)),
        decreases ws@.len() - i,
    {
        proof {
            lemma_concat_step(parts, i as int);
        }
        push_char(s, '-');
        push_repeat(s, '-', ws[i]);
        push_char(s, '-');
        push_char(s, '+');
        assert(s@ =~= start + concat(parts.take(i + 1)));
        i = i + 1;
    }
    assert(parts.take(ws@.len() as int) =~= parts);
    push_char(s, '\n');
}

/// Appends a table line of cells padded to the widths.
fn push_table_line(s: &mut String, cells: &Vec<String>, ws: &Vec<usize>)
    requires
        cells@.len() == ws@.len(),
        forall|i: int| 0 <= i < cells@.len() ==> utf8_len(#[trigger] cells@[i]@) <= ws@[i],
    ensures
        final(s)@ == old(s)@ + table_line(strings_view(cells@), nat_widths(ws@)),
{
    let ghost cv = strings_view(cells@);
    let ghost wn = nat_widths(ws@);
    let ghost parts = Seq::new(cv.len(), |i: int| padded(cv[i], wn[i]));
    push_char(s, '|');
    let ghost start = s@;
    let mut i: usize = 0;
    while i < cells.len()
        invariant
            i <= cells@.len(),
            cells@.len() == ws@.len(),
            forall|k: int| 0 <= k < cells@.len() ==> utf8_len(#[trigger] cells@[k]@) <= ws@[k],
            cv == strings_view(cells@),
            wn == nat_widths(ws@),
            parts == Seq::new(cv.len(), |k: int| padded(cv[k], wn[k])),
            s@ == start + concat(parts.take(i as int)),
        decreases cells@.len() - i,
    {
        proof {
            lemma_concat_step(parts, i as int);
        }
        let n = byte_len(cells[i].as_str());
        push_char(s, ' ');
        push_str(s, cells[i].as_str());
        push_repeat(s, ' ', ws[i] - n);
        push_char(s, ' ');
        push_char(s, '|');
        assert(s@ =~= start + concat(parts.take(i + 1)));
        i = i + 1;
    }
    assert(parts.take(cells@.len() as int) =~= parts);
    push_char(s, '\n');
}

/// The relation as an ASCII table: bordered header and tuple lines, the
/// tuples in increasing order, every column padded to its widest entry.
pub fn to_ascii_table(relation: &Relation) -> (t: String)
    requires
        relation.wf(),
    ensures
        t@ == table_text(relation.heading@, sorted_tuples(relation)),
{
    let h = &relation.heading;
    if h.len() == 0 {
        let mut out = String::new();
        push_str(&mut out, "(empty relation)");
        proof {
            reveal_strlit("(empty relation)");
        }
        assert(out@ =~= empty_table());
        return out;
    }
    let order = tuple_order(relation);
    let ghost rows = sorted_tuples(relation);
    let n = h.len();
    // The name of each column, and its width so far.
    let mut heads: Vec<String> = Vec::new();
    let mut widths: Vec<usize> = Vec::new();
    let mut i: usize = 0;
    while i < n
        invariant
            n == h@.len(),
            i <= n,
            heads@.len() == i,
            widths@.len() == i,
            forall|k: int| 0 <= k < i ==> (#[trigger] heads@[k])@ == h@[k].name@,
            forall|k: int| 0 <= k < i ==> #[trigger] widths@[k] == column_width(h@, rows, k, 0),
        decreases n - i,
    {
        let name = h[i].name.clone();
        let w = byte_len(name.as_str());
        heads.push(name);
        widths.push(w);
        i = i + 1;
    }
    // The cells of each tuple, widening the columns as they come.
    let mut table: Vec<Vec<String>> = Vec::new();
    let mut k: usize = 0;
    while k < order.len()
        invariant
            n == h@.len(),
            k <= order@.len(),
            order@.len() == relation.tuples@.len(),
            forall|m: int| 0 <= m < order@.len() ==> order@[m] < relation.tuples@.len(),
            forall|m: int| 0 <= m < relation.tuples@.len() ==> relation.tuples@[m]@.len() == n,
            picked(relation.tuples@, order@) == rows,
            table@.len() == k,
            forall|m: int| 0 <= m < k ==> strings_view((#[trigger] table@[m])@) == table_cells(rows[m]),
            widths@.len() == n,
            forall|c: int| 0 <= c < n ==> #[trigger] widths@[c] == column_width(h@, rows, c, k as int),
        decreases order@.len() - k,
    {
        let row = &relation.tuples[order[k]];
        assert(rows[k as int] == row@);
        let mut cells: Vec<String> = Vec::new();
        let mut c: usize = 0;
        while c < n
            invariant
                n == h@.len(),
                row@.len() == n,
                row.values@.len() == n,
                rows[k as int] == row@,
                c <= n,
                cells@.len() == c,
                forall|m: int| 0 <= m < c ==> (#[trigger] cells@[m])@ == table_cell(row@[m]),
                widths@.len() == n,
                forall|m: int| 0 <= m < c ==> #[trigger] widths@[m] == column_width(h@, rows, m, k + 1),
                forall|m: int| c <= m < n ==> #[trigger] widths@[m] == column_width(h@, rows, m, k as int),
            decreases n - c,
        {
            let cell = format_scalar_table(&row.values[c]);
            let w = byte_len(cell.as_str());
            if w > widths[c] {
                widths.set(c, w);
            }
            cells.push(cell);
            c = c + 1;
        }
        assert(strings_view(cells@) =~= table_cells(rows[k as int]));
        table.push(cells);
        k = k + 1;
    }
    let ghost ws = column_widths(h@, rows);
    assert(nat_widths(widths@) =~= ws);
    assert(strings_view(heads@) =~= names(h@));
    proof {
        assert forall|c: int| 0 <= c < n implies utf8_len(#[trigger] heads@[c]@) <= widths@[c] by {
            lemma_width_covers(h@, rows, c, rows.len() as int);
        }
    }
    let mut out = String::new();
    push_border(&mut out, &widths);
    push_table_line(&mut out, &heads, &widths);
    push_border(&mut out, &widths);
    let ghost lines = rows.map_values(|r: Seq<ValueView>| table_line(table_cells(r), ws));
    let ghost top = out@;
    let mut k: usize = 0;
    while k < table.len()
        invariant
            n == h@.len(),
            k <= table@.len(),
            table@.len() == rows.len(),
            forall|m: int| 0 <= m < table@.len() ==> strings_view((#[trigger] table@[m])@) == table_cells(rows[m]),
            forall|m: int| 0 <= m < rows.len() ==> (#[trigger] rows[m]).len() == n,
            widths@.len() == n,
            nat_widths(widths@) == ws,
            ws == column_widths(h@, rows),
            lines == rows.map_values(|r: Seq<ValueView>| table_line(table_cells(r), ws)),
            out@ == top + concat(lines.take(k as int)),
        decreases table@.len() - k,
    {
        proof {
            lemma_concat_step(lines, k as int);
            let tc = table@[k as int];
            assert forall|c: int| 0 <= c < tc@.len() implies utf8_len(#[trigger] tc@[c]@) <= widths@[c] by {
                assert(strings_view(tc@)[c] == table_cell(rows[k as int][c]));
                assert(c < n);
                assert(nat_widths(widths@)[c] == ws[c]);
                lemma_width_covers(h@, rows, c, rows.len() as int);
            }
        }
        push_table_line(&mut out, &table[k], &widths);
        k = k + 1;
    }
    assert(lines.take(table@.len() as int) =~= lines);
    push_border(&mut out, &widths);
    out
}

/// A column is at least as wide as its name and as each cell counted.
proof fn lemma_width_covers(h: Seq<Attribute>, rows: Seq<Seq<ValueView>>, c: int, n: int)
    ensures
        utf8_len(h[c].name@) <= column_width(h, rows, c, n),
        forall|m: int| 0 <= m < n ==> utf8_len(table_cell(#[trigger] rows[m][c])) <= column_width(h, rows, c, n),
    decreases n,
{
    if n > 0 {
        lemma_width_covers(h, rows, c, n - 1);
    }
}

/// Export is deterministic: two relations with the same heading and the
/// same set of tuples, whatever order their tuples were added in, export to
/// the same CSV text and the same table.
pub proof fn law_export_deterministic(a: &Relation, b: &Relation, delimiter: char)
    requires
        a.heading@ == b.heading@,
        a.tuple_set() == b.tuple_set(),
    ensures
        sorted_tuples(a) == sorted_tuples(b),
        csv_text(a.heading@, sorted_tuples(a), delimiter) == csv_text(b.heading@, sorted_tuples(b), delimiter),
        table_text(a.heading@, sorted_tuples(a)) == table_text(b.heading@, sorted_tuples(b)),
{
}

/// The number of line breaks in a text.
pub open spec fn newlines(s: Seq<char>) -> nat
    decreases s.len(),
{
    if s.len() == 0 {
        0
    } else {
        newlines(s.drop_last()) + if s.last() == '\n' { 1nat } else { 0nat }
    }
}

proof fn lemma_newlines_add(a: Seq<char>, b: Seq<char>)
    ensures
        newlines(a + b) == newlines(a) + newlines(b),
    decreases b.len(),
{
    if b.len() > 0 {
        lemma_newlines_add(a, b.drop_last());
        assert((a + b).drop_last() =~= a + b.drop_last());
        assert((a + b).last() == b.last());
    } else {
        assert(a + b =~= a);
    }
}

proof fn lemma_newlines_none(s: Seq<char>)
    requires
        forall|i: int| 0 <= i < s.len() ==> s[i] != '\n',
    ensures
        newlines(s) == 0,
    decreases s.len(),
{
    if s.len() > 0 {
        lemma_newlines_none(s.drop_last());
    }
}

proof fn lemma_newlines_concat(parts: Seq<Seq<char>>, k: nat)
    requires
        forall|i: int| 0 <= i < parts.len() ==> newlines(#[trigger] parts[i]) == k,
    ensures
        newlines(concat(parts)) == parts.len() * k,
    decreases parts.len(),
{
    if parts.len() > 0 {
        lemma_newlines_concat(parts.drop_last(), k);
        lemma_newlines_add(concat(parts.drop_last()), parts.last());
        assert(newlines(parts.last()) == k);
        assert((parts.len() - 1) * k + k == parts.len() * k) by (nonlinear_arith);
    } else {
        assert(newlines(concat(parts)) == 0);
    }
}

proof fn lemma_border_newlines(ws: Seq<nat>)
    ensures
        newlines(border(ws)) == 1,
{
    let groups = ws.map_values(|w: nat| seq!['-'] + repeat('-', w) + seq!['-', '+']);
    assert forall|i: int| 0 <= i < groups.len() implies newlines(#[trigger] groups[i]) == 0 by {
        let g = groups[i];
        assert forall|j: int| 0 <= j < g.len() implies g[j] != '\n' by {
            assert(g == seq!['-'] + repeat('-', ws[i]) + seq!['-', '+']);
        }
        lemma_newlines_none(g);
    }
    lemma_newlines_concat(groups, 0);
    lemma_newlines_add(seq!['+'], concat(groups));
    lemma_newlines_add(seq!['+'] + concat(groups), seq!['\n']);
    lemma_newlines_none(seq!['+']);
    assert(newlines(seq!['\n']) == 1) by {
        assert(seq!['\n'].drop_last().len() == 0);
    }
}

proof fn lemma_line_newlines(cells: Seq<Seq<char>>, ws: Seq<nat>)
    requires
        cells.len() <= ws.len(),
        forall|i: int| 0 <= i < cells.len() ==> newlines(#[trigger] cells[i]) == 0,
    ensures
        newlines(table_line(cells, ws)) == 1,
{
    let ps = Seq::new(cells.len(), |i: int| padded(cells[i], ws[i]));
    assert forall|i: int| 0 <= i < ps.len() implies newlines(#[trigger] ps[i]) == 0 by {
        let c = cells[i];
        let pad = repeat(' ', (ws[i] - utf8_len(c)) as nat);
        assert(ps[i] == seq![' '] + c + pad + seq![' ', '|']);
        lemma_newlines_none(seq![' ']);
        lemma_newlines_none(pad);
        lemma_newlines_none(seq![' ', '|']);
        lemma_newlines_add(seq![' '], c);
        lemma_newlines_add(seq![' '] + c, pad);
        lemma_newlines_add(seq![' '] + c + pad, seq![' ', '|']);
    }
    lemma_newlines_concat(ps, 0);
    lemma_newlines_none(seq!['|']);
    lemma_newlines_add(seq!['|'], concat(ps));
    lemma_newlines_add(seq!['|'] + concat(ps), seq!['\n']);
    assert(newlines(seq!['\n']) == 1) by {
        assert(seq!['\n'].drop_last().len() == 0);
    }
}

/// An ASCII table has one line per tuple and four more (three borders and
/// the line of names), each ended by a line break, when no name and no
/// cell holds a line break of its own; a relation without attributes is
/// shown as one text without a line break.
pub proof fn law_table_line_count(h: Seq<Attribute>, rows: Seq<Seq<ValueView>>)
    requires
        forall|i: int| 0 <= i < h.len() ==> newlines((#[trigger] h[i]).name@) == 0,
        forall|k: int, i: int| 0 <= k < rows.len() && 0 <= i < rows[k].len() ==> newlines(table_cell(#[trigger] rows[k][i])) == 0,
        forall|k: int| 0 <= k < rows.len() ==> (#[trigger] rows[k]).len() == h.len(),
    ensures
        h.len() == 0 ==> table_text(h, rows) == empty_table() && newlines(table_text(h, rows)) == 0,
        h.len() > 0 ==> newlines(table_text(h, rows)) == rows.len() + 4,
        h.len() > 0 ==> table_text(h, rows).last() == '\n',
{
    if h.len() == 0 {
        lemma_newlines_none(empty_table());
    } else {
        let ws = column_widths(h, rows);
        let lines = rows.map_values(|r: Seq<ValueView>| table_line(table_cells(r), ws));
        lemma_border_newlines(ws);
        assert forall|i: int| 0 <= i < names(h).len() implies newlines(#[trigger] names(h)[i]) == 0 by {
            assert(names(h)[i] == h[i].name@);
        }
        lemma_line_newlines(names(h), ws);
        assert forall|k: int| 0 <= k < lines.len() implies newlines(#[trigger] lines[k]) == 1 by {
            let cs = table_cells(rows[k]);
            assert forall|i: int| 0 <= i < cs.len() implies newlines(#[trigger] cs[i]) == 0 by {
                assert(cs[i] == table_cell(rows[k][i]));
            }
            lemma_line_newlines(cs, ws);
        }
        lemma_newlines_concat(lines, 1);
        let b = border(ws);
        let l = table_line(names(h), ws);
        lemma_newlines_add(b, l);
        lemma_newlines_add(b + l, b);
        lemma_newlines_add(b + l + b, concat(lines));
        lemma_newlines_add(b + l + b + concat(lines), b);
        assert((b + l + b + concat(lines) + b).last() == b.last());
    }
}

} // verus!
