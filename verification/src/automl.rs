//! The counting behind a naive Bayes classifier: how often each class
//! occurs among the tuples, and how often each value of each feature occurs
//! with each class. Values are compared by their text: integers in decimal,
//! booleans as `true` or `false`, strings as they are, bytes as written for
//! debugging.
use vstd::prelude::*;
use crate::exporter::bytes_list;
use crate::graph::views;
use crate::pivot::{pivot_failure, DatabaseError, PivotFailure};
use crate::relation::{Relation, ScalarValue, ValueView};
use crate::text::{bool_text, decimal, push_bool, push_char, push_digits, push_int, push_str, str_eq};
use crate::importer::attr_of;
use crate::differ::position_of;

verus! {

broadcast use vstd::seq_lib::group_seq_properties;

/// The text of a value as a class or feature value.
pub open spec fn label_text(v: ValueView) -> Seq<char> {
    if v.0 == 0 {
        decimal(v.1 as int)
    } else if v.0 == 1 {
        bool_text(v.2)
    } else if v.0 == 2 {
        v.3
    } else {
        seq!['B', 'y', 't', 'e', 's', '('] + bytes_list(v.4) + seq![')']
    }
}

/// The text of a value.
pub fn scalar_label(v: &ScalarValue) -> (s: String)
    ensures
        s@ == label_text(v@),
{
    match v {
        ScalarValue::Int(x) => {
            let mut s = String::new();
            push_int(&mut s, *x);
            s
        },
        ScalarValue::Bool(x) => {
            let mut s = String::new();
            push_bool(&mut s, *x);
            s
        },
        ScalarValue::String(x) => x.clone(),
        ScalarValue::Bytes(b) => {
            let mut s = "Bytes(".to_owned();
            proof {
                reveal_strlit("Bytes(");
            }
            assert(s@ =~= seq!['B', 'y', 't', 'e', 's', '(']);
            push_list(&mut s, b);
            push_char(&mut s, ')');
            s
        },
    }
}

/// Appends a byte list.
fn push_list(s: &mut String, b: &Vec<u8>)
    ensures
        final(s)@ == old(s)@ + bytes_list(b@),
{
    let ghost parts = b@.map_values(|x: u8| crate::text::digits(x as nat));
    let ghost start = s@;
    push_char(s, '[');
    let mut j: usize = 0;
    while j < b.len()
        invariant
            j <= b@.len(),
            parts == b@.map_values(|x: u8| crate::text::digits(x as nat)),
            s@ == start + seq!['['] + crate::text::joined(parts.take(j as int), seq![',', ' ']),
        decreases b@.len() - j,
    {
        proof {
            crate::text::lemma_joined_step(parts, seq![',', ' '], j as int);
        }
        if j > 0 {
            push_char(s, ',');
            push_char(s, ' ');
        }
        push_digits(s, b[j] as u64);
        proof {
            if j == 0 {
                assert(s@ =~= start + seq!['['] + crate::text::joined(parts.take(1), seq![',', ' ']));
            } else {
                assert(s@ =~= start + seq!['['] + crate::text::joined(parts.take(j + 1), seq![',', ' ']));
            }
        }
        j = j + 1;
    }
    assert(parts.take(b@.len() as int) =~= parts);
    push_char(s, ']');
}

/// How many of the first `n` tuples have label `c` at position `p` and,
/// when `q` is some position, label `d` there.
pub open spec fn count_labels(rows: Seq<Seq<ValueView>>, p: int, c: Seq<char>, q: Option<int>, d: Seq<char>, n: int) -> nat
    decreases n,
{
    if n <= 0 {
        0
    } else {
        count_labels(rows, p, c, q, d, n - 1) + if label_text(rows[n - 1][p]) == c && match q {
            Some(q) => label_text(rows[n - 1][q]) == d,
            None => d.len() == 0,
        } {
            1nat
        } else {
            0nat
        }
    }
}

/// The labels at position `p`, with the labels at `q` when given.
pub open spec fn label_pair(r: Seq<ValueView>, p: int, q: Option<int>) -> (Seq<char>, Seq<char>) {
    (label_text(r[p]), match q {
        Some(q) => label_text(r[q]),
        None => Seq::empty(),
    })
}

/// The label pairs of count entries.
pub open spec fn entry_keys(out: Seq<(Seq<char>, Seq<char>, usize)>) -> Seq<(Seq<char>, Seq<char>)> {
    out.map_values(|e: (Seq<char>, Seq<char>, usize)| (e.0, e.1))
}

/// Each distinct label (pair) of the tuples once, with how many tuples
/// have it.
pub open spec fn counted(
    rows: Seq<Seq<ValueView>>,
    p: int,
    q: Option<int>,
    out: Seq<(Seq<char>, Seq<char>, usize)>,
) -> bool {
    &&& entry_keys(out).no_duplicates()
    &&& forall|k: int| 0 <= k < out.len() ==> (#[trigger] out[k]).2 == count_labels(rows, p, out[k].0, q, out[k].1, rows.len() as int)
    &&& forall|x: (Seq<char>, Seq<char>)| #[trigger] entry_keys(out).contains(x)
        <==> exists|k: int| 0 <= k < rows.len() && #[trigger] label_pair(rows[k], p, q) == x
}

/// A count entry as text.
pub open spec fn entry_view(e: (String, String, usize)) -> (Seq<char>, Seq<char>, usize) {
    (e.0@, e.1@, e.2)
}

/// The distinct labels at position `p` of the tuples (paired with those at
/// `q` when given), in the order they first occur, with their counts.
pub fn label_counts(r: &Relation, p: usize, q: Option<usize>) -> (out: Vec<(String, String, usize)>)
    requires
        r.wf(),
        p < r.heading@.len(),
        q matches Some(q) ==> q < r.heading@.len(),
    ensures
        counted(views(r.tuples@), p as int, match q {
            Some(q) => Some(q as int),
            None => None,
        }, out@.map_values(|e: (String, String, usize)| entry_view(e))),
{
    let ghost rows = views(r.tuples@);
    let ghost qi: Option<int> = match q {
        Some(q) => Some(q as int),
        None => None,
    };
    let mut out: Vec<(String, String, usize)> = Vec::new();
    let mut k: usize = 0;
    while k < r.tuples.len()
        invariant
            rows == views(r.tuples@),
            r.wf(),
            p < r.heading@.len(),
            q matches Some(q) ==> q < r.heading@.len(),
            qi == match q {
                Some(q) => Some(q as int),
                None => None::<int>,
            },
            k <= rows.len(),
            counted(rows.take(k as int), p as int, qi, out@.map_values(|e: (String, String, usize)| entry_view(e))),
            forall|m: int| 0 <= m < out@.len() ==> (#[trigger] out@[m]).2 <= k,
        decreases rows.len() - k,
    {
        let t = &r.tuples[k];
        assert(crate::relation::fits_heading(r.heading@, *t));
        assert(t@.len() == t.values@.len());
        assert(rows[k as int] == t@);
        let a = scalar_label(&t.values[p]);
        let b = match q {
            Some(q) => scalar_label(&t.values[q]),
            None => String::new(),
        };
        let ghost pair = (a@, b@);
        assert(label_pair(rows[k as int], p as int, qi) == pair);
        let ghost ov = out@.map_values(|e: (String, String, usize)| entry_view(e));
        let ghost keys = entry_keys(ov);
        let ghost prev = rows.take(k as int);
        let ghost next = rows.take(k + 1);
        assert(next.drop_last() == prev);
        assert(next[k as int] == rows[k as int]);
        // Find the entry of this pair.
        let mut m: usize = 0;
        let mut found = false;
        while m < out.len() && !found
            invariant
                m <= out@.len(),
                ov == out@.map_values(|e: (String, String, usize)| entry_view(e)),
                found ==> m < out@.len() && (ov[m as int].0, ov[m as int].1) == pair,
                !found ==> forall|x: int| 0 <= x < m ==> (ov[x].0, ov[x].1) != pair,
                pair == (a@, b@),
            decreases out@.len() - m, if found { 0int } else { 1int },
        {
            if str_eq(out[m].0.as_str(), a.as_str()) && str_eq(out[m].1.as_str(), b.as_str()) {
                found = true;
            } else {
                m = m + 1;
            }
        }
        proof {
            assert forall|c: Seq<char>, d: Seq<char>| count_labels(next, p as int, c, qi, d, k + 1)
                == count_labels(prev, p as int, c, qi, d, k as int) + if (c, d) == pair { 1nat } else { 0nat } by {
                lemma_count_labels_prefix(next, prev, p as int, c, qi, d, k as int);
            }
        }
        if found {
            let n = out[m].2;
            assert(ov[m as int] == entry_view(out@[m as int]));
            assert(ov[m as int].2 <= k);
            let e = (out[m].0.clone(), out[m].1.clone(), n + 1);
            let ghost before = out@;
            out.set(m, e);
            proof {
                let nv = out@.map_values(|e: (String, String, usize)| entry_view(e));
                let nk = entry_keys(nv);
                assert(nk =~= keys);
                assert forall|x: int| 0 <= x < nv.len() implies (#[trigger] nv[x]).2 == count_labels(next, p as int, nv[x].0, qi, nv[x].1, k + 1) by {
                    if x != m {
                        assert(nv[x] == ov[x]);
                        assert(keys[x] != keys[m as int]);
                    }
                }
                assert forall|x: (Seq<char>, Seq<char>)| nk.contains(x) <==> exists|j: int| 0 <= j < next.len() && #[trigger] label_pair(next[j], p as int, qi) == x by {
                    if nk.contains(x) {
                        assert(keys.contains(x));
                        let j = choose|j: int| 0 <= j < prev.len() && #[trigger] label_pair(prev[j], p as int, qi) == x;
                        assert(label_pair(next[j], p as int, qi) == x);
                    }
                    if exists|j: int| 0 <= j < next.len() && #[trigger] label_pair(next[j], p as int, qi) == x {
                        let j = choose|j: int| 0 <= j < next.len() && #[trigger] label_pair(next[j], p as int, qi) == x;
                        if j < k {
                            assert(label_pair(prev[j], p as int, qi) == x);
                        } else {
                            assert(keys[m as int] == x);
                        }
                    }
                }
            }
        } else {
            proof {
                assert forall|x: int| 0 <= x < keys.len() implies keys[x] != pair by {
                    assert(keys[x] == (ov[x].0, ov[x].1));
                }
                assert(!keys.contains(pair));
                assert(forall|j: int| 0 <= j < prev.len() ==> #[trigger] label_pair(prev[j], p as int, qi) != pair);
                lemma_count_labels_absent(prev, p as int, pair.0, qi, pair.1, k as int);
            }
            out.push((a, b, 1));
            proof {
                let nv = out@.map_values(|e: (String, String, usize)| entry_view(e));
                let nk = entry_keys(nv);
                assert(nk =~= keys.push(pair));
                assert forall|x: int, y: int| 0 <= x < y < nk.len() implies nk[x] != nk[y] by {
                    if y == nk.len() - 1 {
                        assert(keys.contains(keys[x]));
                    } else {
                        assert(keys[x] != keys[y]);
                    }
                }
                assert forall|x: int| 0 <= x < nv.len() implies (#[trigger] nv[x]).2 == count_labels(next, p as int, nv[x].0, qi, nv[x].1, k + 1) by {
                    if x < ov.len() {
                        assert(nv[x] == ov[x]);
                        assert(keys.contains(keys[x]));
                    }
                }
                assert forall|x: (Seq<char>, Seq<char>)| nk.contains(x) <==> exists|j: int| 0 <= j < next.len() && #[trigger] label_pair(next[j], p as int, qi) == x by {
                    if nk.contains(x) && x != pair {
                        let y = choose|y: int| 0 <= y < nk.len() && nk[y] == x;
                        assert(keys[y] == x);
                        assert(keys.contains(x));
                        let j = choose|j: int| 0 <= j < prev.len() && #[trigger] label_pair(prev[j], p as int, qi) == x;
                        assert(label_pair(next[j], p as int, qi) == x);
                    }
                    if x == pair {
                        assert(label_pair(next[k as int], p as int, qi) == x);
                        assert(nk[ov.len() as int] == pair);
                    }
                    if exists|j: int| 0 <= j < next.len() && #[trigger] label_pair(next[j], p as int, qi) == x {
                        let j = choose|j: int| 0 <= j < next.len() && #[trigger] label_pair(next[j], p as int, qi) == x;
                        if j < k {
                            assert(label_pair(prev[j], p as int, qi) == x);
                            assert(keys.contains(x));
                            let y = choose|y: int| 0 <= y < keys.len() && keys[y] == x;
                            assert(nk[y] == x);
                        } else {
                            assert(nk[ov.len() as int] == x);
                        }
                    }
                }
            }
        }
        k = k + 1;
    }
    assert(rows.take(rows.len() as int) =~= rows);
    out
}

/// Counting over a longer prefix adds the last tuple's pair.
proof fn lemma_count_labels_prefix(
    next: Seq<Seq<ValueView>>,
    prev: Seq<Seq<ValueView>>,
    p: int,
    c: Seq<char>,
    q: Option<int>,
    d: Seq<char>,
    k: int,
)
    requires
        0 <= k,
        next.len() == k + 1,
        next.drop_last() == prev,
    ensures
        count_labels(next, p, c, q, d, k + 1) == count_labels(prev, p, c, q, d, k) + if (c, d) == label_pair(next[k], p, q) {
            1nat
        } else {
            0nat
        },
{
    lemma_count_labels_same(next, prev, p, c, q, d, k);
}

/// Counts over equal prefixes agree.
proof fn lemma_count_labels_same(
    a: Seq<Seq<ValueView>>,
    b: Seq<Seq<ValueView>>,
    p: int,
    c: Seq<char>,
    q: Option<int>,
    d: Seq<char>,
    n: int,
)
    requires
        0 <= n <= a.len(),
        n <= b.len(),
        forall|i: int| 0 <= i < n ==> a[i] == b[i],
    ensures
        count_labels(a, p, c, q, d, n) == count_labels(b, p, c, q, d, n),
    decreases n,
{
    if n > 0 {
        lemma_count_labels_same(a, b, p, c, q, d, n - 1);
    }
}

/// A pair that no tuple has is counted 0 times.
proof fn lemma_count_labels_absent(rows: Seq<Seq<ValueView>>, p: int, c: Seq<char>, q: Option<int>, d: Seq<char>, n: int)
    requires
        0 <= n <= rows.len(),
        forall|j: int| 0 <= j < n ==> #[trigger] label_pair(rows[j], p, q) != (c, d),
    ensures
        count_labels(rows, p, c, q, d, n) == 0,
    decreases n,
{
    if n > 0 {
        assert(label_pair(rows[n - 1], p, q) != (c, d));
        lemma_count_labels_absent(rows, p, c, q, d, n - 1);
    }
}

/// The counts of a naive Bayes classifier for one feature: its values and,
/// for each class and value that occur together, how often.
pub struct FeatureCounts {
    pub feature: String,
    pub vocabulary: Vec<(String, String, usize)>,
    pub pairs: Vec<(String, String, usize)>,
}

/// The counts of a naive Bayes classifier.
pub struct NaiveBayesCounts {
    pub total: usize,
    pub classes: Vec<(String, String, usize)>,
    pub features: Vec<FeatureCounts>,
}

/// The counts that train a naive Bayes classifier for `target_attr`: the
/// tuples, each class with its count, and for every other attribute (in
/// heading order) its distinct values and the count of each class and
/// value pair; an error when the relation has no such attribute.
pub fn naive_bayes_counts(relation: &Relation, target_attr: &str) -> (r: Result<NaiveBayesCounts, DatabaseError>)
    requires
        relation.wf(),
    ensures
        match r {
            Ok(m) => {
                let t = attr_of(relation.heading@, target_attr@);
                let rows = views(relation.tuples@);
                &&& t >= 0
                &&& m.total == relation.tuples@.len()
                &&& counted(rows, t, None, m.classes@.map_values(|e: (String, String, usize)| entry_view(e)))
                &&& m.features@.len() == relation.heading@.len() - 1
                &&& forall|i: int| 0 <= i < m.features@.len() ==> {
                    let f = if i < t { i } else { i + 1 };
                    &&& (#[trigger] m.features@[i]).feature@ == relation.heading@[f].name@
                    &&& counted(rows, f, None, m.features@[i].vocabulary@.map_values(|e: (String, String, usize)| entry_view(e)))
                    &&& counted(rows, t, Some(f), m.features@[i].pairs@.map_values(|e: (String, String, usize)| entry_view(e)))
                }
            },
            Err(e) => attr_of(relation.heading@, target_attr@) < 0
                && pivot_failure(e) == PivotFailure::NotFound(target_attr@, "<input_relation>"@),
        },
{
    let name = target_attr.to_owned();
    proof {
        crate::importer::lemma_names_distinct(relation.heading@);
    }
    let t = match position_of(&relation.heading, &name) {
        Some(t) => t,
        None => {
            return Err(DatabaseError::AttributeNotFound(name, "<input_relation>".to_owned()));
        },
    };
    assert(attr_of(relation.heading@, target_attr@) == t as int);
    let classes = label_counts(relation, t, None);
    let mut features: Vec<FeatureCounts> = Vec::new();
    let mut f: usize = 0;
    while f < relation.heading.len()
        invariant
            relation.wf(),
            t < relation.heading@.len(),
            attr_of(relation.heading@, target_attr@) == t as int,
            f <= relation.heading@.len(),
            features@.len() == if f <= t { f as int } else { f - 1 },
            forall|i: int| 0 <= i < features@.len() ==> {
                let g = if i < t { i } else { i + 1 };
                &&& (#[trigger] features@[i]).feature@ == relation.heading@[g].name@
                &&& counted(views(relation.tuples@), g, None, features@[i].vocabulary@.map_values(|e: (String, String, usize)| entry_view(e)))
                &&& counted(views(relation.tuples@), t as int, Some(g), features@[i].pairs@.map_values(|e: (String, String, usize)| entry_view(e)))
            },
        decreases relation.heading@.len() - f,
    {
        if f != t {
            let vocabulary = label_counts(relation, f, None);
            let pairs = label_counts(relation, t, Some(f));
            features.push(FeatureCounts { feature: relation.heading[f].name.clone(), vocabulary, pairs });
        }
        f = f + 1;
    }
    Ok(NaiveBayesCounts { total: relation.tuples.len(), classes, features })
}

} // verus!
