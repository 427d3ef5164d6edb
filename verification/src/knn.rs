//! The vote of a nearest-neighbour classifier: among the classes of the
//! nearest neighbours, the one named most often wins; between classes
//! named equally often, the first in name order.
use vstd::prelude::*;
use crate::csv::strings_view;
use crate::relation::{lemma_lex_irreflexive, lemma_lex_total, lemma_lex_transitive};
use crate::text::{lex_less, str_eq, str_less};

verus! {

broadcast use vstd::seq_lib::group_seq_properties;

/// How often `c` occurs among the first `n` of `s`.
pub open spec fn occurrences(s: Seq<Seq<char>>, c: Seq<char>, n: int) -> nat
    decreases n,
{
    if n <= 0 {
        0
    } else {
        occurrences(s, c, n - 1) + if s[n - 1] == c {
            1nat
        } else {
            0nat
        }
    }
}

/// `w` beats or equals `c` in the vote over `s`: more votes, or as many
/// and not after `c` in name order.
pub open spec fn beats(s: Seq<Seq<char>>, w: Seq<char>, c: Seq<char>) -> bool {
    let n = s.len() as int;
    occurrences(s, c, n) < occurrences(s, w, n) || (occurrences(s, c, n) == occurrences(s, w, n) && (c == w
        || lex_less(w, c)))
}

/// `w` wins the vote over `s`: it is among them and beats every one.
pub open spec fn wins(s: Seq<Seq<char>>, w: Seq<char>) -> bool {
    s.contains(w) && forall|i: int| 0 <= i < s.len() ==> beats(s, w, #[trigger] s[i])
}

/// A vote has at most one winner.
pub proof fn law_one_winner(s: Seq<Seq<char>>, a: Seq<char>, b: Seq<char>)
    requires
        wins(s, a),
        wins(s, b),
    ensures
        a == b,
{
    let i = choose|i: int| 0 <= i < s.len() && s[i] == a;
    let j = choose|j: int| 0 <= j < s.len() && s[j] == b;
    assert(beats(s, a, s[j]));
    assert(beats(s, b, s[i]));
    lemma_lex_total(a, b);
}

/// How often `c` occurs among the labels.
fn count_of(labels: &Vec<String>, c: &String) -> (n: usize)
    ensures
        n == occurrences(strings_view(labels@), c@, labels@.len() as int),
{
    let ghost s = strings_view(labels@);
    let mut n: usize = 0;
    let mut i: usize = 0;
    while i < labels.len()
        invariant
            s == strings_view(labels@),
            i <= labels@.len(),
            n == occurrences(s, c@, i as int),
            n <= i,
        decreases labels@.len() - i,
    {
        if str_eq(labels[i].as_str(), c.as_str()) {
            n = n + 1;
        }
        i = i + 1;
    }
    n
}

/// The winner of the vote over the classes of the neighbours, if there is
/// a neighbour.
pub fn majority_class(labels: &Vec<String>) -> (r: Option<String>)
    ensures
        r is None <==> labels@.len() == 0,
        r matches Some(w) ==> wins(strings_view(labels@), w@),
{
    let ghost s = strings_view(labels@);
    if labels.len() == 0 {
        return None;
    }
    let mut best: usize = 0;
    let mut best_count = count_of(labels, &labels[0]);
    let mut i: usize = 1;
    while i < labels.len()
        invariant
            s == strings_view(labels@),
            1 <= i <= labels@.len(),
            best < labels@.len(),
            best_count == occurrences(s, s[best as int], s.len() as int),
            forall|k: int| 0 <= k < i ==> beats(s, s[best as int], #[trigger] s[k]),
        decreases labels@.len() - i,
    {
        let c = count_of(labels, &labels[i]);
        let ghost w = s[best as int];
        let ghost ci = s[i as int];
        if c > best_count || (c == best_count && str_less(labels[i].as_str(), labels[best].as_str())) {
            proof {
                lemma_lex_total(ci, w);
                assert forall|k: int| 0 <= k < i + 1 implies beats(s, ci, #[trigger] s[k]) by {
                    if k < i {
                        assert(beats(s, w, s[k]));
                        lemma_lex_transitive(ci, w, s[k]);
                        lemma_lex_irreflexive(ci);
                    } else {
                        lemma_lex_irreflexive(ci);
                    }
                }
            }
            best = i;
            best_count = c;
        } else {
            proof {
                lemma_lex_total(ci, w);
            }
        }
        i = i + 1;
    }
    assert(s[best as int] == labels@[best as int]@);
    assert(s.contains(s[best as int]));
    Some(labels[best].clone())
}

} // verus!
