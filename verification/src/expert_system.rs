//! Forward-chaining inference: a rule whose conditions all hold adds its
//! conclusions as facts, until nothing new follows.
use vstd::prelude::*;
use crate::graph::{contains_key, count_false, edge_views, mark_target, push_unique, views};

verus! {

broadcast use vstd::seq_lib::group_seq_properties;

/// Facts, rule conditions `(rule_id, condition)` and rule conclusions
/// `(rule_id, conclusion)`.
pub struct ExpertSystem {
    pub facts: Vec<String>,
    pub rule_conditions: Vec<(String, String)>,
    pub rule_conclusions: Vec<(String, String)>,
}

/// Rule `r` has at least one condition and all of them are in `s`.
pub open spec fn rule_fires(conds: Seq<(Seq<char>, Seq<char>)>, r: Seq<char>, s: Set<Seq<char>>) -> bool {
    (exists|i: int| 0 <= i < conds.len() && #[trigger] conds[i].0 == r) && forall|i: int|
        0 <= i < conds.len() && #[trigger] conds[i].0 == r ==> s.contains(conds[i].1)
}

/// Every conclusion of a rule that fires on `s` is in `s`.
pub open spec fn closed(
    conds: Seq<(Seq<char>, Seq<char>)>,
    concls: Seq<(Seq<char>, Seq<char>)>,
    s: Set<Seq<char>>,
) -> bool {
    forall|j: int|
        0 <= j < concls.len() && rule_fires(conds, #[trigger] concls[j].0, s) ==> s.contains(concls[j].1)
}

impl ExpertSystem {
    /// A system over the given relations.
    pub fn new(facts: Vec<String>, rule_conditions: Vec<(String, String)>, rule_conclusions: Vec<(String, String)>) -> (e: Self)
        ensures
            e.facts == facts,
            e.rule_conditions == rule_conditions,
            e.rule_conclusions == rule_conclusions,
    {
        ExpertSystem { facts, rule_conditions, rule_conclusions }
    }

    /// Whether rule `r` fires on the facts `known`.
    fn fires(&self, r: &String, known: &Vec<String>) -> (b: bool)
        ensures
            b == rule_fires(edge_views(self.rule_conditions@), r@, views(known@).to_set()),
    {
        let ghost conds = edge_views(self.rule_conditions@);
        let mut has_one = false;
        let mut i: usize = 0;
        while i < self.rule_conditions.len()
            invariant
                conds == edge_views(self.rule_conditions@),
                i <= conds.len(),
                has_one == exists|k: int| 0 <= k < i && #[trigger] conds[k].0 == r@,
                forall|k: int| 0 <= k < i && #[trigger] conds[k].0 == r@ ==> views(known@).to_set().contains(conds[k].1),
            decreases conds.len() - i,
        {
            assert(conds[i as int] == (self.rule_conditions@[i as int].0@, self.rule_conditions@[i as int].1@));
            let same = self.rule_conditions[i].0 == *r;
            if same {
                has_one = true;
                if !contains_key(known, &self.rule_conditions[i].1) {
                    assert(conds[i as int].0 == r@);
                    assert(!views(known@).to_set().contains(conds[i as int].1));
                    return false;
                }
            }
            proof {
                if same {
                    assert(conds[i as int].0 == r@);
                } else {
                    assert forall|k: int| 0 <= k < i + 1 && #[trigger] conds[k].0 == r@ implies 0 <= k < i by {}
                }
            }
            i = i + 1;
        }
        has_one
    }

    /// The facts that follow: the least set that holds the given facts and
    /// every conclusion of every rule that fires on it, each fact once.
    pub fn infer(&self) -> (result: Vec<String>)
        ensures
            views(result@).no_duplicates(),
            views(self.facts@).to_set().subset_of(views(result@).to_set()),
            closed(edge_views(self.rule_conditions@), edge_views(self.rule_conclusions@), views(result@).to_set()),
            forall|s: Set<Seq<char>>|
                #[trigger] closed(edge_views(self.rule_conditions@), edge_views(self.rule_conclusions@), s)
                    && views(self.facts@).to_set().subset_of(s) ==> views(result@).to_set().subset_of(s),
    {
        let ghost conds = edge_views(self.rule_conditions@);
        let ghost concls = edge_views(self.rule_conclusions@);
        let ghost f0 = views(self.facts@).to_set();
        let mut current: Vec<String> = Vec::new();
        let mut i: usize = 0;
        while i < self.facts.len()
            invariant
                i <= self.facts@.len(),
                views(current@).no_duplicates(),
                forall|x: Seq<char>| views(current@).contains(x) <==> views(self.facts@).take(i as int).contains(x),
            decreases self.facts@.len() - i,
        {
            assert(views(self.facts@).take(i + 1) == views(self.facts@).take(i as int).push(views(self.facts@)[i as int]));
            push_unique(&mut current, self.facts[i].clone());
            i = i + 1;
        }
        assert(views(self.facts@).take(self.facts@.len() as int) == views(self.facts@));
        assert(views(current@).to_set() =~= f0);
        let n = self.rule_conclusions.len();
        let mut seen: Vec<bool> = Vec::new();
        let mut k: usize = 0;
        while k < n
            invariant
                n == concls.len(),
                concls == edge_views(self.rule_conclusions@),
                k <= n,
                seen@.len() == k,
                forall|j: int| 0 <= j < k ==> seen@[j] == views(current@).contains(#[trigger] concls[j].1),
            decreases n - k,
        {
            assert(concls[k as int] == (self.rule_conclusions@[k as int].0@, self.rule_conclusions@[k as int].1@));
            let have = contains_key(&current, &self.rule_conclusions[k].1);
            seen.push(have);
            k = k + 1;
        }
        loop
            invariant
                n == concls.len(),
                conds == edge_views(self.rule_conditions@),
                concls == edge_views(self.rule_conclusions@),
                f0 == views(self.facts@).to_set(),
                seen@.len() == n,
                views(current@).no_duplicates(),
                f0.subset_of(views(current@).to_set()),
                forall|j: int| 0 <= j < n ==> seen@[j] == views(current@).contains(#[trigger] concls[j].1),
                forall|s: Set<Seq<char>>|
                    #[trigger] closed(conds, concls, s) && f0.subset_of(s) ==> views(current@).to_set().subset_of(s),
            ensures
                views(current@).no_duplicates(),
                f0.subset_of(views(current@).to_set()),
                closed(conds, concls, views(current@).to_set()),
                forall|s: Set<Seq<char>>|
                    #[trigger] closed(conds, concls, s) && f0.subset_of(s) ==> views(current@).to_set().subset_of(s),
            decreases count_false(seen@),
        {
            let ghost c0 = count_false(seen@);
            let ghost cur0 = current@;
            let mut fired = false;
            let mut j: usize = 0;
            while j < n
                invariant
                    n == concls.len(),
                    conds == edge_views(self.rule_conditions@),
                    concls == edge_views(self.rule_conclusions@),
                    f0 == views(self.facts@).to_set(),
                    seen@.len() == n,
                    j <= n,
                    views(current@).no_duplicates(),
                    f0.subset_of(views(current@).to_set()),
                    forall|x: int| 0 <= x < n ==> seen@[x] == views(current@).contains(#[trigger] concls[x].1),
                    forall|s: Set<Seq<char>>|
                        #[trigger] closed(conds, concls, s) && f0.subset_of(s) ==> views(current@).to_set().subset_of(s),
                    fired ==> count_false(seen@) < c0,
                    !fired ==> count_false(seen@) == c0 && current@ == cur0,
                    !fired ==> forall|x: int|
                        0 <= x < j ==> seen@[x] || !rule_fires(conds, #[trigger] concls[x].0, views(current@).to_set()),
                decreases n - j,
            {
                assert(concls[j as int] == (self.rule_conclusions@[j as int].0@, self.rule_conclusions@[j as int].1@));
                if !seen[j] && self.fires(&self.rule_conclusions[j].0, &current) {
                    let ghost before = views(current@);
                    let ghost cv = concls[j as int].1;
                    push_unique(&mut current, self.rule_conclusions[j].1.clone());
                    proof {
                        assert forall|s: Set<Seq<char>>|
                            #[trigger] closed(conds, concls, s) && f0.subset_of(s) implies views(current@).to_set().subset_of(s) by {
                            assert(before.to_set().subset_of(s));
                            assert(rule_fires(conds, concls[j as int].0, s)) by {
                                assert forall|i: int| 0 <= i < conds.len() && #[trigger] conds[i].0 == concls[j as int].0 implies s.contains(conds[i].1) by {
                                    assert(before.to_set().contains(conds[i].1));
                                }
                            }
                            assert(s.contains(cv));
                            assert forall|x: Seq<char>| views(current@).to_set().contains(x) implies s.contains(x) by {
                                assert(views(current@).contains(x));
                                if x != cv {
                                    assert(before.contains(x));
                                    assert(before.to_set().contains(x));
                                }
                            }
                        }
                        assert forall|x: Seq<char>| f0.contains(x) implies views(current@).to_set().contains(x) by {
                            assert(before.to_set().contains(x));
                            assert(before.contains(x));
                        }
                    }
                    let ghost c1 = count_false(seen@);
                    mark_target(&self.rule_conclusions, &mut seen, &self.rule_conclusions[j].1);
                    proof {
                        assert forall|x: int| 0 <= x < n implies seen@[x] == views(current@).contains(#[trigger] concls[x].1) by {
                            if concls[x].1 != cv {
                                assert(views(current@).contains(concls[x].1) == before.contains(concls[x].1));
                            }
                        }
                    }
                    fired = true;
                }
                j = j + 1;
            }
            if !fired {
                proof {
                    assert forall|x: int|
                        0 <= x < concls.len() && rule_fires(conds, #[trigger] concls[x].0, views(current@).to_set())
                            implies views(current@).to_set().contains(concls[x].1) by {
                        assert(seen@[x]);
                        assert(views(current@).contains(concls[x].1));
                    }
                }
                break;
            }
        }
        current
    }
}

} // verus!
