//! Frequent itemsets over a relation of baskets `(tid, item)`: the support
//! of an item is the number of transactions that hold it, and of a pair the
//! number of transactions that hold both.
use vstd::prelude::*;
use crate::graph::{contains_key, push_unique, views};
use crate::text::{lex_less, str_less};

verus! {

broadcast use vstd::seq_lib::group_seq_properties;

/// One item of one transaction.
#[derive(Clone, Debug, PartialEq, Eq)]
pub struct Basket {
    pub tid: i64,
    pub item: String,
}

/// An item and its support.
#[derive(Clone, Debug, PartialEq, Eq)]
pub struct ItemSupport {
    pub item: String,
    pub support: i64,
}

/// A pair of items and its support.
#[derive(Clone, Debug, PartialEq, Eq)]
pub struct PairSupport {
    pub item1: String,
    pub item2: String,
    pub support: i64,
}

/// The transactions.
pub struct Apriori {
    pub transactions: Vec<Basket>,
}

/// The transactions that hold `item`.
pub open spec fn tids_with(txs: Seq<Basket>, item: Seq<char>) -> Set<i64> {
    Set::new(|t: i64| exists|k: int| 0 <= k < txs.len() && #[trigger] txs[k].tid == t && txs[k].item@ == item)
}

/// The number of transactions that hold `item`.
pub open spec fn support(txs: Seq<Basket>, item: Seq<char>) -> nat {
    tids_with(txs, item).len()
}

/// The number of transactions that hold both `a` and `b`.
pub open spec fn pair_support(txs: Seq<Basket>, a: Seq<char>, b: Seq<char>) -> nat {
    tids_with(txs, a).intersect(tids_with(txs, b)).len()
}

/// `item` occurs in some transaction.
pub open spec fn has_item(txs: Seq<Basket>, item: Seq<char>) -> bool {
    exists|k: int| 0 <= k < txs.len() && #[trigger] txs[k].item@ == item
}

/// `item` occurs and its support reaches `min`.
pub open spec fn frequent(txs: Seq<Basket>, item: Seq<char>, min: i64) -> bool {
    has_item(txs, item) && support(txs, item) >= min
}

/// One of the first `j` strings of `v` is `s`.
pub open spec fn in_prefix(v: Seq<String>, j: int, s: Seq<char>) -> bool {
    exists|x: int| 0 <= x < j && #[trigger] v[x]@ == s
}

/// `out` lists `item`.
pub open spec fn lists_item(out: Seq<ItemSupport>, item: Seq<char>) -> bool {
    exists|k: int| 0 <= k < out.len() && #[trigger] out[k].item@ == item
}

/// `out` lists the pair `(a, b)`.
pub open spec fn lists_pair(out: Seq<PairSupport>, a: Seq<char>, b: Seq<char>) -> bool {
    exists|k: int| 0 <= k < out.len() && #[trigger] out[k].item1@ == a && out[k].item2@ == b
}

impl Apriori {
    /// An analysis of the given baskets.
    pub fn new(transactions: Vec<Basket>) -> (a: Self)
        ensures
            a.transactions == transactions,
    {
        Apriori { transactions }
    }

    /// The transactions that hold `item`, each once.
    fn tids_of(&self, item: &String) -> (tids: Vec<i64>)
        ensures
            tids@.no_duplicates(),
            tids@.to_set() == tids_with(self.transactions@, item@),
            tids@.len() <= self.transactions@.len(),
            tids@.len() == support(self.transactions@, item@),
    {
        let ghost txs = self.transactions@;
        let mut tids: Vec<i64> = Vec::new();
        let mut k: usize = 0;
        while k < self.transactions.len()
            invariant
                txs == self.transactions@,
                k <= txs.len(),
                tids@.len() <= k,
                tids@.no_duplicates(),
                forall|t: i64| #[trigger] tids@.contains(t) <==> exists|x: int|
                    0 <= x < k && #[trigger] txs[x].tid == t && txs[x].item@ == item@,
            decreases txs.len() - k,
        {
            let b = &self.transactions[k];
            let ghost before = tids@;
            if b.item == *item {
                push_unique(&mut tids, b.tid);
                proof {
                    crate::graph::lemma_int_views(tids@, Seq::empty());
                    crate::graph::lemma_int_views(before, Seq::empty());
                }
            }
            proof {
                assert forall|t: i64| #[trigger] tids@.contains(t) <==> exists|x: int|
                    0 <= x < k + 1 && #[trigger] txs[x].tid == t && txs[x].item@ == item@ by {
                    if exists|x: int| 0 <= x < k + 1 && #[trigger] txs[x].tid == t && txs[x].item@ == item@ {
                        let x = choose|x: int| 0 <= x < k + 1 && #[trigger] txs[x].tid == t && txs[x].item@ == item@;
                        if x < k {
                            assert(before.contains(t));
                        }
                    }
                }
            }
            k = k + 1;
        }
        proof {
            assert(tids@.to_set() =~= tids_with(txs, item@));
            tids@.unique_seq_to_set();
        }
        tids
    }
}

impl Apriori {
    /// The items, each once.
    fn items(&self) -> (items: Vec<String>)
        ensures
            views(items@).no_duplicates(),
            forall|it: Seq<char>| #[trigger] views(items@).contains(it) <==> has_item(self.transactions@, it),
    {
        let ghost txs = self.transactions@;
        let mut items: Vec<String> = Vec::new();
        let mut k: usize = 0;
        while k < self.transactions.len()
            invariant
                txs == self.transactions@,
                k <= txs.len(),
                views(items@).no_duplicates(),
                forall|it: Seq<char>| #[trigger] views(items@).contains(it) <==> exists|x: int|
                    0 <= x < k && #[trigger] txs[x].item@ == it,
            decreases txs.len() - k,
        {
            let ghost before = views(items@);
            push_unique(&mut items, self.transactions[k].item.clone());
            proof {
                assert forall|it: Seq<char>| #[trigger] views(items@).contains(it) <==> exists|x: int|
                    0 <= x < k + 1 && #[trigger] txs[x].item@ == it by {
                    if exists|x: int| 0 <= x < k + 1 && #[trigger] txs[x].item@ == it {
                        let x = choose|x: int| 0 <= x < k + 1 && #[trigger] txs[x].item@ == it;
                        if x < k {
                            assert(before.contains(it));
                        }
                    }
                }
            }
            k = k + 1;
        }
        items
    }

    /// The items whose support reaches `min_support`, each once with its
    /// support.
    pub fn frequent_1_itemsets(&self, min_support: i64) -> (out: Vec<ItemSupport>)
        requires
            self.transactions@.len() <= i64::MAX,
        ensures
            forall|k: int|
                0 <= k < out@.len() ==> frequent(self.transactions@, (#[trigger] out@[k]).item@, min_support)
                    && out@[k].support == support(self.transactions@, out@[k].item@),
            forall|it: Seq<char>| #[trigger] frequent(self.transactions@, it, min_support) ==> lists_item(out@, it),
            forall|a: int, b: int| 0 <= a < b < out@.len() ==> (#[trigger] out@[a]).item@ != (#[trigger] out@[b]).item@,
    {
        let ghost txs = self.transactions@;
        let items = self.items();
        let mut out: Vec<ItemSupport> = Vec::new();
        let mut j: usize = 0;
        while j < items.len()
            invariant
                txs == self.transactions@,
                txs.len() <= i64::MAX,
                views(items@).no_duplicates(),
                forall|it: Seq<char>| #[trigger] views(items@).contains(it) <==> has_item(txs, it),
                j <= items@.len(),
                forall|k: int|
                    0 <= k < out@.len() ==> frequent(txs, (#[trigger] out@[k]).item@, min_support)
                        && out@[k].support == support(txs, out@[k].item@),
                forall|k: int| 0 <= k < out@.len() ==> in_prefix(items@, j as int, (#[trigger] out@[k]).item@),
                forall|x: int| 0 <= x < j && frequent(txs, (#[trigger] items@[x])@, min_support) ==> lists_item(out@, items@[x]@),
                forall|a: int, b: int| 0 <= a < b < out@.len() ==> (#[trigger] out@[a]).item@ != (#[trigger] out@[b]).item@,
            decreases items@.len() - j,
        {
            let it = &items[j];
            assert(views(items@)[j as int] == it@);
            assert(views(items@).contains(it@));
            let tids = self.tids_of(it);
            let count = tids.len() as i64;
            let ghost before = out@;
            if count >= min_support {
                out.push(ItemSupport { item: it.clone(), support: count });
                proof {
                    assert forall|a: int, b: int| 0 <= a < b < out@.len() implies (#[trigger] out@[a]).item@ != (#[trigger] out@[b]).item@ by {
                        if b == out@.len() - 1 {
                            assert(in_prefix(items@, j as int, before[a].item@));
                            let x = choose|x: int| 0 <= x < j && #[trigger] items@[x]@ == before[a].item@;
                            assert(views(items@)[x] != views(items@)[j as int]);
                        }
                    }
                }
            }
            proof {
                assert forall|k: int| 0 <= k < out@.len() implies in_prefix(items@, j + 1, (#[trigger] out@[k]).item@) by {
                    if k < before.len() {
                        assert(in_prefix(items@, j as int, before[k].item@));
                        let x = choose|x: int| 0 <= x < j && #[trigger] items@[x]@ == before[k].item@;
                        assert(out@[k] == before[k]);
                    } else {
                        assert(items@[j as int]@ == out@[k].item@);
                    }
                }
                assert forall|x: int| 0 <= x < j + 1 && frequent(txs, (#[trigger] items@[x])@, min_support) implies lists_item(out@, items@[x]@) by {
                    if x < j {
                        assert(lists_item(before, items@[x]@));
                        let k = choose|k: int| 0 <= k < before.len() && #[trigger] before[k].item@ == items@[x]@;
                        assert(out@[k] == before[k]);
                    } else {
                        assert(out@[before.len() as int].item@ == items@[x]@);
                    }
                }
            }
            j = j + 1;
        }
        proof {
            assert forall|it: Seq<char>| #[trigger] frequent(txs, it, min_support) implies lists_item(out@, it) by {
                assert(views(items@).contains(it));
                let x = choose|x: int| 0 <= x < views(items@).len() && views(items@)[x] == it;
                assert(items@[x]@ == it);
            }
        }
        out
    }

    /// The number of transactions that hold both `a` and `b`.
    fn pair_count(&self, a: &String, b: &String) -> (n: usize)
        ensures
            n == pair_support(self.transactions@, a@, b@),
            n <= self.transactions@.len(),
    {
        let ta = self.tids_of(a);
        let tb = self.tids_of(b);
        let ghost sa = tids_with(self.transactions@, a@);
        let ghost sb = tids_with(self.transactions@, b@);
        let mut both: Vec<i64> = Vec::new();
        let mut k: usize = 0;
        while k < ta.len()
            invariant
                ta@.no_duplicates(),
                ta@.to_set() == sa,
                tb@.to_set() == sb,
                k <= ta@.len(),
                both@.len() <= k,
                both@.no_duplicates(),
                forall|t: i64| #[trigger] both@.contains(t) <==> (ta@.take(k as int).contains(t) && sb.contains(t)),
            decreases ta@.len() - k,
        {
            let t = ta[k];
            let ghost before = both@;
            let inb = contains_key(&tb, &t);
            proof {
                crate::graph::lemma_int_views(tb@, Seq::empty());
                assert(tb@.contains(t) == tb@.to_set().contains(t));
                assert(!ta@.take(k as int).contains(t));
            }
            if inb {
                assert(!before.contains(t));
                both.push(t);
                assert forall|x: int, y: int| 0 <= x < y < both@.len() implies both@[x] != both@[y] by {
                    if y == both@.len() - 1 {
                        assert(before.contains(before[x]));
                    }
                }
            }
            proof {
                assert forall|x: i64| #[trigger] both@.contains(x) <==> (ta@.take(k + 1).contains(x) && sb.contains(x)) by {
                    if ta@.take(k + 1).contains(x) {
                        let i = choose|i: int| 0 <= i < k + 1 && #[trigger] ta@.take(k + 1)[i] == x;
                        if i < k {
                            assert(ta@.take(k as int)[i] == x);
                        }
                    }
                    if ta@.take(k as int).contains(x) {
                        let i = choose|i: int| 0 <= i < k && #[trigger] ta@.take(k as int)[i] == x;
                        assert(ta@.take(k + 1)[i] == x);
                    }
                    if before.contains(x) {
                        let i = choose|i: int| 0 <= i < before.len() && #[trigger] before[i] == x;
                        assert(both@[i] == x);
                    }
                }
            }
            k = k + 1;
        }
        proof {
            assert(ta@.take(ta@.len() as int) == ta@);
            assert(both@.to_set() =~= sa.intersect(sb));
            both@.unique_seq_to_set();
        }
        both.len()
    }
}

/// Both items are frequent, `a` comes before `b`, and the pair's support
/// reaches `min`.
pub open spec fn frequent_pair(txs: Seq<Basket>, a: Seq<char>, b: Seq<char>, min: i64) -> bool {
    frequent(txs, a, min) && frequent(txs, b, min) && lex_less(a, b) && pair_support(txs, a, b) >= min
}

impl Apriori {
    /// The pairs of frequent items, the first before the second, whose
    /// support reaches `min_support`, each once with its support.
    pub fn frequent_2_itemsets(&self, min_support: i64) -> (out: Vec<PairSupport>)
        requires
            self.transactions@.len() <= i64::MAX,
        ensures
            forall|k: int|
                0 <= k < out@.len() ==> frequent_pair(
                    self.transactions@,
                    (#[trigger] out@[k]).item1@,
                    out@[k].item2@,
                    min_support,
                ) && out@[k].support == pair_support(self.transactions@, out@[k].item1@, out@[k].item2@),
            forall|a: Seq<char>, b: Seq<char>|
                #[trigger] frequent_pair(self.transactions@, a, b, min_support) ==> lists_pair(out@, a, b),
            forall|x: int, y: int|
                0 <= x < y < out@.len() ==> (#[trigger] out@[x]).item1@ != (#[trigger] out@[y]).item1@
                    || out@[x].item2@ != out@[y].item2@,
    {
        let ghost txs = self.transactions@;
        let f1 = self.frequent_1_itemsets(min_support);
        let n = f1.len();
        let mut out: Vec<PairSupport> = Vec::new();
        let ghost mut src: Seq<(int, int)> = Seq::empty();
        let mut a: usize = 0;
        while a < n
            invariant
                txs == self.transactions@,
                txs.len() <= i64::MAX,
                n == f1@.len(),
                a <= n,
                forall|k: int|
                    0 <= k < f1@.len() ==> frequent(txs, (#[trigger] f1@[k]).item@, min_support)
                        && f1@[k].support == support(txs, f1@[k].item@),
                forall|x: int, y: int| 0 <= x < y < f1@.len() ==> (#[trigger] f1@[x]).item@ != (#[trigger] f1@[y]).item@,
                src.len() == out@.len(),
                forall|k: int|
                    #![trigger src[k]]
                    0 <= k < src.len() ==> 0 <= src[k].0 < a && 0 <= src[k].1 < n && out@[k].item1@
                        == f1@[src[k].0].item@ && out@[k].item2@ == f1@[src[k].1].item@,
                forall|k1: int, k2: int|
                    #![trigger src[k1], src[k2]]
                    0 <= k1 < k2 < src.len() ==> src[k1].0 < src[k2].0 || (src[k1].0 == src[k2].0 && src[k1].1
                        < src[k2].1),
                forall|k: int|
                    0 <= k < out@.len() ==> frequent_pair(txs, (#[trigger] out@[k]).item1@, out@[k].item2@, min_support)
                        && out@[k].support == pair_support(txs, out@[k].item1@, out@[k].item2@),
                forall|x: int, y: int|
                    #![trigger f1@[x], f1@[y]]
                    0 <= x < a && 0 <= y < n && frequent_pair(txs, f1@[x].item@, f1@[y].item@, min_support)
                        ==> lists_pair(out@, f1@[x].item@, f1@[y].item@),
            decreases n - a,
        {
            let mut b: usize = 0;
            while b < n
                invariant
                    txs == self.transactions@,
                    txs.len() <= i64::MAX,
                    n == f1@.len(),
                    a < n,
                    b <= n,
                    forall|k: int|
                        0 <= k < f1@.len() ==> frequent(txs, (#[trigger] f1@[k]).item@, min_support)
                            && f1@[k].support == support(txs, f1@[k].item@),
                    forall|x: int, y: int| 0 <= x < y < f1@.len() ==> (#[trigger] f1@[x]).item@ != (#[trigger] f1@[y]).item@,
                    src.len() == out@.len(),
                    forall|k: int|
                        #![trigger src[k]]
                        0 <= k < src.len() ==> 0 <= src[k].0 <= a && 0 <= src[k].1 < n && (src[k].0 < a
                            || src[k].1 < b) && out@[k].item1@ == f1@[src[k].0].item@ && out@[k].item2@
                            == f1@[src[k].1].item@,
                    forall|k1: int, k2: int|
                        #![trigger src[k1], src[k2]]
                        0 <= k1 < k2 < src.len() ==> src[k1].0 < src[k2].0 || (src[k1].0 == src[k2].0
                            && src[k1].1 < src[k2].1),
                    forall|k: int|
                        0 <= k < out@.len() ==> frequent_pair(txs, (#[trigger] out@[k]).item1@, out@[k].item2@, min_support)
                            && out@[k].support == pair_support(txs, out@[k].item1@, out@[k].item2@),
                    forall|x: int, y: int|
                        #![trigger f1@[x], f1@[y]]
                        0 <= x < n && 0 <= y < n && (x < a || (x == a && y < b)) && frequent_pair(
                            txs,
                            f1@[x].item@,
                            f1@[y].item@,
                            min_support,
                        ) ==> lists_pair(out@, f1@[x].item@, f1@[y].item@),
                decreases n - b,
            {
                let ia = &f1[a].item;
                let ib = &f1[b].item;
                let ghost before = out@;
                if str_less(ia, ib) {
                    let count = self.pair_count(ia, ib);
                    let c = count as i64;
                    if c >= min_support {
                        out.push(PairSupport { item1: ia.clone(), item2: ib.clone(), support: c });
                        proof {
                            src = src.push((a as int, b as int));
                            assert(out@[out@.len() - 1].item1@ == f1@[a as int].item@);
                            assert(lists_pair(out@, f1@[a as int].item@, f1@[b as int].item@));
                        }
                    }
                }
                proof {
                    assert forall|x: int, y: int|
                        #![trigger f1@[x], f1@[y]]
                        0 <= x < n && 0 <= y < n && (x < a || (x == a && y < b + 1)) && frequent_pair(
                            txs,
                            f1@[x].item@,
                            f1@[y].item@,
                            min_support,
                        ) implies lists_pair(out@, f1@[x].item@, f1@[y].item@) by {
                        if !(x == a && y == b) {
                            assert(lists_pair(before, f1@[x].item@, f1@[y].item@));
                            let k = choose|k: int| 0 <= k < before.len() && #[trigger] before[k].item1@ == f1@[x].item@ && before[k].item2@ == f1@[y].item@;
                            assert(out@[k] == before[k]);
                        }
                    }
                }
                b = b + 1;
            }
            a = a + 1;
        }
        proof {
            assert forall|x: int, y: int|
                0 <= x < y < out@.len() implies (#[trigger] out@[x]).item1@ != (#[trigger] out@[y]).item1@
                    || out@[x].item2@ != out@[y].item2@ by {
                let (sx, sy) = (src[x], src[y]);
                if sx.0 != sy.0 {
                    if sx.0 < sy.0 {
                        assert(f1@[sx.0].item@ != f1@[sy.0].item@);
                    } else {
                        assert(f1@[sy.0].item@ != f1@[sx.0].item@);
                    }
                } else {
                    assert(f1@[sx.1].item@ != f1@[sy.1].item@);
                }
            }
            assert forall|ia: Seq<char>, ib: Seq<char>|
                #[trigger] frequent_pair(txs, ia, ib, min_support) implies lists_pair(out@, ia, ib) by {
                assert(lists_item(f1@, ia));
                assert(lists_item(f1@, ib));
                let x = choose|k: int| 0 <= k < f1@.len() && #[trigger] f1@[k].item@ == ia;
                let y = choose|k: int| 0 <= k < f1@.len() && #[trigger] f1@[k].item@ == ib;
                assert(frequent_pair(txs, f1@[x].item@, f1@[y].item@, min_support));
            }
        }
        out
    }
}

} // verus!
