//! Material requirements planning over relations: a bill of materials
//! `(parent, child, qty_per)`, demand `(part, qty_required)` and inventory
//! `(part, stock)`.
use vstd::prelude::*;
use crate::graph::{push_unique, views, Key};

verus! {

broadcast use vstd::seq_lib::group_seq_properties;

/// `qty_per` units of `child` go into one `parent`.
#[derive(Clone, Debug, PartialEq, Eq)]
pub struct BomLine {
    pub parent: String,
    pub child: String,
    pub qty_per: i64,
}

/// A required quantity of a part.
#[derive(Clone, Debug, PartialEq, Eq)]
pub struct Requirement {
    pub part: String,
    pub qty_required: i64,
}

/// The stock of a part.
#[derive(Clone, Debug, PartialEq, Eq)]
pub struct Stock {
    pub part: String,
    pub stock: i64,
}

/// How many units of a part are missing.
#[derive(Clone, Debug, PartialEq, Eq)]
pub struct Shortage {
    pub part: String,
    pub shortage: i64,
}

impl View for Shortage {
    type V = (Seq<char>, i64);

    open spec fn view(&self) -> Self::V {
        (self.part@, self.shortage)
    }
}

impl Key for Shortage {
    fn same(&self, other: &Self) -> (b: bool) {
        self.part == other.part && self.shortage == other.shortage
    }

    fn duplicate(&self) -> (c: Self) {
        Shortage { part: self.part.clone(), shortage: self.shortage }
    }
}

/// A part and a quantity.
pub type Need = (Seq<char>, int);

/// The requirements as integer pairs.
pub open spec fn needs(v: Seq<Requirement>) -> Seq<Need> {
    v.map_values(|r: Requirement| (r.part@, r.qty_required as int))
}

/// Some line of the bill of materials has `p` as its parent.
pub open spec fn is_assembly(bom: Seq<BomLine>, p: Seq<char>) -> bool {
    exists|l: int| 0 <= l < bom.len() && #[trigger] bom[l].parent@ == p
}

/// The entries of `d` whose part is no assembly, in order.
pub open spec fn leaves(bom: Seq<BomLine>, d: Seq<Need>) -> Seq<Need>
    decreases d.len(),
{
    if d.len() == 0 {
        Seq::empty()
    } else {
        let rest = leaves(bom, d.drop_last());
        if is_assembly(bom, d.last().0) {
            rest
        } else {
            rest.push(d.last())
        }
    }
}

/// `(child, q * qty_per)` for the lines of `bom` with parent `p`, in order.
pub open spec fn expand(bom: Seq<BomLine>, p: Seq<char>, q: int) -> Seq<Need>
    decreases bom.len(),
{
    if bom.len() == 0 {
        Seq::empty()
    } else {
        let rest = expand(bom.drop_last(), p, q);
        let l = bom.last();
        if l.parent@ == p {
            rest.push((l.child@, q * l.qty_per))
        } else {
            rest
        }
    }
}

/// The needs of the children of every entry of `d`, in order.
pub open spec fn children(bom: Seq<BomLine>, d: Seq<Need>) -> Seq<Need>
    decreases d.len(),
{
    if d.len() == 0 {
        Seq::empty()
    } else {
        children(bom, d.drop_last()) + expand(bom, d.last().0, d.last().1)
    }
}

/// The parts of `r`, each once, in order of first occurrence.
pub open spec fn parts(r: Seq<Need>) -> Seq<Seq<char>>
    decreases r.len(),
{
    if r.len() == 0 {
        Seq::empty()
    } else {
        let rest = parts(r.drop_last());
        if rest.contains(r.last().0) {
            rest
        } else {
            rest.push(r.last().0)
        }
    }
}

/// The sum of the distinct entries of part `c` in `r`.
pub open spec fn total(r: Seq<Need>, c: Seq<char>) -> int
    decreases r.len(),
{
    if r.len() == 0 {
        0
    } else {
        let rest = r.drop_last();
        let e = r.last();
        total(rest, c) + if e.0 == c && !rest.contains(e) {
            e.1
        } else {
            0
        }
    }
}

/// Every part of `r` with the total of its distinct entries.
pub open spec fn summarize(r: Seq<Need>) -> Seq<Need> {
    parts(r).map_values(|c: Seq<char>| (c, total(r, c)))
}

/// The demand after `k` rounds of explosion.
pub open spec fn level(bom: Seq<BomLine>, d0: Seq<Need>, k: nat) -> Seq<Need>
    decreases k,
{
    if k == 0 {
        d0
    } else {
        summarize(children(bom, level(bom, d0, (k - 1) as nat)))
    }
}

/// The leaves of the first `k` rounds.
pub open spec fn all_leaves(bom: Seq<BomLine>, d0: Seq<Need>, k: nat) -> Seq<Need>
    decreases k,
{
    if k == 0 {
        Seq::empty()
    } else {
        all_leaves(bom, d0, (k - 1) as nat) + leaves(bom, level(bom, d0, (k - 1) as nat))
    }
}

/// A round on demand `d` stays within `i64`: every product of a quantity
/// and a line's `qty_per`, and every total of the next demand.
pub open spec fn round_fits(bom: Seq<BomLine>, d: Seq<Need>) -> bool {
    &&& forall|a: int, l: int|
        #![trigger d[a], bom[l]]
        0 <= a < d.len() && 0 <= l < bom.len() && d[a].0 == bom[l].parent@ ==> i64::MIN <= d[a].1
            * bom[l].qty_per <= i64::MAX
    &&& forall|x: int|
        0 <= x < summarize(children(bom, d)).len() ==> i64::MIN <= #[trigger] summarize(children(bom, d))[x].1
            <= i64::MAX
}

/// Every entry of `r` fits in `i64`.
pub open spec fn fits(r: Seq<Need>) -> bool {
    forall|x: int| 0 <= x < r.len() ==> i64::MIN <= #[trigger] r[x].1 <= i64::MAX
}

/// The explosion ends after `k` rounds and stays within `i64`.
pub open spec fn explosion_ends(bom: Seq<BomLine>, d0: Seq<Need>, k: nat) -> bool {
    &&& level(bom, d0, k).len() == 0
    &&& forall|j: nat| j < k ==> round_fits(bom, #[trigger] level(bom, d0, j))
    &&& fits(summarize(all_leaves(bom, d0, k)))
}

/// Requirement `i` meets stock entry `j` of the same part with more
/// required than in stock.
pub open spec fn short(reqs: Seq<Requirement>, inv: Seq<Stock>, i: int, j: int) -> bool {
    &&& 0 <= i < reqs.len()
    &&& 0 <= j < inv.len()
    &&& reqs[i].part@ == inv[j].part@
    &&& reqs[i].qty_required > inv[j].stock
}

/// Every requirement minus the stock of its part fits in `i64`.
pub open spec fn differences_fit(reqs: Seq<Requirement>, inv: Seq<Stock>) -> bool {
    forall|i: int, j: int|
        #![trigger reqs[i], inv[j]]
        0 <= i < reqs.len() && 0 <= j < inv.len() && reqs[i].part@ == inv[j].part@ ==> i64::MIN
            <= reqs[i].qty_required - inv[j].stock <= i64::MAX
}

/// Whether some line of the bill of materials has parent `p`.
fn has_parent(bom: &Vec<BomLine>, p: &String) -> (b: bool)
    ensures
        b == is_assembly(bom@, p@),
{
    let mut l: usize = 0;
    while l < bom.len()
        invariant
            l <= bom@.len(),
            forall|x: int| 0 <= x < l ==> (#[trigger] bom@[x]).parent@ != p@,
        decreases bom@.len() - l,
    {
        if bom[l].parent == *p {
            return true;
        }
        l = l + 1;
    }
    false
}

proof fn lemma_needs_take(v: Seq<Requirement>, i: int)
    requires
        0 <= i < v.len(),
    ensures
        needs(v.take(i + 1)) == needs(v.take(i)).push((v[i].part@, v[i].qty_required as int)),
        needs(v.take(i + 1)).drop_last() == needs(v.take(i)),
        needs(v.take(i + 1)).last() == (v[i].part@, v[i].qty_required as int),
{
    assert(v.take(i + 1) == v.take(i).push(v[i]));
    assert(needs(v.take(i + 1)) =~= needs(v.take(i)).push((v[i].part@, v[i].qty_required as int)));
}

/// The entries of `d` whose part is no assembly.
fn leaves_of(bom: &Vec<BomLine>, d: &Vec<Requirement>) -> (out: Vec<Requirement>)
    ensures
        needs(out@) == leaves(bom@, needs(d@)),
{
    let mut out: Vec<Requirement> = Vec::new();
    let mut i: usize = 0;
    while i < d.len()
        invariant
            i <= d@.len(),
            needs(out@) == leaves(bom@, needs(d@.take(i as int))),
        decreases d@.len() - i,
    {
        proof {
            lemma_needs_take(d@, i as int);
        }
        let ghost before = out@;
        if !has_parent(bom, &d[i].part) {
            out.push(Requirement { part: d[i].part.clone(), qty_required: d[i].qty_required });
            assert(needs(out@) =~= needs(before).push((d@[i as int].part@, d@[i as int].qty_required as int)));
        }
        i = i + 1;
    }
    assert(d@.take(d@.len() as int) == d@);
    out
}

/// The needs of the children of every entry of `d`.
fn children_of(bom: &Vec<BomLine>, d: &Vec<Requirement>) -> (out: Vec<Requirement>)
    requires
        round_fits(bom@, needs(d@)),
    ensures
        needs(out@) == children(bom@, needs(d@)),
{
    let ghost dn = needs(d@);
    let mut out: Vec<Requirement> = Vec::new();
    let mut i: usize = 0;
    while i < d.len()
        invariant
            dn == needs(d@),
            i <= d@.len(),
            round_fits(bom@, dn),
            needs(out@) == children(bom@, dn.take(i as int)),
        decreases d@.len() - i,
    {
        proof {
            lemma_needs_take(d@, i as int);
            assert(dn.take(i + 1) == needs(d@.take(i + 1)));
            assert(dn.take(i as int) == needs(d@.take(i as int)));
        }
        let r = &d[i];
        let ghost start = needs(out@);
        let mut l: usize = 0;
        while l < bom.len()
            invariant
                dn == needs(d@),
                i < d@.len(),
                l <= bom@.len(),
                *r == d@[i as int],
                round_fits(bom@, dn),
                needs(out@) == start + expand(bom@.take(l as int), r.part@, r.qty_required as int),
            decreases bom@.len() - l,
        {
            let line = &bom[l];
            assert(bom@.take(l + 1).drop_last() == bom@.take(l as int));
            assert(bom@.take(l + 1).last() == bom@[l as int]);
            let ghost before = out@;
            if line.parent == r.part {
                assert(dn[i as int].0 == bom@[l as int].parent@);
                assert(i64::MIN <= dn[i as int].1 * bom@[l as int].qty_per <= i64::MAX);
                let q: i64 = r.qty_required * line.qty_per;
                out.push(Requirement { part: line.child.clone(), qty_required: q });
                assert(needs(out@) =~= needs(before).push((line.child@, r.qty_required * line.qty_per)));
            }
            l = l + 1;
        }
        assert(bom@.take(bom@.len() as int) == bom@);
        i = i + 1;
    }
    assert(dn.take(d@.len() as int) == dn);
    out
}

/// The sum of the distinct entries of part `c`.
fn total_of(r: &Vec<Requirement>, c: &String) -> (t: i128)
    ensures
        t == total(needs(r@), c@),
{
    let ghost nv = needs(r@);
    let mut acc: i128 = 0;
    let mut k: usize = 0;
    let len = r.len();
    while k < len
        invariant
            nv == needs(r@),
            len == r@.len(),
            k <= len,
            acc == total(nv.take(k as int), c@),
            -(k as int) * 0x8000_0000_0000_0000 <= acc <= (k as int) * 0x8000_0000_0000_0000,
        decreases len - k,
    {
        let ghost pre = nv.take(k as int);
        assert(nv.take(k + 1).drop_last() == pre);
        assert(nv.take(k + 1).last() == nv[k as int]);
        let e = &r[k];
        if e.part == *c {
            let mut seen = false;
            let mut m: usize = 0;
            while m < k
                invariant
                    nv == needs(r@),
                    pre == nv.take(k as int),
                    k < r@.len(),
                    m <= k,
                    e == r@[k as int],
                    seen == exists|x: int| 0 <= x < m && #[trigger] pre[x] == nv[k as int],
                decreases k - m,
            {
                if r[m].part == e.part && r[m].qty_required == e.qty_required {
                    assert(pre[m as int] == nv[k as int]);
                    seen = true;
                } else {
                    assert(pre[m as int] != nv[k as int]);
                }
                proof {
                    if !seen {
                        assert forall|x: int| 0 <= x < m + 1 implies #[trigger] pre[x] != nv[k as int] by {}
                    }
                }
                m = m + 1;
            }
            assert(seen == pre.contains(nv[k as int]));
            if !seen {
                acc = acc + e.qty_required as i128;
            }
        }
        k = k + 1;
    }
    assert(nv.take(len as int) == nv);
    acc
}

/// Every part of `r` with the total of its distinct entries.
fn summarize_needs(r: &Vec<Requirement>) -> (out: Vec<Requirement>)
    requires
        fits(summarize(needs(r@))),
    ensures
        needs(out@) == summarize(needs(r@)),
{
    let ghost nv = needs(r@);
    let mut names: Vec<String> = Vec::new();
    let mut k: usize = 0;
    while k < r.len()
        invariant
            nv == needs(r@),
            k <= r@.len(),
            views(names@) == parts(nv.take(k as int)),
            views(names@).no_duplicates(),
        decreases r@.len() - k,
    {
        proof {
            lemma_needs_take(r@, k as int);
            assert(nv.take(k + 1) == needs(r@.take(k + 1)));
            assert(nv.take(k as int) == needs(r@.take(k as int)));
        }
        let ghost before = views(names@);
        push_unique(&mut names, r[k].part.clone());
        proof {
            if before.contains(r@[k as int].part@) {
                assert(views(names@) == before);
            } else {
                assert(views(names@) =~= before.push(r@[k as int].part@));
            }
        }
        k = k + 1;
    }
    assert(nv.take(r@.len() as int) == nv);
    let mut out: Vec<Requirement> = Vec::new();
    let mut x: usize = 0;
    while x < names.len()
        invariant
            nv == needs(r@),
            views(names@) == parts(nv),
            fits(summarize(nv)),
            x <= names@.len(),
            needs(out@) == summarize(nv).take(x as int),
        decreases names@.len() - x,
    {
        let t = total_of(r, &names[x]);
        assert(views(names@)[x as int] == names@[x as int]@);
        assert(summarize(nv)[x as int] == (names@[x as int]@, t as int));
        assert(i64::MIN <= summarize(nv)[x as int].1 <= i64::MAX);
        let ghost before = out@;
        out.push(Requirement { part: names[x].clone(), qty_required: t as i64 });
        assert(summarize(nv).take(x + 1) == summarize(nv).take(x as int).push(summarize(nv)[x as int]));
        assert(needs(out@) =~= needs(before).push((names@[x as int]@, t as int)));
        x = x + 1;
    }
    assert(summarize(nv).take(names@.len() as int) == summarize(nv));
    out
}

proof fn lemma_leaves_stable(bom: Seq<BomLine>, d0: Seq<Need>, a: nat, b: nat)
    requires
        a <= b,
        level(bom, d0, a).len() == 0,
    ensures
        level(bom, d0, b).len() == 0,
        all_leaves(bom, d0, b) == all_leaves(bom, d0, a),
    decreases b - a,
{
    if a < b {
        lemma_leaves_stable(bom, d0, a, (b - 1) as nat);
        let prev = level(bom, d0, (b - 1) as nat);
        assert(children(bom, prev) == Seq::<Need>::empty());
        assert(parts(children(bom, prev)) == Seq::<Seq<char>>::empty());
        assert(level(bom, d0, b) =~= Seq::<Need>::empty());
        assert(leaves(bom, prev) == Seq::<Need>::empty());
        assert(all_leaves(bom, d0, b) =~= all_leaves(bom, d0, (b - 1) as nat));
    }
}

/// The raw materials that the demand needs: the demand is broken down
/// through the bill of materials round by round (each round keeps the
/// entries whose part is no assembly and replaces the others by the needs
/// of their children, summed per part over distinct entries) until no
/// demand is left; the kept entries are then summed per part.
pub fn explode_bom(bom: &Vec<BomLine>, demand: &Vec<Requirement>) -> (out: Vec<Requirement>)
    requires
        exists|k: nat| explosion_ends(bom@, needs(demand@), k),
    ensures
        forall|k: nat|
            #[trigger] explosion_ends(bom@, needs(demand@), k) ==> needs(out@) == summarize(
                all_leaves(bom@, needs(demand@), k),
            ),
{
    let ghost d0 = needs(demand@);
    let ghost k0 = choose|k: nat| explosion_ends(bom@, d0, k);
    let mut current: Vec<Requirement> = Vec::new();
    let mut i: usize = 0;
    while i < demand.len()
        invariant
            d0 == needs(demand@),
            i <= demand@.len(),
            needs(current@) == needs(demand@.take(i as int)),
        decreases demand@.len() - i,
    {
        proof {
            lemma_needs_take(demand@, i as int);
        }
        let ghost before = current@;
        current.push(Requirement { part: demand[i].part.clone(), qty_required: demand[i].qty_required });
        assert(needs(current@) =~= needs(before).push((demand@[i as int].part@, demand@[i as int].qty_required as int)));
        i = i + 1;
    }
    assert(demand@.take(demand@.len() as int) == demand@);
    let mut raw: Vec<Requirement> = Vec::new();
    let ghost mut j: nat = 0;
    assert(needs(raw@) =~= Seq::<Need>::empty());
    while current.len() > 0
        invariant
            d0 == needs(demand@),
            explosion_ends(bom@, d0, k0),
            j <= k0,
            needs(current@) == level(bom@, d0, j),
            needs(raw@) == all_leaves(bom@, d0, j),
        decreases k0 - j,
    {
        assert(j < k0);
        assert(round_fits(bom@, level(bom@, d0, j)));
        let mut lv = leaves_of(bom, &current);
        let ghost before = raw@;
        raw.append(&mut lv);
        assert(needs(raw@) =~= needs(before) + leaves(bom@, level(bom@, d0, j)));
        let next = children_of(bom, &current);
        current = summarize_needs(&next);
        proof {
            j = j + 1;
        }
    }
    proof {
        lemma_leaves_stable(bom@, d0, j, k0);
    }
    let out = summarize_needs(&raw);
    proof {
        assert forall|k: nat| #[trigger] explosion_ends(bom@, d0, k) implies needs(out@) == summarize(all_leaves(bom@, d0, k)) by {
            if k >= j {
                lemma_leaves_stable(bom@, d0, j, k);
            } else {
                lemma_leaves_stable(bom@, d0, k, j);
            }
        }
    }
    out
}

/// The shortages: for every requirement and stock entry of one part with
/// more required than in stock, the part and the difference, each once.
/// Parts without a stock entry are left out.
pub fn compute_shortages(requirements: &Vec<Requirement>, inventory: &Vec<Stock>) -> (out: Vec<Shortage>)
    requires
        differences_fit(requirements@, inventory@),
    ensures
        views(out@).no_duplicates(),
        forall|q: (Seq<char>, i64)|
            #[trigger] views(out@).contains(q) <==> exists|i: int, j: int|
                #![trigger requirements@[i], inventory@[j]]
                short(requirements@, inventory@, i, j) && q == (requirements@[i].part@, (
                requirements@[i].qty_required - inventory@[j].stock) as i64),
{
    let ghost reqs = requirements@;
    let ghost inv = inventory@;
    let mut out: Vec<Shortage> = Vec::new();
    let mut i: usize = 0;
    while i < requirements.len()
        invariant
            reqs == requirements@,
            inv == inventory@,
            i <= reqs.len(),
            differences_fit(reqs, inv),
            views(out@).no_duplicates(),
            forall|q: (Seq<char>, i64)|
                #[trigger] views(out@).contains(q) <==> exists|a: int, b: int|
                    #![trigger reqs[a], inv[b]]
                    a < i && short(reqs, inv, a, b) && q == (reqs[a].part@, (reqs[a].qty_required - inv[b].stock) as i64),
        decreases reqs.len() - i,
    {
        let mut j: usize = 0;
        while j < inventory.len()
            invariant
                reqs == requirements@,
                inv == inventory@,
                i < reqs.len(),
                j <= inv.len(),
                differences_fit(reqs, inv),
                views(out@).no_duplicates(),
                forall|q: (Seq<char>, i64)|
                    #[trigger] views(out@).contains(q) <==> exists|a: int, b: int|
                        #![trigger reqs[a], inv[b]]
                        (a < i || (a == i && b < j)) && short(reqs, inv, a, b) && q == (reqs[a].part@, (
                        reqs[a].qty_required - inv[b].stock) as i64),
            decreases inv.len() - j,
        {
            let r = &requirements[i];
            let s = &inventory[j];
            let ghost before = views(out@);
            if r.part == s.part && r.qty_required > s.stock {
                assert(i64::MIN <= reqs[i as int].qty_required - inv[j as int].stock <= i64::MAX);
                let d: i64 = r.qty_required - s.stock;
                push_unique(&mut out, Shortage { part: r.part.clone(), shortage: d });
            }
            proof {
                assert forall|q: (Seq<char>, i64)|
                    #[trigger] views(out@).contains(q) <==> exists|a: int, b: int|
                        #![trigger reqs[a], inv[b]]
                        (a < i || (a == i && b < j + 1)) && short(reqs, inv, a, b) && q == (reqs[a].part@, (
                        reqs[a].qty_required - inv[b].stock) as i64) by {
                    if exists|a: int, b: int|
                        #![trigger reqs[a], inv[b]]
                        (a < i || (a == i && b < j + 1)) && short(reqs, inv, a, b) && q == (reqs[a].part@, (
                        reqs[a].qty_required - inv[b].stock) as i64) {
                        let (a, b) = choose|a: int, b: int|
                            #![trigger reqs[a], inv[b]]
                            (a < i || (a == i && b < j + 1)) && short(reqs, inv, a, b) && q == (reqs[a].part@, (
                            reqs[a].qty_required - inv[b].stock) as i64);
                        if !(a == i && b == j) {
                            assert(before.contains(q));
                        }
                    }
                }
            }
            j = j + 1;
        }
        i = i + 1;
    }
    out
}

} // verus!
