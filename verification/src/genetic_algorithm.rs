//! One generation of a genetic algorithm over a population relation
//! `(id, gene_a, gene_b)`: fitness is the negated distance of
//! `gene_a + gene_b` from a target, the individuals ranked below an elite
//! count become parents, and every ordered pair of parents has a child.
use vstd::prelude::*;
use crate::graph::{push_unique, views, Key};

verus! {

broadcast use vstd::seq_lib::group_seq_properties;

/// An individual of the population.
#[derive(Clone, Copy, Debug, PartialEq, Eq)]
pub struct Individual {
    pub id: i64,
    pub gene_a: i64,
    pub gene_b: i64,
}

impl View for Individual {
    type V = (i64, i64, i64);

    open spec fn view(&self) -> Self::V {
        (self.id, self.gene_a, self.gene_b)
    }
}

impl Key for Individual {
    fn same(&self, other: &Self) -> (b: bool) {
        self.id == other.id && self.gene_a == other.gene_a && self.gene_b == other.gene_b
    }

    fn duplicate(&self) -> (c: Self) {
        *self
    }
}

/// A population and the gene sum it aims at.
pub struct GeneticAlgorithm {
    pub population: Vec<Individual>,
    pub target_sum: i64,
}

/// `x` clamped into the range of `i64`.
pub open spec fn clamp64(x: int) -> int {
    if x < i64::MIN {
        i64::MIN as int
    } else if x > i64::MAX {
        i64::MAX as int
    } else {
        x
    }
}

/// The distance of the saturated gene sum from the target.
pub open spec fn distance(ind: Individual, target: i64) -> int {
    let d = clamp64(ind.gene_a + ind.gene_b) - target;
    if d < 0 {
        -d
    } else {
        d
    }
}

/// The fitness: the distance, taken as `i64` with wrapping, negated.
pub open spec fn fitness(ind: Individual, target: i64) -> int {
    let d = distance(ind, target);
    if d < 0x8000_0000_0000_0000 {
        -d
    } else {
        0x1_0000_0000_0000_0000 - d
    }
}

/// Every fitness of the population can be negated within `i64`.
pub open spec fn fitness_defined(pop: Seq<Individual>, target: i64) -> bool {
    forall|i: int| 0 <= i < pop.len() ==> distance(#[trigger] pop[i], target) != 0x8000_0000_0000_0000
}

/// `x` ranks above `y`: fitter, or as fit with a larger id.
pub open spec fn outranks(x: Individual, y: Individual, target: i64) -> bool {
    fitness(y, target) < fitness(x, target) || (fitness(y, target) == fitness(x, target) && y.id < x.id)
}

/// How many of the first `k` individuals rank above `y`.
pub open spec fn count_above(pop: Seq<Individual>, target: i64, y: Individual, k: int) -> nat
    decreases k,
{
    if k <= 0 {
        0
    } else {
        count_above(pop, target, y, k - 1) + if outranks(pop[k - 1], y, target) {
            1nat
        } else {
            0nat
        }
    }
}

/// Over the first `k` individuals with id `id`, how many rank above them.
pub open spec fn rank_upto(pop: Seq<Individual>, target: i64, id: i64, k: int) -> nat
    decreases k,
{
    if k <= 0 {
        0
    } else {
        rank_upto(pop, target, id, k - 1) + if pop[k - 1].id == id {
            count_above(pop, target, pop[k - 1], pop.len() as int)
        } else {
            0nat
        }
    }
}

/// The rank of id `id`: the number of (individual with that id, individual
/// above it) pairs.
pub open spec fn rank(pop: Seq<Individual>, target: i64, id: i64) -> nat {
    rank_upto(pop, target, id, pop.len() as int)
}

/// Id `id` is among the elite.
pub open spec fn selected(pop: Seq<Individual>, target: i64, elite: usize, id: i64) -> bool {
    rank(pop, target, id) < elite
}

/// More than one individual is selected.
pub open spec fn many_parents(pop: Seq<Individual>, target: i64, elite: usize) -> bool {
    exists|i: int, j: int|
        #![trigger pop[i], pop[j]]
        0 <= i < pop.len() && 0 <= j < pop.len() && i != j && selected(pop, target, elite, pop[i].id)
            && selected(pop, target, elite, pop[j].id)
}

/// Division by two, rounding toward zero.
pub open spec fn half(x: int) -> int {
    if x >= 0 {
        x / 2
    } else {
        -((-x) / 2)
    }
}

/// The child of parents `x` and `y`.
pub open spec fn child(x: Individual, y: Individual) -> (i64, i64, i64) {
    (
        clamp64(clamp64(x.id * 100) + y.id) as i64,
        (half(x.gene_a + y.gene_a) + if x.id % 2 == 0 {
            1int
        } else {
            -1int
        }) as i64,
        (half(x.gene_b + y.gene_b) + if y.id % 3 == 0 {
            -1int
        } else {
            1int
        }) as i64,
    )
}

/// Parents `i` and `j` pair up.
pub open spec fn pairs(pop: Seq<Individual>, target: i64, elite: usize, i: int, j: int) -> bool {
    &&& 0 <= i < pop.len()
    &&& 0 <= j < pop.len()
    &&& selected(pop, target, elite, pop[i].id)
    &&& selected(pop, target, elite, pop[j].id)
    &&& (many_parents(pop, target, elite) ==> pop[i].id != pop[j].id)
}

/// The gene sums of every pair of parents fit in `i64`.
pub open spec fn crossover_defined(pop: Seq<Individual>, target: i64, elite: usize) -> bool {
    forall|i: int, j: int|
        #![trigger pop[i], pop[j]]
        0 <= i < pop.len() && 0 <= j < pop.len() && selected(pop, target, elite, pop[i].id) && selected(
            pop,
            target,
            elite,
            pop[j].id,
        ) ==> i64::MIN <= pop[i].gene_a + pop[j].gene_a <= i64::MAX && i64::MIN <= pop[i].gene_b
            + pop[j].gene_b <= i64::MAX
}

/// `ind` is an individual whose id is among the elite.
pub open spec fn is_parent(pop: Seq<Individual>, target: i64, elite: usize, ind: Individual) -> bool {
    exists|i: int| 0 <= i < pop.len() && selected(pop, target, elite, pop[i].id) && #[trigger] pop[i] == ind
}

/// The individuals of the next generation: the parents and their children.
pub open spec fn next_population(pop: Seq<Individual>, target: i64, elite: usize, q: (i64, i64, i64)) -> bool {
    ||| exists|i: int| 0 <= i < pop.len() && selected(pop, target, elite, pop[i].id) && #[trigger] pop[i]@ == q
    ||| exists|i: int, j: int|
        #![trigger pop[i], pop[j]]
        pairs(pop, target, elite, i, j) && q == child(pop[i], pop[j])
}

/// `q` is the child of parents `a` and `b` of `ps`, for some pair before
/// `(ua, ub)` in row order.
pub open spec fn child_before(ps: Seq<Individual>, many: bool, ua: int, ub: int, q: (i64, i64, i64)) -> bool {
    exists|a: int, b: int|
        #![trigger ps[a], ps[b]]
        0 <= a < ps.len() && 0 <= b < ps.len() && (a < ua || (a == ua && b < ub)) && (many ==> ps[a].id
            != ps[b].id) && q == child(ps[a], ps[b])
}

/// The fitness of an individual.
fn fitness_of(ind: &Individual, target: i64) -> (f: i64)
    requires
        distance(*ind, target) != 0x8000_0000_0000_0000,
    ensures
        f == fitness(*ind, target),
{
    let s: i128 = ind.gene_a as i128 + ind.gene_b as i128;
    let sum: i128 = if s < i64::MIN as i128 {
        i64::MIN as i128
    } else if s > i64::MAX as i128 {
        i64::MAX as i128
    } else {
        s
    };
    let d0: i128 = sum - target as i128;
    let d: i128 = if d0 < 0 {
        -d0
    } else {
        d0
    };
    if d < 0x8000_0000_0000_0000 {
        -(d as i64)
    } else {
        (0x1_0000_0000_0000_0000 - d) as i64
    }
}

/// The child of parents `x` and `y`.
fn make_child(x: &Individual, y: &Individual) -> (c: Individual)
    requires
        i64::MIN <= x.gene_a + y.gene_a <= i64::MAX,
        i64::MIN <= x.gene_b + y.gene_b <= i64::MAX,
    ensures
        c@ == child(*x, *y),
{
    let m: i128 = x.id as i128 * 100;
    let m1: i128 = if m < i64::MIN as i128 {
        i64::MIN as i128
    } else if m > i64::MAX as i128 {
        i64::MAX as i128
    } else {
        m
    };
    let s: i128 = m1 + y.id as i128;
    let id: i128 = if s < i64::MIN as i128 {
        i64::MIN as i128
    } else if s > i64::MAX as i128 {
        i64::MAX as i128
    } else {
        s
    };
    let sa: i128 = x.gene_a as i128 + y.gene_a as i128;
    let ha: i128 = if sa >= 0 {
        sa / 2
    } else {
        -((-sa) / 2)
    };
    let ma: i128 = if x.id % 2 == 0 {
        1
    } else {
        -1
    };
    let sb: i128 = x.gene_b as i128 + y.gene_b as i128;
    let hb: i128 = if sb >= 0 {
        sb / 2
    } else {
        -((-sb) / 2)
    };
    let mb: i128 = if y.id % 3 == 0 {
        -1
    } else {
        1
    };
    Individual { id: id as i64, gene_a: (ha + ma) as i64, gene_b: (hb + mb) as i64 }
}

proof fn lemma_count_above_mono(pop: Seq<Individual>, target: i64, y: Individual, a: int, b: int)
    requires
        a <= b,
    ensures
        count_above(pop, target, y, a) <= count_above(pop, target, y, b),
    decreases b - a,
{
    if a < b {
        lemma_count_above_mono(pop, target, y, a, b - 1);
    }
}

proof fn lemma_rank_upto_mono(pop: Seq<Individual>, target: i64, id: i64, a: int, b: int)
    requires
        a <= b,
    ensures
        rank_upto(pop, target, id, a) <= rank_upto(pop, target, id, b),
    decreases b - a,
{
    if a < b {
        lemma_rank_upto_mono(pop, target, id, a, b - 1);
    }
}

impl GeneticAlgorithm {
    /// Whether id `id` ranks below `elite`.
    fn is_selected(&self, id: i64, elite: usize) -> (b: bool)
        requires
            fitness_defined(self.population@, self.target_sum),
        ensures
            b == selected(self.population@, self.target_sum, elite, id),
    {
        let ghost pop = self.population@;
        let target = self.target_sum;
        let n = self.population.len();
        if elite == 0 {
            return false;
        }
        let mut count: usize = 0;
        let mut i: usize = 0;
        while i < n
            invariant
                pop == self.population@,
                target == self.target_sum,
                n == pop.len(),
                i <= n,
                fitness_defined(pop, target),
                count == rank_upto(pop, target, id, i as int),
                count < elite,
            decreases n - i,
        {
            let y = &self.population[i];
            if y.id == id {
                let fy = fitness_of(y, target);
                let mut j: usize = 0;
                let ghost base = count;
                while j < n
                    invariant
                        pop == self.population@,
                        target == self.target_sum,
                        n == pop.len(),
                        i < n,
                        j <= n,
                        fitness_defined(pop, target),
                        *y == pop[i as int],
                        y.id == id,
                        fy == fitness(*y, target),
                        base == rank_upto(pop, target, id, i as int),
                        count == base + count_above(pop, target, *y, j as int),
                        count < elite,
                    decreases n - j,
                {
                    let x = &self.population[j];
                    let fx = fitness_of(x, target);
                    if fy < fx || (fy == fx && y.id < x.id) {
                        count = count + 1;
                        if count >= elite {
                            proof {
                                lemma_count_above_mono(pop, target, *y, j + 1, n as int);
                                lemma_rank_upto_mono(pop, target, id, i + 1, n as int);
                            }
                            return false;
                        }
                    }
                    j = j + 1;
                }
            }
            i = i + 1;
        }
        true
    }
}

impl GeneticAlgorithm {
    /// A population with a target gene sum.
    pub fn new(population: Vec<Individual>, target_sum: i64) -> (ga: Self)
        ensures
            ga.population == population,
            ga.target_sum == target_sum,
    {
        GeneticAlgorithm { population, target_sum }
    }

    /// The highest fitness of a non-empty population.
    fn max_fitness(&self) -> (m: i64)
        requires
            self.population@.len() > 0,
            fitness_defined(self.population@, self.target_sum),
        ensures
            exists|i: int| 0 <= i < self.population@.len() && fitness(#[trigger] self.population@[i], self.target_sum) == m,
            forall|i: int| 0 <= i < self.population@.len() ==> fitness(#[trigger] self.population@[i], self.target_sum) <= m,
    {
        let ghost pop = self.population@;
        let mut m = fitness_of(&self.population[0], self.target_sum);
        let mut i: usize = 1;
        while i < self.population.len()
            invariant
                pop == self.population@,
                1 <= i <= pop.len(),
                fitness_defined(pop, self.target_sum),
                exists|k: int| 0 <= k < i && fitness(#[trigger] pop[k], self.target_sum) == m,
                forall|k: int| 0 <= k < i ==> fitness(#[trigger] pop[k], self.target_sum) <= m,
            decreases pop.len() - i,
        {
            let f = fitness_of(&self.population[i], self.target_sum);
            if f > m {
                m = f;
            }
            i = i + 1;
        }
        m
    }

    /// The individuals whose id is among the elite, each once.
    fn select_parents(&self, elite: usize) -> (parents: Vec<Individual>)
        requires
            fitness_defined(self.population@, self.target_sum),
        ensures
            views(parents@).no_duplicates(),
            forall|k: int| 0 <= k < parents@.len() ==> #[trigger] is_parent(self.population@, self.target_sum, elite, parents@[k]),
            forall|i: int|
                0 <= i < self.population@.len() && selected(self.population@, self.target_sum, elite, (#[trigger] self.population@[i]).id)
                    ==> parents@.contains(self.population@[i]),
    {
        let ghost pop = self.population@;
        let ghost target = self.target_sum;
        let ghost mut src: Seq<int> = Seq::empty();
        let mut parents: Vec<Individual> = Vec::new();
        let mut i: usize = 0;
        while i < self.population.len()
            invariant
                pop == self.population@,
                target == self.target_sum,
                i <= pop.len(),
                fitness_defined(pop, target),
                views(parents@).no_duplicates(),
                src.len() == parents@.len(),
                forall|k: int| #![trigger src[k]] 0 <= k < src.len() ==> 0 <= src[k] < pop.len()
                    && selected(pop, target, elite, pop[src[k]].id) && parents@[k] == pop[src[k]],
                forall|x: int| 0 <= x < i && selected(pop, target, elite, (#[trigger] pop[x]).id) ==> parents@.contains(pop[x]),
            decreases pop.len() - i,
        {
            let ind = self.population[i];
            if self.is_selected(ind.id, elite) {
                let ghost before = parents@;
                push_unique(&mut parents, ind);
                proof {
                    if parents@.len() > before.len() {
                        src = src.push(i as int);
                        assert(parents@[before.len() as int]@ == ind@);
                    }
                    assert forall|x: int| 0 <= x < i + 1 && selected(pop, target, elite, (#[trigger] pop[x]).id) implies parents@.contains(pop[x]) by {
                        if x < i {
                            assert(before.contains(pop[x]));
                            let k = choose|k: int| 0 <= k < before.len() && before[k] == pop[x];
                            assert(parents@[k] == pop[x]);
                        } else {
                            assert(views(parents@).contains(ind@));
                            let k = choose|k: int| 0 <= k < views(parents@).len() && views(parents@)[k] == ind@;
                            assert(parents@[k]@ == ind@);
                            assert(parents@[k] == pop[x]);
                        }
                    }
                }
            }
            i = i + 1;
        }
        proof {
            assert forall|k: int| 0 <= k < parents@.len() implies #[trigger] is_parent(pop, target, elite, parents@[k]) by {
                assert(pop[src[k]] == parents@[k]);
            }
        }
        parents
    }
}

proof fn lemma_child_step(ps: Seq<Individual>, many: bool, a: int, b: int, q: (i64, i64, i64))
    requires
        0 <= a < ps.len(),
        0 <= b < ps.len(),
    ensures
        child_before(ps, many, a, b + 1, q) == (child_before(ps, many, a, b, q) || ((many ==> ps[a].id
            != ps[b].id) && q == child(ps[a], ps[b]))),
{
    if child_before(ps, many, a, b + 1, q) && !child_before(ps, many, a, b, q) {
        let (a1, b1) = choose|a1: int, b1: int|
            #![trigger ps[a1], ps[b1]]
            0 <= a1 < ps.len() && 0 <= b1 < ps.len() && (a1 < a || (a1 == a && b1 < b + 1)) && (many
                ==> ps[a1].id != ps[b1].id) && q == child(ps[a1], ps[b1]);
        assert(a1 == a && b1 == b);
    }
    if child_before(ps, many, a, b, q) {
        let (a1, b1) = choose|a1: int, b1: int|
            #![trigger ps[a1], ps[b1]]
            0 <= a1 < ps.len() && 0 <= b1 < ps.len() && (a1 < a || (a1 == a && b1 < b)) && (many ==> ps[a1].id
                != ps[b1].id) && q == child(ps[a1], ps[b1]);
        assert(child_before(ps, many, a, b + 1, q));
    }
    if (many ==> ps[a].id != ps[b].id) && q == child(ps[a], ps[b]) {
        assert(child_before(ps, many, a, b + 1, q));
    }
}

proof fn lemma_row_step(ps: Seq<Individual>, many: bool, a: int, q: (i64, i64, i64))
    requires
        0 <= a < ps.len(),
    ensures
        child_before(ps, many, a, ps.len() as int, q) == child_before(ps, many, a + 1, 0, q),
{
    if child_before(ps, many, a + 1, 0, q) {
        let (a1, b1) = choose|a1: int, b1: int|
            #![trigger ps[a1], ps[b1]]
            0 <= a1 < ps.len() && 0 <= b1 < ps.len() && (a1 < a + 1 || (a1 == a + 1 && b1 < 0)) && (many
                ==> ps[a1].id != ps[b1].id) && q == child(ps[a1], ps[b1]);
        assert(child_before(ps, many, a, ps.len() as int, q));
    }
    if child_before(ps, many, a, ps.len() as int, q) {
        let (a1, b1) = choose|a1: int, b1: int|
            #![trigger ps[a1], ps[b1]]
            0 <= a1 < ps.len() && 0 <= b1 < ps.len() && (a1 < a || (a1 == a && b1 < ps.len())) && (many
                ==> ps[a1].id != ps[b1].id) && q == child(ps[a1], ps[b1]);
        assert(child_before(ps, many, a + 1, 0, q));
    }
}

/// The parents, listed once each, stand for the selected individuals.
pub open spec fn lists_parents(pop: Seq<Individual>, target: i64, elite: usize, ps: Seq<Individual>) -> bool {
    &&& views(ps).no_duplicates()
    &&& forall|k: int| 0 <= k < ps.len() ==> #[trigger] is_parent(pop, target, elite, ps[k])
    &&& forall|i: int|
        0 <= i < pop.len() && selected(pop, target, elite, (#[trigger] pop[i]).id) ==> ps.contains(pop[i])
}

proof fn lemma_many(pop: Seq<Individual>, target: i64, elite: usize, ps: Seq<Individual>)
    requires
        views(pop).no_duplicates(),
        lists_parents(pop, target, elite, ps),
    ensures
        (ps.len() > 1) == many_parents(pop, target, elite),
{
    if ps.len() > 1 {
        assert(is_parent(pop, target, elite, ps[0]));
        assert(is_parent(pop, target, elite, ps[1]));
        let i0 = choose|i: int| 0 <= i < pop.len() && selected(pop, target, elite, pop[i].id) && #[trigger] pop[i] == ps[0];
        let i1 = choose|i: int| 0 <= i < pop.len() && selected(pop, target, elite, pop[i].id) && #[trigger] pop[i] == ps[1];
        assert(views(ps)[0] != views(ps)[1]);
        assert(pop[i0] != pop[i1]);
        assert(many_parents(pop, target, elite));
    }
    if many_parents(pop, target, elite) {
        let (i, j) = choose|i: int, j: int|
            #![trigger pop[i], pop[j]]
            0 <= i < pop.len() && 0 <= j < pop.len() && i != j && selected(pop, target, elite, pop[i].id)
                && selected(pop, target, elite, pop[j].id);
        assert(views(pop)[i] != views(pop)[j]);
        assert(ps.contains(pop[i]));
        assert(ps.contains(pop[j]));
        let ki = choose|k: int| 0 <= k < ps.len() && ps[k] == pop[i];
        let kj = choose|k: int| 0 <= k < ps.len() && ps[k] == pop[j];
        assert(ki != kj);
    }
}

proof fn lemma_next_population(
    pop: Seq<Individual>,
    target: i64,
    elite: usize,
    ps: Seq<Individual>,
    many: bool,
    q: (i64, i64, i64),
)
    requires
        lists_parents(pop, target, elite, ps),
        many == many_parents(pop, target, elite),
    ensures
        (views(ps).contains(q) || child_before(ps, many, ps.len() as int, 0, q)) == next_population(
            pop,
            target,
            elite,
            q,
        ),
{
    if views(ps).contains(q) {
        let k = choose|k: int| 0 <= k < views(ps).len() && views(ps)[k] == q;
        assert(is_parent(pop, target, elite, ps[k]));
        let i = choose|i: int| 0 <= i < pop.len() && selected(pop, target, elite, pop[i].id) && #[trigger] pop[i] == ps[k];
        assert(pop[i]@ == q);
    }
    if child_before(ps, many, ps.len() as int, 0, q) {
        let (a1, b1) = choose|a1: int, b1: int|
            #![trigger ps[a1], ps[b1]]
            0 <= a1 < ps.len() && 0 <= b1 < ps.len() && (a1 < ps.len() || (a1 == ps.len() && b1 < 0)) && (many
                ==> ps[a1].id != ps[b1].id) && q == child(ps[a1], ps[b1]);
        assert(is_parent(pop, target, elite, ps[a1]));
        assert(is_parent(pop, target, elite, ps[b1]));
        let i = choose|i: int| 0 <= i < pop.len() && selected(pop, target, elite, pop[i].id) && #[trigger] pop[i] == ps[a1];
        let j = choose|i: int| 0 <= i < pop.len() && selected(pop, target, elite, pop[i].id) && #[trigger] pop[i] == ps[b1];
        assert(pairs(pop, target, elite, i, j));
    }
    if next_population(pop, target, elite, q) {
        if exists|i: int| 0 <= i < pop.len() && selected(pop, target, elite, pop[i].id) && #[trigger] pop[i]@ == q {
            let i = choose|i: int| 0 <= i < pop.len() && selected(pop, target, elite, pop[i].id) && #[trigger] pop[i]@ == q;
            assert(ps.contains(pop[i]));
            let k = choose|k: int| 0 <= k < ps.len() && ps[k] == pop[i];
            assert(views(ps)[k] == q);
        } else {
            let (i, j) = choose|i: int, j: int| #![trigger pop[i], pop[j]] pairs(pop, target, elite, i, j) && q == child(pop[i], pop[j]);
            assert(ps.contains(pop[i]));
            assert(ps.contains(pop[j]));
            let ka = choose|k: int| 0 <= k < ps.len() && ps[k] == pop[i];
            let kb = choose|k: int| 0 <= k < ps.len() && ps[k] == pop[j];
            assert(child_before(ps, many, ps.len() as int, 0, q));
        }
    }
}

impl GeneticAlgorithm {
    /// Appends, each once, the children of parent `a` with every parent `b`
    /// of the first `n` entries, skipping pairs of one id when `many`.
    fn add_children_row(
        out: &mut Vec<Individual>,
        n: usize,
        a: usize,
        many: bool,
        Ghost(pop): Ghost<Seq<Individual>>,
        Ghost(target): Ghost<i64>,
        Ghost(elite): Ghost<usize>,
        Ghost(ps): Ghost<Seq<Individual>>,
    )
        requires
            n == ps.len(),
            a < n,
            many == (n > 1),
            crossover_defined(pop, target, elite),
            forall|k: int| 0 <= k < ps.len() ==> #[trigger] is_parent(pop, target, elite, ps[k]),
            views(old(out)@).no_duplicates(),
            old(out)@.len() >= n,
            forall|k: int| 0 <= k < n ==> old(out)@[k] == ps[k],
            forall|q: (i64, i64, i64)|
                #[trigger] views(old(out)@).contains(q) <==> (views(ps).contains(q) || child_before(ps, many, a as int, 0, q)),
        ensures
            views(final(out)@).no_duplicates(),
            final(out)@.len() >= n,
            forall|k: int| 0 <= k < n ==> final(out)@[k] == ps[k],
            forall|q: (i64, i64, i64)|
                #[trigger] views(final(out)@).contains(q) <==> (views(ps).contains(q) || child_before(ps, many, a + 1, 0, q)),
    {
        let mut b: usize = 0;
        while b < n
            invariant
                n == ps.len(),
                a < n,
                b <= n,
                many == (n > 1),
                crossover_defined(pop, target, elite),
                forall|k: int| 0 <= k < ps.len() ==> #[trigger] is_parent(pop, target, elite, ps[k]),
                views(out@).no_duplicates(),
                out@.len() >= n,
                forall|k: int| 0 <= k < n ==> out@[k] == ps[k],
                forall|q: (i64, i64, i64)|
                    #[trigger] views(out@).contains(q) <==> (views(ps).contains(q) || child_before(ps, many, a as int, b as int, q)),
            decreases n - b,
        {
            let x = out[a];
            let y = out[b];
            if !(many && x.id == y.id) {
                proof {
                    assert(is_parent(pop, target, elite, ps[a as int]));
                    assert(is_parent(pop, target, elite, ps[b as int]));
                    let i = choose|i: int| 0 <= i < pop.len() && selected(pop, target, elite, pop[i].id) && #[trigger] pop[i] == ps[a as int];
                    let j = choose|i: int| 0 <= i < pop.len() && selected(pop, target, elite, pop[i].id) && #[trigger] pop[i] == ps[b as int];
                    assert(pop[i] == x && pop[j] == y);
                }
                let c = make_child(&x, &y);
                push_unique(out, c);
            }
            proof {
                assert forall|q: (i64, i64, i64)|
                    #[trigger] views(out@).contains(q) <==> (views(ps).contains(q) || child_before(ps, many, a as int, b + 1, q)) by {
                    lemma_child_step(ps, many, a as int, b as int, q);
                }
            }
            b = b + 1;
        }
        proof {
            assert forall|q: (i64, i64, i64)|
                #[trigger] views(out@).contains(q) <==> (views(ps).contains(q) || child_before(ps, many, a + 1, 0, q)) by {
                lemma_row_step(ps, many, a as int, q);
            }
        }
    }

    /// The next generation and the highest fitness of this one. The next
    /// generation holds, each once, the individuals whose id ranks below
    /// `elite_count` and the child of every ordered pair of them, where
    /// the two differ in id if more than one individual is selected.
    pub fn next_generation(&self, elite_count: usize) -> (r: (Vec<Individual>, i64))
        requires
            views(self.population@).no_duplicates(),
            fitness_defined(self.population@, self.target_sum),
            crossover_defined(self.population@, self.target_sum, elite_count),
        ensures
            self.population@.len() == 0 ==> r.1 == 0,
            self.population@.len() > 0 ==> exists|i: int|
                0 <= i < self.population@.len() && fitness(#[trigger] self.population@[i], self.target_sum) == r.1,
            forall|i: int|
                0 <= i < self.population@.len() ==> fitness(#[trigger] self.population@[i], self.target_sum) <= r.1,
            views(r.0@).no_duplicates(),
            forall|q: (i64, i64, i64)|
                #[trigger] views(r.0@).contains(q) <==> next_population(self.population@, self.target_sum, elite_count, q),
    {
        let ghost pop = self.population@;
        let ghost target = self.target_sum;
        if self.population.len() == 0 {
            let empty: Vec<Individual> = Vec::new();
            assert(views(empty@) =~= Seq::<(i64, i64, i64)>::empty());
            return (empty, 0);
        }
        let m = self.max_fitness();
        let mut out = self.select_parents(elite_count);
        let ghost ps = out@;
        let n = out.len();
        let many = n > 1;
        proof {
            lemma_many(pop, target, elite_count, ps);
            assert forall|q: (i64, i64, i64)|
                #[trigger] views(out@).contains(q) <==> (views(ps).contains(q) || child_before(ps, many, 0, 0, q)) by {}
        }
        let mut a: usize = 0;
        while a < n
            invariant
                pop == self.population@,
                target == self.target_sum,
                n == ps.len(),
                many == (n > 1),
                a <= n,
                crossover_defined(pop, target, elite_count),
                forall|k: int| 0 <= k < ps.len() ==> #[trigger] is_parent(pop, target, elite_count, ps[k]),
                views(out@).no_duplicates(),
                out@.len() >= n,
                forall|k: int| 0 <= k < n ==> out@[k] == ps[k],
                forall|q: (i64, i64, i64)|
                    #[trigger] views(out@).contains(q) <==> (views(ps).contains(q) || child_before(ps, many, a as int, 0, q)),
            decreases n - a,
        {
            Self::add_children_row(&mut out, n, a, many, Ghost(pop), Ghost(target), Ghost(elite_count), Ghost(ps));
            a = a + 1;
        }
        proof {
            assert forall|q: (i64, i64, i64)|
                #[trigger] views(out@).contains(q) <==> next_population(pop, target, elite_count, q) by {
                lemma_next_population(pop, target, elite_count, ps, many, q);
            }
        }
        (out, m)
    }
}

} // verus!
