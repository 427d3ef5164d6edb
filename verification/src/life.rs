//! Conway's Game of Life over a relation of live cells `(x, y)`: a cell is
//! live in the next generation when it has three live neighbours, or is live
//! and has two.
use vstd::prelude::*;
use crate::graph::{contains_key, lemma_int_views, push_unique, views};

verus! {

broadcast use vstd::seq_lib::group_seq_properties;

/// A cell of the grid.
pub type Cell = (i64, i64);

/// `a` is one of the eight cells around `c`.
pub open spec fn adjacent(a: Cell, c: Cell) -> bool {
    a != c && -1 <= a.0 - c.0 <= 1 && -1 <= a.1 - c.1 <= 1
}

/// The number of live cells around `c`.
pub open spec fn neighbor_count(alive: Set<Cell>, c: Cell) -> nat {
    alive.filter(|a: Cell| adjacent(a, c)).len()
}

/// `c` is live in the next generation.
pub open spec fn lives_next(alive: Set<Cell>, c: Cell) -> bool {
    neighbor_count(alive, c) == 3 || (alive.contains(c) && neighbor_count(alive, c) == 2)
}

/// The next generation.
pub open spec fn next_generation_of(alive: Set<Cell>) -> Set<Cell> {
    Set::new(|c: Cell| lives_next(alive, c))
}

/// Every coordinate has a neighbour on both sides within `i64`.
pub open spec fn cells_in_range(cells: Seq<Cell>) -> bool {
    forall|i: int|
        0 <= i < cells.len() ==> i64::MIN < (#[trigger] cells[i]).0 < i64::MAX && i64::MIN
            < cells[i].1 < i64::MAX
}

/// Counting the members of a duplicate-free sequence that satisfy `p`
/// counts those of its set.
proof fn lemma_filter_count(s: Seq<Cell>, p: spec_fn(Cell) -> bool)
    requires
        s.no_duplicates(),
    ensures
        s.filter(p).len() == s.to_set().filter(p).len(),
        s.to_set().filter(p).finite(),
    decreases s.len(),
{
    reveal(Seq::filter);
    if s.len() == 0 {
        assert(s.to_set().filter(p) =~= Set::<Cell>::empty());
    } else {
        let d = s.drop_last();
        let x = s.last();
        lemma_filter_count(d, p);
        assert(s.to_set() =~= d.to_set().insert(x));
        assert(!d.contains(x)) by {
            if d.contains(x) {
                let j = choose|j: int| 0 <= j < d.len() && d[j] == x;
                assert(s[j] == s[s.len() - 1]);
            }
        }
        if p(x) {
            assert(s.to_set().filter(p) =~= d.to_set().filter(p).insert(x));
            assert(!d.to_set().filter(p).contains(x));
        } else {
            assert(s.to_set().filter(p) =~= d.to_set().filter(p));
        }
    }
}

/// The number of cells of `alive` around `c`.
fn count_neighbors(alive: &Vec<Cell>, c: Cell) -> (n: usize)
    ensures
        n == alive@.filter(|a: Cell| adjacent(a, c)).len(),
{
    let ghost p = |a: Cell| adjacent(a, c);
    let mut n: usize = 0;
    let mut i: usize = 0;
    while i < alive.len()
        invariant
            i <= alive@.len(),
            p == (|a: Cell| adjacent(a, c)),
            n == alive@.take(i as int).filter(p).len(),
            n <= i,
        decreases alive@.len() - i,
    {
        proof {
            assert(alive@.take(i + 1) == alive@.take(i as int).push(alive@[i as int]));
            alive@.take(i as int).lemma_filter_push(alive@[i as int], p);
        }
        let a = alive[i];
        let dx = a.0 as i128 - c.0 as i128;
        let dy = a.1 as i128 - c.1 as i128;
        if !(a.0 == c.0 && a.1 == c.1) && -1 <= dx && dx <= 1 && -1 <= dy && dy <= 1 {
            n = n + 1;
        }
        i = i + 1;
    }
    assert(alive@.take(alive@.len() as int) == alive@);
    n
}

/// Adds the 3x3 block of cells centred on `a`.
fn add_block(cands: &mut Vec<Cell>, a: Cell)
    requires
        views(old(cands)@).no_duplicates(),
        i64::MIN < a.0 < i64::MAX,
        i64::MIN < a.1 < i64::MAX,
    ensures
        views(final(cands)@).no_duplicates(),
        forall|c: Cell|
            views(final(cands)@).contains(c) <==> (views(old(cands)@).contains(c) || (-1 <= c.0 - a.0
                <= 1 && -1 <= c.1 - a.1 <= 1)),
{
    let mut dx: i64 = -1;
    while dx <= 1
        invariant
            -1 <= dx <= 2,
            i64::MIN < a.0 < i64::MAX,
            i64::MIN < a.1 < i64::MAX,
            views(cands@).no_duplicates(),
            forall|c: Cell|
                views(cands@).contains(c) <==> (views(old(cands)@).contains(c) || (-1 <= c.0 - a.0
                    < dx && -1 <= c.1 - a.1 <= 1)),
        decreases 2 - dx,
    {
        let mut dy: i64 = -1;
        while dy <= 1
            invariant
                -1 <= dx <= 1,
                -1 <= dy <= 2,
                i64::MIN < a.0 < i64::MAX,
                i64::MIN < a.1 < i64::MAX,
                views(cands@).no_duplicates(),
                forall|c: Cell|
                    views(cands@).contains(c) <==> (views(old(cands)@).contains(c) || (-1 <= c.0
                        - a.0 < dx && -1 <= c.1 - a.1 <= 1) || (c.0 - a.0 == dx && -1 <= c.1 - a.1
                        < dy)),
            decreases 2 - dy,
        {
            push_unique(cands, (a.0 + dx, a.1 + dy));
            proof {
                lemma_int_views(Seq::empty(), cands@);
            }
            dy = dy + 1;
        }
        dx = dx + 1;
    }
}

/// The next generation of a set of live cells, each cell once.
pub fn life_step(cells: &Vec<Cell>) -> (next: Vec<Cell>)
    requires
        cells_in_range(cells@),
    ensures
        next@.no_duplicates(),
        next@.to_set() == next_generation_of(cells@.to_set()),
{
    proof {
        lemma_int_views(Seq::empty(), cells@);
    }
    let ghost alive_set = cells@.to_set();
    let mut alive: Vec<Cell> = Vec::new();
    let mut cands: Vec<Cell> = Vec::new();
    let mut i: usize = 0;
    while i < cells.len()
        invariant
            i <= cells@.len(),
            cells_in_range(cells@),
            views(cells@) == cells@,
            views(alive@).no_duplicates(),
            views(cands@).no_duplicates(),
            forall|c: Cell| views(alive@).contains(c) <==> cells@.take(i as int).contains(c),
            forall|c: Cell, a: Cell|
                #![trigger views(cands@).contains(c), cells@.take(i as int).contains(a)]
                cells@.take(i as int).contains(a) && -1 <= c.0 - a.0 <= 1 && -1 <= c.1 - a.1 <= 1
                    ==> views(cands@).contains(c),
        decreases cells@.len() - i,
    {
        let a = cells[i];
        assert(cells@.take(i + 1) == cells@.take(i as int).push(a));
        assert(i64::MIN < cells@[i as int].0 < i64::MAX && i64::MIN < cells@[i as int].1 < i64::MAX);
        push_unique(&mut alive, a);
        add_block(&mut cands, a);
        i = i + 1;
    }
    assert(cells@.take(cells@.len() as int) == cells@);
    proof {
        lemma_int_views(Seq::empty(), alive@);
        lemma_int_views(Seq::empty(), cands@);
        assert(alive@.to_set() =~= alive_set);
    }
    let mut next: Vec<Cell> = Vec::new();
    let mut j: usize = 0;
    while j < cands.len()
        invariant
            j <= cands@.len(),
            views(alive@) == alive@,
            views(cands@) == cands@,
            alive@.no_duplicates(),
            cands@.no_duplicates(),
            alive@.to_set() == alive_set,
            next@.no_duplicates(),
            forall|c: Cell|
                #![trigger next@.contains(c)]
                #![trigger cands@.take(j as int).contains(c)]
                next@.contains(c) <==> (cands@.take(j as int).contains(c) && lives_next(alive_set, c)),
        decreases cands@.len() - j,
    {
        let c = cands[j];
        assert(cands@.take(j + 1) == cands@.take(j as int).push(c));
        let n = count_neighbors(&alive, c);
        proof {
            lemma_filter_count(alive@, |a: Cell| adjacent(a, c));
            assert(n == neighbor_count(alive_set, c));
        }
        let is_alive = contains_key(&alive, &c);
        proof {
            assert(alive@.to_set().contains(c) == alive@.contains(c));
            assert(is_alive == alive_set.contains(c));
        }
        let ghost before = next@;
        proof {
            assert forall|x: Cell| before.contains(x) implies cands@.take(j as int).contains(x) && lives_next(alive_set, x) by {
            }
            assert(lives_next(alive_set, c) == (n == 3 || (is_alive && n == 2)));
            assert forall|x: Cell| cands@.take(j + 1).contains(x) <==> (cands@.take(j as int).contains(x) || x == c) by {
            }
        }
        if n == 3 || (is_alive && n == 2) {
            next.push(c);
            proof {
                assert forall|x: int, y: int| 0 <= x < y < next@.len() implies next@[x] != next@[y] by {
                    if y == next@.len() - 1 {
                        assert(next@[x] == before[x]);
                        assert(before.contains(before[x]));
                        if next@[x] == c {
                            assert(cands@.take(j as int).contains(c));
                            let k = choose|k: int| 0 <= k < j && cands@[k] == c;
                            assert(cands@[k] == cands@[j as int]);
                        }
                    } else {
                        assert(before[x] != before[y]);
                    }
                }
            }
        }
        proof {
            assert forall|x: Cell| next@.contains(x) <==> (cands@.take(j + 1).contains(x) && lives_next(alive_set, x)) by {
                assert(next@.contains(x) <==> (before.contains(x) || (x == c && (n == 3 || (is_alive && n == 2)))));
            }
        }
        j = j + 1;
    }
    assert(cands@.take(cands@.len() as int) == cands@);
    proof {
        assert forall|c: Cell| next@.to_set().contains(c) <==> next_generation_of(alive_set).contains(c) by {
            if lives_next(alive_set, c) {
                let p = |a: Cell| adjacent(a, c);
                lemma_filter_count(alive@, p);
                if !alive_set.contains(c) || neighbor_count(alive_set, c) >= 1 {
                    if neighbor_count(alive_set, c) >= 1 {
                        assert(alive@.filter(p).len() >= 1);
                        let a = alive@.filter(p)[0];
                        alive@.lemma_filter_pred(p, 0);
                        assert(alive@.filter(p).contains(a));
                        alive@.lemma_filter_contains_rev(p, a);
                        assert(alive@.contains(a));
                        assert(cells@.contains(a));
                    }
                }
                if alive_set.contains(c) {
                    assert(cells@.contains(c));
                }
                assert(cands@.contains(c));
            }
        }
        assert(next@.to_set() =~= next_generation_of(alive_set));
    }
    next
}

/// A game of life.
pub struct Life {
    pub grid: Vec<Cell>,
}

impl Life {
    /// A game over the given live cells.
    pub fn new(grid: Vec<Cell>) -> (life: Life)
        ensures
            life.grid == grid,
    {
        Life { grid }
    }

    /// The next generation.
    pub fn next_generation(&self) -> (next: Life)
        requires
            cells_in_range(self.grid@),
        ensures
            next.grid@.no_duplicates(),
            next.grid@.to_set() == next_generation_of(self.grid@.to_set()),
    {
        Life { grid: life_step(&self.grid) }
    }
}

} // verus!
