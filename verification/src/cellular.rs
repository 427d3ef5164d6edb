//! Game of Life as a stepped simulation over the live-cell relation.
use vstd::prelude::*;
use crate::life::{cells_in_range, life_step, next_generation_of, Cell};

verus! {

/// A running game: its live cells.
pub struct GameOfLife {
    pub alive: Vec<Cell>,
}

impl GameOfLife {
    /// A game starting from the given live cells.
    pub fn new(initial_state: Vec<Cell>) -> (g: Self)
        ensures
            g.alive == initial_state,
    {
        GameOfLife { alive: initial_state }
    }

    /// Advances one generation; an empty grid stays as it is.
    pub fn tick(&mut self)
        requires
            cells_in_range(old(self).alive@),
        ensures
            old(self).alive@.len() == 0 ==> final(self).alive == old(self).alive,
            old(self).alive@.len() > 0 ==> final(self).alive@.no_duplicates(),
            final(self).alive@.to_set() == next_generation_of(old(self).alive@.to_set()),
    {
        if self.alive.len() == 0 {
            assert(self.alive@.to_set() =~= next_generation_of(self.alive@.to_set())) by {
                assert forall|c: Cell| !next_generation_of(self.alive@.to_set()).contains(c) by {
                    assert(self.alive@.to_set() =~= Set::<Cell>::empty());
                    assert(self.alive@.to_set().filter(|a: Cell| crate::life::adjacent(a, c)) =~= Set::<Cell>::empty());
                }
            }
            return;
        }
        self.alive = life_step(&self.alive);
    }
}

} // verus!
