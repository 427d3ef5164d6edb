//! One Game of Life generation as a function of the live-cell relation.
use vstd::prelude::*;
use crate::life::{cells_in_range, life_step, next_generation_of, Cell};

verus! {

/// The next generation of `live_cells`, each cell once.
pub fn next_generation(live_cells: &Vec<Cell>) -> (next: Vec<Cell>)
    requires
        cells_in_range(live_cells@),
    ensures
        next@.no_duplicates(),
        next@.to_set() == next_generation_of(live_cells@.to_set()),
{
    life_step(live_cells)
}

} // verus!
