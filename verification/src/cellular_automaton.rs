//! One Game of Life generation: survivors with two or three neighbours and
//! births with exactly three.
use vstd::prelude::*;
use crate::life::{cells_in_range, life_step, next_generation_of, Cell};

verus! {

/// The next generation of `cells`, each cell once.
pub fn next_generation(cells: &Vec<Cell>) -> (next: Vec<Cell>)
    requires
        cells_in_range(cells@),
    ensures
        next@.no_duplicates(),
        next@.to_set() == next_generation_of(cells@.to_set()),
{
    life_step(cells)
}

} // verus!
