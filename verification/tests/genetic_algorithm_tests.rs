use relvar::genetic_algorithm::{GeneticAlgorithm, Individual};

fn ind(id: i64, a: i64, b: i64) -> Individual {
    Individual { id, gene_a: a, gene_b: b }
}

#[test]
fn test_genetic_algorithm() {
    let population = vec![ind(1, 10, 20), ind(2, 5, 5), ind(3, 40, 40), ind(4, 20, 30)];
    let ga = GeneticAlgorithm::new(population, 50);
    let (next_pop, max_fitness) = ga.next_generation(2);
    assert_eq!(max_fitness, 0);
    assert!(next_pop.iter().any(|i| i.id == 4));
    assert!(next_pop.iter().any(|i| i.id == 1));
    assert_eq!(next_pop.len(), 4);
}

#[test]
fn genetic_children_are_exact() {
    let population = vec![ind(1, 10, 20), ind(2, 5, 5), ind(3, 40, 40), ind(4, 20, 30)];
    let ga = GeneticAlgorithm::new(population, 50);
    let (next_pop, _) = ga.next_generation(2);
    // Child of (4, 1): id 401, gene_a (20+10)/2 + 1 = 16, gene_b (30+20)/2 + 1 = 26.
    assert!(next_pop.contains(&ind(401, 16, 26)));
    // Child of (1, 4): id 104, gene_a 15 - 1 = 14, gene_b 25 + 1 = 26.
    assert!(next_pop.contains(&ind(104, 14, 26)));
}

#[test]
fn genetic_empty_population() {
    let ga = GeneticAlgorithm::new(vec![], 10);
    let (next_pop, max_fitness) = ga.next_generation(3);
    assert!(next_pop.is_empty());
    assert_eq!(max_fitness, 0);
}

#[test]
fn genetic_single_parent_pairs_with_itself() {
    let ga = GeneticAlgorithm::new(vec![ind(3, 4, 6), ind(5, 0, 0)], 10);
    let (next_pop, max_fitness) = ga.next_generation(1);
    assert_eq!(max_fitness, 0);
    // Parent 3 alone; its child with itself: id 303, a 4 + (-1) = 3, b 6 - 1 = 5.
    assert_eq!(next_pop.len(), 2);
    assert!(next_pop.contains(&ind(3, 4, 6)));
    assert!(next_pop.contains(&ind(303, 3, 5)));
}

#[test]
fn genetic_zero_elite_selects_nobody() {
    let ga = GeneticAlgorithm::new(vec![ind(1, 1, 1)], 2);
    let (next_pop, max_fitness) = ga.next_generation(0);
    assert!(next_pop.is_empty());
    assert_eq!(max_fitness, 0);
}

#[test]
fn genetic_ties_break_by_larger_id() {
    // Equal fitness: the larger id ranks above, so with one elite only id 9 is kept.
    let ga = GeneticAlgorithm::new(vec![ind(2, 1, 1), ind(9, 1, 1)], 2);
    let (next_pop, _) = ga.next_generation(1);
    assert!(next_pop.contains(&ind(9, 1, 1)));
    assert!(!next_pop.contains(&ind(2, 1, 1)));
}
