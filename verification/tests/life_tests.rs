use relvar::cellular::GameOfLife;
use relvar::cellular_automata;
use relvar::cellular_automaton;
use relvar::life::Life;

fn has(cells: &[(i64, i64)], x: i64, y: i64) -> bool {
    cells.iter().any(|c| *c == (x, y))
}

#[test]
fn life_test_blinker() {
    let initial = vec![(0, -1), (0, 0), (0, 1)];
    let life = Life::new(initial);
    let next = life.next_generation();
    assert_eq!(next.grid.len(), 3);
    assert!(has(&next.grid, -1, 0));
    assert!(has(&next.grid, 0, 0));
    assert!(has(&next.grid, 1, 0));
    let next2 = next.next_generation();
    assert_eq!(next2.grid.len(), 3);
    assert!(has(&next2.grid, 0, -1));
    assert!(has(&next2.grid, 0, 0));
    assert!(has(&next2.grid, 0, 1));
}

#[test]
fn cellular_test_blinker() {
    let mut game = GameOfLife::new(vec![(-1, 0), (0, 0), (1, 0)]);
    game.tick();
    assert_eq!(game.alive.len(), 3);
    assert!(has(&game.alive, 0, -1));
    assert!(has(&game.alive, 0, 0));
    assert!(has(&game.alive, 0, 1));
    game.tick();
    assert_eq!(game.alive.len(), 3);
    assert!(has(&game.alive, -1, 0));
    assert!(has(&game.alive, 0, 0));
    assert!(has(&game.alive, 1, 0));
}

#[test]
fn test_block() {
    let mut game = GameOfLife::new(vec![(0, 0), (1, 0), (0, 1), (1, 1)]);
    game.tick();
    assert_eq!(game.alive.len(), 4);
    assert!(has(&game.alive, 0, 0));
    assert!(has(&game.alive, 1, 0));
    assert!(has(&game.alive, 0, 1));
    assert!(has(&game.alive, 1, 1));
}

#[test]
fn test_blinker_oscillator() {
    let initial = vec![(0, -1), (0, 0), (0, 1)];
    let next_gen = cellular_automata::next_generation(&initial);
    assert_eq!(next_gen.len(), 3);
    assert!(has(&next_gen, -1, 0));
    assert!(has(&next_gen, 0, 0));
    assert!(has(&next_gen, 1, 0));
    let gen3 = cellular_automata::next_generation(&next_gen);
    assert_eq!(gen3.len(), 3);
    assert!(has(&gen3, 0, -1));
    assert!(has(&gen3, 0, 1));
}

#[test]
fn cellular_automaton_test_blinker() {
    let cells = vec![(0, 1), (1, 1), (2, 1)];
    let gen1 = cellular_automaton::next_generation(&cells);
    assert_eq!(gen1.len(), 3);
    assert!(has(&gen1, 1, 0));
    assert!(has(&gen1, 1, 1));
    assert!(has(&gen1, 1, 2));
    let gen2 = cellular_automaton::next_generation(&gen1);
    assert_eq!(gen2.len(), 3);
    assert!(has(&gen2, 0, 1));
    assert!(has(&gen2, 1, 1));
    assert!(has(&gen2, 2, 1));
}

#[test]
fn lonely_cell_dies_and_empty_stays_empty() {
    assert!(cellular_automata::next_generation(&vec![(5, 5)]).is_empty());
    let mut game = GameOfLife::new(vec![]);
    game.tick();
    assert!(game.alive.is_empty());
}

#[test]
fn duplicate_cells_count_once() {
    let next = cellular_automaton::next_generation(&vec![(0, 0), (0, 0), (1, 0), (2, 0)]);
    let mut next = next;
    next.sort();
    assert_eq!(next, vec![(1, -1), (1, 0), (1, 1)]);
}

#[test]
fn glider_moves() {
    let mut g = GameOfLife::new(vec![(1, 0), (2, 1), (0, 2), (1, 2), (2, 2)]);
    for _ in 0..4 {
        g.tick();
    }
    let mut cells = g.alive.clone();
    cells.sort();
    assert_eq!(cells, vec![(1, 3), (2, 1), (2, 3), (3, 2), (3, 3)]);
}
