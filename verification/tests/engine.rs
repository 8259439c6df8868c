use life_engine::cell::Cell;
use life_engine::grid::LifeGrid;

fn grid_of(cells: &[(i64, i64)]) -> LifeGrid {
    let mut g = LifeGrid::new();
    for &(x, y) in cells {
        g.toggle(Cell::new(x, y));
    }
    g
}

#[test]
fn test_toggle_turns_a_dead_cell_live() {
    let mut g = LifeGrid::new();
    assert!(!g.is_alive(Cell::new(3, -7)));
    g.toggle(Cell::new(3, -7));
    assert!(g.is_alive(Cell::new(3, -7)));
    assert!(!g.is_alive(Cell::new(-7, 3)));
}

#[test]
fn test_toggle_pair_restores_liveness() {
    let mut g = grid_of(&[(0, 0), (2, 5)]);
    g.toggle(Cell::new(2, 5));
    g.toggle(Cell::new(2, 5));
    assert!(g.is_alive(Cell::new(2, 5)));
    g.toggle(Cell::new(9, 9));
    g.toggle(Cell::new(9, 9));
    assert!(!g.is_alive(Cell::new(9, 9)));
    assert!(g.is_alive(Cell::new(0, 0)));
}

#[test]
fn test_block_is_a_still_life() {
    let mut g = grid_of(&[(0, 0), (1, 0), (0, 1), (1, 1)]);
    g.step();
    assert!(g.is_alive(Cell::new(0, 0)));
    assert!(g.is_alive(Cell::new(1, 0)));
    assert!(g.is_alive(Cell::new(0, 1)));
    assert!(g.is_alive(Cell::new(1, 1)));
    for x in -2..4 {
        for y in -2..4 {
            let inside = (0..2).contains(&x) && (0..2).contains(&y);
            assert_eq!(g.is_alive(Cell::new(x, y)), inside);
        }
    }
}

#[test]
fn test_blinker_oscillates() {
    let mut g = grid_of(&[(1, 0), (1, 1), (1, 2)]);
    g.step();
    // The vertical line of three becomes a horizontal line of three.
    assert!(g.is_alive(Cell::new(0, 1)));
    assert!(g.is_alive(Cell::new(1, 1)));
    assert!(g.is_alive(Cell::new(2, 1)));
    assert!(!g.is_alive(Cell::new(1, 0)));
    assert!(!g.is_alive(Cell::new(1, 2)));
    g.step();
    // A second step restores the vertical line.
    assert!(g.is_alive(Cell::new(1, 0)));
    assert!(g.is_alive(Cell::new(1, 1)));
    assert!(g.is_alive(Cell::new(1, 2)));
    assert!(!g.is_alive(Cell::new(0, 1)));
    assert!(!g.is_alive(Cell::new(2, 1)));
}

#[test]
fn test_step_uses_the_pre_step_snapshot() {
    // In the blinker, (1, 0) dies for want of neighbors counted in the
    // old generation, while (0, 1) is born from three old neighbors.
    // A sequential update that removed (1, 0) before counting for
    // (0, 1) would leave (0, 1) with only two live neighbors and give
    // a different generation.
    let mut g = grid_of(&[(1, 0), (1, 1), (1, 2)]);
    g.step();
    assert!(!g.is_alive(Cell::new(1, 0)));
    assert!(g.is_alive(Cell::new(0, 1)));
    assert!(g.is_alive(Cell::new(2, 1)));
}

#[test]
fn test_isolated_cell_dies() {
    let mut g = grid_of(&[(5, 5)]);
    g.step();
    assert!(!g.is_alive(Cell::new(5, 5)));
    assert!(g.is_empty());
}

#[test]
fn test_overcrowded_center_dies() {
    let mut g = grid_of(&[(0, 0), (1, 0), (-1, 0), (0, 1), (0, -1)]);
    g.step();
    // The center had 4 live neighbors and dies.
    assert!(!g.is_alive(Cell::new(0, 0)));
    // Each arm had 3 live neighbors and survives.
    assert!(g.is_alive(Cell::new(1, 0)));
    assert!(g.is_alive(Cell::new(-1, 0)));
    assert!(g.is_alive(Cell::new(0, 1)));
    assert!(g.is_alive(Cell::new(0, -1)));
    // Each diagonal had exactly 3 live neighbors and is born.
    assert!(g.is_alive(Cell::new(1, 1)));
    assert!(g.is_alive(Cell::new(1, -1)));
    assert!(g.is_alive(Cell::new(-1, 1)));
    assert!(g.is_alive(Cell::new(-1, -1)));
}

#[test]
fn test_birth_needs_exactly_three_neighbors() {
    // Three neighbors: born.
    let mut g = grid_of(&[(0, 0), (1, 0), (0, 1)]);
    g.step();
    assert!(g.is_alive(Cell::new(1, 1)));
    // Two neighbors: not born, and the pair itself dies out.
    let mut g2 = grid_of(&[(0, 0), (1, 0)]);
    g2.step();
    assert!(!g2.is_alive(Cell::new(0, 1)));
    assert!(g2.is_empty());
    // Four neighbors: not born.
    let mut g4 = grid_of(&[(1, 1), (-1, 1), (1, -1), (-1, -1)]);
    g4.step();
    assert!(!g4.is_alive(Cell::new(0, 0)));
    assert!(g4.is_empty());
}

#[test]
fn test_empty_grid_is_a_fixed_point() {
    let mut g = LifeGrid::new();
    assert!(g.is_empty());
    g.step();
    assert!(g.is_empty());
    assert!(!g.is_alive(Cell::new(0, 0)));
}

#[test]
fn test_neighbors_of_counts_and_collects_the_dead() {
    let g = grid_of(&[(0, 0), (1, 0), (0, 1), (1, 1)]);
    let (count, dead) = g.neighbors_of(Cell::new(0, 0));
    assert_eq!(count, 3);
    // The dead positions come back in the fixed scan order.
    assert_eq!(dead.len(), 5);
    assert_eq!(dead[0], Cell::new(-1, -1));
    assert_eq!(dead[1], Cell::new(0, -1));
    assert_eq!(dead[2], Cell::new(1, -1));
    assert_eq!(dead[3], Cell::new(-1, 0));
    assert_eq!(dead[4], Cell::new(-1, 1));
}

#[test]
fn test_neighbors_of_on_an_empty_grid() {
    let g = LifeGrid::new();
    let (count, dead) = g.neighbors_of(Cell::new(4, -4));
    assert_eq!(count, 0);
    assert_eq!(dead.len(), 8);
    assert_eq!(dead[0], Cell::new(3, -5));
    assert_eq!(dead[7], Cell::new(5, -3));
}

#[test]
fn test_far_apart_cells_do_not_interact() {
    let mut g = grid_of(&[(1000000, 1000000), (-1000000, -1000000), (0, 0)]);
    g.step();
    assert!(g.is_empty());
}
