use life::grid::Board;
use life::rules::{check_cell, evaluate_board, will_live, will_survive, CellStatus};

fn board_with(rows: usize, columns: usize, cells: &[(usize, usize)]) -> Board {
    let mut b = Board::new(rows, columns);
    for &(x, y) in cells {
        b.set(x, y);
    }
    b
}

fn step(b: &Board) -> Board {
    let mut next = Board::new(b.rows(), b.columns());
    evaluate_board(&mut next, b);
    next
}

#[test]
fn survival_needs_two_or_three() {
    for n in 0..=8 {
        assert_eq!(will_survive(n), n == 2 || n == 3, "neighbors {}", n);
        assert_eq!(will_live(&CellStatus { alive: true, neighbors: n }), n == 2 || n == 3);
    }
}

#[test]
fn birth_needs_exactly_three() {
    for n in 0..=8 {
        assert_eq!(will_live(&CellStatus { alive: false, neighbors: n }), n == 3, "neighbors {}", n);
    }
}

#[test]
fn check_cell_counts_moore_neighbors() {
    let b = board_with(3, 3, &[(0, 0), (1, 0), (2, 0), (0, 1), (1, 1), (2, 1), (0, 2), (1, 2), (2, 2)]);
    let s = check_cell(1, 1, &b);
    assert!(s.alive);
    assert_eq!(s.neighbors, 8);
    let corner = check_cell(0, 0, &b);
    assert!(corner.alive);
    assert_eq!(corner.neighbors, 3);
    let edge = check_cell(2, 1, &b);
    assert_eq!(edge.neighbors, 5);
}

#[test]
fn check_cell_does_not_wrap() {
    let b = board_with(3, 3, &[(2, 2), (2, 0), (0, 2)]);
    let s = check_cell(0, 0, &b);
    assert!(!s.alive);
    assert_eq!(s.neighbors, 0);
    let outside = check_cell(3, 3, &b);
    assert!(!outside.alive);
    assert_eq!(outside.neighbors, 1);
}

#[test]
fn lone_cell_dies() {
    let b = board_with(5, 5, &[(2, 2)]);
    assert!(step(&b).live_cells().is_empty());
}

#[test]
fn three_neighbors_bring_birth() {
    let b = board_with(5, 5, &[(1, 1), (3, 1), (2, 3)]);
    let next = step(&b);
    assert_eq!(next.live_cells(), vec![(2, 2)]);
}

#[test]
fn block_is_still_life() {
    let cells = [(2, 2), (3, 2), (2, 3), (3, 3)];
    let mut b = board_with(6, 6, &cells);
    for _ in 0..5 {
        b = step(&b);
        assert_eq!(b.live_cells(), vec![(2, 2), (3, 2), (2, 3), (3, 3)]);
    }
}

#[test]
fn block_in_corner_is_still_life() {
    let b = board_with(2, 2, &[(0, 0), (1, 0), (0, 1), (1, 1)]);
    assert_eq!(step(&b).live_cells(), vec![(0, 0), (1, 0), (0, 1), (1, 1)]);
}

#[test]
fn blinker_oscillates_with_period_two() {
    let b = board_with(5, 5, &[(1, 2), (2, 2), (3, 2)]);
    let one = step(&b);
    assert_eq!(one.live_cells(), vec![(2, 1), (2, 2), (2, 3)]);
    let two = step(&one);
    assert_eq!(two.live_cells(), vec![(1, 2), (2, 2), (3, 2)]);
}

#[test]
fn step_into_larger_grid_sees_dead_surroundings() {
    let old = board_with(3, 3, &[(0, 2), (1, 2), (2, 2)]);
    let mut next = Board::new(4, 4);
    evaluate_board(&mut next, &old);
    assert_eq!(next.live_cells(), vec![(1, 1), (1, 2), (1, 3)]);
}

#[test]
fn step_into_smaller_grid_keeps_its_size() {
    let old = board_with(5, 5, &[(1, 2), (2, 2), (3, 2)]);
    let mut next = board_with(3, 3, &[(0, 0)]);
    evaluate_board(&mut next, &old);
    assert_eq!(next.rows(), 3);
    assert_eq!(next.columns(), 3);
    assert_eq!(next.live_cells(), vec![(2, 1), (2, 2)]);
}
