use life::grid::Board;
use life::octree::Octree;
use life::run::{can_reuse_board, frame_pause, Life, FRAME_PERIOD_NANOS};

#[test]
fn reuse_needs_a_spare_of_the_same_size() {
    assert!(!can_reuse_board(&None, 3, 3));
    assert!(can_reuse_board(&Some(Board::new(3, 4)), 3, 4));
    assert!(!can_reuse_board(&Some(Board::new(3, 4)), 4, 3));
}

#[test]
fn pause_fills_up_the_frame_period() {
    assert_eq!(frame_pause(10_000_000, FRAME_PERIOD_NANOS), 40_000_000);
    assert_eq!(frame_pause(0, FRAME_PERIOD_NANOS), 50_000_000);
    assert_eq!(frame_pause(50_000_000, FRAME_PERIOD_NANOS), 0);
    assert_eq!(frame_pause(70_000_000, FRAME_PERIOD_NANOS), 0);
}

#[test]
fn tick_rotates_buffers() {
    let mut seed = Board::new(5, 5);
    seed.set(1, 2);
    seed.set(2, 2);
    seed.set(3, 2);
    let mut life = Life::new(seed);
    life.tick(5, 5);
    assert_eq!(life.current.live_cells(), vec![(2, 1), (2, 2), (2, 3)]);
    assert_eq!(life.spare.as_ref().unwrap().live_cells(), vec![(1, 2), (2, 2), (3, 2)]);
    life.tick(5, 5);
    assert_eq!(life.current.live_cells(), vec![(1, 2), (2, 2), (3, 2)]);
    assert_eq!(life.spare.as_ref().unwrap().live_cells(), vec![(2, 1), (2, 2), (2, 3)]);
}

#[test]
fn resize_between_ticks_takes_the_new_size() {
    let mut seed = Board::new(5, 5);
    seed.set(1, 2);
    seed.set(2, 2);
    seed.set(3, 2);
    let mut life = Life::new(seed);
    life.tick(5, 5);
    life.tick(3, 7);
    assert_eq!(life.current.rows(), 3);
    assert_eq!(life.current.columns(), 7);
    assert_eq!(life.current.live_cells(), vec![(1, 2), (2, 2), (3, 2)]);
    life.tick(2, 2);
    assert_eq!(life.current.rows(), 2);
    assert_eq!(life.current.columns(), 2);
    assert!(life.current.live_cells().is_empty());
}

#[test]
fn octree_finds_nothing() {
    let t: Octree<u32> = Octree::new(4);
    assert_eq!(t.get(0, 0, 0), None);
    assert_eq!(t.get(-4, 3, 0), None);
    assert_eq!(t.get(4, 0, 0), None);
}
