use life::grid::Board;

#[test]
fn new_board_is_all_dead() {
    let b = Board::new(3, 4);
    assert_eq!(b.rows(), 3);
    assert_eq!(b.columns(), 4);
    for y in 0..3 {
        for x in 0..4 {
            assert!(!b.get(x, y));
        }
    }
    assert!(b.live_cells().is_empty());
}

#[test]
fn index_and_position_are_row_major() {
    let b = Board::new(3, 4);
    assert_eq!(b.get_index(0, 0), Some(0));
    assert_eq!(b.get_index(3, 0), Some(3));
    assert_eq!(b.get_index(1, 2), Some(9));
    assert_eq!(b.get_index(4, 0), None);
    assert_eq!(b.get_index(0, 3), None);
    assert_eq!(b.get_position(9), Some((1, 2)));
    assert_eq!(b.get_position(11), Some((3, 2)));
    assert_eq!(b.get_position(12), None);
}

#[test]
fn index_and_position_round_trip() {
    let b = Board::new(5, 7);
    for y in 0..5 {
        for x in 0..7 {
            let i = b.get_index(x, y).unwrap();
            assert_eq!(b.get_position(i), Some((x, y)));
        }
    }
    for i in 0..35 {
        let (x, y) = b.get_position(i).unwrap();
        assert_eq!(b.get_index(x, y), Some(i));
    }
}

#[test]
fn set_and_unset_report_changes() {
    let mut b = Board::new(2, 2);
    assert_eq!(b.set(1, 1), Some(true));
    assert_eq!(b.set(1, 1), Some(false));
    assert!(b.get(1, 1));
    assert!(!b.get(0, 1));
    assert_eq!(b.unset(1, 1), Some(true));
    assert_eq!(b.unset(1, 1), Some(false));
    assert!(!b.get(1, 1));
}

#[test]
fn out_of_range_is_dead_and_untouched() {
    let mut b = Board::new(2, 3);
    b.set(2, 1);
    assert_eq!(b.set(3, 0), None);
    assert_eq!(b.set(0, 2), None);
    assert_eq!(b.unset(5, 5), None);
    assert_eq!(b.set(usize::MAX, usize::MAX), None);
    assert!(!b.get(3, 0));
    assert!(!b.get(0, 2));
    assert!(!b.get(usize::MAX, 0));
    assert_eq!(b.rows(), 2);
    assert_eq!(b.columns(), 3);
    assert_eq!(b.live_cells(), vec![(2, 1)]);
}

#[test]
fn live_cells_in_row_major_order() {
    let mut b = Board::new(70, 70);
    b.set(5, 60);
    b.set(69, 0);
    b.set(0, 1);
    b.set(3, 1);
    assert_eq!(b.live_cells(), vec![(69, 0), (0, 1), (3, 1), (5, 60)]);
}

#[test]
fn is_current_compares_both_dimensions() {
    let b = Board::new(3, 4);
    assert!(b.is_current(3, 4));
    assert!(!b.is_current(4, 3));
    assert!(!b.is_current(3, 5));
}
