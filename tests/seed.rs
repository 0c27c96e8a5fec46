use life::grid::Board;
use life::seed::{load_board, parse_coordinate, parse_seed, CoordinateParseError};

#[test]
fn parses_a_plain_coordinate() {
    assert_eq!(parse_coordinate("1,2"), Ok((1, 2)));
    assert_eq!(parse_coordinate("  10,0 \t"), Ok((10, 0)));
    assert_eq!(parse_coordinate("+5,+6"), Ok((5, 6)));
    assert_eq!(parse_coordinate("18446744073709551615,7"), Ok((usize::MAX, 7)));
}

#[test]
fn trims_unicode_whitespace() {
    assert_eq!(parse_coordinate("\u{a0}1,2\u{3000}"), Ok((1, 2)));
    assert_eq!(parse_coordinate("\r\n4,5\r"), Ok((4, 5)));
}

#[test]
fn rejects_wrong_field_count() {
    assert_eq!(parse_coordinate("1,2,3"), Err(CoordinateParseError::InvalidFormat));
    assert_eq!(parse_coordinate("12"), Err(CoordinateParseError::InvalidFormat));
    assert_eq!(parse_coordinate(""), Err(CoordinateParseError::InvalidFormat));
}

#[test]
fn rejects_bad_numbers() {
    assert_eq!(parse_coordinate("a,1"), Err(CoordinateParseError::InvalidNumber));
    assert_eq!(parse_coordinate("1,"), Err(CoordinateParseError::InvalidNumber));
    assert_eq!(parse_coordinate("-1,2"), Err(CoordinateParseError::InvalidNumber));
    assert_eq!(parse_coordinate("1 ,2"), Err(CoordinateParseError::InvalidNumber));
    assert_eq!(parse_coordinate("+,2"), Err(CoordinateParseError::InvalidNumber));
    assert_eq!(parse_coordinate("18446744073709551616,0"), Err(CoordinateParseError::InvalidNumber));
    assert_eq!(parse_coordinate("99999999999999999999x,0"), Err(CoordinateParseError::InvalidNumber));
}

#[test]
fn seed_lines_in_order_skipping_blanks() {
    assert_eq!(parse_seed("1,2\n\n  \n3,4"), Ok(vec![(1, 2), (3, 4)]));
    assert_eq!(parse_seed(""), Ok(vec![]));
    assert_eq!(parse_seed("0,0\r\n1,1\r\n"), Ok(vec![(0, 0), (1, 1)]));
}

#[test]
fn seed_reports_first_bad_line() {
    assert_eq!(parse_seed("1,2\nx\n1,y"), Err(CoordinateParseError::InvalidFormat));
    assert_eq!(parse_seed("1,2\n1,y\nx"), Err(CoordinateParseError::InvalidNumber));
}

#[test]
fn load_marks_exactly_the_seed_cells() {
    let mut b = Board::new(5, 4);
    assert_eq!(load_board("1,2\n3,4\n", &mut b), Ok(()));
    assert_eq!(b.live_cells(), vec![(1, 2), (3, 4)]);
    for y in 0..5 {
        for x in 0..4 {
            assert_eq!(b.get(x, y), (x, y) == (1, 2) || (x, y) == (3, 4));
        }
    }
}

#[test]
fn load_failure_leaves_grid_untouched() {
    let mut b = Board::new(5, 5);
    b.set(0, 0);
    assert_eq!(load_board("1,2,3\n", &mut b), Err(CoordinateParseError::InvalidFormat));
    assert_eq!(b.live_cells(), vec![(0, 0)]);
    assert_eq!(load_board("1,2\n3,4\nnope,1\n", &mut b), Err(CoordinateParseError::InvalidNumber));
    assert_eq!(b.live_cells(), vec![(0, 0)]);
}

#[test]
fn load_ignores_cells_off_the_grid() {
    let mut b = Board::new(2, 2);
    assert_eq!(load_board("1,1\n2,0\n0,9\n", &mut b), Ok(()));
    assert_eq!(b.live_cells(), vec![(1, 1)]);
}
