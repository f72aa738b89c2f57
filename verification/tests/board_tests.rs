use picross::board::Board;
use picross::board::Tile;

#[test]
fn new_board_is_empty() {
    let b = Board::new(4, 3);
    assert_eq!(b.width, 4);
    assert_eq!(b.height, 3);
    for y in 0..3 {
        for x in 0..4 {
            assert_eq!(b.get(x, y), Some(Tile::Empty));
        }
    }
}

#[test]
fn get_out_of_range_is_none() {
    let b = Board::new(2, 2);
    assert_eq!(b.get(2, 0), None);
    assert_eq!(b.get(0, 2), None);
    assert_eq!(b.get(7, 7), None);
}

#[test]
fn set_writes_and_out_of_range_is_ignored() {
    let mut b = Board::new(2, 2);
    b.set(1, 0, Tile::Filled);
    assert_eq!(b.get(1, 0), Some(Tile::Filled));
    b.set(5, 5, Tile::Filled);
    for y in 0..2 {
        for x in 0..2 {
            let expect = if x == 1 && y == 0 { Tile::Filled } else { Tile::Empty };
            assert_eq!(b.get(x, y), Some(expect));
        }
    }
}

fn row_board(tiles: &[Tile]) -> Board {
    let mut b = Board::new(tiles.len(), 1);
    for (x, &t) in tiles.iter().enumerate() {
        b.set(x as u32, 0, t);
    }
    b
}

#[test]
fn head_segments_confirmed_run() {
    // Filled, Filled, CrossedOut, Empty: the leading run of two is closed
    // by the cross, so it is reported.
    let b = row_board(&[Tile::Filled, Tile::Filled, Tile::CrossedOut, Tile::Empty]);
    assert_eq!(b.get_completed_row_segments_from_head(0), vec![2u32]);
}

#[test]
fn head_segments_open_run_is_not_reported() {
    // Filled, Empty: the run is still open towards unknown space.
    let b = row_board(&[Tile::Filled, Tile::Empty]);
    assert_eq!(b.get_completed_row_segments_from_head(0), Vec::<u32>::new());
}

#[test]
fn head_segments_several_runs() {
    let b = row_board(&[
        Tile::CrossedOut,
        Tile::Filled,
        Tile::CrossedOut,
        Tile::Filled,
        Tile::Filled,
        Tile::CrossedOut,
        Tile::Empty,
    ]);
    assert_eq!(b.get_completed_row_segments_from_head(0), vec![1u32, 2]);
}

#[test]
fn head_segments_stop_at_empty() {
    // Nothing after the empty cell can be confirmed, even a closed run.
    let b = row_board(&[
        Tile::Empty,
        Tile::Filled,
        Tile::CrossedOut,
    ]);
    assert_eq!(b.get_completed_row_segments_from_head(0), Vec::<u32>::new());
}

#[test]
fn tail_segments_scan_from_the_other_end() {
    let b = row_board(&[Tile::Empty, Tile::CrossedOut, Tile::Filled, Tile::Filled]);
    assert_eq!(b.get_completed_row_segments_from_tail(0), vec![2u32]);
    assert_eq!(b.get_completed_row_segments_from_head(0), Vec::<u32>::new());
}

#[test]
fn column_segments() {
    let mut b = Board::new(1, 4);
    b.set(0, 0, Tile::Filled);
    b.set(0, 1, Tile::CrossedOut);
    // Column from the head: one confirmed run of one, then stop at empty.
    assert_eq!(b.get_completed_column_segments_from_head(0), vec![1u32]);
    // From the tail the first cell met is empty: nothing confirmed.
    assert_eq!(b.get_completed_column_segments_from_tail(0), Vec::<u32>::new());
}

#[test]
fn segments_out_of_range_line_is_empty() {
    let b = Board::new(2, 2);
    assert_eq!(b.get_completed_row_segments_from_head(2), Vec::<u32>::new());
    assert_eq!(b.get_completed_column_segments_from_tail(9), Vec::<u32>::new());
}

#[test]
fn fully_crossed_line_has_no_segments() {
    let b = row_board(&[Tile::CrossedOut, Tile::CrossedOut]);
    assert_eq!(b.get_completed_row_segments_from_head(0), Vec::<u32>::new());
    assert_eq!(b.get_completed_row_segments_from_tail(0), Vec::<u32>::new());
}
