use picross::board::Board;
use picross::board::Tile;
use picross::puzzle::Puzzle;

#[test]
fn new_puzzle_starts_blank() {
    let p = Puzzle::new(3, 2);
    assert_eq!(p.width, 3);
    assert_eq!(p.height, 2);
    let b = p.get_board();
    assert_eq!(b.get(0, 0), Some(Tile::Empty));
    assert_eq!(b.get(2, 1), Some(Tile::Empty));
    assert_eq!(p.get_rules().row_rules, vec![Vec::<u32>::new(), Vec::new()]);
    assert_eq!(p.get_rules().col_rules, vec![Vec::<u32>::new(), Vec::new(), Vec::new()]);
}

fn board_with(p: &Puzzle, x: u32, y: u32, t: Tile) -> Board {
    let mut b = p.get_board().duplicate();
    b.set(x, y, t);
    b
}

#[test]
fn update_moves_the_cursor() {
    let mut p = Puzzle::new(2, 2);
    let b1 = board_with(&p, 0, 0, Tile::Filled);
    p.update(b1);
    assert_eq!(p.get_board().get(0, 0), Some(Tile::Filled));
}

#[test]
fn undo_and_redo_walk_the_history() {
    let mut p = Puzzle::new(2, 2);
    let b1 = board_with(&p, 0, 0, Tile::Filled);
    p.update(b1);
    let b2 = board_with(&p, 1, 1, Tile::CrossedOut);
    p.update(b2);

    assert_eq!(p.get_board().get(1, 1), Some(Tile::CrossedOut));
    p.undo();
    assert_eq!(p.get_board().get(1, 1), Some(Tile::Empty));
    assert_eq!(p.get_board().get(0, 0), Some(Tile::Filled));
    p.undo();
    assert_eq!(p.get_board().get(0, 0), Some(Tile::Empty));
    // At the oldest snapshot a further undo changes nothing.
    p.undo();
    assert_eq!(p.get_board().get(0, 0), Some(Tile::Empty));

    p.redo();
    assert_eq!(p.get_board().get(0, 0), Some(Tile::Filled));
    p.redo();
    assert_eq!(p.get_board().get(1, 1), Some(Tile::CrossedOut));
    // At the newest snapshot a further redo changes nothing.
    p.redo();
    assert_eq!(p.get_board().get(1, 1), Some(Tile::CrossedOut));
}

#[test]
fn update_discards_the_redo_tail() {
    let mut p = Puzzle::new(2, 2);
    let b1 = board_with(&p, 0, 0, Tile::Filled);
    p.update(b1);
    p.undo();
    let b2 = board_with(&p, 1, 0, Tile::CrossedOut);
    p.update(b2);
    // The old branch is gone: redo stays on the new board.
    p.redo();
    assert_eq!(p.get_board().get(1, 0), Some(Tile::CrossedOut));
    assert_eq!(p.get_board().get(0, 0), Some(Tile::Empty));
}
