use picross::board::Board;
use picross::board::Tile;
use picross::puzzle::Rules;
use picross::solver::AutoFillTile;
use picross::solver::combine_solutions;
use picross::solver::is_unassigned_unique_solution;
use picross::solver::try_autofill;

fn empty_line(n: usize) -> Vec<Tile> {
    vec![Tile::Empty; n]
}

#[test]
fn exact_fit_forces_every_cell() {
    // Rule [3, 2] on six cells leaves a single layout: XXX.XX
    let line = empty_line(6);
    let rule: Vec<u32> = vec![3, 2];
    let r = try_autofill(&line, &rule, 0, 0).expect("the packed layout is a solution");
    assert_eq!(
        r,
        vec![
            AutoFillTile::CanBeFilled,
            AutoFillTile::CanBeFilled,
            AutoFillTile::CanBeFilled,
            AutoFillTile::CanBeCrossedOut,
            AutoFillTile::CanBeFilled,
            AutoFillTile::CanBeFilled,
        ]
    );
}

#[test]
fn no_false_forcing_on_loose_rule() {
    // A single run of one in five cells can sit anywhere.
    let line = empty_line(5);
    let rule: Vec<u32> = vec![1];
    let r = try_autofill(&line, &rule, 0, 0).expect("five placements exist");
    assert_eq!(r, vec![AutoFillTile::CanBeAnything; 5]);
}

#[test]
fn partial_overlap_forces_middle() {
    // A run of three in five cells always covers the middle cell.
    let line = empty_line(5);
    let rule: Vec<u32> = vec![3];
    let r = try_autofill(&line, &rule, 0, 0).expect("three placements exist");
    assert_eq!(
        r,
        vec![
            AutoFillTile::CanBeAnything,
            AutoFillTile::CanBeAnything,
            AutoFillTile::CanBeFilled,
            AutoFillTile::CanBeAnything,
            AutoFillTile::CanBeAnything,
        ]
    );
}

#[test]
fn empty_rule_forces_all_crossed() {
    let line = empty_line(4);
    let rule: Vec<u32> = vec![];
    let r = try_autofill(&line, &rule, 0, 0).expect("the all-unfilled line is a solution");
    assert_eq!(r, vec![AutoFillTile::CanBeCrossedOut; 4]);
}

#[test]
fn infeasible_line_yields_none() {
    // A cross in the middle of the only spot where a full-width run fits.
    let line = vec![Tile::Empty, Tile::CrossedOut, Tile::Empty];
    let rule: Vec<u32> = vec![3];
    assert!(try_autofill(&line, &rule, 0, 0).is_none());
}

#[test]
fn rule_longer_than_line_yields_none() {
    let line = empty_line(3);
    let rule: Vec<u32> = vec![2, 2];
    assert!(try_autofill(&line, &rule, 0, 0).is_none());
}

#[test]
fn fixed_cells_steer_the_search() {
    // With the first cell filled, a run of one pins everything.
    let line = vec![Tile::Filled, Tile::Empty, Tile::Empty];
    let rule: Vec<u32> = vec![1];
    let r = try_autofill(&line, &rule, 0, 0).expect("one completion remains");
    assert_eq!(
        r,
        vec![
            AutoFillTile::CanBeFilled,
            AutoFillTile::CanBeCrossedOut,
            AutoFillTile::CanBeCrossedOut,
        ]
    );
}

#[test]
fn combine_agrees_and_disagrees() {
    assert_eq!(
        combine_solutions(AutoFillTile::CanBeFilled, AutoFillTile::CanBeFilled),
        AutoFillTile::CanBeFilled
    );
    assert_eq!(
        combine_solutions(AutoFillTile::CanBeFilled, AutoFillTile::CanBeCrossedOut),
        AutoFillTile::CanBeAnything
    );
    assert_eq!(
        combine_solutions(AutoFillTile::NoSolutionFound, AutoFillTile::CanBeCrossedOut),
        AutoFillTile::CanBeCrossedOut
    );
    assert_eq!(
        combine_solutions(AutoFillTile::CanBeAnything, AutoFillTile::CanBeFilled),
        AutoFillTile::CanBeAnything
    );
}

#[test]
fn unique_solution_cells_are_the_forced_ones() {
    assert!(is_unassigned_unique_solution(AutoFillTile::CanBeFilled));
    assert!(is_unassigned_unique_solution(AutoFillTile::CanBeCrossedOut));
    assert!(!is_unassigned_unique_solution(AutoFillTile::CanBeAnything));
    assert!(!is_unassigned_unique_solution(AutoFillTile::NoSolutionFound));
}

#[test]
fn autofill_reports_no_progress_on_loose_board() {
    // Every row and column of the 5x5 board has the loose rule [1]:
    // nothing is forced anywhere.
    let b = Board::new(5, 5);
    let rules = Rules {
        col_rules: vec![vec![1]; 5],
        row_rules: vec![vec![1]; 5],
    };
    assert!(b.autofill(&rules).is_none());
}

#[test]
fn autofill_fills_an_exact_board() {
    let b = Board::new(2, 2);
    let rules = Rules {
        col_rules: vec![vec![2], vec![2]],
        row_rules: vec![vec![2], vec![2]],
    };
    let b2 = b.autofill(&rules).expect("every cell is forced");
    for y in 0..2 {
        for x in 0..2 {
            assert_eq!(b2.get(x, y), Some(Tile::Filled));
        }
    }
}

#[test]
fn autofill_respects_fixed_cells() {
    // 3x1 board, row rule [1], the first cell already filled: the rest of
    // the row is forced crossed out and the filled cell stays.
    let mut b = Board::new(3, 1);
    b.set(0, 0, Tile::Filled);
    let rules = Rules {
        col_rules: vec![vec![1], vec![], vec![]],
        row_rules: vec![vec![1]],
    };
    let b2 = b.autofill(&rules).expect("the tail cells are forced");
    assert_eq!(b2.get(0, 0), Some(Tile::Filled));
    assert_eq!(b2.get(1, 0), Some(Tile::CrossedOut));
    assert_eq!(b2.get(2, 0), Some(Tile::CrossedOut));
}

#[test]
fn autofill_is_silent_on_contradictions() {
    // The row clue cannot be met past the cross, and neither column clue
    // fits its column: the pass simply finds nothing.
    let mut b = Board::new(2, 1);
    b.set(0, 0, Tile::CrossedOut);
    let rules = Rules {
        col_rules: vec![vec![1], vec![2]],
        row_rules: vec![vec![2]],
    };
    assert!(b.autofill(&rules).is_none());
}

#[test]
fn autofill_column_overrides_row() {
    // Both rows force their cell filled; the single column's empty clue
    // forces both cells crossed out. Columns are applied last and win.
    let b = Board::new(1, 2);
    let rules = Rules {
        col_rules: vec![vec![]],
        row_rules: vec![vec![1], vec![1]],
    };
    let b2 = b.autofill(&rules).expect("cells are forced");
    assert_eq!(b2.get(0, 0), Some(Tile::CrossedOut));
    assert_eq!(b2.get(0, 1), Some(Tile::CrossedOut));
}

#[test]
fn autofill_reaches_a_fixed_point() {
    // Repeatedly applying the pass to its own output ends with `None`.
    let rules = Rules {
        col_rules: vec![vec![1], vec![3], vec![1]],
        row_rules: vec![vec![1], vec![3], vec![1]],
    };
    let mut b = Board::new(3, 3);
    let mut passes = 0;
    while let Some(next) = b.autofill(&rules) {
        b = next;
        passes += 1;
        assert!(passes <= 9, "no oscillation: at most one pass per cell");
    }
    // The plus shape is fully determined by then.
    assert_eq!(b.get(1, 1), Some(Tile::Filled));
    assert_eq!(b.get(0, 1), Some(Tile::Filled));
    assert_eq!(b.get(0, 0), Some(Tile::CrossedOut));
}

#[test]
fn run_filling_the_whole_line() {
    let line = empty_line(4);
    let rule: Vec<u32> = vec![4];
    let r = try_autofill(&line, &rule, 0, 0).expect("the full run fits exactly");
    assert_eq!(r, vec![AutoFillTile::CanBeFilled; 4]);
}

#[test]
fn crossed_line_with_empty_rule_is_consistent() {
    let line = vec![Tile::CrossedOut, Tile::CrossedOut];
    let rule: Vec<u32> = vec![];
    let r = try_autofill(&line, &rule, 0, 0).expect("nothing to place");
    // The fixed cells keep their own value in the lattice's terms.
    assert_eq!(r, vec![AutoFillTile::CanBeCrossedOut; 2]);
}
