use sudoku::cell::Cell;
use sudoku::game::{Difficulty, Game, MoveError};
use sudoku::grid::Grid;

/// A known-valid solved board: a shifted base pattern.
fn pattern_value(x: u32, y: u32) -> u32 {
    (3 * (y % 3) + y / 3 + x) % 9 + 1
}

fn solved_editable_grid() -> Grid {
    let mut grid = Grid::new(9, 9);
    for y in 0..9 {
        for x in 0..9 {
            grid.set_value(x, y, pattern_value(x, y));
        }
    }
    grid
}

fn snapshot(grid: &Grid) -> Vec<(u32, bool, bool)> {
    let mut cells = Vec::new();
    for y in 0..9 {
        for x in 0..9 {
            cells.push((
                grid.get_cell(x, y).get_value(),
                grid.is_empty(x, y),
                grid.can_set(x, y),
            ));
        }
    }
    cells
}

#[test]
fn cell_lifecycle() {
    let given = Cell::new(7);
    assert_eq!(given.value, Some(7));
    assert!(!given.can_set);
    assert_eq!(given.get_value(), 7);

    let mut open = Cell::new_empty();
    assert_eq!(open.value, None);
    assert!(open.can_set);
    assert_eq!(open.get_value(), 0);

    open.set_value(4);
    assert_eq!(open.value, Some(4));
    assert!(open.can_set);

    open.set_empty();
    assert_eq!(open.value, None);
    assert!(open.can_set);
}

#[test]
fn new_grid_is_all_empty_and_editable() {
    let grid = Grid::new(9, 9);
    assert_eq!(grid.width, 9);
    assert_eq!(grid.height, 9);
    assert_eq!(grid.count_empty(), 81);
    for y in 0..9 {
        for x in 0..9 {
            assert!(grid.is_empty(x, y));
            assert!(grid.can_set(x, y));
        }
    }
}

#[test]
fn grid_set_operations() {
    let mut grid = Grid::new(9, 9);

    grid.set_value(2, 3, 5);
    assert!(!grid.is_empty(2, 3));
    assert!(grid.can_set(2, 3));
    assert_eq!(grid.get_cell(2, 3).get_value(), 5);

    grid.set_default(4, 4, 9);
    assert!(!grid.is_empty(4, 4));
    assert!(!grid.can_set(4, 4));
    assert_eq!(grid.get_cell(4, 4).get_value(), 9);

    grid.set_empty(4, 4);
    assert!(grid.is_empty(4, 4));
    assert!(grid.can_set(4, 4));
    assert_eq!(grid.get_cell(4, 4).get_value(), 0);

    grid.get_cell_mut(1, 1).set_value(3);
    assert_eq!(grid.get_cell(1, 1).get_value(), 3);

    assert_eq!(grid.count_empty(), 79);
}

#[test]
fn placement_test_sees_row_column_and_box() {
    let mut grid = Grid::new(9, 9);
    grid.set_default(0, 0, 5);

    assert!(!grid.is_valid(8, 0, 5), "same row");
    assert!(!grid.is_valid(0, 8, 5), "same column");
    assert!(!grid.is_valid(1, 1, 5), "same box");
    assert!(grid.is_valid(4, 4, 5), "unrelated cell");
    assert!(grid.is_valid(1, 1, 6), "other digit");
}

#[test]
fn cleared_placement_leaves_no_trace() {
    let mut grid = Grid::new(9, 9);
    assert!(grid.is_valid(4, 4, 7));
    assert!(grid.is_valid(4, 0, 7));

    grid.set_default(4, 4, 7);
    assert!(!grid.is_valid(4, 4, 7));
    assert!(!grid.is_valid(4, 0, 7), "rejected due to the placement");

    grid.set_empty(4, 4);
    assert!(grid.is_valid(4, 4, 7), "re-asserted after clearing");
    assert!(grid.is_valid(4, 0, 7), "no leakage of cleared state");
}

#[test]
fn pattern_grid_is_solved() {
    let mut grid = solved_editable_grid();
    assert_eq!(grid.count_empty(), 0);
    assert!(grid.is_solved());
}

#[test]
fn solved_check_is_idempotent() {
    let mut grid = solved_editable_grid();
    let first = grid.is_solved();
    let second = grid.is_solved();
    assert_eq!(first, second);
    assert!(first);

    let mut unsolved = Grid::new(9, 9);
    let once = unsolved.is_solved();
    let again = unsolved.is_solved();
    assert_eq!(once, again);
    assert!(!once);
}

#[test]
fn duplicate_breaks_solved_check() {
    let mut grid = solved_editable_grid();
    assert!(grid.is_solved());
    // Overwrite one editable cell with its row neighbour's digit.
    let duplicate = grid.get_cell(1, 0).get_value();
    grid.set_value(0, 0, duplicate);
    assert!(!grid.is_solved());
}

#[test]
fn empty_grid_is_not_solved() {
    let mut grid = Grid::new(9, 9);
    assert!(!grid.is_solved());
}

#[test]
fn difficulty_labels() {
    assert_eq!(Game::new(String::from("easy")).difficulty, Difficulty::Easy);
    assert_eq!(Game::new(String::from("medium")).difficulty, Difficulty::Medium);
    assert_eq!(Game::new(String::from("hard")).difficulty, Difficulty::Hard);
    assert_eq!(Game::new(String::from("nightmare")).difficulty, Difficulty::Easy);
    assert_eq!(Game::new(String::from("")).difficulty, Difficulty::Easy);
}

#[test]
fn generated_grid_units_are_permutations() {
    let mut game = Game::new(String::from("easy"));
    assert!(game.generate_full_grid());
    assert_eq!(game.grid.count_empty(), 0);
    assert!(game.is_solved());

    for y in 0..9 {
        let mut seen = [false; 10];
        for x in 0..9 {
            let v = game.grid.get_cell(x, y).get_value();
            assert!((1..=9).contains(&v), "row digit out of range");
            assert!(!seen[v as usize], "duplicate in row");
            seen[v as usize] = true;
        }
    }
    for x in 0..9 {
        let mut seen = [false; 10];
        for y in 0..9 {
            let v = game.grid.get_cell(x, y).get_value();
            assert!(!seen[v as usize], "duplicate in column");
            seen[v as usize] = true;
        }
    }
    for bx in [0, 3, 6] {
        for by in [0, 3, 6] {
            let mut seen = [false; 10];
            for dx in 0..3 {
                for dy in 0..3 {
                    let v = game.grid.get_cell(bx + dx, by + dy).get_value();
                    assert!(!seen[v as usize], "duplicate in box");
                    seen[v as usize] = true;
                }
            }
        }
    }
    // Everything the generator placed is an immutable given.
    for y in 0..9 {
        for x in 0..9 {
            assert!(!game.grid.can_set(x, y));
        }
    }
}

#[test]
fn carve_counts_easy() {
    let mut game = Game::new(String::from("easy"));
    game.init();
    let empty = game.grid.count_empty();
    assert!((40..=49).contains(&empty), "blanks {empty} out of range");
    let filled = 81 - empty;
    assert!((32..=41).contains(&filled), "filled {filled} out of range");
}

#[test]
fn carve_counts_medium() {
    let mut game = Game::new(String::from("medium"));
    game.init();
    let empty = game.grid.count_empty();
    assert!((50..=59).contains(&empty), "blanks {empty} out of range");
    let filled = 81 - empty;
    assert!((22..=31).contains(&filled), "filled {filled} out of range");
}

#[test]
fn carve_counts_hard() {
    let mut game = Game::new(String::from("hard"));
    game.init();
    let empty = game.grid.count_empty();
    assert!((60..=69).contains(&empty), "blanks {empty} out of range");
    let filled = 81 - empty;
    assert!((12..=21).contains(&filled), "filled {filled} out of range");
}

#[test]
fn carved_cells_are_editable_and_givens_are_not() {
    let mut game = Game::new(String::from("easy"));
    game.init();
    for y in 0..9 {
        for x in 0..9 {
            if game.grid.is_empty(x, y) {
                assert!(game.grid.can_set(x, y), "carved cell must stay editable");
            } else {
                assert!(!game.grid.can_set(x, y), "remaining cell must be a given");
            }
        }
    }
}

#[test]
fn solve_carved_puzzle_end_to_end() {
    let mut game = Game::new(String::from("easy"));
    assert!(game.generate_full_grid());

    // Capture the full solution before carving.
    let mut solution = [[0u32; 9]; 9];
    for y in 0..9 {
        for x in 0..9 {
            solution[y as usize][x as usize] = game.grid.get_cell(x, y).get_value();
        }
    }

    game.remove_cells();
    let empty = game.grid.count_empty();
    assert!((40..=49).contains(&empty));
    assert!(!game.is_complete());

    for y in 0..9u32 {
        for x in 0..9u32 {
            if game.grid.is_empty(x, y) {
                let v = solution[y as usize][x as usize];
                assert_eq!(game.apply_user_move(x + 1, y + 1, v), Ok(()));
            }
        }
    }

    assert_eq!(game.grid.count_empty(), 0);
    assert!(game.is_complete());
    assert!(game.is_solved());
}

#[test]
fn rejected_moves_do_not_mutate() {
    let mut game = Game::new(String::from("easy"));
    game.init();

    let before = snapshot(&game.grid);
    assert_eq!(game.apply_user_move(10, 5, 5), Err(MoveError::InvalidX));
    assert_eq!(game.apply_user_move(0, 5, 5), Err(MoveError::InvalidX));
    assert_eq!(game.apply_user_move(5, 10, 5), Err(MoveError::InvalidY));
    assert_eq!(game.apply_user_move(5, 0, 5), Err(MoveError::InvalidY));
    assert_eq!(game.apply_user_move(5, 5, 10), Err(MoveError::InvalidValue));
    assert_eq!(game.apply_user_move(5, 5, 0), Err(MoveError::InvalidValue));
    assert_eq!(before, snapshot(&game.grid));

    // A given cell cannot be changed.
    let mut given = None;
    let mut open = None;
    for y in 0..9u32 {
        for x in 0..9u32 {
            if game.grid.is_empty(x, y) {
                open = open.or(Some((x, y)));
            } else {
                given = given.or(Some((x, y)));
            }
        }
    }
    let (gx, gy) = given.expect("a carved board keeps some givens");
    let before = snapshot(&game.grid);
    assert_eq!(game.apply_user_move(gx + 1, gy + 1, 1), Err(MoveError::NotEditable));
    assert_eq!(before, snapshot(&game.grid));

    // An already-filled editable cell is rejected too.
    let (ox, oy) = open.expect("a carved board has empty cells");
    assert_eq!(game.apply_user_move(ox + 1, oy + 1, 3), Ok(()));
    let before = snapshot(&game.grid);
    assert_eq!(game.apply_user_move(ox + 1, oy + 1, 4), Err(MoveError::AlreadySet));
    assert_eq!(before, snapshot(&game.grid));
    assert_eq!(game.grid.get_cell(ox, oy).get_value(), 3);
}

#[test]
fn rejection_messages() {
    assert_eq!(MoveError::InvalidX.message(), "Invalid x coordinate");
    assert_eq!(MoveError::InvalidY.message(), "Invalid y coordinate");
    assert_eq!(MoveError::InvalidValue.message(), "Invalid value");
    assert_eq!(MoveError::NotEditable.message(), "You can't change this cell");
    assert_eq!(MoveError::AlreadySet.message(), "This cell is already set");
}

#[test]
fn user_move_keeps_cell_editable_and_unchecked() {
    let mut game = Game::new(String::from("easy"));
    // On an all-empty board every cell is editable; conflicting moves are
    // accepted and only the final solved check complains.
    assert_eq!(game.apply_user_move(1, 1, 5), Ok(()));
    assert_eq!(game.apply_user_move(2, 1, 5), Ok(()));
    assert!(game.grid.can_set(0, 0));
    assert!(game.grid.can_set(1, 0));
    assert_eq!(game.grid.get_cell(0, 0).get_value(), 5);
    assert_eq!(game.grid.get_cell(1, 0).get_value(), 5);
    assert!(!game.is_solved());
}

#[test]
fn count_empty_tracks_fills() {
    let mut grid = Grid::new(9, 9);
    assert_eq!(grid.count_empty(), 81);
    grid.set_value(0, 0, 1);
    grid.set_value(8, 8, 2);
    grid.set_default(3, 4, 5);
    assert_eq!(grid.count_empty(), 78);
    grid.set_empty(0, 0);
    assert_eq!(grid.count_empty(), 79);
}
