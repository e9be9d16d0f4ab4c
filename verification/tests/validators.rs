use sudoku::validators::{is_valid, solve};

type Grid = [[usize; 9]; 9];

fn sample_grid() -> Grid {
    [
        [1, 0, 0, 0, 0, 0, 0, 0, 0],
        [0, 2, 0, 0, 0, 0, 0, 0, 0],
        [0, 0, 3, 0, 0, 0, 0, 0, 0],
        [0, 0, 0, 0, 0, 0, 0, 0, 0],
        [0, 0, 0, 0, 0, 0, 0, 0, 0],
        [0, 0, 0, 0, 0, 0, 0, 0, 0],
        [0, 0, 0, 0, 0, 6, 0, 0, 0],
        [0, 0, 0, 0, 0, 0, 7, 0, 0],
        [0, 0, 0, 0, 0, 0, 0, 8, 9],
    ]
}

fn puzzle() -> Grid {
    [
        [6, 0, 0, 0, 3, 0, 0, 0, 9],
        [0, 1, 0, 0, 0, 0, 0, 8, 0],
        [0, 0, 5, 9, 0, 6, 3, 0, 0],
        [0, 0, 6, 3, 0, 4, 8, 0, 0],
        [1, 0, 0, 0, 6, 0, 0, 0, 3],
        [0, 0, 2, 1, 0, 9, 4, 0, 0],
        [0, 0, 7, 5, 0, 3, 1, 0, 0],
        [0, 9, 0, 0, 0, 0, 0, 4, 0],
        [2, 0, 0, 0, 1, 0, 0, 0, 6],
    ]
}

fn puzzle_solution() -> Grid {
    [
        [6, 2, 4, 8, 3, 1, 5, 7, 9],
        [9, 1, 3, 2, 7, 5, 6, 8, 4],
        [7, 8, 5, 9, 4, 6, 3, 1, 2],
        [5, 7, 6, 3, 2, 4, 8, 9, 1],
        [1, 4, 9, 7, 6, 8, 2, 5, 3],
        [8, 3, 2, 1, 5, 9, 4, 6, 7],
        [4, 6, 7, 5, 9, 3, 1, 2, 8],
        [3, 9, 1, 6, 8, 2, 7, 4, 5],
        [2, 5, 8, 4, 1, 7, 9, 3, 6],
    ]
}

#[test]
fn row_is_not_valid() {
    assert!(!is_valid(sample_grid(), 0, 5, 1));
}

#[test]
fn column_is_not_valid() {
    assert!(!is_valid(sample_grid(), 5, 0, 1));
}

#[test]
fn box_is_not_valid() {
    assert!(!is_valid(sample_grid(), 2, 1, 1));
}

#[test]
fn placement_is_valid() {
    assert!(is_valid(sample_grid(), 1, 4, 1));
}

#[test]
fn solves() {
    let mut grid = puzzle();
    let solution = puzzle_solution();

    solve(&mut grid);

    assert_eq!(grid, solution)
}

#[test]
fn solve_reports_success() {
    let mut grid = puzzle();
    assert!(solve(&mut grid));
    assert_eq!(grid, puzzle_solution());
}

#[test]
fn every_corner_of_a_box_is_checked() {
    let mut grid: Grid = [[0; 9]; 9];
    grid[3][3] = 4;
    grid[5][5] = 7;
    grid[3][5] = 8;
    grid[5][3] = 2;
    for y in 3..6 {
        for x in 3..6 {
            for n in [4, 7, 8, 2] {
                assert!(!is_valid(grid, y, x, n));
            }
            for n in [1, 3, 5, 6, 9] {
                assert!(is_valid(grid, y, x, n));
            }
        }
    }
    // The neighbouring boxes see these digits only along shared rows and columns.
    assert!(is_valid(grid, 4, 2, 4));
    assert!(is_valid(grid, 6, 4, 7));
    assert!(!is_valid(grid, 3, 0, 4));
    assert!(!is_valid(grid, 8, 5, 7));
}

#[test]
fn own_value_of_the_cell_counts() {
    let grid = sample_grid();
    // The cell is read like the rest of its row: a digit that already stands
    // there is refused until the cell is cleared.
    assert!(!is_valid(grid, 0, 0, 1));
    let mut cleared = grid;
    cleared[0][0] = 0;
    assert!(is_valid(cleared, 0, 0, 1));
}

#[test]
fn value_absent_from_row_column_and_box_is_accepted() {
    let solution = puzzle_solution();
    for y in 0..9 {
        for x in 0..9 {
            let mut cleared = solution;
            cleared[y][x] = 0;
            for n in 1..=9 {
                assert_eq!(is_valid(cleared, y, x, n), n == solution[y][x]);
            }
        }
    }
}

#[test]
fn solve_is_deterministic() {
    let mut first = puzzle();
    let mut second = puzzle();
    let found_first = solve(&mut first);
    let found_second = solve(&mut second);
    assert_eq!(found_first, found_second);
    assert_eq!(first, second);
}

#[test]
fn solve_takes_the_first_of_many_solutions() {
    let mut grid: Grid = [[0; 9]; 9];
    assert!(solve(&mut grid));
    let expected: Grid = [
        [1, 2, 3, 4, 5, 6, 7, 8, 9],
        [4, 5, 6, 7, 8, 9, 1, 2, 3],
        [7, 8, 9, 1, 2, 3, 4, 5, 6],
        [2, 1, 4, 3, 6, 5, 8, 9, 7],
        [3, 6, 5, 8, 9, 7, 2, 1, 4],
        [8, 9, 7, 2, 1, 4, 3, 6, 5],
        [5, 3, 1, 6, 4, 2, 9, 7, 8],
        [6, 4, 2, 9, 7, 8, 5, 3, 1],
        [9, 7, 8, 5, 3, 1, 6, 4, 2],
    ];
    assert_eq!(grid, expected);
}

#[test]
fn solve_keeps_a_full_board() {
    let mut grid = puzzle_solution();
    assert!(solve(&mut grid));
    assert_eq!(grid, puzzle_solution());
}

#[test]
fn solve_fails_on_a_blocked_cell() {
    let mut grid: Grid = [[0; 9]; 9];
    grid[0] = [0, 2, 3, 4, 5, 6, 7, 8, 9];
    grid[1][0] = 1;
    let before = grid;
    assert!(!solve(&mut grid));
    assert_eq!(grid, before);
}

#[test]
fn solve_backtracks_and_restores_the_board() {
    // (0, 0) can take 2 only, and then nothing is left for (0, 1).
    let mut grid: Grid = [[0; 9]; 9];
    grid[0] = [0, 0, 3, 4, 5, 6, 7, 8, 9];
    grid[3][0] = 1;
    grid[4][1] = 1;
    let before = grid;
    assert!(!solve(&mut grid));
    assert_eq!(grid, before);
}

#[test]
fn solve_does_not_examine_the_given_digits() {
    // Two 2s in the first row: the givens contradict each other, yet the one
    // empty cell can be filled, and the givens stay.
    let mut grid = puzzle_solution();
    grid[0][0] = 2;
    grid[8][8] = 0;
    let mut expected = grid;
    expected[8][8] = 6;
    assert!(solve(&mut grid));
    assert_eq!(grid, expected);
}

#[test]
fn solve_accepts_a_full_board_as_it_is() {
    // Nothing is left to fill, so nothing is checked.
    let mut grid = puzzle_solution();
    grid[0][1] = 6;
    let before = grid;
    assert!(solve(&mut grid));
    assert_eq!(grid, before);
}
