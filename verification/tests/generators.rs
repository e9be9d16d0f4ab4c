use sudoku::generators::{
    generate_grid, grid_from_seed, num_possibilities, remove_numbers, remove_numbers_in_order,
};
use sudoku::validators::{is_valid, solve};

type Grid = [[usize; 9]; 9];

fn sample_grid() -> Grid {
    [
        [1, 0, 0, 0, 0, 0, 0, 0, 0],
        [0, 2, 0, 0, 0, 0, 0, 0, 0],
        [0, 0, 3, 0, 0, 0, 0, 0, 0],
        [0, 0, 0, 0, 0, 0, 0, 0, 0],
        [0, 0, 0, 0, 0, 0, 0, 0, 0],
        [0, 0, 0, 0, 0, 0, 0, 0, 0],
        [0, 0, 0, 0, 0, 6, 0, 0, 0],
        [0, 0, 0, 0, 0, 0, 7, 0, 0],
        [0, 0, 0, 0, 0, 0, 0, 8, 9],
    ]
}

fn counting_grid() -> Grid {
    [
        [1, 2, 3, 4, 5, 6, 7, 8, 9],
        [4, 5, 6, 7, 8, 9, 1, 2, 3],
        [7, 8, 9, 1, 2, 3, 4, 5, 6],
        [2, 3, 4, 5, 6, 7, 8, 9, 1],
        [5, 6, 7, 8, 9, 1, 2, 3, 4],
        [8, 9, 1, 2, 3, 4, 5, 6, 7],
        [3, 4, 5, 6, 7, 8, 9, 1, 2],
        [6, 7, 8, 9, 1, 2, 3, 4, 5],
        [9, 1, 2, 3, 4, 5, 6, 7, 8],
    ]
}

fn holds_each_digit_once(cells: [usize; 9]) -> bool {
    let mut sorted = cells;
    sorted.sort();
    sorted == [1, 2, 3, 4, 5, 6, 7, 8, 9]
}

fn is_finished(grid: &Grid) -> bool {
    for k in 0..9 {
        let mut column = [0; 9];
        let mut boxed = [0; 9];
        for i in 0..9 {
            column[i] = grid[i][k];
            boxed[i] = grid[(k / 3) * 3 + i / 3][(k % 3) * 3 + i % 3];
        }
        if !holds_each_digit_once(grid[k])
            || !holds_each_digit_once(column)
            || !holds_each_digit_once(boxed)
        {
            return false;
        }
    }
    true
}

fn every_digit_passes(grid: &Grid) -> bool {
    for y in 0..9 {
        for x in 0..9 {
            if grid[y][x] != 0 {
                let mut cleared = *grid;
                cleared[y][x] = 0;
                if !is_valid(cleared, y, x, grid[y][x]) {
                    return false;
                }
            }
        }
    }
    true
}

#[test]
fn counts_num_possibilities() {
    // Position (0, 5): blocked by 1 (row) and 6 (column), so 7 possibilities
    assert_eq!(num_possibilities(sample_grid(), 0, 5), 7);
}

#[test]
fn counts_zero_possibilities_when_all_blocked() {
    let grid: Grid = [
        [0, 2, 3, 4, 5, 6, 7, 8, 9], // Position (0,0) has no valid options
        [1, 0, 0, 0, 0, 0, 0, 0, 0],
        [0, 0, 0, 0, 0, 0, 0, 0, 0],
        [0, 0, 0, 0, 0, 0, 0, 0, 0],
        [0, 0, 0, 0, 0, 0, 0, 0, 0],
        [0, 0, 0, 0, 0, 0, 0, 0, 0],
        [0, 0, 0, 0, 0, 0, 0, 0, 0],
        [0, 0, 0, 0, 0, 0, 0, 0, 0],
        [0, 0, 0, 0, 0, 0, 0, 0, 0],
    ];
    assert_eq!(num_possibilities(grid, 0, 0), 0);
}

#[test]
fn blocked_cell_makes_the_grid_unsolvable() {
    let mut grid: Grid = [[0; 9]; 9];
    grid[0] = [0, 2, 3, 4, 5, 6, 7, 8, 9];
    grid[1][0] = 1;
    assert_eq!(num_possibilities(grid, 0, 0), 0);
    assert!(!solve(&mut grid));
}

#[test]
fn blocked_cell_that_is_filled_does_not_stop_solve() {
    // With a second 6 in the first row nothing could stand at (0, 0), but
    // that cell is filled, and so is the rest: nothing is left to search.
    let mut grid: Grid = [
        [6, 6, 4, 8, 3, 1, 5, 7, 9],
        [9, 1, 3, 2, 7, 5, 6, 8, 4],
        [7, 8, 5, 9, 4, 6, 3, 1, 2],
        [5, 7, 6, 3, 2, 4, 8, 9, 1],
        [1, 4, 9, 7, 6, 8, 2, 5, 3],
        [8, 3, 2, 1, 5, 9, 4, 6, 7],
        [4, 6, 7, 5, 9, 3, 1, 2, 8],
        [3, 9, 1, 6, 8, 2, 7, 4, 5],
        [2, 5, 8, 4, 1, 7, 9, 3, 6],
    ];
    let before = grid;
    assert_eq!(num_possibilities(grid, 0, 0), 0);
    assert!(solve(&mut grid));
    assert_eq!(grid, before);
}

#[test]
fn counts_all_nine_on_an_empty_grid() {
    let grid: Grid = [[0; 9]; 9];
    assert_eq!(num_possibilities(grid, 4, 4), 9);
}

#[test]
fn counting_sets_the_own_digit_aside() {
    // On a finished board the digit of a cell is the one that could stand there.
    let grid = counting_grid();
    for y in 0..9 {
        for x in 0..9 {
            assert_eq!(num_possibilities(grid, y, x), 1);
        }
    }
    let mut grid = sample_grid();
    grid[0][5] = 1;
    // The 1 at (0, 0) still blocks; the 1 at (0, 5) itself does not.
    assert_eq!(num_possibilities(grid, 0, 5), 7);
    // At (0, 0) the box holds 2 and 3; the 1 of the cell itself is set aside.
    assert_eq!(num_possibilities(sample_grid(), 0, 0), 7);
}

#[test]
fn grows_the_grid_from_its_first_row() {
    assert_eq!(grid_from_seed([1, 2, 3, 4, 5, 6, 7, 8, 9]), counting_grid());
    let expected: Grid = [
        [5, 3, 4, 6, 7, 8, 9, 1, 2],
        [6, 7, 8, 9, 1, 2, 5, 3, 4],
        [9, 1, 2, 5, 3, 4, 6, 7, 8],
        [3, 4, 6, 7, 8, 9, 1, 2, 5],
        [7, 8, 9, 1, 2, 5, 3, 4, 6],
        [1, 2, 5, 3, 4, 6, 7, 8, 9],
        [4, 6, 7, 8, 9, 1, 2, 5, 3],
        [8, 9, 1, 2, 5, 3, 4, 6, 7],
        [2, 5, 3, 4, 6, 7, 8, 9, 1],
    ];
    let grid = grid_from_seed([5, 3, 4, 6, 7, 8, 9, 1, 2]);
    assert_eq!(grid, expected);
    assert!(is_finished(&grid));
}

#[test]
fn grows_a_grid_from_any_row() {
    // The rotation does not ask for a permutation.
    let grid = grid_from_seed([7, 7, 0, 0, 0, 0, 0, 0, 12]);
    assert_eq!(grid[0], [7, 7, 0, 0, 0, 0, 0, 0, 12]);
    assert_eq!(grid[1], [0, 0, 0, 0, 0, 12, 7, 7, 0]);
    assert_eq!(grid[3], [7, 0, 0, 0, 0, 0, 0, 12, 7]);
    assert_eq!(grid[8], [12, 7, 7, 0, 0, 0, 0, 0, 0]);
}

#[test]
fn generated_grid_is_finished() {
    for _ in 0..50 {
        let grid = generate_grid();
        assert!(is_finished(&grid));
        assert!(every_digit_passes(&grid));
        assert_eq!(grid, grid_from_seed(grid[0]));
    }
}

#[test]
fn generated_grids_differ() {
    let first_rows: Vec<[usize; 9]> = (0..20).map(|_| generate_grid()[0]).collect();
    assert!(first_rows.iter().any(|row| *row != [1, 2, 3, 4, 5, 6, 7, 8, 9]));
    assert!(first_rows.iter().any(|row| *row != first_rows[0]));
}

#[test]
fn removes_in_the_given_order() {
    let mut grid = counting_grid();
    remove_numbers_in_order(&mut grid, &[0, 1, 2, 3, 4, 5, 6, 7, 8]);
    let expected: Grid = [
        [0, 0, 0, 0, 0, 0, 0, 0, 0],
        [0, 0, 0, 7, 8, 9, 0, 0, 0],
        [0, 0, 0, 0, 0, 0, 4, 5, 6],
        [0, 3, 0, 0, 6, 0, 0, 9, 0],
        [0, 6, 0, 8, 9, 1, 0, 3, 0],
        [0, 9, 0, 0, 3, 0, 5, 6, 7],
        [0, 0, 5, 0, 0, 8, 0, 0, 2],
        [0, 0, 8, 9, 1, 2, 0, 0, 5],
        [0, 0, 2, 0, 0, 5, 6, 7, 8],
    ];
    assert_eq!(grid, expected);
}

#[test]
fn removes_in_the_reverse_order() {
    let mut grid = counting_grid();
    remove_numbers_in_order(&mut grid, &[8, 7, 6, 5, 4, 3, 2, 1, 0]);
    let expected: Grid = [
        [1, 2, 3, 4, 0, 0, 7, 0, 0],
        [4, 0, 0, 7, 8, 9, 1, 0, 0],
        [7, 0, 0, 1, 0, 0, 4, 0, 0],
        [2, 3, 4, 0, 6, 0, 0, 9, 0],
        [0, 6, 0, 8, 9, 1, 0, 3, 0],
        [0, 9, 0, 0, 3, 0, 0, 6, 0],
        [3, 4, 5, 0, 0, 0, 0, 0, 0],
        [0, 0, 0, 9, 1, 2, 0, 0, 0],
        [0, 0, 0, 0, 0, 0, 0, 0, 0],
    ];
    assert_eq!(grid, expected);
}

#[test]
fn removes_in_a_mixed_order() {
    let mut grid = grid_from_seed([5, 3, 4, 6, 7, 8, 9, 1, 2]);
    remove_numbers_in_order(&mut grid, &[4, 0, 8, 2, 6, 1, 7, 3, 5]);
    let expected: Grid = [
        [0, 0, 0, 0, 0, 0, 0, 0, 0],
        [0, 7, 0, 9, 0, 2, 5, 3, 4],
        [0, 1, 2, 0, 0, 4, 6, 0, 0],
        [3, 4, 6, 7, 0, 9, 0, 2, 0],
        [0, 0, 0, 0, 0, 0, 0, 0, 0],
        [0, 0, 0, 3, 0, 6, 7, 8, 9],
        [0, 6, 7, 0, 0, 1, 2, 0, 0],
        [0, 9, 1, 2, 0, 3, 4, 6, 7],
        [0, 5, 0, 4, 0, 0, 0, 9, 0],
    ];
    assert_eq!(grid, expected);
}

#[test]
fn removal_visits_a_cell_as_often_as_the_order_names_it() {
    // One index nine times over: only the cell (4, 4) is ever looked at.
    let mut grid = counting_grid();
    remove_numbers_in_order(&mut grid, &[4, 4, 4, 4, 4, 4, 4, 4, 4]);
    let mut expected = counting_grid();
    expected[4][4] = 0;
    assert_eq!(grid, expected);
}

#[test]
fn removal_keeps_a_cell_with_several_candidates() {
    let mut grid: Grid = [[0; 9]; 9];
    grid[0] = [5, 2, 3, 4, 0, 6, 7, 8, 0];
    let before = grid;
    // Each digit of the row could be replaced by 1 or 9: all of them stay.
    assert_eq!(num_possibilities(grid, 0, 0), 3);
    remove_numbers_in_order(&mut grid, &[0, 1, 2, 3, 4, 5, 6, 7, 8]);
    assert_eq!(grid, before);
}

#[test]
fn removal_only_clears_cells_and_keeps_the_rest_valid() {
    for _ in 0..25 {
        let full = generate_grid();
        let mut puzzle = full;
        remove_numbers(&mut puzzle);
        let mut cleared = 0;
        for y in 0..9 {
            for x in 0..9 {
                if puzzle[y][x] == 0 {
                    cleared += 1;
                } else {
                    assert_eq!(puzzle[y][x], full[y][x]);
                }
            }
        }
        assert!(cleared > 0);
        assert!(every_digit_passes(&puzzle));
    }
}

#[test]
fn removal_results_differ() {
    let full = grid_from_seed([1, 2, 3, 4, 5, 6, 7, 8, 9]);
    let results: Vec<Grid> = (0..20)
        .map(|_| {
            let mut puzzle = full;
            remove_numbers(&mut puzzle);
            puzzle
        })
        .collect();
    assert!(results.iter().any(|puzzle| *puzzle != results[0]));
}

#[test]
fn removal_matches_some_order_of_the_indexes() {
    // On this board the cell at (a, a) is the first one visited exactly when
    // `a` leads the order, and the first visit always clears.
    let full = counting_grid();
    let mut puzzle = full;
    remove_numbers(&mut puzzle);
    let mut matched = false;
    for a in 0..9 {
        if puzzle[a][a] == 0 {
            matched = true;
        }
    }
    assert!(matched);
}

#[test]
fn generated_puzzle_can_be_solved() {
    let mut puzzle = grid_from_seed([5, 3, 4, 6, 7, 8, 9, 1, 2]);
    remove_numbers_in_order(&mut puzzle, &[4, 0, 8, 2, 6, 1, 7, 3, 5]);
    assert!(solve(&mut puzzle));
    assert_eq!(puzzle, grid_from_seed([5, 3, 4, 6, 7, 8, 9, 1, 2]));
}
