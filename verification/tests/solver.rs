use sudoku::Grid;
use sudoku::SolveError;
use sudoku::calculate_possibilities_for_cell;
use sudoku::get_col_numbers;
use sudoku::get_subgrid_numbers;
use sudoku::solve;

fn get_table() -> Grid {
    Grid::from_rows(&[
        [5, 3, 0, 0, 7, 0, 0, 0, 0],
        [6, 0, 0, 1, 9, 5, 0, 0, 0],
        [0, 9, 8, 0, 0, 0, 0, 6, 0],
        [8, 0, 0, 0, 6, 0, 0, 0, 3],
        [4, 0, 0, 8, 0, 3, 0, 0, 1],
        [7, 0, 0, 0, 2, 0, 0, 0, 6],
        [0, 6, 0, 0, 0, 0, 2, 8, 0],
        [0, 0, 0, 4, 1, 9, 0, 0, 5],
        [0, 0, 0, 0, 8, 0, 0, 7, 9],
    ])
    .unwrap()
}

fn solved_table_rows() -> [[u8; 9]; 9] {
    [
        [5, 3, 4, 6, 7, 8, 9, 1, 2],
        [6, 7, 2, 1, 9, 5, 3, 4, 8],
        [1, 9, 8, 3, 4, 2, 5, 6, 7],
        [8, 5, 9, 7, 6, 1, 4, 2, 3],
        [4, 2, 6, 8, 5, 3, 7, 9, 1],
        [7, 1, 3, 9, 2, 4, 8, 5, 6],
        [9, 6, 1, 5, 3, 7, 2, 8, 4],
        [2, 8, 7, 4, 1, 9, 6, 3, 5],
        [3, 4, 5, 2, 8, 6, 1, 7, 9],
    ]
}

#[test]
fn acceptance() {
    let got = solve(&get_table());
    let want = Grid::from_rows(&solved_table_rows()).unwrap();
    assert_eq!(got, Ok(want))
}

#[test]
fn acceptance2() {
    // This grid has a unique solution, but reaching it needs guessing:
    // pure elimination stalls with every remaining empty cell keeping two
    // or more candidates, which must surface as the typed RequiresSearch
    // failure rather than a panic or a partial grid.
    let got = solve(
        &Grid::from_rows(&[
            [3, 0, 6, 5, 0, 8, 4, 0, 0],
            [5, 2, 0, 0, 0, 0, 0, 0, 0],
            [0, 8, 7, 0, 0, 0, 0, 3, 1],
            [0, 0, 3, 0, 1, 0, 0, 8, 0],
            [9, 0, 0, 8, 6, 3, 0, 0, 5],
            [0, 5, 0, 0, 9, 0, 6, 0, 0],
            [1, 3, 0, 0, 0, 0, 2, 5, 0],
            [0, 0, 0, 0, 0, 0, 0, 7, 4],
            [0, 0, 5, 2, 0, 6, 3, 0, 0],
        ])
        .unwrap(),
    );
    assert_eq!(got, Err(SolveError::RequiresSearch))
}

#[test]
fn calculates_possibilities_removes_row_numbers() {
    let table = get_table();
    let row_index: usize = 0;
    let got = calculate_possibilities_for_cell(&table, (row_index, 2));
    let row_numbers: Vec<u8> = (0..9)
        .map(|c| table.get(row_index, c))
        .filter(|x| *x != 0)
        .collect();

    assert!(got.iter().all(|x| !row_numbers.contains(x)))
}

#[test]
fn calculates_possibilities_removes_col_numbers() {
    let table = get_table();
    let col_index: usize = 2;
    let got = calculate_possibilities_for_cell(&table, (0, col_index));
    let col_numbers: Vec<u8> = get_col_numbers(&table, col_index);

    assert!(got.iter().all(|x| !col_numbers.contains(x)))
}

#[test]
fn calculates_possibilities_removes_subgrid_numbers() {
    let table = get_table();
    let cell_addr = (0, 2);
    let got = calculate_possibilities_for_cell(&table, cell_addr);
    let col_numbers: Vec<u8> = get_subgrid_numbers(&table, cell_addr);

    assert!(got.iter().all(|x| !col_numbers.contains(x)))
}

#[test]
fn possibility_set_is_exact_and_ascending() {
    // Cell (0, 2): the row holds {5, 3, 7}, the column {8}, the subgrid
    // {5, 3, 6, 9, 8}, so exactly {1, 2, 4} remain legal.
    let table = get_table();
    let got = calculate_possibilities_for_cell(&table, (0, 2));
    assert_eq!(got, vec![1, 2, 4])
}

#[test]
fn collected_numbers_keep_scan_order() {
    let table = get_table();
    // Column 2 holds only the 8 at row 2.
    assert_eq!(get_col_numbers(&table, 2), vec![8]);
    // The top-left subgrid read row by row: 5, 3, _, 6, _, _, _, 9, 8.
    assert_eq!(get_subgrid_numbers(&table, (0, 2)), vec![5, 3, 6, 9, 8])
}

#[test]
fn solve_is_deterministic_on_success() {
    let first = solve(&get_table());
    let second = solve(&get_table());
    assert_eq!(first, second)
}

#[test]
fn solve_is_deterministic_on_failure() {
    let empty = Grid::from_rows(&[[0; 9]; 9]).unwrap();
    let first = solve(&empty);
    let second = solve(&empty);
    assert_eq!(first, Err(SolveError::RequiresSearch));
    assert_eq!(first, second)
}

#[test]
fn ambiguous_grid_requires_search() {
    // The solved grid with the four cells (3,5), (3,8), (4,5), (4,8)
    // blanked: the digits 1 and 3 can be swapped between rows 3 and 4, so
    // each of the four cells keeps exactly the two candidates {1, 3} and no
    // naked single exists anywhere.
    let mut rows = solved_table_rows();
    rows[3][5] = 0;
    rows[3][8] = 0;
    rows[4][5] = 0;
    rows[4][8] = 0;
    let grid = Grid::from_rows(&rows).unwrap();
    assert_eq!(
        calculate_possibilities_for_cell(&grid, (3, 5)),
        vec![1, 3]
    );
    assert_eq!(solve(&grid), Err(SolveError::RequiresSearch))
}

#[test]
fn unsatisfiable_grid_is_a_contradiction() {
    // Cell (0, 0) is empty while its row holds 2-9 and its column holds 1:
    // no digit is legal there, so elimination must report a contradiction.
    let mut rows = [[0u8; 9]; 9];
    rows[0] = [0, 2, 3, 4, 5, 6, 7, 8, 9];
    rows[3][0] = 1;
    let grid = Grid::from_rows(&rows).unwrap();
    assert_eq!(solve(&grid), Err(SolveError::Contradiction))
}

#[test]
fn solved_grid_has_every_digit_in_every_unit() {
    let solved = solve(&get_table()).unwrap();
    for d in 1..=9u8 {
        for i in 0..9 {
            assert!((0..9).any(|c| solved.get(i, c) == d));
            assert!((0..9).any(|r| solved.get(r, i) == d));
        }
        for br in [0, 3, 6] {
            for bc in [0, 3, 6] {
                assert!((0..9).any(|k| solved.get(br + k / 3, bc + k % 3) == d));
            }
        }
    }
}

#[test]
fn from_rows_rejects_out_of_range_values() {
    let mut rows = [[0u8; 9]; 9];
    rows[4][4] = 10;
    assert!(Grid::from_rows(&rows).is_none());
    rows[4][4] = 9;
    assert!(Grid::from_rows(&rows).is_some())
}
