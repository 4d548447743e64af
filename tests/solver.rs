use sudoku::board::Sudoku;
use sudoku::search::{PathElement, SearchOutcome, SearchState};

const HARD: [u8; 81] = [
    0, 5, 0, 3, 0, 2, 0, 8, 0,
    0, 0, 0, 0, 8, 0, 0, 0, 0,
    0, 2, 0, 1, 0, 9, 0, 7, 0,
    6, 0, 0, 0, 0, 0, 0, 0, 5,
    0, 0, 4, 2, 0, 3, 7, 0, 0,
    9, 8, 0, 0, 0, 0, 0, 1, 3,
    0, 4, 0, 0, 0, 0, 0, 2, 0,
    0, 0, 1, 9, 0, 4, 6, 0, 0,
    0, 0, 5, 0, 0, 0, 1, 0, 0,
];

const HARD_SOLVED: [u8; 81] = [
    4, 5, 7, 3, 6, 2, 9, 8, 1,
    1, 6, 9, 7, 8, 5, 3, 4, 2,
    3, 2, 8, 1, 4, 9, 5, 7, 6,
    6, 7, 3, 4, 1, 8, 2, 9, 5,
    5, 1, 4, 2, 9, 3, 7, 6, 8,
    9, 8, 2, 6, 5, 7, 4, 1, 3,
    7, 4, 6, 5, 3, 1, 8, 2, 9,
    8, 3, 1, 9, 2, 4, 6, 5, 7,
    2, 9, 5, 8, 7, 6, 1, 3, 4,
];

const EASY: [u8; 81] = [
    0, 7, 0, 5, 8, 3, 0, 2, 0,
    0, 5, 9, 2, 0, 0, 3, 0, 0,
    3, 4, 0, 0, 0, 6, 5, 0, 7,
    7, 9, 5, 0, 0, 0, 6, 3, 2,
    0, 0, 3, 6, 9, 7, 1, 0, 0,
    6, 8, 0, 0, 0, 2, 7, 0, 0,
    9, 1, 4, 8, 3, 5, 0, 7, 6,
    0, 3, 0, 7, 0, 1, 4, 9, 5,
    5, 6, 7, 4, 2, 9, 0, 1, 3,
];

const SOLVED: [u8; 81] = [
    1, 7, 6, 5, 8, 3, 9, 2, 4,
    8, 5, 9, 2, 7, 4, 3, 6, 1,
    3, 4, 2, 9, 1, 6, 5, 8, 7,
    7, 9, 5, 1, 4, 8, 6, 3, 2,
    4, 2, 3, 6, 9, 7, 1, 5, 8,
    6, 8, 1, 3, 5, 2, 7, 4, 9,
    9, 1, 4, 8, 3, 5, 2, 7, 6,
    2, 3, 8, 7, 6, 1, 4, 9, 5,
    5, 6, 7, 4, 2, 9, 8, 1, 3,
];

const FIRST_OF_EMPTY: [u8; 81] = [
    1, 2, 3, 4, 5, 6, 7, 8, 9,
    4, 5, 6, 7, 8, 9, 1, 2, 3,
    7, 8, 9, 1, 2, 3, 4, 5, 6,
    2, 1, 4, 3, 6, 5, 8, 9, 7,
    3, 6, 5, 8, 9, 7, 2, 1, 4,
    8, 9, 7, 2, 1, 4, 3, 6, 5,
    5, 3, 1, 6, 4, 2, 9, 7, 8,
    6, 4, 2, 9, 7, 8, 5, 3, 1,
    9, 7, 8, 5, 3, 1, 6, 4, 2,
];

fn keeps_givens(given: &[u8; 81], result: &[u8; 81]) -> bool {
    (0..81).all(|p| given[p] == 0 || given[p] == result[p])
}

#[test]
fn new_keeps_grid_and_snapshot() {
    let s = Sudoku::new(EASY);
    assert_eq!(s.grid, EASY);
    assert_eq!(s.init_grid, EASY);
    assert_eq!(s.empty_cell_token, 0);
}

#[test]
fn row_column_square() {
    let s = Sudoku::new(EASY);
    assert_eq!(s.get_row(0), [0, 7, 0, 5, 8, 3, 0, 2, 0]);
    assert_eq!(s.get_row(8), [5, 6, 7, 4, 2, 9, 0, 1, 3]);
    assert_eq!(s.get_column(0), [0, 0, 3, 7, 0, 6, 9, 0, 5]);
    assert_eq!(s.get_column(8), [0, 0, 7, 2, 0, 0, 6, 5, 3]);
    assert_eq!(s.get_square(0, 0), [0, 7, 0, 0, 5, 9, 3, 4, 0]);
    assert_eq!(s.get_square(4, 5), [0, 0, 0, 6, 9, 7, 0, 0, 2]);
    assert_eq!(s.get_square(8, 8), [0, 7, 6, 4, 9, 5, 0, 1, 3]);
}

#[test]
fn empty_cells_in_row_major_order() {
    let s = Sudoku::new(EASY);
    assert_eq!(
        s.get_empty_cells(),
        vec![0, 2, 6, 8, 9, 13, 14, 16, 17, 20, 21, 22, 25, 30, 31, 32, 36, 37, 43, 44, 47, 48, 49, 52, 53, 60, 63, 65, 67, 78]
    );
    assert_eq!(Sudoku::new(SOLVED).get_empty_cells(), Vec::<usize>::new());
    assert_eq!(Sudoku::new([0; 81]).get_empty_cells(), (0..81).collect::<Vec<usize>>());
}

#[test]
fn valid_digits_exact() {
    let s = Sudoku::new(EASY);
    assert_eq!(s.get_valid_digits(0, 0), Ok(vec![1]));
    assert_eq!(s.get_valid_digits(0, 2), Ok(vec![1, 6]));
    let blank = Sudoku::new([0; 81]);
    assert_eq!(blank.get_valid_digits(4, 4), Ok(vec![1, 2, 3, 4, 5, 6, 7, 8, 9]));
}

#[test]
fn valid_digits_ascending_and_outside_units() {
    let s = Sudoku::new(HARD);
    for p in s.get_empty_cells() {
        let (i, j) = (p / 9, p % 9);
        if let Ok(digits) = s.get_valid_digits(i, j) {
            assert!(digits.windows(2).all(|w| w[0] < w[1]));
            for d in &digits {
                assert!((1..=9).contains(d));
                assert!(!s.get_row(i).contains(d));
                assert!(!s.get_column(j).contains(d));
                assert!(!s.get_square(i, j).contains(d));
            }
        }
    }
}

#[test]
fn valid_digits_error_when_none_left() {
    let mut grid = [0u8; 81];
    for k in 1..9 {
        grid[k] = k as u8;
    }
    grid[9 * 4] = 9;
    let s = Sudoku::new(grid);
    assert_eq!(s.get_valid_digits(0, 0), Err(()));
}

#[test]
fn propagation_single_pass() {
    let mut s = Sudoku::new(EASY);
    assert_eq!(s.fill_one_possibility_cells(), 26);
    assert_eq!(s.grid[0], 1);
    assert_eq!(s.grid[13], 0);
    assert_eq!(s.init_grid, EASY);
    assert_eq!(s.fill_one_possibility_cells(), 4);
    assert_eq!(s.grid, SOLVED);
}

#[test]
fn propagation_without_singles_writes_nothing() {
    let mut blank = Sudoku::new([0; 81]);
    assert_eq!(blank.fill_one_possibility_cells(), 0);
    assert_eq!(blank.grid, [0; 81]);
    let mut hard = Sudoku::new(HARD);
    hard.fill_one_possibility_cells();
    let after = hard.grid;
    if hard.fill_one_possibility_cells() == 0 {
        assert_eq!(hard.grid, after);
    }
}

#[test]
fn validate_accepts_solution() {
    assert!(Sudoku::new(SOLVED).validate());
    assert!(Sudoku::new(HARD_SOLVED).validate());
    assert!(Sudoku::new(FIRST_OF_EMPTY).validate());
}

#[test]
fn validate_rejects_duplicates_in_full_grid() {
    let mut grid = SOLVED;
    grid.swap(0, 1);
    assert!(!Sudoku::new(grid).validate());
    let mut rows_only = [0u8; 81];
    for r in 0..9 {
        for c in 0..9 {
            rows_only[9 * r + c] = (c + 1) as u8;
        }
    }
    assert!(!Sudoku::new(rows_only).validate());
}

#[test]
fn validate_rejects_blanks() {
    assert!(!Sudoku::new([0; 81]).validate());
    assert!(!Sudoku::new(EASY).validate());
}

#[test]
fn conflicts_among_givens() {
    assert!(!Sudoku::new(EASY).has_conflicts());
    assert!(!Sudoku::new([0; 81]).has_conflicts());
    let mut grid = [0u8; 81];
    grid[0] = 5;
    grid[8] = 5;
    assert!(Sudoku::new(grid).has_conflicts());
    let mut block = [0u8; 81];
    block[0] = 3;
    block[20] = 3;
    assert!(Sudoku::new(block).has_conflicts());
}

#[test]
fn path_element_cursor() {
    let mut f = PathElement { idx_cell: 4, valid_digits: vec![2, 5, 7], idx_digit: None };
    assert_eq!(f.increase_digit(), Ok(()));
    assert_eq!(f.idx_digit, Some(0));
    assert_eq!(f.get_digit(), 2);
    assert_eq!(f.increase_digit(), Ok(()));
    assert_eq!(f.get_digit(), 5);
    assert_eq!(f.increase_digit(), Ok(()));
    assert_eq!(f.get_digit(), 7);
    assert_eq!(f.increase_digit(), Err(()));
    assert_eq!(f.idx_digit, Some(2));
    assert_eq!(f.idx_cell, 4);
}

#[test]
fn path_element_empty_list_cannot_advance() {
    let mut f = PathElement { idx_cell: 7, valid_digits: vec![], idx_digit: None };
    assert_eq!(f.increase_digit(), Err(()));
    assert_eq!(f.idx_digit, None);
    assert_eq!(f.idx_cell, 7);
    assert!(f.valid_digits.is_empty());
}

#[test]
fn solves_hard_grid() {
    let mut s = Sudoku::new(HARD);
    assert_eq!(s.brute_force(), SearchOutcome::Solved);
    assert!(s.validate());
    assert!(keeps_givens(&HARD, &s.grid));
    assert_eq!(s.grid, HARD_SOLVED);
    assert_eq!(s.init_grid, HARD);
}

#[test]
fn solves_easy_grid_to_its_unique_solution() {
    let mut s = Sudoku::new(EASY);
    assert_eq!(s.brute_force(), SearchOutcome::Solved);
    assert_eq!(s.grid, SOLVED);
}

#[test]
fn empty_grid_gives_first_solution() {
    let mut s = Sudoku::new([0; 81]);
    assert_eq!(s.brute_force(), SearchOutcome::Solved);
    assert!(s.validate());
    assert_eq!(s.grid, FIRST_OF_EMPTY);
}

#[test]
fn solved_grid_needs_no_work() {
    let mut s = Sudoku::new(SOLVED);
    assert_eq!(s.fill_one_possibility_cells(), 0);
    assert!(s.get_empty_cells().is_empty());
    let state = SearchState::new(&s);
    assert!(state.path.is_empty());
    assert_eq!(state.path.len(), state.empty_cells.len());
    assert_eq!(s.brute_force(), SearchOutcome::Solved);
    assert_eq!(s.grid, SOLVED);
}

#[test]
fn conflicting_givens_are_unsolvable() {
    let mut grid = [0u8; 81];
    grid[0] = 5;
    grid[8] = 5;
    let mut s = Sudoku::new(grid);
    assert_eq!(s.brute_force(), SearchOutcome::Unsolvable);
    assert_eq!(s.grid, grid);
}

#[test]
fn unsolvable_without_clashing_givens() {
    // The top-left cell sees 1..8 in its row and 9 in its column.
    let mut grid = [0u8; 81];
    for k in 1..9 {
        grid[k] = k as u8;
    }
    grid[9 * 4] = 9;
    let mut s = Sudoku::new(grid);
    let mut propagated = Sudoku::new(grid);
    propagated.fill_one_possibility_cells();
    assert_eq!(s.brute_force(), SearchOutcome::Unsolvable);
    assert_eq!(s.grid, propagated.grid);
}

#[test]
fn search_is_deterministic() {
    let mut a = Sudoku::new(HARD);
    let mut b = Sudoku::new(HARD);
    a.fill_one_possibility_cells();
    b.fill_one_possibility_cells();
    let mut sa = SearchState::new(&a);
    let mut sb = SearchState::new(&b);
    while sa.path.len() < sa.empty_cells.len() {
        let ra = a.search_step(&mut sa);
        let rb = b.search_step(&mut sb);
        assert_eq!(ra, rb);
        assert_eq!(a.grid, b.grid);
        assert_eq!(sa.path.len(), sb.path.len());
        if !ra {
            break;
        }
    }
    assert_eq!(a.grid, HARD_SOLVED);
    let mut c = Sudoku::new(HARD);
    let mut d = Sudoku::new(HARD);
    assert_eq!(c.brute_force(), d.brute_force());
    assert_eq!(c.grid, d.grid);
}

#[test]
fn step_backs_off_from_dead_end() {
    // Cells 0 and 1 both need the digit 9; once cell 0 takes it, cell 1 has none.
    let mut grid = [0u8; 81];
    for k in 2..9 {
        grid[k] = k as u8 - 1;
    }
    grid[9 * 3] = 8;
    grid[9 * 6 + 1] = 8;
    let mut s = Sudoku::new(grid);
    assert!(!s.has_conflicts());
    let mut state = SearchState::new(&s);
    assert_eq!(state.empty_cells[0], 0);
    assert!(s.search_step(&mut state));
    assert_eq!(state.path.len(), 1);
    assert_eq!(s.grid[0], 9);
    assert!(!s.search_step(&mut state));
    assert!(state.path.is_empty());
    assert_eq!(s.grid, grid);
}
