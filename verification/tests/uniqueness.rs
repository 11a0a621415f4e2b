use sudoku::Sudoku;

const SOLVED: [[u8; 9]; 9] = [
    [5, 3, 4, 6, 7, 8, 9, 1, 2],
    [6, 7, 2, 1, 9, 5, 3, 4, 8],
    [1, 9, 8, 3, 4, 2, 5, 6, 7],
    [8, 5, 9, 7, 6, 1, 4, 2, 3],
    [4, 2, 6, 8, 5, 3, 7, 9, 1],
    [7, 1, 3, 9, 2, 4, 8, 5, 6],
    [9, 6, 1, 5, 3, 7, 2, 8, 4],
    [2, 8, 7, 4, 1, 9, 6, 3, 5],
    [3, 4, 5, 2, 8, 6, 1, 7, 9],
];

const PUZZLE: [[u8; 9]; 9] = [
    [5, 3, 0, 0, 7, 0, 0, 0, 0],
    [6, 0, 0, 1, 9, 5, 0, 0, 0],
    [0, 9, 8, 0, 0, 0, 0, 6, 0],
    [8, 0, 0, 0, 6, 0, 0, 0, 3],
    [4, 0, 0, 8, 0, 3, 0, 0, 1],
    [7, 0, 0, 0, 2, 0, 0, 0, 6],
    [0, 6, 0, 0, 0, 0, 2, 8, 0],
    [0, 0, 0, 4, 1, 9, 0, 0, 5],
    [0, 0, 0, 0, 8, 0, 0, 7, 9],
];

fn filled(cells: &[[u8; 9]; 9]) -> Sudoku {
    let mut board = Sudoku::new();
    for r in 0..9usize {
        for c in 0..9usize {
            let d: u8 = cells[r][c];
            if d != 0 {
                assert!(board.is_safe(r, c, d));
                board.place_num(r, c, d, true);
            }
        }
    }
    board
}

fn flat_of(cells: &[[u8; 9]; 9]) -> Vec<u8> {
    let mut out: Vec<u8> = Vec::new();
    for r in 0..9usize {
        for c in 0..9usize {
            out.push(cells[r][c]);
        }
    }
    out
}

fn without_solution() -> Sudoku {
    let mut board = Sudoku::new();
    for c in 0..8usize {
        board.place_num(0, c, (c + 1) as u8, true);
    }
    board.place_num(1, 8, 9, true);
    board
}

#[test]
fn full_grid_is_unique() {
    let mut board = filled(&SOLVED);
    assert!(board.is_unique_soln());
    assert_eq!(board.get_grid(), flat_of(&SOLVED));
}

#[test]
fn one_blank_is_unique() {
    let mut board = filled(&SOLVED);
    board.place_num(4, 4, 5, false);
    let before: Vec<u8> = board.get_grid();
    assert!(board.is_unique_soln());
    assert_eq!(board.get_grid(), before);
}

#[test]
fn classic_puzzle_is_unique_and_left_as_it_was() {
    let mut board = filled(&PUZZLE);
    assert!(board.is_unique_soln());
    assert_eq!(board.get_grid(), flat_of(&PUZZLE));
    assert!(board.gen());
    assert_eq!(board.get_grid(), flat_of(&SOLVED));
}

#[test]
fn swappable_digits_are_not_unique() {
    let mut board = filled(&SOLVED);
    board.place_num(0, 3, 6, false);
    board.place_num(0, 4, 7, false);
    board.place_num(3, 3, 7, false);
    board.place_num(3, 4, 6, false);
    assert!(!board.is_unique_soln());
}

#[test]
fn three_corners_of_a_swap_are_still_unique() {
    let mut board = filled(&SOLVED);
    board.place_num(0, 3, 6, false);
    board.place_num(0, 4, 7, false);
    board.place_num(3, 3, 7, false);
    let before: Vec<u8> = board.get_grid();
    assert!(board.is_unique_soln());
    assert_eq!(board.get_grid(), before);
}

#[test]
fn several_solutions_leave_one_of_them_on_the_board() {
    let mut board = filled(&SOLVED);
    board.place_num(0, 3, 6, false);
    board.place_num(0, 4, 7, false);
    board.place_num(3, 3, 7, false);
    board.place_num(3, 4, 6, false);
    assert!(!board.is_unique_soln());
    assert_eq!(board.find_blank(), None);
    let cells: Vec<u8> = board.get_grid();
    let mut expected: Vec<u8> = flat_of(&SOLVED);
    assert_ne!(cells, expected);
    expected[3] = 7;
    expected[4] = 6;
    expected[3 * 9 + 3] = 6;
    expected[3 * 9 + 4] = 7;
    assert_eq!(cells, expected);
}

#[test]
fn blank_board_is_not_unique() {
    let mut board = Sudoku::new();
    assert!(!board.is_unique_soln());
}

#[test]
fn board_without_solution_is_not_unique() {
    let mut board = without_solution();
    let before: Vec<u8> = board.get_grid();
    assert!(!board.is_unique_soln());
    assert_eq!(board.get_grid(), before);
}

#[test]
fn count_soln_counts_one_solution() {
    let mut board = filled(&PUZZLE);
    let mut count: u8 = 0;
    assert!(!board.count_soln(&mut count));
    assert_eq!(count, 1);
    assert_eq!(board.get_grid(), flat_of(&PUZZLE));
}

#[test]
fn count_soln_counts_none() {
    let mut board = without_solution();
    let mut count: u8 = 0;
    assert!(!board.count_soln(&mut count));
    assert_eq!(count, 0);
    let mut count: u8 = 1;
    assert!(!board.count_soln(&mut count));
    assert_eq!(count, 1);
    let mut count: u8 = 7;
    assert!(!board.count_soln(&mut count));
    assert_eq!(count, 7);
}

#[test]
fn count_soln_stops_at_two() {
    let mut board = Sudoku::new();
    let mut count: u8 = 0;
    assert!(board.count_soln(&mut count));
    assert_eq!(count, 2);
    assert_eq!(board.find_blank(), None);
}

#[test]
fn count_soln_on_a_full_grid_adds_one() {
    let mut board = filled(&SOLVED);
    let mut count: u8 = 0;
    assert!(!board.count_soln(&mut count));
    assert_eq!(count, 1);
    assert!(board.count_soln(&mut count));
    assert_eq!(count, 2);
    assert_eq!(board.get_grid(), flat_of(&SOLVED));
}

#[test]
fn count_soln_started_at_one_stops_at_the_first_solution() {
    let mut board = filled(&PUZZLE);
    let mut count: u8 = 1;
    assert!(board.count_soln(&mut count));
    assert_eq!(count, 2);
    assert_eq!(board.get_grid(), flat_of(&SOLVED));
    let mut board = Sudoku::new();
    let mut count: u8 = 5;
    assert!(board.count_soln(&mut count));
    assert_eq!(count, 6);
}
