use sudoku::Sudoku;

const SOLVED: [[u8; 9]; 9] = [
    [5, 3, 4, 6, 7, 8, 9, 1, 2],
    [6, 7, 2, 1, 9, 5, 3, 4, 8],
    [1, 9, 8, 3, 4, 2, 5, 6, 7],
    [8, 5, 9, 7, 6, 1, 4, 2, 3],
    [4, 2, 6, 8, 5, 3, 7, 9, 1],
    [7, 1, 3, 9, 2, 4, 8, 5, 6],
    [9, 6, 1, 5, 3, 7, 2, 8, 4],
    [2, 8, 7, 4, 1, 9, 6, 3, 5],
    [3, 4, 5, 2, 8, 6, 1, 7, 9],
];

fn solved_board() -> Sudoku {
    let mut board = Sudoku::new();
    for r in 0..9usize {
        for c in 0..9usize {
            board.place_num(r, c, SOLVED[r][c], true);
        }
    }
    board
}

fn zeros(cells: &[u8]) -> usize {
    cells.iter().filter(|&&d| d == 0).count()
}

fn row_major() -> Vec<(usize, usize)> {
    let mut order: Vec<(usize, usize)> = Vec::new();
    for r in 0..9usize {
        for c in 0..9usize {
            order.push((r, c));
        }
    }
    order
}

#[test]
fn carving_no_holes_changes_nothing() {
    let mut board = solved_board();
    let before: Vec<u8> = board.get_grid();
    board.remove_num(0);
    assert_eq!(board.get_grid(), before);
    board.remove_num(3);
    let carved: Vec<u8> = board.get_grid();
    assert_eq!(zeros(&carved), 3);
    board.remove_num(0);
    assert_eq!(board.get_grid(), carved);
    board.carve_in_order(&row_major(), 0);
    assert_eq!(board.get_grid(), carved);
}

#[test]
fn carving_one_hole_blanks_one_cell() {
    let mut board = solved_board();
    let before: Vec<u8> = board.get_grid();
    board.remove_num(1);
    let after: Vec<u8> = board.get_grid();
    assert_eq!(zeros(&after), 1);
    for i in 0..81usize {
        assert!(after[i] == before[i] || after[i] == 0);
    }
}

#[test]
fn carving_forty_holes_end_to_end() {
    let mut board = Sudoku::new();
    assert!(board.gen());
    let solution: Vec<u8> = board.get_grid();
    board.remove_num(40);
    let puzzle: Vec<u8> = board.get_grid();
    assert_eq!(puzzle.len(), 81);
    let blanks: usize = zeros(&puzzle);
    assert!(blanks <= 40);
    assert_eq!(blanks, 40);
    for i in 0..81usize {
        assert!(puzzle[i] == 0 || puzzle[i] == solution[i]);
    }
    let mut copy = board.clone();
    assert!(copy.is_unique_soln());
    assert_eq!(copy.get_grid(), puzzle);
    assert!(board.gen());
    assert_eq!(board.get_grid(), solution);
}

#[test]
fn carving_keeps_the_puzzle_unique_at_every_target() {
    let mut board = Sudoku::new();
    assert!(board.gen());
    let solution: Vec<u8> = board.get_grid();
    let mut blanks_so_far: usize = 0;
    for _ in 0..8 {
        board.remove_num(5);
        let cells: Vec<u8> = board.get_grid();
        assert!(zeros(&cells) <= blanks_so_far + 5);
        assert!(zeros(&cells) >= blanks_so_far);
        blanks_so_far = zeros(&cells);
        let mut copy = board.clone();
        assert!(copy.is_unique_soln());
        let mut completed = board.clone();
        assert!(completed.gen());
        assert_eq!(completed.get_grid(), solution);
    }
}

#[test]
fn carving_orders_vary_between_runs() {
    let mut first_cells: Vec<usize> = Vec::new();
    for _ in 0..20 {
        let mut board = solved_board();
        board.remove_num(1);
        let cells: Vec<u8> = board.get_grid();
        let at: usize = cells.iter().position(|&d| d == 0).unwrap();
        first_cells.push(at);
    }
    assert!(first_cells.iter().any(|&at| at != first_cells[0]));
}

#[test]
fn carve_in_order_follows_the_order() {
    let mut board = solved_board();
    let order: Vec<(usize, usize)> = vec![(8, 8), (0, 0), (4, 4), (2, 7)];
    board.carve_in_order(&order, 3);
    let mut expected: Vec<u8> = solved_board().get_grid();
    expected[80] = 0;
    expected[0] = 0;
    expected[40] = 0;
    assert_eq!(board.get_grid(), expected);
    board.carve_in_order(&order, 4);
    expected[2 * 9 + 7] = 0;
    assert_eq!(board.get_grid(), expected);
}

#[test]
fn carve_in_order_skips_a_cell_that_must_stay() {
    let mut board = solved_board();
    let order: Vec<(usize, usize)> = vec![(0, 3), (0, 4), (3, 3), (3, 4), (8, 0)];
    board.carve_in_order(&order, 4);
    let mut expected: Vec<u8> = solved_board().get_grid();
    expected[3] = 0;
    expected[4] = 0;
    expected[3 * 9 + 3] = 0;
    expected[8 * 9] = 0;
    assert_eq!(board.get_grid(), expected);
    assert_eq!(board.digit_at(3, 4), 6);
    assert!(!board.is_safe(3, 0, 6));
}

#[test]
fn carve_in_order_stops_short_when_the_order_runs_out() {
    let mut board = solved_board();
    let order: Vec<(usize, usize)> = vec![(0, 3), (0, 4), (3, 3), (3, 4)];
    board.carve_in_order(&order, 10);
    assert_eq!(zeros(&board.get_grid()), 3);
    let none: Vec<(usize, usize)> = Vec::new();
    board.carve_in_order(&none, 10);
    assert_eq!(zeros(&board.get_grid()), 3);
}

#[test]
fn carve_in_order_counts_a_blank_cell_of_a_unique_board() {
    let mut board = solved_board();
    let order: Vec<(usize, usize)> = vec![(1, 1), (1, 1), (5, 5)];
    board.carve_in_order(&order, 2);
    let mut expected: Vec<u8> = solved_board().get_grid();
    expected[10] = 0;
    assert_eq!(board.get_grid(), expected);
}

#[test]
fn carve_in_order_is_a_function_of_the_order() {
    let order: Vec<(usize, usize)> = row_major();
    let mut first = solved_board();
    first.carve_in_order(&order, 30);
    let mut second = solved_board();
    second.carve_in_order(&order, 30);
    assert_eq!(first.get_grid(), second.get_grid());
    assert_eq!(zeros(&first.get_grid()), 30);
    let mut copy = first.clone();
    assert!(copy.is_unique_soln());
}

#[test]
fn carve_in_order_leaves_a_board_with_several_solutions_alone() {
    let mut board = Sudoku::new();
    board.place_num(0, 0, 1, true);
    board.place_num(5, 5, 2, true);
    let before: Vec<u8> = board.get_grid();
    let order: Vec<(usize, usize)> = vec![(0, 0), (5, 5), (3, 3)];
    board.carve_in_order(&order, 3);
    assert_eq!(board.get_grid(), before);
    assert!(!board.is_safe(0, 8, 1));
    assert!(!board.is_safe(4, 4, 2));
}

#[test]
fn try_remove_blanks_a_cell_of_a_full_grid() {
    let mut board = solved_board();
    assert!(board.try_remove(6, 2));
    assert_eq!(board.digit_at(6, 2), 0);
    assert!(board.is_safe(6, 2, 1));
    assert_eq!(zeros(&board.get_grid()), 1);
}

#[test]
fn try_remove_undoes_a_removal_that_loses_uniqueness() {
    let mut board = solved_board();
    assert!(board.try_remove(0, 3));
    assert!(board.try_remove(0, 4));
    assert!(board.try_remove(3, 3));
    let before: Vec<u8> = board.get_grid();
    assert!(!board.try_remove(3, 4));
    assert_eq!(board.get_grid(), before);
    assert_eq!(board.digit_at(3, 4), 6);
    assert!(!board.is_safe(3, 3, 6));
    assert!(!board.is_safe(0, 4, 6));
}

#[test]
fn try_remove_on_a_blank_cell_reports_uniqueness() {
    let mut board = solved_board();
    assert!(board.try_remove(2, 2));
    assert!(board.try_remove(2, 2));
    assert_eq!(zeros(&board.get_grid()), 1);
    let mut open = Sudoku::new();
    assert!(!open.try_remove(2, 2));
    assert_eq!(zeros(&open.get_grid()), 81);
}
