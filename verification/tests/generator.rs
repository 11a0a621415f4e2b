use sudoku::Sudoku;

fn is_complete_and_valid(cells: &[u8]) -> bool {
    if cells.len() != 81 {
        return false;
    }
    for line in 0..9usize {
        let mut in_row: [u32; 10] = [0; 10];
        let mut in_col: [u32; 10] = [0; 10];
        let mut in_box: [u32; 10] = [0; 10];
        for k in 0..9usize {
            let a: u8 = cells[line * 9 + k];
            let b: u8 = cells[k * 9 + line];
            let r: usize = (line / 3) * 3 + k / 3;
            let c: usize = (line % 3) * 3 + k % 3;
            let d: u8 = cells[r * 9 + c];
            if a == 0 || a > 9 || b == 0 || b > 9 || d == 0 || d > 9 {
                return false;
            }
            in_row[a as usize] += 1;
            in_col[b as usize] += 1;
            in_box[d as usize] += 1;
        }
        for digit in 1..=9usize {
            if in_row[digit] != 1 || in_col[digit] != 1 || in_box[digit] != 1 {
                return false;
            }
        }
    }
    true
}

fn stuck_board() -> Sudoku {
    let mut board = Sudoku::new();
    for c in 0..8usize {
        board.place_num(0, c, (c + 1) as u8, true);
    }
    board.place_num(1, 8, 9, true);
    board
}

#[test]
fn gen_fills_a_new_board() {
    let mut board = Sudoku::new();
    assert!(board.gen());
    let cells: Vec<u8> = board.get_grid();
    assert!(is_complete_and_valid(&cells));
    assert_eq!(board.find_blank(), None);
}

#[test]
fn generated_grids_hold_each_digit_once_per_line() {
    for _ in 0..10 {
        let mut board = Sudoku::new();
        assert!(board.gen());
        assert!(is_complete_and_valid(&board.get_grid()));
    }
}

#[test]
fn gen_keeps_the_digits_already_placed() {
    let mut board = Sudoku::new();
    board.place_num(0, 0, 9, true);
    board.place_num(4, 4, 1, true);
    board.place_num(8, 8, 5, true);
    board.place_num(8, 0, 2, true);
    assert!(board.gen());
    let cells: Vec<u8> = board.get_grid();
    assert!(is_complete_and_valid(&cells));
    assert_eq!(cells[0], 9);
    assert_eq!(cells[4 * 9 + 4], 1);
    assert_eq!(cells[80], 5);
    assert_eq!(cells[72], 2);
}

#[test]
fn gen_on_a_full_board_succeeds_and_changes_nothing() {
    let mut board = Sudoku::new();
    assert!(board.gen());
    let before: Vec<u8> = board.get_grid();
    assert!(board.gen());
    assert_eq!(board.get_grid(), before);
}

#[test]
fn gen_fails_on_a_board_without_solution_and_restores_it() {
    let mut board = stuck_board();
    let before: Vec<u8> = board.get_grid();
    assert!(!board.gen());
    assert_eq!(board.get_grid(), before);
    assert!(board.is_safe(0, 8, 9) == false);
    assert!(board.is_safe(5, 5, 9));
}

#[test]
fn gen_backtracks_out_of_a_dead_end() {
    let mut board = Sudoku::new();
    for c in 0..6usize {
        board.place_num(0, c, (c + 1) as u8, true);
    }
    board.place_num(3, 8, 7, true);
    board.place_num(4, 8, 8, true);
    assert!(board.gen());
    let cells: Vec<u8> = board.get_grid();
    assert!(is_complete_and_valid(&cells));
    assert_eq!(cells[8], 9);
    assert_eq!(&cells[0..6], &[1, 2, 3, 4, 5, 6]);
}

#[test]
fn gen_orders_vary_between_runs() {
    let mut first = Sudoku::new();
    assert!(first.gen());
    let reference: Vec<u8> = first.get_grid();
    let mut differs: bool = false;
    for _ in 0..20 {
        let mut board = Sudoku::new();
        assert!(board.gen());
        if board.get_grid() != reference {
            differs = true;
        }
    }
    assert!(differs);
}

#[test]
fn try_digits_places_the_first_digit_that_works() {
    let mut board = Sudoku::new();
    let order: Vec<u8> = vec![9, 8, 7, 6, 5, 4, 3, 2, 1];
    assert!(board.try_digits(0, 0, &order));
    let cells: Vec<u8> = board.get_grid();
    assert_eq!(cells[0], 9);
    assert!(is_complete_and_valid(&cells));
}

#[test]
fn try_digits_skips_digits_that_are_not_legal() {
    let mut board = Sudoku::new();
    board.place_num(0, 5, 4, true);
    board.place_num(6, 0, 2, true);
    board.place_num(1, 1, 7, true);
    let order: Vec<u8> = vec![4, 2, 7, 3, 1];
    assert!(board.try_digits(0, 0, &order));
    let cells: Vec<u8> = board.get_grid();
    assert_eq!(cells[0], 3);
    assert_eq!(cells[5], 4);
    assert_eq!(cells[54], 2);
    assert_eq!(cells[10], 7);
    assert!(is_complete_and_valid(&cells));
}

#[test]
fn try_digits_skips_a_legal_digit_that_leads_nowhere() {
    let mut board = Sudoku::new();
    for c in 1..8usize {
        board.place_num(0, c, (c + 1) as u8, true);
    }
    board.place_num(1, 8, 9, true);
    let order: Vec<u8> = vec![1, 9];
    assert!(board.is_safe(0, 0, 1));
    assert!(board.try_digits(0, 0, &order));
    let cells: Vec<u8> = board.get_grid();
    assert_eq!(cells[0], 9);
    assert_eq!(cells[8], 1);
    assert!(is_complete_and_valid(&cells));
}

#[test]
fn try_digits_fails_without_a_working_digit() {
    let mut board = Sudoku::new();
    board.place_num(0, 5, 4, true);
    let before: Vec<u8> = board.get_grid();
    let none: Vec<u8> = Vec::new();
    assert!(!board.try_digits(0, 0, &none));
    assert_eq!(board.get_grid(), before);
    let taken: Vec<u8> = vec![4, 4];
    assert!(!board.try_digits(0, 0, &taken));
    assert_eq!(board.get_grid(), before);
    assert!(board.is_safe(0, 0, 1));
}

#[test]
fn try_digits_with_one_order_gives_one_first_cell() {
    let order: Vec<u8> = vec![3, 1, 4, 5, 9, 2, 6, 8, 7];
    for _ in 0..5 {
        let mut board = Sudoku::new();
        assert!(board.try_digits(2, 6, &order));
        assert_eq!(board.digit_at(2, 6), 3);
    }
}
