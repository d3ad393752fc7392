use std::collections::HashSet;
use std::time::Duration;
use std::time::Instant;

use shdoku::Board;
use shdoku::Difficulty;
use shdoku::generate_sudoku;
use shdoku::is_solution;
use shdoku::solve_random;
use shdoku::valid_move;

#[test]
fn generated_sudoku_uniqueness() {
    let iterations = 100;
    let mut uniques: HashSet<Board> = HashSet::new();
    let mut total_time = Duration::new(0, 0);

    for i in 0..iterations {
        let inb4 = Instant::now();
        uniques.insert(generate_sudoku(Difficulty::Custom(0)));
        let dt = Instant::now() - inb4;
        total_time += dt;
        println!("iteration {: >5} took {:.5} s", i, dt.as_secs_f64());
    }

    println!(
        "total time taken to generate {} sudoku boards: {}",
        iterations,
        total_time.as_secs_f64()
    );

    assert!(
        uniques.len() == iterations,
        "expected {} generated sudokus to all be unique, but got {} duplicates.",
        iterations,
        iterations - uniques.len()
    );
}

#[test]
fn generated_sudoku_solvability_small() {
    let iterations = 20;

    for difficulty in [Difficulty::Easy, Difficulty::Mid, Difficulty::Hard, Difficulty::Expert] {
        for _ in 0..iterations {
            let mut sudoku = generate_sudoku(difficulty);
            solve_random(&mut sudoku).expect("Generated sudoku not solvable");
        }
    }
}

fn count_zeros(b: &Board) -> usize {
    b.iter().flatten().filter(|&&x| x == 0).count()
}

#[test]
fn removal_counts_match_difficulty() {
    assert_eq!(count_zeros(&generate_sudoku(Difficulty::Easy)), 31);
    assert_eq!(count_zeros(&generate_sudoku(Difficulty::Mid)), 39);
    assert_eq!(count_zeros(&generate_sudoku(Difficulty::Hard)), 49);
    assert_eq!(count_zeros(&generate_sudoku(Difficulty::Expert)), 61);
    assert_eq!(count_zeros(&generate_sudoku(Difficulty::Custom(0))), 0);
    assert_eq!(count_zeros(&generate_sudoku(Difficulty::Custom(7))), 7);
    assert_eq!(count_zeros(&generate_sudoku(Difficulty::Custom(81))), 81);
}

#[test]
fn removal_count_values() {
    assert_eq!(Difficulty::Easy.removal_count(), 31);
    assert_eq!(Difficulty::Mid.removal_count(), 39);
    assert_eq!(Difficulty::Hard.removal_count(), 49);
    assert_eq!(Difficulty::Expert.removal_count(), 61);
    assert_eq!(Difficulty::Custom(42).removal_count(), 42);
}

#[test]
fn solving_an_empty_board_succeeds() {
    let mut board: Board = [[0; 9]; 9];
    assert!(solve_random(&mut board).is_ok());
    assert!(is_solution(&board));
}

#[test]
fn solver_reports_unsolvable_and_leaves_board_unchanged() {
    // Row 0 holds 1..=7 in its first seven cells; the two cells below the
    // top-right corner hold 8 and 9. Cells (0,7) and (0,8) then need 8 and
    // 9, but both already sit in their block: no completion exists.
    let mut board: Board = [[0; 9]; 9];
    for c in 0..7 {
        board[0][c] = (c + 1) as u8;
    }
    board[1][7] = 8;
    board[1][8] = 9;
    let snapshot = board;
    assert!(solve_random(&mut board).is_err());
    assert_eq!(board, snapshot);
}

#[test]
fn valid_move_checks_row_column_and_block() {
    let mut board: Board = [[0; 9]; 9];
    board[4][4] = 5;
    // same row
    assert!(!valid_move(&board, 4, 8, 5));
    // same column
    assert!(!valid_move(&board, 0, 4, 5));
    // same block
    assert!(!valid_move(&board, 3, 3, 5));
    // unrelated cell
    assert!(valid_move(&board, 0, 0, 5));
    // different digit in the same row is fine
    assert!(valid_move(&board, 4, 8, 6));
    // the cell itself already holds 5
    assert!(!valid_move(&board, 4, 4, 5));
}

fn pattern_board() -> Board {
    let mut b: Board = [[0; 9]; 9];
    for r in 0..9 {
        for c in 0..9 {
            b[r][c] = ((3 * (r % 3) + r / 3 + c) % 9 + 1) as u8;
        }
    }
    b
}

#[test]
fn validator_accepts_a_solved_board() {
    assert!(is_solution(&pattern_board()));
}

#[test]
fn validator_rejects_a_row_duplicate() {
    // Entirely correct except one row repeats a 5.
    let mut b = pattern_board();
    let (mut five_col, mut other_col) = (0, 0);
    for c in 0..9 {
        if b[0][c] == 5 {
            five_col = c;
        } else {
            other_col = c;
        }
    }
    b[0][other_col] = b[0][five_col];
    assert!(!is_solution(&b));
}

#[test]
fn validator_rejects_an_empty_cell() {
    let mut b = pattern_board();
    b[8][8] = 0;
    assert!(!is_solution(&b));
}

#[test]
fn validator_rejects_an_out_of_range_cell() {
    let mut b = pattern_board();
    b[3][3] = 10;
    assert!(!is_solution(&b));
}

#[test]
fn validator_rejects_a_block_duplicate() {
    // Shifting each row by one keeps rows and columns duplicate-free but
    // breaks every block: the validator must not mistake that for solved.
    let mut b: Board = [[0; 9]; 9];
    for r in 0..9 {
        for c in 0..9 {
            b[r][c] = ((r + c) % 9 + 1) as u8;
        }
    }
    assert!(!is_solution(&b));
}

#[test]
fn generated_puzzle_is_a_subset_of_a_solution() {
    for difficulty in [Difficulty::Easy, Difficulty::Expert] {
        let puzzle = generate_sudoku(difficulty);
        let mut completed = puzzle;
        solve_random(&mut completed).expect("Generated sudoku not solvable");
        assert!(is_solution(&completed));
        for r in 0..9 {
            for c in 0..9 {
                assert!(puzzle[r][c] == 0 || puzzle[r][c] == completed[r][c]);
            }
        }
    }
}
