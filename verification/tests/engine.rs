use std::time::Instant;

use shdoku::DiffStep;
use shdoku::DiffType;
use shdoku::Difficulty;
use shdoku::Dir;
use shdoku::Mode;
use shdoku::State;

fn blank_state() -> State {
    State {
        board: [[0; 9]; 9],
        modifiable: [[true; 9]; 9],
        markups: [[[false; 9]; 9]; 9],
        preselection: 1,
        cur_row: 0,
        cur_col: 0,
        mode: Mode::Edit,
        next_mode: Mode::Edit,
        difficulty: Difficulty::Custom(81),
        start_time: Instant::now(),
        undo_stack: Vec::new(),
        redo_stack: Vec::new(),
    }
}

#[test]
fn init_masks_exactly_the_blank_cells() {
    let s = State::init(Difficulty::Mid);
    let mut blanks = 0;
    for r in 0..9 {
        for c in 0..9 {
            assert_eq!(s.modifiable[r][c], s.board[r][c] == 0);
            if s.board[r][c] == 0 {
                blanks += 1;
            }
        }
    }
    assert_eq!(blanks, 39);
    assert_eq!(s.preselection, 1);
    assert_eq!((s.cur_row, s.cur_col), (4, 4));
    assert!(s.undo_stack.is_empty());
    assert!(s.redo_stack.is_empty());
}

#[test]
fn placing_a_digit_writes_the_cell_and_records_it() {
    let mut s = blank_state();
    s.preselect_num(3);
    s.move_cursor_to(2, 5);
    s.toggle_current_cell();
    assert_eq!(s.board[2][5], 3);
    assert_eq!(s.undo_stack.len(), 1);
    match &s.undo_stack[0] {
        DiffStep::Edit(from, pos, marks, to) => {
            assert_eq!((*from, *pos, *to), (0, (2, 5), 3));
            assert!(marks.is_empty());
        }
        _ => panic!("expected an edit step"),
    }
}

#[test]
fn placing_the_preselected_digit_again_retracts_it() {
    let mut s = blank_state();
    s.preselect_num(3);
    s.toggle_current_cell();
    assert_eq!(s.board[0][0], 3);
    s.toggle_current_cell();
    assert_eq!(s.board[0][0], 0);
    assert_eq!(s.undo_stack.len(), 2);
}

#[test]
fn cascade_clear_records_exactly_the_cleared_marks() {
    // Mark 7 at (0,5) in the same row, (5,0) in the same column, and
    // (1,1) in the same block, then place 7 at (0,0).
    let mut s = blank_state();
    s.markups[0][5][6] = true;
    s.markups[5][0][6] = true;
    s.markups[1][1][6] = true;
    s.preselect_num(7);
    s.move_cursor_to(0, 0);
    s.toggle_current_cell();

    assert_eq!(s.board[0][0], 7);
    assert!(!s.markups[0][5][6]);
    assert!(!s.markups[5][0][6]);
    assert!(!s.markups[1][1][6]);
    assert_eq!(s.undo_stack.len(), 1);
    match &s.undo_stack[0] {
        DiffStep::Edit(from, pos, marks, to) => {
            assert_eq!((*from, *pos, *to), (0, (0, 0), 7));
            assert_eq!(marks.as_slice(), &[(1, 1), (5, 0), (0, 5)]);
        }
        _ => panic!("expected an edit step"),
    }

    s.undo();
    assert_eq!(s.board[0][0], 0);
    assert!(s.markups[0][5][6]);
    assert!(s.markups[5][0][6]);
    assert!(s.markups[1][1][6]);
}

#[test]
fn cascade_clear_spares_unrelated_marks() {
    let mut s = blank_state();
    // A mark for a different digit at a colliding cell, and a mark for the
    // same digit outside the scanned units.
    s.markups[0][5][4] = true;
    s.markups[5][5][6] = true;
    s.preselect_num(7);
    s.toggle_current_cell();
    assert!(s.markups[0][5][4]);
    assert!(s.markups[5][5][6]);
}

#[test]
fn undo_redo_round_trip_restores_both_states() {
    let mut s = blank_state();

    // A run of placements, a retraction, and mark toggles.
    s.preselect_num(4);
    s.move_cursor_to(1, 1);
    s.toggle_current_cell();
    s.preselect_num(9);
    s.move_cursor_to(8, 0);
    s.toggle_current_mark();
    s.move_cursor_to(1, 1);
    s.toggle_current_cell(); // retract the 4 again
    s.preselect_num(2);
    s.move_cursor_to(7, 7);
    s.toggle_current_cell();
    s.move_cursor_to(8, 0);
    s.preselect_num(9);
    s.toggle_current_mark(); // toggle the mark off again
    let actions = 5;

    let post_board = s.board;
    let post_marks = s.markups;
    assert_eq!(s.undo_stack.len(), actions);

    for _ in 0..actions {
        s.undo();
    }
    assert_eq!(s.board, [[0; 9]; 9]);
    assert_eq!(s.markups, [[[false; 9]; 9]; 9]);
    assert!(s.undo_stack.is_empty());

    for _ in 0..actions {
        s.redo();
    }
    assert_eq!(s.board, post_board);
    assert_eq!(s.markups, post_marks);
    assert_eq!(s.undo_stack.len(), actions);
    assert!(s.redo_stack.is_empty());
}

#[test]
fn undo_and_redo_on_empty_stacks_do_nothing() {
    let mut s = blank_state();
    s.undo();
    s.redo();
    assert_eq!(s.board, [[0; 9]; 9]);
    assert!(s.undo_stack.is_empty());
    assert!(s.redo_stack.is_empty());
}

#[test]
fn a_new_action_invalidates_the_redo_stack() {
    let mut s = blank_state();
    s.preselect_num(5);
    s.toggle_current_cell();
    s.undo();
    assert_eq!(s.redo_stack.len(), 1);

    s.move_cursor_to(3, 3);
    s.preselect_num(6);
    s.toggle_current_cell();
    assert!(s.redo_stack.is_empty());

    // A redo now must change nothing.
    let board = s.board;
    let marks = s.markups;
    let undos = s.undo_stack.len();
    s.redo();
    assert_eq!(s.board, board);
    assert_eq!(s.markups, marks);
    assert_eq!(s.undo_stack.len(), undos);
}

#[test]
fn locked_cells_ignore_placement_and_retraction() {
    let mut s = blank_state();
    s.board[4][4] = 8;
    s.modifiable[4][4] = false;
    s.move_cursor_to(4, 4);
    s.preselect_num(2);
    s.toggle_current_cell();
    assert_eq!(s.board[4][4], 8);
    assert!(s.undo_stack.is_empty());
    s.delete_current_cell();
    assert_eq!(s.board[4][4], 8);
    assert!(s.undo_stack.is_empty());
}

#[test]
fn marks_on_filled_cells_are_a_no_op() {
    let mut s = blank_state();
    s.board[0][0] = 5;
    s.preselect_num(5);
    s.toggle_current_mark();
    assert!(!s.markups[0][0][4]);
    assert!(s.undo_stack.is_empty());
}

#[test]
fn toggling_a_mark_flips_it_both_ways() {
    let mut s = blank_state();
    s.preselect_num(9);
    s.toggle_current_mark();
    assert!(s.markups[0][0][8]);
    s.toggle_current_mark();
    assert!(!s.markups[0][0][8]);
    assert_eq!(s.undo_stack.len(), 2);
}

#[test]
fn cursor_moves_wrap_around_the_board() {
    let mut s = blank_state();
    s.move_cursor_to(0, 0);
    s.move_cursor(Dir::Left);
    assert_eq!((s.cur_row, s.cur_col), (0, 8));
    s.move_cursor(Dir::Right);
    assert_eq!((s.cur_row, s.cur_col), (0, 0));
    s.move_cursor(Dir::Up);
    assert_eq!((s.cur_row, s.cur_col), (8, 0));
    s.move_cursor(Dir::Down);
    assert_eq!((s.cur_row, s.cur_col), (0, 0));
    s.move_cursor(Dir::FarRight);
    assert_eq!((s.cur_row, s.cur_col), (0, 3));
    s.move_cursor(Dir::FarDown);
    assert_eq!((s.cur_row, s.cur_col), (3, 3));
    s.move_cursor(Dir::FarLeft);
    assert_eq!((s.cur_row, s.cur_col), (3, 0));
    s.move_cursor(Dir::FarUp);
    assert_eq!((s.cur_row, s.cur_col), (0, 0));
}

#[test]
fn one_shot_modes_remember_the_previous_mode() {
    let mut s = blank_state();
    assert_eq!(s.mode, Mode::Edit);

    s.enter_mode(Mode::Markup);
    assert_eq!(s.mode, Mode::Markup);
    assert_eq!(s.next_mode, Mode::Markup);

    s.enter_mode(Mode::Go);
    assert_eq!(s.mode, Mode::Go);
    assert_eq!(s.next_mode, Mode::Markup);
    s.enter_next_mode();
    assert_eq!(s.mode, Mode::Markup);

    s.enter_mode_once(Mode::Edit);
    assert_eq!(s.mode, Mode::Edit);
    assert_eq!(s.next_mode, Mode::Markup);
    s.enter_next_mode();
    assert_eq!(s.mode, Mode::Markup);

    // Entering the mode already held is not remembered as a switch.
    s.enter_mode_once(Mode::Markup);
    assert_eq!(s.mode, Mode::Markup);
    assert_eq!(s.next_mode, Mode::Markup);
}

#[test]
fn apply_diff_replays_in_both_directions() {
    let mut s = blank_state();
    s.preselect_num(8);
    s.toggle_current_cell();
    s.apply_diff(DiffType::Undo);
    assert_eq!(s.board[0][0], 0);
    assert_eq!(s.redo_stack.len(), 1);
    s.apply_diff(DiffType::Redo);
    assert_eq!(s.board[0][0], 8);
    assert_eq!(s.undo_stack.len(), 1);
    assert!(s.redo_stack.is_empty());
}

#[test]
fn overwriting_a_placement_undoes_back_to_the_old_digit() {
    let mut s = blank_state();
    s.preselect_num(3);
    s.toggle_current_cell();
    s.preselect_num(5);
    s.toggle_current_cell();
    assert_eq!(s.board[0][0], 5);
    s.undo();
    assert_eq!(s.board[0][0], 3);
    s.undo();
    assert_eq!(s.board[0][0], 0);
}

#[test]
fn retracting_an_empty_cell_still_records_a_step() {
    let mut s = blank_state();
    s.delete_current_cell();
    assert_eq!(s.board[0][0], 0);
    assert_eq!(s.undo_stack.len(), 1);
    match &s.undo_stack[0] {
        DiffStep::Edit(from, pos, marks, to) => {
            assert_eq!((*from, *pos, *to), (0, (0, 0), 0));
            assert!(marks.is_empty());
        }
        _ => panic!("expected an edit step"),
    }
}

#[test]
fn current_cell_queries_follow_the_cursor() {
    let mut s = blank_state();
    s.board[6][2] = 4;
    s.modifiable[6][2] = false;
    s.move_cursor_to(6, 2);
    assert_eq!(s.current_cell(), 4);
    assert!(!s.current_cell_is_modifiable());
    s.move_cursor_to(6, 3);
    assert_eq!(s.current_cell(), 0);
    assert!(s.current_cell_is_modifiable());
}
