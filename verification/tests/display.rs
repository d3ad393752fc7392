use std::time::Instant;

use shdoku::Difficulty;
use shdoku::Mode;
use shdoku::State;

fn display_state() -> State {
    State {
        board: [[0; 9]; 9],
        modifiable: [[true; 9]; 9],
        markups: [[[false; 9]; 9]; 9],
        preselection: 1,
        cur_row: 0,
        cur_col: 0,
        mode: Mode::Edit,
        next_mode: Mode::Edit,
        difficulty: Difficulty::Easy,
        start_time: Instant::now(),
        undo_stack: Vec::new(),
        redo_stack: Vec::new(),
    }
}

#[test]
fn completion_string_counts_filled_cells() {
    let mut s = display_state();
    assert_eq!(s.get_completion_string(), "00");
    s.board[0][0] = 1;
    s.board[3][4] = 5;
    s.board[8][8] = 9;
    assert_eq!(s.get_completion_string(), "03");
    for r in 0..9 {
        for c in 0..9 {
            s.board[r][c] = 1;
        }
    }
    assert_eq!(s.get_completion_string(), "81");
}

#[test]
fn preselection_completion_counts_the_digit() {
    let mut s = display_state();
    s.preselection = 4;
    assert_eq!(s.get_preselection_completion_char(), '0');
    for c in 0..9 {
        s.board[4][c] = 4;
    }
    assert_eq!(s.get_preselection_completion_char(), '9');
    s.board[5][0] = 4;
    assert_eq!(s.get_preselection_completion_char(), '!');
}

#[test]
fn difficulty_strings_are_five_wide() {
    let mut s = display_state();
    assert_eq!(s.get_difficulty_string(), "Easy ");
    s.difficulty = Difficulty::Mid;
    assert_eq!(s.get_difficulty_string(), " Mid ");
    s.difficulty = Difficulty::Hard;
    assert_eq!(s.get_difficulty_string(), "Hard ");
    s.difficulty = Difficulty::Expert;
    assert_eq!(s.get_difficulty_string(), "Exprt");
    s.difficulty = Difficulty::Custom(7);
    assert_eq!(s.get_difficulty_string(), "C(07)");
    s.difficulty = Difficulty::Custom(81);
    assert_eq!(s.get_difficulty_string(), "C(81)");
}

#[test]
fn timer_strings_are_zero_padded() {
    assert_eq!(State::timer_strings_for(0), ("00".to_string(), "00".to_string()));
    assert_eq!(State::timer_strings_for(5), ("00".to_string(), "05".to_string()));
    assert_eq!(State::timer_strings_for(125), ("02".to_string(), "05".to_string()));
    assert_eq!(State::timer_strings_for(600), ("10".to_string(), "00".to_string()));
    assert_eq!(State::timer_strings_for(5999), ("99".to_string(), "59".to_string()));
}

#[test]
fn timer_string_joins_minutes_and_seconds() {
    assert_eq!(State::timer_string_for(0), "00:00");
    assert_eq!(State::timer_string_for(125), "02:05");
    assert_eq!(State::timer_string_for(3599), "59:59");
}

#[test]
fn live_timer_strings_have_timer_shape() {
    let s = display_state();
    let (mins, secs) = s.get_timer_strings();
    assert_eq!(mins.len(), 2);
    assert_eq!(secs.len(), 2);
    let t = s.get_timer_string();
    assert_eq!(t.len(), 5);
    assert_eq!(&t[2..3], ":");
}
