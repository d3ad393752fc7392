mod board;
mod clock;
mod generator;
mod model;
mod rng;
mod state;
mod validator;

pub use board::Board;
pub use board::board_matches;
pub use board::board_view;
pub use board::completable;
pub use board::consistent;
pub use board::digit_count;
pub use board::digit_count_below;
pub use board::empty_count;
pub use board::extends;
pub use board::grid_solved;
pub use board::in_range;
pub use board::is_full;
pub use board::lemma_completable_consistent;
pub use board::lemma_empty_count_clear;
pub use board::lemma_empty_count_fill;
pub use board::lemma_empty_count_full;
pub use board::lemma_extends_completable;
pub use board::lemma_solved_board_to_grid;
pub use board::placeable;
pub use board::same_unit;
pub use board::solved;
pub use board::zeros_below;

pub use generator::Difficulty;
pub use generator::block_scan_free;
pub use generator::cell_collected;
pub use generator::clamped_removal;
pub use generator::empty_pos;
pub use generator::generate_sudoku;
pub use generator::lemma_empty_board_completable;
pub use generator::lemma_pattern_solved;
pub use generator::no_completion_with;
pub use generator::pattern_grid;
pub use generator::solve_random;
pub use generator::valid_move;

pub use model::PlayerAct;
pub use model::StateModel;
pub use model::StepView;
pub use model::act_effective;
pub use model::act_tr;
pub use model::act_wf;
pub use model::acts_tr;
pub use model::acts_wf;
pub use model::all_effective;
pub use model::clear_unit_marks;
pub use model::colliding_marks;
pub use model::colliding_seq;
pub use model::delete_mark_tr;
pub use model::effective_only;
pub use model::grid_dims;
pub use model::grid_set;
pub use model::inv_step;
pub use model::inv_steps_rev;
pub use model::lemma_act_keeps_wf;
pub use model::lemma_clear_then_restore;
pub use model::lemma_colliding_contains;
pub use model::lemma_fresh_session_round_trip;
pub use model::lemma_grid_set_undo;
pub use model::lemma_marks_set_undo;
pub use model::lemma_new_action_invalidates_redo;
pub use model::lemma_restore_then_clear;
pub use model::lemma_undo_redo_round_trip;
pub use model::lemma_unit_enumeration;
pub use model::marks_dims;
pub use model::marks_set;
pub use model::mask_dims;
pub use model::model_wf;
pub use model::place_tr;
pub use model::redo_n;
pub use model::redo_tr;
pub use model::retract_tr;
pub use model::scanned;
pub use model::set_mark_tr;
pub use model::set_marks_at;
pub use model::step_of;
pub use model::step_wf;
pub use model::steps_wf;
pub use model::toggle_mark_tr;
pub use model::undo_n;
pub use model::undo_tr;

pub use state::DiffStep;
pub use state::DiffType;
pub use state::Dir;
pub use state::Mode;
pub use state::State;
pub use state::difficulty_label;
pub use state::difficulty_wf;
pub use state::digit_char;
pub use state::marks_view;
pub use state::mask_view;
pub use state::timer_char;
pub use state::timer_label;
pub use state::timer_mins_label;
pub use state::timer_secs_label;

pub use validator::is_solution;
