use vstd::prelude::*;

use crate::board::Board;
use crate::board::board_view;
use crate::board::completable;
use crate::board::digit_count;
use crate::board::digit_count_below;
use crate::board::empty_count;
use crate::board::in_range;
use crate::board::zeros_below;
use crate::clock::now_instant;
use crate::generator::Difficulty;
use crate::generator::clamped_removal;
use crate::generator::generate_sudoku;
use crate::model::StateModel;
use crate::model::StepView;
use crate::model::clear_unit_marks;
use crate::model::colliding_marks;
use crate::model::colliding_seq;
use crate::model::delete_mark_tr;
use crate::model::grid_set;
use crate::model::lemma_colliding_bounds;
use crate::model::lemma_unit_enumeration;
use crate::model::marks_set;
use crate::model::model_wf;
use crate::model::place_tr;
use crate::model::redo_tr;
use crate::model::retract_tr;
use crate::model::scanned;
use crate::model::set_mark_tr;
use crate::model::set_marks_at;
use crate::model::step_wf;
use crate::model::toggle_mark_tr;
use crate::model::undo_tr;

verus! {

/// A cursor movement: one cell, or one 3x3 block, in each direction.
pub enum Dir {
    Up,
    Down,
    Left,
    Right,
    FarUp,
    FarDown,
    FarLeft,
    FarRight,
}

/// The input mode: placing digits, annotating candidates, or jumping to a
/// block (always one-shot).
#[derive(Debug, Clone, Copy, PartialEq, Eq, Structural)]
pub enum Mode {
    Edit,
    Markup,
    Go,
}

/// A recorded, invertible user action.
///
/// `Edit(num, position, affected_mark_positions, new_num)` records the cell
/// at `position` changing from `num` to `new_num`; when `new_num` is a
/// digit, `affected_mark_positions` lists every position whose mark for
/// `new_num` the placement cleared. `Mark(num, position, mark)` records one
/// annotation toggle whose mark read `mark` before it.
#[derive(Debug)]
pub enum DiffStep {
    Edit(u8, (usize, usize), Vec<(usize, usize)>, u8),
    Mark(u8, (usize, usize), bool),
}

/// Which direction a recorded step is replayed in.
#[derive(Debug, Clone, Copy, PartialEq, Eq, Structural)]
pub enum DiffType {
    Undo,
    Redo,
}

impl View for DiffStep {
    type V = StepView;

    open spec fn view(&self) -> StepView {
        match self {
            DiffStep::Edit(from, pos, mk, to) => StepView::Edit(*from, *pos, mk@, *to),
            DiffStep::Mark(num, pos, was) => StepView::Mark(*num, *pos, *was),
        }
    }
}

/// The view of the modifiable mask as a sequence of rows.
pub open spec fn mask_view(m: [[bool; 9]; 9]) -> Seq<Seq<bool>> {
    Seq::new(9, |r: int| Seq::new(9, |c: int| m[r][c]))
}

/// The view of the annotation cube as nested sequences.
pub open spec fn marks_view(m: [[[bool; 9]; 9]; 9]) -> Seq<Seq<Seq<bool>>> {
    Seq::new(9, |r: int| Seq::new(9, |c: int| Seq::new(9, |k: int| m[r][c][k])))
}

/// A difficulty asks to remove at most the 81 cells the board has.
pub open spec fn difficulty_wf(d: Difficulty) -> bool {
    match d {
        Difficulty::Custom(x) => x <= 81,
        _ => true,
    }
}

pub assume_specification[ String::push ](s: &mut String, ch: char)
    ensures
        final(s)@ == old(s)@.push(ch),
;

/// A board changed at one cell, seen as a grid, is the grid updated there.
proof fn lemma_board_view_set(a: Board, b: Board, r: int, c: int)
    requires
        0 <= r < 9,
        0 <= c < 9,
        forall|r2: int, c2: int|
            0 <= r2 < 9 && 0 <= c2 < 9 && !(r2 == r && c2 == c) ==> #[trigger] b[r2][c2]
                == a[r2][c2],
    ensures
        board_view(b) == grid_set(board_view(a), r, c, b[r][c]),
{
    let lhs = board_view(b);
    let rhs = grid_set(board_view(a), r, c, b[r][c]);
    assert forall|r2: int| 0 <= r2 < 9 implies lhs[r2] =~= rhs[r2] by {}
    assert(lhs =~~= rhs);
}

/// A marks cube changed at one mark, seen as sequences, is the mark set.
proof fn lemma_marks_view_set(a: [[[bool; 9]; 9]; 9], b: [[[bool; 9]; 9]; 9], r: int, c: int, k: int)
    requires
        0 <= r < 9,
        0 <= c < 9,
        0 <= k < 9,
        forall|r2: int, c2: int, k2: int|
            0 <= r2 < 9 && 0 <= c2 < 9 && 0 <= k2 < 9 && !(r2 == r && c2 == c && k2 == k)
                ==> #[trigger] b[r2][c2][k2] == a[r2][c2][k2],
    ensures
        marks_view(b) == marks_set(marks_view(a), r, c, k, b[r][c][k]),
{
    let lhs = marks_view(b);
    let rhs = marks_set(marks_view(a), r, c, k, b[r][c][k]);
    assert forall|r2: int| 0 <= r2 < 9 implies lhs[r2] =~~= rhs[r2] by {
        assert forall|c2: int| 0 <= c2 < 9 implies lhs[r2][c2] =~= rhs[r2][c2] by {}
    }
    assert(lhs =~~= rhs);
}

/// Pushing onto a stack of steps pushes the step's image onto its view.
proof fn lemma_steps_view_push(v: Seq<DiffStep>, x: DiffStep)
    ensures
        v.push(x).map_values(|s: DiffStep| s@) == v.map_values(|s: DiffStep| s@).push(x@),
{
    assert(v.push(x).map_values(|s: DiffStep| s@) =~= v.map_values(|s: DiffStep| s@).push(x@));
}

/// Dropping a stack's last step drops the last image of its view.
proof fn lemma_steps_view_drop(v: Seq<DiffStep>)
    requires
        v.len() > 0,
    ensures
        v.drop_last().map_values(|s: DiffStep| s@) == v.map_values(|s: DiffStep| s@).drop_last(),
        v.map_values(|s: DiffStep| s@).last() == v.last()@,
{
    assert(v.drop_last().map_values(|s: DiffStep| s@) =~= v.map_values(
        |s: DiffStep| s@,
    ).drop_last());
}

/// The entire game logic state.
pub struct State {
    pub board: Board,
    pub modifiable: [[bool; 9]; 9],
    pub markups: [[[bool; 9]; 9]; 9],
    pub preselection: u8,
    pub cur_row: usize,
    pub cur_col: usize,
    pub mode: Mode,
    pub next_mode: Mode,
    pub difficulty: Difficulty,
    pub start_time: std::time::Instant,
    pub undo_stack: Vec<DiffStep>,
    pub redo_stack: Vec<DiffStep>,
}

impl State {
    /// The ghost image of the mutable parts of the state: board, marks and
    /// the two stacks of recorded steps.
    pub open spec fn model(self) -> StateModel {
        StateModel {
            board: board_view(self.board),
            marks: marks_view(self.markups),
            undos: self.undo_stack@.map_values(|s: DiffStep| s@),
            redos: self.redo_stack@.map_values(|s: DiffStep| s@),
        }
    }

    /// Well-formedness: the cursor names a cell, a digit is preselected,
    /// every board cell is in 0..=9, and every recorded step speaks of
    /// in-range cells and digits.
    pub open spec fn wf(self) -> bool {
        &&& self.cur_row < 9
        &&& self.cur_col < 9
        &&& 1 <= self.preselection <= 9
        &&& in_range(self.board)
        &&& difficulty_wf(self.difficulty)
        &&& model_wf(self.model())
    }

    /// The cursor, selection, modes, mask, difficulty and clock of `b` are
    /// those of `a`.
    pub open spec fn same_frame(a: State, b: State) -> bool {
        &&& b.modifiable == a.modifiable
        &&& b.preselection == a.preselection
        &&& b.cur_row == a.cur_row
        &&& b.cur_col == a.cur_col
        &&& b.mode == a.mode
        &&& b.next_mode == a.next_mode
        &&& b.difficulty == a.difficulty
        &&& b.start_time == a.start_time
    }

    /// Returns a boolean mask of the board, true exactly where the cell
    /// holds 0, marking the cells the user may modify.
    fn init_modifiables(board: &Board) -> (m: [[bool; 9]; 9])
        ensures
            forall|r: int, c: int|
                0 <= r < 9 && 0 <= c < 9 ==> (#[trigger] m[r][c] <==> board[r][c] == 0),
    {
        let mut m = [[false; 9]; 9];
        for r in 0..9usize
            invariant
                forall|r2: int, c2: int|
                    0 <= r2 < r && 0 <= c2 < 9 ==> (#[trigger] m[r2][c2] <==> board[r2][c2]
                        == 0),
                forall|r2: int, c2: int|
                    r <= r2 < 9 && 0 <= c2 < 9 ==> #[trigger] m[r2][c2] == false,
        {
            for c in 0..9usize
                invariant
                    r < 9,
                    forall|r2: int, c2: int|
                        0 <= r2 < r && 0 <= c2 < 9 ==> (#[trigger] m[r2][c2] <==> board[r2][c2]
                            == 0),
                    forall|c2: int|
                        0 <= c2 < c ==> (#[trigger] m[r as int][c2] <==> board[r as int][c2]
                            == 0),
                    forall|c2: int| c <= c2 < 9 ==> #[trigger] m[r as int][c2] == false,
                    forall|r2: int, c2: int|
                        r < r2 < 9 && 0 <= c2 < 9 ==> #[trigger] m[r2][c2] == false,
            {
                if board[r][c] == 0 {
                    m[r][c] = true;
                }
            }
        }
        m
    }

    /// Returns a new `State` holding a freshly generated sudoku board of
    /// the provided `Difficulty`, its modifiable mask derived as "true
    /// where the generated cell is blank", no marks, no history, the
    /// cursor on the center cell, and digit 1 preselected.
    pub fn init(difficulty: Difficulty) -> (s: Self)
        requires
            difficulty_wf(difficulty),
        ensures
            s.wf(),
            completable(s.board),
            crate::board::consistent(s.board),
            empty_count(s.board) == clamped_removal(difficulty),
            forall|r: int, c: int|
                0 <= r < 9 && 0 <= c < 9 ==> (#[trigger] s.modifiable[r][c] <==> s.board[r][c]
                    == 0),
            forall|r: int, c: int, k: int|
                0 <= r < 9 && 0 <= c < 9 && 0 <= k < 9 ==> !(#[trigger] s.model().marks[r][c][k]),
            s.model().undos.len() == 0,
            s.model().redos.len() == 0,
            s.preselection == 1,
            s.cur_row == 4,
            s.cur_col == 4,
            s.mode == Mode::Edit,
            s.next_mode == Mode::Edit,
            s.difficulty == difficulty,
    {
        let board = generate_sudoku(difficulty);
        let modifiable = State::init_modifiables(&board);
        let s = State {
            board,
            modifiable,
            markups: [[[false; 9]; 9]; 9],
            preselection: 1,
            cur_row: 4,
            cur_col: 4,
            mode: Mode::Edit,
            next_mode: Mode::Edit,
            difficulty,
            start_time: now_instant(),
            undo_stack: Vec::new(),
            redo_stack: Vec::new(),
        };
        s
    }

    /// Whether the cell under the cursor may be modified by the user.
    pub fn current_cell_is_modifiable(&self) -> (r: bool)
        requires
            self.wf(),
        ensures
            r == self.modifiable[self.cur_row as int][self.cur_col as int],
    {
        self.modifiable[self.cur_row][self.cur_col]
    }

    /// The number contained in the cell under the cursor.
    pub fn current_cell(&self) -> (n: u8)
        requires
            self.wf(),
        ensures
            n == self.board[self.cur_row as int][self.cur_col as int],
    {
        self.board[self.cur_row][self.cur_col]
    }

    /// The column after moving from `col` in the given direction, wrapping
    /// around the board; `Far` variants move by a block.
    pub open spec fn col_after(col: int, direction: Dir) -> int {
        if direction is Left {
            (col + 8) % 9
        } else if direction is Right {
            (col + 1) % 9
        } else if direction is FarLeft {
            (col + 6) % 9
        } else if direction is FarRight {
            (col + 3) % 9
        } else {
            col
        }
    }

    /// The row after moving from `row` in the given direction.
    pub open spec fn row_after(row: int, direction: Dir) -> int {
        if direction is Up {
            (row + 8) % 9
        } else if direction is Down {
            (row + 1) % 9
        } else if direction is FarUp {
            (row + 6) % 9
        } else if direction is FarDown {
            (row + 3) % 9
        } else {
            row
        }
    }

    /// Move the cursor one cell, or one block, wrapping around the board.
    pub fn move_cursor(&mut self, direction: Dir)
        requires
            old(self).wf(),
        ensures
            final(self).wf(),
            final(self).cur_col == State::col_after(old(self).cur_col as int, direction),
            final(self).cur_row == State::row_after(old(self).cur_row as int, direction),
            final(self).board == old(self).board,
            final(self).markups == old(self).markups,
            final(self).modifiable == old(self).modifiable,
            final(self).preselection == old(self).preselection,
            final(self).mode == old(self).mode,
            final(self).next_mode == old(self).next_mode,
            final(self).difficulty == old(self).difficulty,
            final(self).start_time == old(self).start_time,
            final(self).undo_stack == old(self).undo_stack,
            final(self).redo_stack == old(self).redo_stack,
    {
        self.cur_col = match direction {
            Dir::Left => (self.cur_col + 8) % 9,
            Dir::Right => (self.cur_col + 1) % 9,
            Dir::FarLeft => (self.cur_col + 6) % 9,
            Dir::FarRight => (self.cur_col + 3) % 9,
            _ => self.cur_col,
        };
        self.cur_row = match direction {
            Dir::Up => (self.cur_row + 8) % 9,
            Dir::Down => (self.cur_row + 1) % 9,
            Dir::FarUp => (self.cur_row + 6) % 9,
            Dir::FarDown => (self.cur_row + 3) % 9,
            _ => self.cur_row,
        };
    }

    /// Preselect the digit that subsequent placements and annotations use.
    pub fn preselect_num(&mut self, num: u8)
        requires
            old(self).wf(),
            1 <= num <= 9,
        ensures
            final(self).wf(),
            final(self).preselection == num,
            *final(self) == (State { preselection: num, ..*old(self) }),
    {
        self.preselection = num;
    }

    /// Move the cursor to the given cell. Callers only ever produce
    /// in-range coordinates; out-of-range ones are a programming error.
    pub fn move_cursor_to(&mut self, row: usize, col: usize)
        requires
            old(self).wf(),
            row < 9,
            col < 9,
        ensures
            final(self).wf(),
            *final(self) == (State { cur_row: row, cur_col: col, ..*old(self) }),
    {
        self.cur_row = row;
        self.cur_col = col;
    }

    /// Switch to the given mode and make it sticky, except `Go`, which is
    /// always one-shot.
    pub fn enter_mode(&mut self, mode: Mode)
        requires
            old(self).wf(),
        ensures
            final(self).wf(),
            mode is Go ==> *final(self) == (if old(self).mode != mode {
                (State { next_mode: old(self).mode, mode, ..*old(self) })
            } else {
                *old(self)
            }),
            (!(mode is Go)) ==> *final(self) == (State { mode, next_mode: mode, ..*old(self) }),
    {
        match mode {
            Mode::Go => {
                self.enter_mode_once(mode);
                return ;
            },
            Mode::Edit => {
                self.mode = Mode::Edit;
            },
            Mode::Markup => {
                self.mode = Mode::Markup;
            },
        }
        self.next_mode = self.mode;
    }

    /// Enter a mode until one action has been taken, remembering the mode
    /// to return to afterwards.
    pub fn enter_mode_once(&mut self, mode: Mode)
        requires
            old(self).wf(),
        ensures
            final(self).wf(),
            *final(self) == (if old(self).mode != mode {
                (State { next_mode: old(self).mode, mode, ..*old(self) })
            } else {
                *old(self)
            }),
    {
        if self.mode != mode {
            self.next_mode = self.mode;
            self.mode = mode;
        }
    }

    /// Return to the remembered mode after a one-shot action.
    pub fn enter_next_mode(&mut self)
        requires
            old(self).wf(),
        ensures
            final(self).wf(),
            *final(self) == (State { mode: old(self).next_mode, ..*old(self) }),
    {
        self.mode = self.next_mode;
    }

    /// Record a move done by the player on the undo stack, invalidating
    /// the redo stack: a new edit makes the undone future unreachable.
    pub fn push_to_undos_invalidating_redos(&mut self, undo_step: DiffStep)
        requires
            old(self).wf(),
            step_wf(undo_step@),
        ensures
            final(self).wf(),
            State::same_frame(*old(self), *final(self)),
            final(self).board == old(self).board,
            final(self).markups == old(self).markups,
            final(self).model().undos == old(self).model().undos.push(undo_step@),
            final(self).model().redos == Seq::<StepView>::empty(),
    {
        let ghost pre = self.undo_stack@;
        self.undo_stack.push(undo_step);
        self.redo_stack.clear();
        proof {
            lemma_steps_view_push(pre, undo_step);
            assert(self.redo_stack@.map_values(|s: DiffStep| s@) =~= Seq::<StepView>::empty());
        }
    }

    /// Delete all marks of `num` in the row, column and block of the given
    /// cell, recording every position whose mark was set, in scan order,
    /// duplicates included. Used to remove marks a placement invalidates.
    #[verifier::rlimit(60)]
    pub fn delete_colliding_marks(&mut self, num: u8, row: usize, col: usize) -> (deleted: Vec<
        (usize, usize),
    >)
        requires
            old(self).wf(),
            1 <= num <= 9,
            row < 9,
            col < 9,
        ensures
            final(self).wf(),
            State::same_frame(*old(self), *final(self)),
            final(self).board == old(self).board,
            final(self).undo_stack == old(self).undo_stack,
            final(self).redo_stack == old(self).redo_stack,
            deleted@ == colliding_marks(
                marks_view(old(self).markups),
                num,
                row as int,
                col as int,
            ),
            marks_view(final(self).markups) == clear_unit_marks(
                marks_view(old(self).markups),
                num,
                row as int,
                col as int,
            ),
    {
        let ghost mv0 = marks_view(self.markups);
        let mut deleted: Vec<(usize, usize)> = Vec::new();
        let ki = (num - 1) as usize;
        let base_r = row / 3 * 3;
        let base_c = col / 3 * 3;
        for i in 0..9usize
            invariant
                *self == *old(self),
                1 <= num <= 9,
                row < 9,
                col < 9,
                ki == num - 1,
                base_r == (row as int) / 3 * 3,
                base_c == (col as int) / 3 * 3,
                mv0 == marks_view(self.markups),
                deleted@ == colliding_seq(mv0, num, row as int, col as int, i as int),
        {
            proof {
                assert(0 <= (i as int) / 3 < 3 && 0 <= (i as int) % 3 < 3 && base_r + (i as int)
                    / 3 < 9 && base_c + (i as int) % 3 < 9) by (nonlinear_arith)
                    requires
                        0 <= i < 9 && base_r == (row as int) / 3 * 3 && base_c == (col as int) / 3
                            * 3 && row < 9 && col < 9,
                ;
            }
            if self.markups[i][col][ki] {
                deleted.push((i, col));
            }
            if self.markups[row][i][ki] {
                deleted.push((row, i));
            }
            if self.markups[base_r + i / 3][base_c + i % 3][ki] {
                deleted.push((base_r + i / 3, base_c + i % 3));
            }
            proof {
                assert(deleted@ =~= colliding_seq(mv0, num, row as int, col as int, i + 1));
            }
        }
        for i in 0..9usize
            invariant
                State::same_frame(*old(self), *self),
                self.board == old(self).board,
                self.undo_stack == old(self).undo_stack,
                self.redo_stack == old(self).redo_stack,
                1 <= num <= 9,
                row < 9,
                col < 9,
                ki == num - 1,
                base_r == (row as int) / 3 * 3,
                base_c == (col as int) / 3 * 3,
                mv0 == marks_view(old(self).markups),
                deleted@ == colliding_marks(mv0, num, row as int, col as int),
                forall|r2: int, c2: int, k2: int|
                    0 <= r2 < 9 && 0 <= c2 < 9 && 0 <= k2 < 9
                        ==> #[trigger] self.markups[r2][c2][k2] == (if k2 == num - 1 && (
                    exists|j: int| 0 <= j < i && scanned(row as int, col as int, j, r2, c2)) {
                        false
                    } else {
                        mv0[r2][c2][k2]
                    }),
        {
            proof {
                assert(0 <= (i as int) / 3 < 3 && 0 <= (i as int) % 3 < 3 && base_r + (i as int)
                    / 3 < 9 && base_c + (i as int) % 3 < 9) by (nonlinear_arith)
                    requires
                        0 <= i < 9 && base_r == (row as int) / 3 * 3 && base_c == (col as int) / 3
                            * 3 && row < 9 && col < 9,
                ;
            }
            let ghost pre = self.markups;
            self.markups[i][col][ki] = false;
            self.markups[row][i][ki] = false;
            self.markups[base_r + i / 3][base_c + i % 3][ki] = false;
            proof {
                assert forall|r2: int, c2: int, k2: int|
                    0 <= r2 < 9 && 0 <= c2 < 9 && 0 <= k2 < 9 implies #[trigger] self
                    .markups[r2][c2][k2] == (if k2 == num - 1 && (exists|j: int|
                    0 <= j < i + 1 && scanned(row as int, col as int, j, r2, c2)) {
                    false
                } else {
                    mv0[r2][c2][k2]
                }) by {
                    if k2 == num - 1 && scanned(row as int, col as int, i as int, r2, c2) {
                        assert(self.markups[r2][c2][k2] == false);
                    } else if self.markups[r2][c2][k2] == pre[r2][c2][k2] {
                        if k2 == num - 1 && (exists|j: int|
                            0 <= j < i + 1 && scanned(row as int, col as int, j, r2, c2)) {
                            let j = choose|j: int|
                                0 <= j < i + 1 && scanned(row as int, col as int, j, r2, c2);
                            assert(0 <= j < i);
                        }
                    }
                }
            }
        }
        proof {
            let after = marks_view(self.markups);
            let want = clear_unit_marks(mv0, num, row as int, col as int);
            assert forall|r2: int| 0 <= r2 < 9 implies after[r2] =~~= want[r2] by {
                assert forall|c2: int| 0 <= c2 < 9 implies after[r2][c2] =~= want[r2][c2] by {
                    assert forall|k2: int| 0 <= k2 < 9 implies after[r2][c2][k2]
                        == want[r2][c2][k2] by {
                        lemma_unit_enumeration(row as int, col as int, r2, c2);
                        assert(after[r2][c2][k2] == self.markups[r2][c2][k2]);
                    }
                }
            }
            assert(after =~~= want);
        }
        deleted
    }

    /// Delete the annotation mark for the preselected digit at the cursor
    /// cell, recording its previous value. A no-op when the cell is filled:
    /// marks on filled cells are meaningless.
    pub fn delete_current_mark(&mut self)
        requires
            old(self).wf(),
        ensures
            final(self).wf(),
            State::same_frame(*old(self), *final(self)),
            final(self).board == old(self).board,
            final(self).model() == delete_mark_tr(
                old(self).model(),
                old(self).cur_row as int,
                old(self).cur_col as int,
                old(self).preselection,
            ),
    {
        if self.board[self.cur_row][self.cur_col] != 0 {
            return ;
        }
        let r = self.cur_row;
        let c = self.cur_col;
        let ki = (self.preselection - 1) as usize;
        let marked = self.markups[r][c][ki];
        let ghost pre_marks = self.markups;
        self.markups[r][c][ki] = false;
        proof {
            lemma_marks_view_set(pre_marks, self.markups, r as int, c as int, ki as int);
        }
        self.push_to_undos_invalidating_redos(
            DiffStep::Mark(self.preselection, (r, c), marked),
        );
        proof {
            assert(self.model() =~~= delete_mark_tr(
                old(self).model(),
                old(self).cur_row as int,
                old(self).cur_col as int,
                old(self).preselection,
            ));
        }
    }

    /// Set the annotation mark for the preselected digit at the cursor
    /// cell, recording its previous value. A no-op when the cell is filled.
    pub fn set_current_mark(&mut self)
        requires
            old(self).wf(),
        ensures
            final(self).wf(),
            State::same_frame(*old(self), *final(self)),
            final(self).board == old(self).board,
            final(self).model() == set_mark_tr(
                old(self).model(),
                old(self).cur_row as int,
                old(self).cur_col as int,
                old(self).preselection,
            ),
    {
        if self.board[self.cur_row][self.cur_col] != 0 {
            return ;
        }
        let r = self.cur_row;
        let c = self.cur_col;
        let ki = (self.preselection - 1) as usize;
        let marked = self.markups[r][c][ki];
        let ghost pre_marks = self.markups;
        self.markups[r][c][ki] = true;
        proof {
            lemma_marks_view_set(pre_marks, self.markups, r as int, c as int, ki as int);
        }
        self.push_to_undos_invalidating_redos(
            DiffStep::Mark(self.preselection, (r, c), marked),
        );
        proof {
            assert(self.model() =~~= set_mark_tr(
                old(self).model(),
                old(self).cur_row as int,
                old(self).cur_col as int,
                old(self).preselection,
            ));
        }
    }

    /// Toggle the annotation mark for the preselected digit at the cursor
    /// cell: clear it when set, set it when clear.
    pub fn toggle_current_mark(&mut self)
        requires
            old(self).wf(),
        ensures
            final(self).wf(),
            State::same_frame(*old(self), *final(self)),
            final(self).board == old(self).board,
            final(self).model() == toggle_mark_tr(
                old(self).model(),
                old(self).cur_row as int,
                old(self).cur_col as int,
                old(self).preselection,
            ),
    {
        if self.markups[self.cur_row][self.cur_col][(self.preselection - 1) as usize] {
            self.delete_current_mark();
        } else {
            self.set_current_mark();
        }
    }

    /// Retract the digit at the cursor cell, recording the change. Locked
    /// cells are left untouched and nothing is recorded.
    pub fn delete_current_cell(&mut self)
        requires
            old(self).wf(),
        ensures
            final(self).wf(),
            State::same_frame(*old(self), *final(self)),
            final(self).markups == old(self).markups,
            final(self).model() == retract_tr(
                old(self).model(),
                mask_view(old(self).modifiable),
                old(self).cur_row as int,
                old(self).cur_col as int,
            ),
            !old(self).modifiable[old(self).cur_row as int][old(self).cur_col as int]
                ==> *final(self) == *old(self),
    {
        if self.current_cell_is_modifiable() {
            let r = self.cur_row;
            let c = self.cur_col;
            let old_num = self.board[r][c];
            let ghost pre_board = self.board;
            self.board[r][c] = 0;
            proof {
                lemma_board_view_set(pre_board, self.board, r as int, c as int);
            }
            let none_affected: Vec<(usize, usize)> = Vec::new();
            self.push_to_undos_invalidating_redos(
                DiffStep::Edit(old_num, (r, c), none_affected, 0),
            );
            proof {
                assert(self.model() =~~= retract_tr(
                    old(self).model(),
                    mask_view(old(self).modifiable),
                    old(self).cur_row as int,
                    old(self).cur_col as int,
                ));
            }
        }
    }

    /// Place the preselected digit at the cursor cell: a locked cell
    /// ignores it; a cell already holding the digit is retracted instead;
    /// otherwise the cell takes the digit, every now-invalid mark for it in
    /// the cell's row, column and block is cleared, and the change is
    /// recorded together with the cleared mark positions.
    pub fn toggle_current_cell(&mut self)
        requires
            old(self).wf(),
        ensures
            final(self).wf(),
            State::same_frame(*old(self), *final(self)),
            final(self).model() == place_tr(
                old(self).model(),
                mask_view(old(self).modifiable),
                old(self).cur_row as int,
                old(self).cur_col as int,
                old(self).preselection,
            ),
            !old(self).modifiable[old(self).cur_row as int][old(self).cur_col as int]
                ==> *final(self) == *old(self),
    {
        if self.current_cell_is_modifiable() {
            if self.board[self.cur_row][self.cur_col] == self.preselection {
                self.delete_current_cell();
            } else {
                let r = self.cur_row;
                let c = self.cur_col;
                let d = self.preselection;
                let old_num = self.board[r][c];
                let ghost pre_board = self.board;
                self.board[r][c] = d;
                proof {
                    lemma_board_view_set(pre_board, self.board, r as int, c as int);
                }
                let affected = self.delete_colliding_marks(d, r, c);
                proof {
                    lemma_colliding_bounds(
                        marks_view(old(self).markups),
                        d,
                        r as int,
                        c as int,
                        9,
                    );
                }
                self.push_to_undos_invalidating_redos(DiffStep::Edit(old_num, (r, c), affected, d));
                proof {
                    assert(self.model() =~~= place_tr(
                        old(self).model(),
                        mask_view(old(self).modifiable),
                        old(self).cur_row as int,
                        old(self).cur_col as int,
                        old(self).preselection,
                    ));
                }
            }
        }
    }

    /// Apply one recorded step in the given direction: pop it from the
    /// stack that direction reads, replay its effect on the board and
    /// marks — restoring or clearing the recorded mark positions verbatim,
    /// never recomputing collisions — and push the inverted step onto the
    /// opposite stack. A no-op when the stack is empty.
    pub fn apply_diff(&mut self, diff_type: DiffType)
        requires
            old(self).wf(),
        ensures
            final(self).wf(),
            State::same_frame(*old(self), *final(self)),
            diff_type is Undo ==> final(self).model() == undo_tr(old(self).model()),
            diff_type is Redo ==> final(self).model() == redo_tr(old(self).model()),
    {
        let ghost m0 = old(self).model();
        let popped = match diff_type {
            DiffType::Undo => {
                let ghost pre = self.undo_stack@;
                let p = self.undo_stack.pop();
                proof {
                    if pre.len() > 0 {
                        assert(self.undo_stack@ =~= pre.drop_last());
                        lemma_steps_view_drop(pre);
                    }
                }
                p
            },
            DiffType::Redo => {
                let ghost pre = self.redo_stack@;
                let p = self.redo_stack.pop();
                proof {
                    if pre.len() > 0 {
                        assert(self.redo_stack@ =~= pre.drop_last());
                        lemma_steps_view_drop(pre);
                    }
                }
                p
            },
        };
        match popped {
            None => {
                proof {
                    assert(self.model() =~~= m0);
                }
            },
            Some(diff) => {
                proof {
                    if diff_type is Undo {
                        assert(diff@ == m0.undos.last());
                        assert(step_wf(diff@));
                    } else {
                        assert(diff@ == m0.redos.last());
                        assert(step_wf(diff@));
                    }
                }
                match diff {
                    DiffStep::Edit(original, pos, marks_vec, replacement) => {
                        let (r, c) = pos;
                        let ghost pre_board = self.board;
                        self.board[r][c] = original;
                        proof {
                            lemma_board_view_set(pre_board, self.board, r as int, c as int);
                        }
                        let affected = match diff_type {
                            DiffType::Redo => original,
                            DiffType::Undo => replacement,
                        };
                        let ghost mv0 = marks_view(self.markups);
                        let ghost b_set = self.board;
                        let ghost us = self.undo_stack@;
                        let ghost rs = self.redo_stack@;
                        if affected != 0 {
                            let val = match diff_type {
                                DiffType::Undo => true,
                                DiffType::Redo => false,
                            };
                            let ki = (affected - 1) as usize;
                            let n = marks_vec.len();
                            for t in 0..n
                                invariant
                                    State::same_frame(*old(self), *self),
                                    self.board == b_set,
                                    self.undo_stack@ == us,
                                    self.redo_stack@ == rs,
                                    1 <= affected <= 9,
                                    ki == affected - 1,
                                    n == marks_vec@.len(),
                                    forall|i: int|
                                        0 <= i < n ==> (#[trigger] marks_vec@[i]).0 < 9
                                            && marks_vec@[i].1 < 9,
                                    forall|r2: int, c2: int, k2: int|
                                        0 <= r2 < 9 && 0 <= c2 < 9 && 0 <= k2 < 9
                                            ==> #[trigger] self.markups[r2][c2][k2] == (if k2
                                            == affected - 1 && (exists|j: int|
                                            0 <= j < t && #[trigger] marks_vec@[j] == (
                                            r2 as usize,
                                            c2 as usize,
                                        )) {
                                            val
                                        } else {
                                            mv0[r2][c2][k2]
                                        }),
                            {
                                let (mr, mc) = marks_vec[t];
                                let ghost prem = self.markups;
                                self.markups[mr][mc][ki] = val;
                                proof {
                                    assert forall|r2: int, c2: int, k2: int|
                                        0 <= r2 < 9 && 0 <= c2 < 9 && 0 <= k2 < 9 implies #[trigger] self
                                        .markups[r2][c2][k2] == (if k2 == affected - 1 && (
                                    exists|j: int|
                                        0 <= j < t + 1 && #[trigger] marks_vec@[j] == (
                                        r2 as usize,
                                        c2 as usize,
                                    )) {
                                        val
                                    } else {
                                        mv0[r2][c2][k2]
                                    }) by {
                                        if r2 == mr as int && c2 == mc as int && k2 == ki as int {
                                            assert(marks_vec@[t as int] == (
                                                r2 as usize,
                                                c2 as usize,
                                            ));
                                        } else {
                                            assert(self.markups[r2][c2][k2]
                                                == prem[r2][c2][k2]);
                                            if k2 == affected - 1 && (exists|j: int|
                                                0 <= j < t + 1 && #[trigger] marks_vec@[j] == (
                                                r2 as usize,
                                                c2 as usize,
                                            )) {
                                                let j = choose|j: int|
                                                    0 <= j < t + 1 && #[trigger] marks_vec@[j]
                                                        == (r2 as usize, c2 as usize);
                                                assert(0 <= j < t);
                                            }
                                        }
                                    }
                                }
                            }
                            proof {
                                let after = marks_view(self.markups);
                                let want = set_marks_at(mv0, marks_vec@, affected, val);
                                assert forall|r2: int| 0 <= r2 < 9 implies after[r2] =~~= want[r2]
                                    by {
                                    assert forall|c2: int| 0 <= c2 < 9 implies after[r2][c2]
                                        =~= want[r2][c2] by {
                                        assert forall|k2: int| 0 <= k2 < 9 implies after[r2][c2][k2]
                                            == want[r2][c2][k2] by {
                                            assert(after[r2][c2][k2]
                                                == self.markups[r2][c2][k2]);
                                        }
                                    }
                                }
                                assert(after =~~= want);
                            }
                        }
                        let inverted = DiffStep::Edit(replacement, pos, marks_vec, original);
                        match diff_type {
                            DiffType::Undo => {
                                let ghost prr = self.redo_stack@;
                                self.redo_stack.push(inverted);
                                proof {
                                    lemma_steps_view_push(prr, inverted);
                                    assert(self.model() =~~= undo_tr(m0));
                                }
                            },
                            DiffType::Redo => {
                                let ghost pru = self.undo_stack@;
                                self.undo_stack.push(inverted);
                                proof {
                                    lemma_steps_view_push(pru, inverted);
                                    assert(self.model() =~~= redo_tr(m0));
                                }
                            },
                        }
                    },
                    DiffStep::Mark(num, pos, mark) => {
                        let (r, c) = pos;
                        let ki = (num - 1) as usize;
                        let old_mark = self.markups[r][c][ki];
                        let ghost prem = self.markups;
                        self.markups[r][c][ki] = mark;
                        proof {
                            lemma_marks_view_set(
                                prem,
                                self.markups,
                                r as int,
                                c as int,
                                ki as int,
                            );
                        }
                        let inverted = DiffStep::Mark(num, pos, old_mark);
                        match diff_type {
                            DiffType::Undo => {
                                let ghost prr = self.redo_stack@;
                                self.redo_stack.push(inverted);
                                proof {
                                    lemma_steps_view_push(prr, inverted);
                                    assert(self.model() =~~= undo_tr(m0));
                                }
                            },
                            DiffType::Redo => {
                                let ghost pru = self.undo_stack@;
                                self.undo_stack.push(inverted);
                                proof {
                                    lemma_steps_view_push(pru, inverted);
                                    assert(self.model() =~~= redo_tr(m0));
                                }
                            },
                        }
                    },
                }
            },
        }
    }

    /// Undo the most recent action, if one was taken.
    pub fn undo(&mut self)
        requires
            old(self).wf(),
        ensures
            final(self).wf(),
            State::same_frame(*old(self), *final(self)),
            final(self).model() == undo_tr(old(self).model()),
    {
        self.apply_diff(DiffType::Undo);
    }

    /// Redo an action, if one was taken and undone.
    pub fn redo(&mut self)
        requires
            old(self).wf(),
        ensures
            final(self).wf(),
            State::same_frame(*old(self), *final(self)),
            final(self).model() == redo_tr(old(self).model()),
    {
        self.apply_diff(DiffType::Redo);
    }

    /// The number of filled cells as two digit characters, zero-padded.
    pub fn get_completion_string(&self) -> (r: String)
        requires
            self.wf(),
        ensures
            r@ == seq![
                digit_char((81 - empty_count(self.board)) / 10),
                digit_char((81 - empty_count(self.board)) % 10),
            ],
    {
        let b = self.board;
        let mut count: usize = 0;
        for i in 0..81usize
            invariant
                b == self.board,
                count == i - zeros_below(b, i as int),
        {
            proof {
                assert(0 <= (i as int) / 9 < 9 && 0 <= (i as int) % 9 < 9) by (nonlinear_arith)
                    requires
                        0 <= i < 81,
                ;
                assert(zeros_below(b, i as int) <= i) by {
                    lemma_zeros_below_le(b, i as int);
                }
            }
            if b[i / 9][i % 9] != 0 {
                count += 1;
            }
        }
        let c0 = (48u8 + (count / 10) as u8) as char;
        let c1 = (48u8 + (count % 10) as u8) as char;
        let mut r = String::new();
        r.push(c0);
        r.push(c1);
        proof {
            assert(r@ =~= seq![
                digit_char((81 - empty_count(self.board)) / 10),
                digit_char((81 - empty_count(self.board)) % 10),
            ]);
        }
        r
    }

    /// How many cells hold the preselected digit, as a character: its count
    /// when at most 9, and `'!'` when the user erroneously placed more.
    pub fn get_preselection_completion_char(&self) -> (c: char)
        requires
            self.wf(),
        ensures
            c == (if digit_count(self.board, self.preselection) >= 10 {
                '!'
            } else {
                digit_char(digit_count(self.board, self.preselection) as int)
            }),
    {
        let b = self.board;
        let d = self.preselection;
        let mut count: usize = 0;
        for i in 0..81usize
            invariant
                b == self.board,
                d == self.preselection,
                count == digit_count_below(b, d, i as int),
        {
            proof {
                assert(0 <= (i as int) / 9 < 9 && 0 <= (i as int) % 9 < 9) by (nonlinear_arith)
                    requires
                        0 <= i < 81,
                ;
                assert(digit_count_below(b, d, i as int) <= i) by {
                    lemma_digit_count_below_le(b, d, i as int);
                }
            }
            if b[i / 9][i % 9] == d {
                count += 1;
            }
        }
        if count >= 10 {
            '!'
        } else {
            (48u8 + count as u8) as char
        }
    }

    /// The difficulty label shown on the in-game scoreboard, always five
    /// characters wide.
    pub fn get_difficulty_string(&self) -> (r: String)
        requires
            self.wf(),
        ensures
            r@ == difficulty_label(self.difficulty),
    {
        let mut r = String::new();
        match self.difficulty {
            Difficulty::Easy => {
                r.push('E');
                r.push('a');
                r.push('s');
                r.push('y');
                r.push(' ');
            },
            Difficulty::Mid => {
                r.push(' ');
                r.push('M');
                r.push('i');
                r.push('d');
                r.push(' ');
            },
            Difficulty::Hard => {
                r.push('H');
                r.push('a');
                r.push('r');
                r.push('d');
                r.push(' ');
            },
            Difficulty::Expert => {
                r.push('E');
                r.push('x');
                r.push('p');
                r.push('r');
                r.push('t');
            },
            Difficulty::Custom(x) => {
                r.push('C');
                r.push('(');
                r.push((48u8 + (x / 10) as u8) as char);
                r.push((48u8 + (x % 10) as u8) as char);
                r.push(')');
            },
        }
        proof {
            assert(r@ =~= difficulty_label(self.difficulty));
        }
        r
    }

    /// The timer strings for an elapsed number of whole seconds: minutes
    /// and seconds, each two characters, zero-padded; the leading slot
    /// wraps like a byte past 99 minutes.
    pub fn timer_strings_for(n: u64) -> (r: (String, String))
        ensures
            r.0@ == timer_mins_label(n),
            r.1@ == timer_secs_label(n),
    {
        let m1 = n / 600;
        let rem = n % 600;
        let m2 = rem / 60;
        let rem2 = rem % 60;
        let s1 = rem2 / 10;
        let s2 = rem2 % 10;
        proof {
            assert((n as int % 600) % 60 == n as int % 60) by (nonlinear_arith);
        }
        let mut mins = String::new();
        mins.push(Self::timer_char_for(m1));
        mins.push(Self::timer_char_for(m2));
        let mut secs = String::new();
        secs.push(Self::timer_char_for(s1));
        secs.push(Self::timer_char_for(s2));
        proof {
            assert(mins@ =~= seq![
                timer_char(n as int / 600),
                timer_char((n as int % 600) / 60),
            ]);
            assert(secs@ =~= seq![
                timer_char((n as int % 60) / 10),
                timer_char(n as int % 60 % 10),
            ]);
        }
        (mins, secs)
    }

    /// The display character for one timer slot value.
    fn timer_char_for(x: u64) -> (c: char)
        ensures
            c == timer_char(x as int),
    {
        let t = (x % 256) as u16 + 48;
        let b = (t % 256) as u8;
        b as char
    }

    /// The whole seconds the session has been running, read from the clock.
    fn get_elapsed_secs(&self) -> u64 {
        let d = crate::clock::elapsed_since(&self.start_time);
        crate::clock::duration_secs(&d)
    }

    /// Returns (mins, secs) for the elapsed session time as a pair of
    /// strings, both zero-padded to a width of two characters.
    pub fn get_timer_strings(&self) -> (r: (String, String))
        requires
            self.wf(),
        ensures
            exists|n: u64| r.0@ == #[trigger] timer_mins_label(n) && r.1@ == timer_secs_label(n),
    {
        let n = self.get_elapsed_secs();
        let r = Self::timer_strings_for(n);
        proof {
            assert(r.0@ == timer_mins_label(n) && r.1@ == timer_secs_label(n));
        }
        r
    }

    /// The timer string for an elapsed number of whole seconds, in the
    /// `mm:ss` format.
    pub fn timer_string_for(n: u64) -> (r: String)
        ensures
            r@ == timer_label(n),
    {
        let m1 = n / 600;
        let rem = n % 600;
        let m2 = rem / 60;
        let rem2 = rem % 60;
        let s1 = rem2 / 10;
        let s2 = rem2 % 10;
        proof {
            assert((n as int % 600) % 60 == n as int % 60) by (nonlinear_arith);
        }
        let mut r = String::new();
        r.push(Self::timer_char_for(m1));
        r.push(Self::timer_char_for(m2));
        r.push(':');
        r.push(Self::timer_char_for(s1));
        r.push(Self::timer_char_for(s2));
        proof {
            assert(r@ =~= timer_label(n));
        }
        r
    }

    /// Returns the elapsed session time as a string in `mm:ss` format.
    pub fn get_timer_string(&self) -> (r: String)
        requires
            self.wf(),
        ensures
            exists|n: u64| r@ == #[trigger] timer_label(n),
    {
        let n = self.get_elapsed_secs();
        Self::timer_string_for(n)
    }
}

/// The character for a decimal digit value 0..=9.
pub open spec fn digit_char(x: int) -> char {
    ((48 + x) as u8) as char
}

/// The character one timer slot shows: the slot value taken as a byte,
/// shifted into the digit range, wrapping like a byte past its capacity.
pub open spec fn timer_char(x: int) -> char {
    ((((x % 256) + 48) % 256) as u8) as char
}

/// The two minute characters of the timer for `n` elapsed seconds.
pub open spec fn timer_mins_label(n: u64) -> Seq<char> {
    seq![timer_char(n as int / 600), timer_char((n as int % 600) / 60)]
}

/// The two second characters of the timer for `n` elapsed seconds.
pub open spec fn timer_secs_label(n: u64) -> Seq<char> {
    seq![timer_char((n as int % 60) / 10), timer_char(n as int % 60 % 10)]
}

/// The full `mm:ss` timer text for `n` elapsed seconds.
pub open spec fn timer_label(n: u64) -> Seq<char> {
    timer_mins_label(n) + seq![':'] + timer_secs_label(n)
}

/// The five-character difficulty label shown on the scoreboard.
pub open spec fn difficulty_label(d: Difficulty) -> Seq<char> {
    match d {
        Difficulty::Easy => seq!['E', 'a', 's', 'y', ' '],
        Difficulty::Mid => seq![' ', 'M', 'i', 'd', ' '],
        Difficulty::Hard => seq!['H', 'a', 'r', 'd', ' '],
        Difficulty::Expert => seq!['E', 'x', 'p', 'r', 't'],
        Difficulty::Custom(x) => seq![
            'C',
            '(',
            digit_char((x as int) / 10),
            digit_char((x as int) % 10),
            ')',
        ],
    }
}

/// Prefix empty-cell counts never exceed the prefix length.
proof fn lemma_zeros_below_le(b: Board, n: int)
    requires
        0 <= n,
    ensures
        zeros_below(b, n) <= n,
    decreases n,
{
    if n > 0 {
        lemma_zeros_below_le(b, n - 1);
    }
}

/// Prefix digit counts never exceed the prefix length.
proof fn lemma_digit_count_below_le(b: Board, d: u8, n: int)
    requires
        0 <= n,
    ensures
        digit_count_below(b, d, n) <= n,
    decreases n,
{
    if n > 0 {
        lemma_digit_count_below_le(b, d, n - 1);
    }
}

} // verus!
