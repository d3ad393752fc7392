use vstd::prelude::*;

use crate::board::same_unit;

verus! {

/// The ghost image of one recorded, invertible user action.
///
/// `Edit(from, pos, marks, to)` records the cell at `pos` changing from
/// digit `from` to digit `to`, clearing the annotation marks for `to` at
/// the recorded positions along the way (empty when `to` is 0).
/// `Mark(num, pos, was)` records one annotation toggle for digit `num` at
/// `pos`, whose mark read `was` before the toggle.
pub enum StepView {
    Edit(u8, (usize, usize), Seq<(usize, usize)>, u8),
    Mark(u8, (usize, usize), bool),
}

/// The ghost image of the mutable game state: the board, the annotation
/// marks (per row, column, and digit index 0..9 standing for digits 1..=9),
/// and the two stacks of recorded steps.
#[verifier::ext_equal]
pub struct StateModel {
    pub board: Seq<Seq<u8>>,
    pub marks: Seq<Seq<Seq<bool>>>,
    pub undos: Seq<StepView>,
    pub redos: Seq<StepView>,
}

/// A 9x9 grid of digits with cells in 0..=9.
pub open spec fn grid_dims(b: Seq<Seq<u8>>) -> bool {
    &&& b.len() == 9
    &&& forall|r: int| 0 <= r < 9 ==> (#[trigger] b[r]).len() == 9
    &&& forall|r: int, c: int| 0 <= r < 9 && 0 <= c < 9 ==> #[trigger] b[r][c] <= 9
}

/// A 9x9x9 cube of annotation marks.
pub open spec fn marks_dims(m: Seq<Seq<Seq<bool>>>) -> bool {
    &&& m.len() == 9
    &&& forall|r: int| 0 <= r < 9 ==> (#[trigger] m[r]).len() == 9
    &&& forall|r: int, c: int| 0 <= r < 9 && 0 <= c < 9 ==> (#[trigger] m[r][c]).len() == 9
}

/// A 9x9 mask of booleans.
pub open spec fn mask_dims(m: Seq<Seq<bool>>) -> bool {
    &&& m.len() == 9
    &&& forall|r: int| 0 <= r < 9 ==> (#[trigger] m[r]).len() == 9
}

/// A recorded step speaks only of in-range cells and digits.
pub open spec fn step_wf(s: StepView) -> bool {
    match s {
        StepView::Edit(from, pos, mk, to) => {
            &&& pos.0 < 9
            &&& pos.1 < 9
            &&& from <= 9
            &&& to <= 9
            &&& forall|i: int|
                0 <= i < mk.len() ==> (#[trigger] mk[i]).0 < 9 && mk[i].1 < 9
        },
        StepView::Mark(num, pos, _) => {
            &&& pos.0 < 9
            &&& pos.1 < 9
            &&& 1 <= num <= 9
        },
    }
}

/// All steps of a stack are well-formed.
pub open spec fn steps_wf(s: Seq<StepView>) -> bool {
    forall|i: int| 0 <= i < s.len() ==> step_wf(#[trigger] s[i])
}

/// A well-formed game state image.
pub open spec fn model_wf(m: StateModel) -> bool {
    &&& grid_dims(m.board)
    &&& marks_dims(m.marks)
    &&& steps_wf(m.undos)
    &&& steps_wf(m.redos)
}

/// The grid with one cell changed.
pub open spec fn grid_set(b: Seq<Seq<u8>>, r: int, c: int, v: u8) -> Seq<Seq<u8>> {
    b.update(r, b[r].update(c, v))
}

/// The marks cube with one mark changed.
pub open spec fn marks_set(
    m: Seq<Seq<Seq<bool>>>,
    r: int,
    c: int,
    k: int,
    v: bool,
) -> Seq<Seq<Seq<bool>>> {
    m.update(r, m[r].update(c, m[r][c].update(k, v)))
}

/// The marks cube with every mark for digit `d` in the row, column and
/// block of `(r, c)` cleared.
pub open spec fn clear_unit_marks(
    m: Seq<Seq<Seq<bool>>>,
    d: u8,
    r: int,
    c: int,
) -> Seq<Seq<Seq<bool>>> {
    Seq::new(
        9,
        |r2: int|
            Seq::new(
                9,
                |c2: int|
                    Seq::new(
                        9,
                        |k: int|
                            if k == d - 1 && same_unit(r, c, r2, c2) {
                                false
                            } else {
                                m[r2][c2][k]
                            },
                    ),
            ),
    )
}

/// The marks cube with the mark for digit `d` set to `v` at every listed
/// position.
pub open spec fn set_marks_at(
    m: Seq<Seq<Seq<bool>>>,
    ps: Seq<(usize, usize)>,
    d: u8,
    v: bool,
) -> Seq<Seq<Seq<bool>>> {
    Seq::new(
        9,
        |r2: int|
            Seq::new(
                9,
                |c2: int|
                    Seq::new(
                        9,
                        |k: int|
                            if k == d - 1 && ps.contains((r2 as usize, c2 as usize)) {
                                v
                            } else {
                                m[r2][c2][k]
                            },
                    ),
            ),
    )
}

/// The cell visited at step `j` of the scan around `(r, c)`: the `j`-th
/// cell of its column, of its row, or of its block.
pub open spec fn scan_col_cell(r: int, c: int, j: int) -> (int, int) {
    (j, c)
}

pub open spec fn scan_row_cell(r: int, c: int, j: int) -> (int, int) {
    (r, j)
}

pub open spec fn scan_block_cell(r: int, c: int, j: int) -> (int, int) {
    (r / 3 * 3 + j / 3, c / 3 * 3 + j % 3)
}

/// Cell `(r2, c2)` is visited at step `j` of the scan around `(r, c)`.
pub open spec fn scanned(r: int, c: int, j: int, r2: int, c2: int) -> bool {
    ||| scan_col_cell(r, c, j) == (r2, c2)
    ||| scan_row_cell(r, c, j) == (r2, c2)
    ||| scan_block_cell(r, c, j) == (r2, c2)
}

/// The positions recorded by the first `i` steps of the mark scan for digit
/// `d` around `(r, c)`: at each step, the column cell, then the row cell,
/// then the block cell, each included when its mark for `d` is set.
pub open spec fn colliding_seq(
    m: Seq<Seq<Seq<bool>>>,
    d: u8,
    r: int,
    c: int,
    i: int,
) -> Seq<(usize, usize)>
    decreases i,
{
    if i <= 0 {
        Seq::empty()
    } else {
        let s = colliding_seq(m, d, r, c, i - 1);
        let j = i - 1;
        let s1 = if m[j][c][d - 1] {
            s.push((j as usize, c as usize))
        } else {
            s
        };
        let s2 = if m[r][j][d - 1] {
            s1.push((r as usize, j as usize))
        } else {
            s1
        };
        let br = r / 3 * 3 + j / 3;
        let bc = c / 3 * 3 + j % 3;
        if m[br][bc][d - 1] {
            s2.push((br as usize, bc as usize))
        } else {
            s2
        }
    }
}

/// The positions recorded by the whole mark scan for digit `d` around `(r, c)`.
pub open spec fn colliding_marks(m: Seq<Seq<Seq<bool>>>, d: u8, r: int, c: int) -> Seq<
    (usize, usize),
> {
    colliding_seq(m, d, r, c, 9)
}

/// A cell shares a unit with `(r, c)` exactly when some step of the scan
/// around `(r, c)` visits it.
pub proof fn lemma_unit_enumeration(r: int, c: int, r2: int, c2: int)
    requires
        0 <= r < 9,
        0 <= c < 9,
        0 <= r2 < 9,
        0 <= c2 < 9,
    ensures
        same_unit(r, c, r2, c2) <==> exists|j: int| 0 <= j < 9 && scanned(r, c, j, r2, c2),
{
    if same_unit(r, c, r2, c2) {
        if r2 == r {
            assert(scanned(r, c, c2, r2, c2));
        } else if c2 == c {
            assert(scanned(r, c, r2, r2, c2));
        } else {
            let j = r2 % 3 * 3 + c2 % 3;
            assert(0 <= r2 % 3 < 3 && r2 == r2 / 3 * 3 + r2 % 3) by (nonlinear_arith)
                requires
                    0 <= r2 < 9,
            ;
            assert(0 <= c2 % 3 < 3 && c2 == c2 / 3 * 3 + c2 % 3) by (nonlinear_arith)
                requires
                    0 <= c2 < 9,
            ;
            assert(j / 3 == r2 % 3 && j % 3 == c2 % 3) by (nonlinear_arith)
                requires
                    0 <= r2 % 3 < 3 && 0 <= c2 % 3 < 3 && j == r2 % 3 * 3 + c2 % 3,
            ;
            assert(scan_block_cell(r, c, j) == (r2, c2));
            assert(scanned(r, c, j, r2, c2));
        }
    }
    if exists|j: int| 0 <= j < 9 && scanned(r, c, j, r2, c2) {
        let j = choose|j: int| 0 <= j < 9 && scanned(r, c, j, r2, c2);
        if scan_block_cell(r, c, j) == (r2, c2) {
            assert(0 <= j / 3 < 3 && 0 <= j % 3 < 3) by (nonlinear_arith)
                requires
                    0 <= j < 9,
            ;
            assert((r / 3 * 3 + j / 3) / 3 == r / 3 && (c / 3 * 3 + j % 3) / 3 == c / 3)
                by (nonlinear_arith)
                requires
                    0 <= r < 9 && 0 <= c < 9 && 0 <= j / 3 < 3 && 0 <= j % 3 < 3,
            ;
        }
    }
}

/// What a sequence holds after a push: the pushed element, and all it held.
proof fn lemma_push_contains<T>(s: Seq<T>, x: T)
    ensures
        forall|y: T| #[trigger] s.push(x).contains(y) <==> (s.contains(y) || y == x),
{
    assert forall|y: T| #[trigger] s.push(x).contains(y) implies (s.contains(y) || y == x) by {
        let i = choose|i: int| 0 <= i < s.push(x).len() && s.push(x)[i] == y;
        if i < s.len() {
            assert(s[i] == y);
        }
    }
    assert forall|y: T| (s.contains(y) || y == x) implies #[trigger] s.push(x).contains(y) by {
        if y == x {
            assert(s.push(x)[s.len() as int] == y);
        } else {
            let i = choose|i: int| 0 <= i < s.len() && s[i] == y;
            assert(s.push(x)[i] == y);
        }
    }
}

/// What the recorded scan positions are: exactly the in-range cells sharing
/// a unit with `(r, c)` whose mark for `d` is set, over the first `i` steps.
proof fn lemma_colliding_seq_contains(m: Seq<Seq<Seq<bool>>>, d: u8, r: int, c: int, i: int)
    requires
        marks_dims(m),
        1 <= d <= 9,
        0 <= r < 9,
        0 <= c < 9,
        0 <= i <= 9,
    ensures
        forall|p: (usize, usize)|
            #[trigger] colliding_seq(m, d, r, c, i).contains(p) <==> (p.0 < 9 && p.1 < 9 && (
            exists|j: int| 0 <= j < i && scanned(r, c, j, p.0 as int, p.1 as int)) && m[p.0 as int][p.1 as int][d
                - 1]),
    decreases i,
{
    if i > 0 {
        lemma_colliding_seq_contains(m, d, r, c, i - 1);
        let s = colliding_seq(m, d, r, c, i - 1);
        let j = i - 1;
        assert(0 <= r / 3 * 3 + j / 3 < 9 && 0 <= c / 3 * 3 + j % 3 < 9) by (nonlinear_arith)
            requires
                0 <= r < 9 && 0 <= c < 9 && 0 <= j < 9,
        ;
        let br = r / 3 * 3 + j / 3;
        let bc = c / 3 * 3 + j % 3;
        let s1 = if m[j][c][d - 1] {
            s.push((j as usize, c as usize))
        } else {
            s
        };
        let s2 = if m[r][j][d - 1] {
            s1.push((r as usize, j as usize))
        } else {
            s1
        };
        let s3 = colliding_seq(m, d, r, c, i);
        lemma_push_contains(s, (j as usize, c as usize));
        lemma_push_contains(s1, (r as usize, j as usize));
        lemma_push_contains(s2, (br as usize, bc as usize));
        assert forall|p: (usize, usize)| #[trigger] s3.contains(p) implies (p.0 < 9 && p.1 < 9 && (
        exists|j2: int| 0 <= j2 < i && scanned(r, c, j2, p.0 as int, p.1 as int)) && m[p.0 as int][p.1 as int][d
            - 1]) by {
            if s.contains(p) {
                let j2 = choose|j2: int|
                    0 <= j2 < i - 1 && scanned(r, c, j2, p.0 as int, p.1 as int);
                assert(scanned(r, c, j2, p.0 as int, p.1 as int));
            } else if p == ((j as usize, c as usize)) {
                assert(scanned(r, c, j, p.0 as int, p.1 as int));
            } else if p == ((r as usize, j as usize)) {
                assert(scanned(r, c, j, p.0 as int, p.1 as int));
            } else {
                assert(p == ((br as usize, bc as usize)));
                assert(scan_block_cell(r, c, j) == (p.0 as int, p.1 as int));
                assert(scanned(r, c, j, p.0 as int, p.1 as int));
            }
        }
        assert forall|p: (usize, usize)|
            p.0 < 9 && p.1 < 9 && (exists|j2: int|
                0 <= j2 < i && scanned(r, c, j2, p.0 as int, p.1 as int)) && m[p.0 as int][p.1 as int][d
                - 1] implies #[trigger] s3.contains(p) by {
            let j2 = choose|j2: int| 0 <= j2 < i && scanned(r, c, j2, p.0 as int, p.1 as int);
            if j2 < i - 1 {
                assert(s.contains(p));
            } else {
                if scan_col_cell(r, c, j2) == ((p.0 as int, p.1 as int)) {
                    assert(p == ((j as usize, c as usize)));
                    assert(m[j][c][d - 1]);
                    assert(s1.contains(p));
                } else if scan_row_cell(r, c, j2) == ((p.0 as int, p.1 as int)) {
                    assert(p == ((r as usize, j as usize)));
                    assert(m[r][j][d - 1]);
                    assert(s2.contains(p));
                } else {
                    assert(scan_block_cell(r, c, j2) == ((p.0 as int, p.1 as int)));
                    assert(p == ((br as usize, bc as usize)));
                    assert(m[br][bc][d - 1]);
                }
            }
        }
    }
}

/// The recorded positions of the whole scan are exactly the in-range cells
/// sharing a unit with `(r, c)` whose mark for `d` is set.
pub proof fn lemma_colliding_contains(m: Seq<Seq<Seq<bool>>>, d: u8, r: int, c: int)
    requires
        marks_dims(m),
        1 <= d <= 9,
        0 <= r < 9,
        0 <= c < 9,
    ensures
        forall|p: (usize, usize)|
            #[trigger] colliding_marks(m, d, r, c).contains(p) <==> (p.0 < 9 && p.1 < 9
                && same_unit(r, c, p.0 as int, p.1 as int) && m[p.0 as int][p.1 as int][d - 1]),
{
    lemma_colliding_seq_contains(m, d, r, c, 9);
    assert forall|p: (usize, usize)| p.0 < 9 && p.1 < 9 implies (same_unit(
        r,
        c,
        p.0 as int,
        p.1 as int,
    ) <==> exists|j: int| 0 <= j < 9 && scanned(r, c, j, p.0 as int, p.1 as int)) by {
        lemma_unit_enumeration(r, c, p.0 as int, p.1 as int);
    }
}

/// Retracting the digit at `(r, c)`: the cell is zeroed and the change
/// recorded, unless the cell is locked, in which case nothing happens.
pub open spec fn retract_tr(m: StateModel, modif: Seq<Seq<bool>>, r: int, c: int) -> StateModel {
    if !modif[r][c] {
        m
    } else {
        StateModel {
            board: grid_set(m.board, r, c, 0),
            marks: m.marks,
            undos: m.undos.push(
                StepView::Edit(m.board[r][c], (r as usize, c as usize), Seq::empty(), 0),
            ),
            redos: Seq::empty(),
        }
    }
}

/// Placing digit `d` at `(r, c)`: a locked cell ignores it; a cell already
/// holding `d` is retracted instead; otherwise the cell takes `d`, the now
/// impossible marks for `d` around it are cleared, and the change is
/// recorded with the cleared positions.
pub open spec fn place_tr(m: StateModel, modif: Seq<Seq<bool>>, r: int, c: int, d: u8) -> StateModel {
    if !modif[r][c] {
        m
    } else if m.board[r][c] == d {
        retract_tr(m, modif, r, c)
    } else {
        StateModel {
            board: grid_set(m.board, r, c, d),
            marks: clear_unit_marks(m.marks, d, r, c),
            undos: m.undos.push(
                StepView::Edit(
                    m.board[r][c],
                    (r as usize, c as usize),
                    colliding_marks(m.marks, d, r, c),
                    d,
                ),
            ),
            redos: Seq::empty(),
        }
    }
}

/// Clearing the mark for digit `d` at `(r, c)`: a no-op on a filled cell;
/// otherwise the mark is cleared and its previous value recorded.
pub open spec fn delete_mark_tr(m: StateModel, r: int, c: int, d: u8) -> StateModel {
    if m.board[r][c] != 0 {
        m
    } else {
        StateModel {
            board: m.board,
            marks: marks_set(m.marks, r, c, d - 1, false),
            undos: m.undos.push(
                StepView::Mark(d, (r as usize, c as usize), m.marks[r][c][d - 1]),
            ),
            redos: Seq::empty(),
        }
    }
}

/// Setting the mark for digit `d` at `(r, c)`: a no-op on a filled cell;
/// otherwise the mark is set and its previous value recorded.
pub open spec fn set_mark_tr(m: StateModel, r: int, c: int, d: u8) -> StateModel {
    if m.board[r][c] != 0 {
        m
    } else {
        StateModel {
            board: m.board,
            marks: marks_set(m.marks, r, c, d - 1, true),
            undos: m.undos.push(
                StepView::Mark(d, (r as usize, c as usize), m.marks[r][c][d - 1]),
            ),
            redos: Seq::empty(),
        }
    }
}

/// Toggling the mark for digit `d` at `(r, c)`: clear it when set, set it
/// when clear.
pub open spec fn toggle_mark_tr(m: StateModel, r: int, c: int, d: u8) -> StateModel {
    if m.marks[r][c][d - 1] {
        delete_mark_tr(m, r, c, d)
    } else {
        set_mark_tr(m, r, c, d)
    }
}

/// Undoing the most recent step: pop it from the undo stack, apply its
/// inverse to the board and marks (restoring recorded mark positions
/// verbatim, never recomputing collisions), and push the inverted step onto
/// the redo stack. A no-op when the undo stack is empty.
pub open spec fn undo_tr(m: StateModel) -> StateModel {
    if m.undos.len() == 0 {
        m
    } else {
        let rest = m.undos.drop_last();
        match m.undos.last() {
            StepView::Edit(from, pos, mk, to) => StateModel {
                board: grid_set(m.board, pos.0 as int, pos.1 as int, from),
                marks: if to != 0 {
                    set_marks_at(m.marks, mk, to, true)
                } else {
                    m.marks
                },
                undos: rest,
                redos: m.redos.push(StepView::Edit(to, pos, mk, from)),
            },
            StepView::Mark(num, pos, was) => StateModel {
                board: m.board,
                marks: marks_set(m.marks, pos.0 as int, pos.1 as int, num - 1, was),
                undos: rest,
                redos: m.redos.push(
                    StepView::Mark(num, pos, m.marks[pos.0 as int][pos.1 as int][num - 1]),
                ),
            },
        }
    }
}

/// Redoing the most recently undone step: pop it from the redo stack,
/// re-apply its forward effect (clearing recorded mark positions verbatim),
/// and push the inverted step back onto the undo stack. A no-op when the
/// redo stack is empty.
pub open spec fn redo_tr(m: StateModel) -> StateModel {
    if m.redos.len() == 0 {
        m
    } else {
        let rest = m.redos.drop_last();
        match m.redos.last() {
            StepView::Edit(from, pos, mk, to) => StateModel {
                board: grid_set(m.board, pos.0 as int, pos.1 as int, from),
                marks: if from != 0 {
                    set_marks_at(m.marks, mk, from, false)
                } else {
                    m.marks
                },
                undos: m.undos.push(StepView::Edit(to, pos, mk, from)),
                redos: rest,
            },
            StepView::Mark(num, pos, was) => StateModel {
                board: m.board,
                marks: marks_set(m.marks, pos.0 as int, pos.1 as int, num - 1, was),
                undos: m.undos.push(
                    StepView::Mark(num, pos, m.marks[pos.0 as int][pos.1 as int][num - 1]),
                ),
                redos: rest,
            },
        }
    }
}

/// Restoring the recorded scan positions for `d` to set brings the marks
/// back to what they were before the scan cleared them.
pub proof fn lemma_clear_then_restore(m: Seq<Seq<Seq<bool>>>, d: u8, r: int, c: int)
    requires
        marks_dims(m),
        1 <= d <= 9,
        0 <= r < 9,
        0 <= c < 9,
    ensures
        set_marks_at(clear_unit_marks(m, d, r, c), colliding_marks(m, d, r, c), d, true) == m,
{
    lemma_colliding_contains(m, d, r, c);
    let cleared = clear_unit_marks(m, d, r, c);
    let back = set_marks_at(cleared, colliding_marks(m, d, r, c), d, true);
    assert forall|r2: int| 0 <= r2 < 9 implies back[r2] =~~= m[r2] by {
        assert forall|c2: int| 0 <= c2 < 9 implies back[r2][c2] =~= m[r2][c2] by {
            assert forall|k: int| 0 <= k < 9 implies back[r2][c2][k] == m[r2][c2][k] by {
                if k == d - 1 && same_unit(r, c, r2, c2) {
                    if m[r2][c2][k] {
                        assert(colliding_marks(m, d, r, c).contains(
                            (r2 as usize, c2 as usize),
                        ));
                    } else {
                        assert(!colliding_marks(m, d, r, c).contains(
                            (r2 as usize, c2 as usize),
                        ));
                    }
                } else {
                    assert(!(colliding_marks(m, d, r, c).contains((r2 as usize, c2 as usize))
                        && k == d - 1) ==> back[r2][c2][k] == cleared[r2][c2][k]);
                    if k == d - 1 && colliding_marks(m, d, r, c).contains(
                        (r2 as usize, c2 as usize),
                    ) {
                        assert(same_unit(r, c, r2, c2));
                    }
                }
            }
        }
    }
    assert(back =~~= m);
}

/// Clearing exactly the recorded scan positions for `d` clears the same
/// marks the scan itself clears.
pub proof fn lemma_restore_then_clear(m: Seq<Seq<Seq<bool>>>, d: u8, r: int, c: int)
    requires
        marks_dims(m),
        1 <= d <= 9,
        0 <= r < 9,
        0 <= c < 9,
    ensures
        set_marks_at(m, colliding_marks(m, d, r, c), d, false) == clear_unit_marks(m, d, r, c),
{
    lemma_colliding_contains(m, d, r, c);
    let lhs = set_marks_at(m, colliding_marks(m, d, r, c), d, false);
    let rhs = clear_unit_marks(m, d, r, c);
    assert forall|r2: int| 0 <= r2 < 9 implies lhs[r2] =~~= rhs[r2] by {
        assert forall|c2: int| 0 <= c2 < 9 implies lhs[r2][c2] =~= rhs[r2][c2] by {
            assert forall|k: int| 0 <= k < 9 implies lhs[r2][c2][k] == rhs[r2][c2][k] by {
                if k == d - 1 {
                    if colliding_marks(m, d, r, c).contains((r2 as usize, c2 as usize)) {
                        assert(same_unit(r, c, r2, c2));
                    } else {
                        if same_unit(r, c, r2, c2) {
                            assert(!m[r2][c2][k]);
                        }
                    }
                }
            }
        }
    }
    assert(lhs =~~= rhs);
}

/// Overwriting a just-set mark with the previous value restores the cube.
pub proof fn lemma_marks_set_undo(m: Seq<Seq<Seq<bool>>>, r: int, c: int, k: int, v: bool)
    requires
        marks_dims(m),
        0 <= r < 9,
        0 <= c < 9,
        0 <= k < 9,
    ensures
        marks_set(marks_set(m, r, c, k, v), r, c, k, m[r][c][k]) == m,
{
    let mid = marks_set(m, r, c, k, v);
    let back = marks_set(mid, r, c, k, m[r][c][k]);
    assert(back[r][c] =~= m[r][c]);
    assert(back[r] =~~= m[r]);
    assert(back =~~= m);
}

/// Overwriting a just-set cell with the previous digit restores the grid.
pub proof fn lemma_grid_set_undo(b: Seq<Seq<u8>>, r: int, c: int, v: u8)
    requires
        grid_dims(b),
        0 <= r < 9,
        0 <= c < 9,
    ensures
        grid_set(grid_set(b, r, c, v), r, c, b[r][c]) == b,
{
    let back = grid_set(grid_set(b, r, c, v), r, c, b[r][c]);
    assert(back[r] =~= b[r]);
    assert(back =~~= b);
}

/// One user action on the board or marks, aimed at a cell: placing the
/// digit, retracting the cell, or toggling an annotation mark.
pub enum PlayerAct {
    Place(usize, usize, u8),
    Retract(usize, usize),
    ToggleMark(usize, usize, u8),
}

/// The action aims at a cell and carries a digit 1..=9.
pub open spec fn act_wf(a: PlayerAct) -> bool {
    match a {
        PlayerAct::Place(r, c, d) => r < 9 && c < 9 && 1 <= d <= 9,
        PlayerAct::Retract(r, c) => r < 9 && c < 9,
        PlayerAct::ToggleMark(r, c, d) => r < 9 && c < 9 && 1 <= d <= 9,
    }
}

/// The state after one user action.
pub open spec fn act_tr(m: StateModel, modif: Seq<Seq<bool>>, a: PlayerAct) -> StateModel {
    match a {
        PlayerAct::Place(r, c, d) => place_tr(m, modif, r as int, c as int, d),
        PlayerAct::Retract(r, c) => retract_tr(m, modif, r as int, c as int),
        PlayerAct::ToggleMark(r, c, d) => toggle_mark_tr(m, r as int, c as int, d),
    }
}

/// The action takes effect and records a step: its cell is modifiable, and
/// an annotation toggle aims at an empty cell.
pub open spec fn act_effective(m: StateModel, modif: Seq<Seq<bool>>, a: PlayerAct) -> bool {
    match a {
        PlayerAct::Place(r, c, d) => modif[r as int][c as int],
        PlayerAct::Retract(r, c) => modif[r as int][c as int],
        PlayerAct::ToggleMark(r, c, d) => m.board[r as int][c as int] == 0,
    }
}

/// The state after a run of user actions, applied in order.
pub open spec fn acts_tr(m: StateModel, modif: Seq<Seq<bool>>, acts: Seq<PlayerAct>) -> StateModel
    decreases acts.len(),
{
    if acts.len() == 0 {
        m
    } else {
        acts_tr(act_tr(m, modif, acts[0]), modif, acts.drop_first())
    }
}

/// Every action of the run is well-formed and takes effect on the state it
/// meets.
pub open spec fn all_effective(m: StateModel, modif: Seq<Seq<bool>>, acts: Seq<PlayerAct>) -> bool
    decreases acts.len(),
{
    if acts.len() == 0 {
        true
    } else {
        &&& act_wf(acts[0])
        &&& act_effective(m, modif, acts[0])
        &&& all_effective(act_tr(m, modif, acts[0]), modif, acts.drop_first())
    }
}

/// The state after undoing `n` times.
pub open spec fn undo_n(m: StateModel, n: nat) -> StateModel
    decreases n,
{
    if n == 0 {
        m
    } else {
        undo_n(undo_tr(m), (n - 1) as nat)
    }
}

/// The state after redoing `n` times.
pub open spec fn redo_n(m: StateModel, n: nat) -> StateModel
    decreases n,
{
    if n == 0 {
        m
    } else {
        redo_n(redo_tr(m), (n - 1) as nat)
    }
}

/// The step an effective action records, read off the state it acts on.
pub open spec fn step_of(m: StateModel, a: PlayerAct) -> StepView {
    match a {
        PlayerAct::Place(r, c, d) => if m.board[r as int][c as int] == d {
            StepView::Edit(d, (r, c), Seq::empty(), 0)
        } else {
            StepView::Edit(
                m.board[r as int][c as int],
                (r, c),
                colliding_marks(m.marks, d, r as int, c as int),
                d,
            )
        },
        PlayerAct::Retract(r, c) => StepView::Edit(
            m.board[r as int][c as int],
            (r, c),
            Seq::empty(),
            0,
        ),
        PlayerAct::ToggleMark(r, c, d) => StepView::Mark(
            d,
            (r, c),
            m.marks[r as int][c as int][d - 1],
        ),
    }
}

/// The inverted image of a recorded step, as undoing records it for redo.
pub open spec fn inv_step(s: StepView) -> StepView {
    match s {
        StepView::Edit(from, pos, mk, to) => StepView::Edit(to, pos, mk, from),
        StepView::Mark(num, pos, was) => StepView::Mark(num, pos, !was),
    }
}

/// The inverted steps a run of actions leaves for redo, most recent first.
pub open spec fn inv_steps_rev(m: StateModel, modif: Seq<Seq<bool>>, acts: Seq<PlayerAct>) -> Seq<
    StepView,
>
    decreases acts.len(),
{
    if acts.len() == 0 {
        Seq::empty()
    } else {
        inv_steps_rev(act_tr(m, modif, acts[0]), modif, acts.drop_first()) + seq![
            inv_step(step_of(m, acts[0])),
        ]
    }
}

/// One action keeps the state well-formed.
pub proof fn lemma_act_keeps_wf(m: StateModel, modif: Seq<Seq<bool>>, a: PlayerAct)
    requires
        model_wf(m),
        mask_dims(modif),
        act_wf(a),
    ensures
        model_wf(act_tr(m, modif, a)),
{
    let w = act_tr(m, modif, a);
    match a {
        PlayerAct::Place(r, c, d) => {
            lemma_colliding_bounds(m.marks, d, r as int, c as int, 9);
            assert(grid_dims(w.board));
            assert(steps_wf(w.undos));
        },
        PlayerAct::Retract(r, c) => {
            assert(grid_dims(w.board));
            assert(steps_wf(w.undos));
        },
        PlayerAct::ToggleMark(r, c, d) => {
            assert(marks_dims(w.marks));
            assert(steps_wf(w.undos));
        },
    }
}

/// Undoing the step an effective action just recorded restores the board,
/// marks and undo stack exactly, whatever else sits on the redo stack, and
/// pushes the inverted step there.
proof fn lemma_act_undo(m: StateModel, modif: Seq<Seq<bool>>, a: PlayerAct, rd: Seq<StepView>)
    requires
        model_wf(m),
        mask_dims(modif),
        act_wf(a),
        act_effective(m, modif, a),
    ensures
        ({
            let w = act_tr(m, modif, a);
            undo_tr(StateModel { board: w.board, marks: w.marks, undos: w.undos, redos: rd })
                == (StateModel {
                board: m.board,
                marks: m.marks,
                undos: m.undos,
                redos: rd.push(inv_step(step_of(m, a))),
            })
        }),
{
    let w = act_tr(m, modif, a);
    let x = StateModel { board: w.board, marks: w.marks, undos: w.undos, redos: rd };
    match a {
        PlayerAct::Place(r, c, d) => {
            if m.board[r as int][c as int] == d {
                lemma_grid_set_undo(m.board, r as int, c as int, 0);
                assert(undo_tr(x) =~~= (StateModel {
                    board: m.board,
                    marks: m.marks,
                    undos: m.undos,
                    redos: rd.push(inv_step(step_of(m, a))),
                }));
            } else {
                lemma_grid_set_undo(m.board, r as int, c as int, d);
                lemma_clear_then_restore(m.marks, d, r as int, c as int);
                assert(undo_tr(x) =~~= (StateModel {
                    board: m.board,
                    marks: m.marks,
                    undos: m.undos,
                    redos: rd.push(inv_step(step_of(m, a))),
                }));
            }
        },
        PlayerAct::Retract(r, c) => {
            lemma_grid_set_undo(m.board, r as int, c as int, 0);
            assert(undo_tr(x) =~~= (StateModel {
                board: m.board,
                marks: m.marks,
                undos: m.undos,
                redos: rd.push(inv_step(step_of(m, a))),
            }));
        },
        PlayerAct::ToggleMark(r, c, d) => {
            let was = m.marks[r as int][c as int][d - 1];
            lemma_marks_set_undo(m.marks, r as int, c as int, d - 1, !was);
            assert(undo_tr(x) =~~= (StateModel {
                board: m.board,
                marks: m.marks,
                undos: m.undos,
                redos: rd.push(inv_step(step_of(m, a))),
            }));
        },
    }
}

/// Redoing the inverted step of an effective action replays the action's
/// effect on the board and marks and puts the recorded step back.
proof fn lemma_act_redo(m: StateModel, modif: Seq<Seq<bool>>, a: PlayerAct, rd: Seq<StepView>)
    requires
        model_wf(m),
        mask_dims(modif),
        act_wf(a),
        act_effective(m, modif, a),
    ensures
        ({
            let w = act_tr(m, modif, a);
            redo_tr(StateModel {
                board: m.board,
                marks: m.marks,
                undos: m.undos,
                redos: rd.push(inv_step(step_of(m, a))),
            }) == (StateModel { board: w.board, marks: w.marks, undos: w.undos, redos: rd })
        }),
{
    let w = act_tr(m, modif, a);
    match a {
        PlayerAct::Place(r, c, d) => {
            if m.board[r as int][c as int] == d {
                assert(redo_tr(StateModel {
                    board: m.board,
                    marks: m.marks,
                    undos: m.undos,
                    redos: rd.push(inv_step(step_of(m, a))),
                }) =~~= (StateModel {
                    board: w.board,
                    marks: w.marks,
                    undos: w.undos,
                    redos: rd,
                }));
            } else {
                lemma_restore_then_clear(m.marks, d, r as int, c as int);
                assert(redo_tr(StateModel {
                    board: m.board,
                    marks: m.marks,
                    undos: m.undos,
                    redos: rd.push(inv_step(step_of(m, a))),
                }) =~~= (StateModel {
                    board: w.board,
                    marks: w.marks,
                    undos: w.undos,
                    redos: rd,
                }));
            }
        },
        PlayerAct::Retract(r, c) => {
            assert(redo_tr(StateModel {
                board: m.board,
                marks: m.marks,
                undos: m.undos,
                redos: rd.push(inv_step(step_of(m, a))),
            }) =~~= (StateModel { board: w.board, marks: w.marks, undos: w.undos, redos: rd }));
        },
        PlayerAct::ToggleMark(r, c, d) => {
            assert(redo_tr(StateModel {
                board: m.board,
                marks: m.marks,
                undos: m.undos,
                redos: rd.push(inv_step(step_of(m, a))),
            }) =~~= (StateModel { board: w.board, marks: w.marks, undos: w.undos, redos: rd }));
        },
    }
}

/// Peeling the last action off a run.
proof fn lemma_acts_snoc(m: StateModel, modif: Seq<Seq<bool>>, acts: Seq<PlayerAct>, a: PlayerAct)
    ensures
        acts_tr(m, modif, acts.push(a)) == act_tr(acts_tr(m, modif, acts), modif, a),
        all_effective(m, modif, acts.push(a)) == (all_effective(m, modif, acts) && act_wf(a)
            && act_effective(acts_tr(m, modif, acts), modif, a)),
        inv_steps_rev(m, modif, acts.push(a)) == seq![
            inv_step(step_of(acts_tr(m, modif, acts), a)),
        ] + inv_steps_rev(m, modif, acts),
    decreases acts.len(),
{
    let s1 = acts.push(a);
    if acts.len() == 0 {
        assert(s1[0] == a);
        assert(s1.drop_first() =~= Seq::<PlayerAct>::empty());
        assert(acts_tr(m, modif, s1) == acts_tr(act_tr(m, modif, a), modif, s1.drop_first()));
        assert(acts_tr(act_tr(m, modif, a), modif, s1.drop_first()) == act_tr(m, modif, a));
        assert(acts_tr(m, modif, acts) == m);
        assert(all_effective(m, modif, s1) == (act_wf(a) && act_effective(m, modif, a)
            && all_effective(act_tr(m, modif, a), modif, s1.drop_first())));
        assert(all_effective(act_tr(m, modif, a), modif, s1.drop_first()));
        assert(all_effective(m, modif, acts));
        assert(inv_steps_rev(m, modif, s1) == inv_steps_rev(act_tr(m, modif, a), modif, s1.drop_first())
            + seq![inv_step(step_of(m, a))]);
        assert(inv_steps_rev(act_tr(m, modif, a), modif, s1.drop_first()) == Seq::<StepView>::empty());
        assert(inv_steps_rev(m, modif, acts) == Seq::<StepView>::empty());
        assert(inv_steps_rev(m, modif, s1) =~= seq![inv_step(step_of(m, a))] + inv_steps_rev(
            m,
            modif,
            acts,
        ));
    } else {
        assert(s1[0] == acts[0]);
        assert(s1.drop_first() =~= acts.drop_first().push(a));
        let m1 = act_tr(m, modif, acts[0]);
        lemma_acts_snoc(m1, modif, acts.drop_first(), a);
        assert(acts_tr(m, modif, s1) == acts_tr(m1, modif, s1.drop_first()));
        assert(acts_tr(m, modif, acts) == acts_tr(m1, modif, acts.drop_first()));
        assert(all_effective(m, modif, s1) == (act_wf(s1[0]) && act_effective(m, modif, s1[0])
            && all_effective(m1, modif, s1.drop_first())));
        assert(all_effective(m, modif, acts) == (act_wf(acts[0]) && act_effective(
            m,
            modif,
            acts[0],
        ) && all_effective(m1, modif, acts.drop_first())));
        assert(inv_steps_rev(m, modif, s1) == inv_steps_rev(m1, modif, s1.drop_first()) + seq![
            inv_step(step_of(m, acts[0])),
        ]);
        assert(inv_steps_rev(m, modif, acts) == inv_steps_rev(m1, modif, acts.drop_first())
            + seq![inv_step(step_of(m, acts[0]))]);
        assert(inv_steps_rev(m, modif, s1) =~= seq![
            inv_step(step_of(acts_tr(m, modif, acts), a)),
        ] + inv_steps_rev(m, modif, acts));
    }
}

/// A run of well-formed actions keeps the state well-formed.
proof fn lemma_acts_keep_wf(m: StateModel, modif: Seq<Seq<bool>>, acts: Seq<PlayerAct>)
    requires
        model_wf(m),
        mask_dims(modif),
        all_effective(m, modif, acts),
    ensures
        model_wf(acts_tr(m, modif, acts)),
    decreases acts.len(),
{
    if acts.len() > 0 {
        lemma_act_keeps_wf(m, modif, acts[0]);
        lemma_acts_keep_wf(act_tr(m, modif, acts[0]), modif, acts.drop_first());
    }
}

/// Undoing once per action of a run walks the state back to where the run
/// began, appending the inverted steps to whatever redo stack is present.
proof fn lemma_undo_phase(
    m: StateModel,
    modif: Seq<Seq<bool>>,
    acts: Seq<PlayerAct>,
    rd: Seq<StepView>,
)
    requires
        model_wf(m),
        mask_dims(modif),
        all_effective(m, modif, acts),
    ensures
        ({
            let w = acts_tr(m, modif, acts);
            undo_n(
                StateModel { board: w.board, marks: w.marks, undos: w.undos, redos: rd },
                acts.len(),
            ) == (StateModel {
                board: m.board,
                marks: m.marks,
                undos: m.undos,
                redos: rd + inv_steps_rev(m, modif, acts),
            })
        }),
    decreases acts.len(),
{
    let w = acts_tr(m, modif, acts);
    if acts.len() == 0 {
        assert(rd + inv_steps_rev(m, modif, acts) =~= rd);
        assert(undo_n(
            StateModel { board: w.board, marks: w.marks, undos: w.undos, redos: rd },
            acts.len(),
        ) =~~= (StateModel {
            board: m.board,
            marks: m.marks,
            undos: m.undos,
            redos: rd + inv_steps_rev(m, modif, acts),
        }));
    } else {
        let init = acts.drop_last();
        let a = acts.last();
        assert(acts =~= init.push(a));
        lemma_acts_snoc(m, modif, init, a);
        let m1 = acts_tr(m, modif, init);
        lemma_acts_keep_wf(m, modif, init);
        lemma_act_undo(m1, modif, a, rd);
        let rd1 = rd.push(inv_step(step_of(m1, a)));
        lemma_undo_phase(m, modif, init, rd1);
        assert(rd1 + inv_steps_rev(m, modif, init) =~= rd + inv_steps_rev(m, modif, acts));
        assert(undo_n(
            StateModel { board: w.board, marks: w.marks, undos: w.undos, redos: rd },
            acts.len(),
        ) =~~= (StateModel {
            board: m.board,
            marks: m.marks,
            undos: m.undos,
            redos: rd + inv_steps_rev(m, modif, acts),
        }));
    }
}

/// Redoing once per action of a run walks the state forward again to where
/// the run ended, consuming the inverted steps.
proof fn lemma_redo_phase(
    m: StateModel,
    modif: Seq<Seq<bool>>,
    acts: Seq<PlayerAct>,
    rd: Seq<StepView>,
)
    requires
        model_wf(m),
        mask_dims(modif),
        all_effective(m, modif, acts),
    ensures
        ({
            let w = acts_tr(m, modif, acts);
            redo_n(
                StateModel {
                    board: m.board,
                    marks: m.marks,
                    undos: m.undos,
                    redos: rd + inv_steps_rev(m, modif, acts),
                },
                acts.len(),
            ) == (StateModel { board: w.board, marks: w.marks, undos: w.undos, redos: rd })
        }),
    decreases acts.len(),
{
    let w = acts_tr(m, modif, acts);
    if acts.len() == 0 {
        assert(rd + inv_steps_rev(m, modif, acts) =~= rd);
        assert(redo_n(
            StateModel {
                board: m.board,
                marks: m.marks,
                undos: m.undos,
                redos: rd + inv_steps_rev(m, modif, acts),
            },
            acts.len(),
        ) =~~= (StateModel { board: w.board, marks: w.marks, undos: w.undos, redos: rd }));
    } else {
        let a = acts[0];
        let rest = acts.drop_first();
        let m1 = act_tr(m, modif, a);
        let rd1 = rd + inv_steps_rev(m1, modif, rest);
        assert(rd + inv_steps_rev(m, modif, acts) =~= rd1.push(inv_step(step_of(m, a))));
        lemma_act_redo(m, modif, a, rd1);
        lemma_act_keeps_wf(m, modif, a);
        lemma_redo_phase(m1, modif, rest, rd);
        assert(redo_n(
            StateModel {
                board: m.board,
                marks: m.marks,
                undos: m.undos,
                redos: rd + inv_steps_rev(m, modif, acts),
            },
            acts.len(),
        ) =~~= (StateModel { board: w.board, marks: w.marks, undos: w.undos, redos: rd }));
    }
}

/// Undo/redo round trip: for any run of place, retract and annotation
/// toggle actions, each taking effect on the state it meets, undoing once
/// per action restores the board, the marks and the undo stack exactly as
/// they were before the run; redoing once per action then restores the
/// exact post-run state.
pub proof fn lemma_undo_redo_round_trip(
    m: StateModel,
    modif: Seq<Seq<bool>>,
    acts: Seq<PlayerAct>,
)
    requires
        model_wf(m),
        mask_dims(modif),
        all_effective(m, modif, acts),
    ensures
        ({
            let w = acts_tr(m, modif, acts);
            let u = undo_n(w, acts.len());
            &&& u.board == m.board
            &&& u.marks == m.marks
            &&& u.undos == m.undos
            &&& redo_n(u, acts.len()) == w
        }),
{
    let w = acts_tr(m, modif, acts);
    if acts.len() == 0 {
    } else {
        let init = acts.drop_last();
        let a = acts.last();
        assert(acts =~= init.push(a));
        lemma_acts_snoc(m, modif, init, a);
        let m1 = acts_tr(m, modif, init);
        assert(w == act_tr(m1, modif, a));
        assert(w.redos =~= Seq::<StepView>::empty()) by {
            match a {
                PlayerAct::Place(r, c, d) => {},
                PlayerAct::Retract(r, c) => {},
                PlayerAct::ToggleMark(r, c, d) => {},
            }
        }
        lemma_undo_phase(m, modif, acts, w.redos);
        assert((StateModel { board: w.board, marks: w.marks, undos: w.undos, redos: w.redos })
            =~~= w);
        lemma_redo_phase(m, modif, acts, w.redos);
    }
}

/// Every action of the run aims at a cell and carries a digit 1..=9.
pub open spec fn acts_wf(acts: Seq<PlayerAct>) -> bool {
    forall|i: int| 0 <= i < acts.len() ==> act_wf(#[trigger] acts[i])
}

/// The effective actions of a run, each judged on the state it meets.
pub open spec fn effective_only(m: StateModel, modif: Seq<Seq<bool>>, acts: Seq<PlayerAct>) -> Seq<
    PlayerAct,
>
    decreases acts.len(),
{
    if acts.len() == 0 {
        Seq::empty()
    } else {
        let rest = effective_only(act_tr(m, modif, acts[0]), modif, acts.drop_first());
        if act_effective(m, modif, acts[0]) {
            seq![acts[0]] + rest
        } else {
            rest
        }
    }
}

/// An action that does not take effect leaves the state as it was.
proof fn lemma_noop_act(m: StateModel, modif: Seq<Seq<bool>>, a: PlayerAct)
    requires
        !act_effective(m, modif, a),
    ensures
        act_tr(m, modif, a) == m,
{
}

/// A run of actions does what its effective actions alone do.
proof fn lemma_effective_only(m: StateModel, modif: Seq<Seq<bool>>, acts: Seq<PlayerAct>)
    requires
        acts_wf(acts),
    ensures
        acts_tr(m, modif, acts) == acts_tr(m, modif, effective_only(m, modif, acts)),
        all_effective(m, modif, effective_only(m, modif, acts)),
        effective_only(m, modif, acts).len() <= acts.len(),
    decreases acts.len(),
{
    if acts.len() > 0 {
        let a = acts[0];
        let m1 = act_tr(m, modif, a);
        assert(acts_wf(acts.drop_first())) by {
            assert forall|i: int| 0 <= i < acts.drop_first().len() implies act_wf(
                #[trigger] acts.drop_first()[i],
            ) by {
                assert(acts.drop_first()[i] == acts[i + 1]);
            }
        }
        lemma_effective_only(m1, modif, acts.drop_first());
        let rest = effective_only(m1, modif, acts.drop_first());
        if act_effective(m, modif, a) {
            let eff = seq![a] + rest;
            assert(eff[0] == a);
            assert(eff.drop_first() =~= rest);
            assert(acts_tr(m, modif, eff) == acts_tr(m1, modif, rest));
            assert(all_effective(m, modif, eff) == (act_wf(a) && act_effective(m, modif, a)
                && all_effective(m1, modif, rest)));
        } else {
            lemma_noop_act(m, modif, a);
        }
    }
}

/// Undoing with an empty undo stack changes nothing, however often.
proof fn lemma_undo_n_noop(m: StateModel, n: nat)
    requires
        m.undos.len() == 0,
    ensures
        undo_n(m, n) == m,
    decreases n,
{
    if n > 0 {
        lemma_undo_n_noop(m, (n - 1) as nat);
    }
}

/// Redoing with an empty redo stack changes nothing, however often.
proof fn lemma_redo_n_noop(m: StateModel, n: nat)
    requires
        m.redos.len() == 0,
    ensures
        redo_n(m, n) == m,
    decreases n,
{
    if n > 0 {
        lemma_redo_n_noop(m, (n - 1) as nat);
    }
}

/// Undoing `a + b` times is undoing `a` times, then `b` times.
proof fn lemma_undo_n_split(m: StateModel, a: nat, b: nat)
    ensures
        undo_n(m, a + b) == undo_n(undo_n(m, a), b),
    decreases a,
{
    if a > 0 {
        lemma_undo_n_split(undo_tr(m), (a - 1) as nat, b);
    }
}

/// Redoing `a + b` times is redoing `a` times, then `b` times.
proof fn lemma_redo_n_split(m: StateModel, a: nat, b: nat)
    ensures
        redo_n(m, a + b) == redo_n(redo_n(m, a), b),
    decreases a,
{
    if a > 0 {
        lemma_redo_n_split(redo_tr(m), (a - 1) as nat, b);
    }
}

/// A run ending in an effective action leaves the redo stack empty.
proof fn lemma_effective_run_clears_redos(
    m: StateModel,
    modif: Seq<Seq<bool>>,
    acts: Seq<PlayerAct>,
)
    requires
        acts.len() > 0,
        all_effective(m, modif, acts),
    ensures
        acts_tr(m, modif, acts).redos.len() == 0,
        acts_tr(m, modif, acts).undos.len() > 0,
{
    let init = acts.drop_last();
    let a = acts.last();
    assert(acts =~= init.push(a));
    lemma_acts_snoc(m, modif, init, a);
    let m1 = acts_tr(m, modif, init);
    let w = acts_tr(m, modif, acts);
    assert(w == act_tr(m1, modif, a));
    match a {
        PlayerAct::Place(r, c, d) => {},
        PlayerAct::Retract(r, c) => {},
        PlayerAct::ToggleMark(r, c, d) => {},
    }
}

/// Undo/redo round trip from a fresh session: starting with empty undo and
/// redo stacks, after any run of place, retract and annotation toggle
/// actions — including ones that bounce off locked or filled cells —
/// undoing once per action restores the board and the marks exactly as
/// they were before the run, and redoing once per action then restores the
/// exact post-run state.
pub proof fn lemma_fresh_session_round_trip(
    m: StateModel,
    modif: Seq<Seq<bool>>,
    acts: Seq<PlayerAct>,
)
    requires
        model_wf(m),
        mask_dims(modif),
        m.undos.len() == 0,
        m.redos.len() == 0,
        acts_wf(acts),
    ensures
        ({
            let w = acts_tr(m, modif, acts);
            let u = undo_n(w, acts.len());
            &&& u.board == m.board
            &&& u.marks == m.marks
            &&& redo_n(u, acts.len()) == w
        }),
{
    let w = acts_tr(m, modif, acts);
    let n = acts.len();
    lemma_effective_only(m, modif, acts);
    let eff = effective_only(m, modif, acts);
    let k = eff.len();
    assert(w == acts_tr(m, modif, eff));
    if k == 0 {
        assert(w == m);
        lemma_undo_n_noop(w, n);
        lemma_redo_n_noop(w, n);
    } else {
        lemma_effective_run_clears_redos(m, modif, eff);
        assert(w.redos.len() == 0);
        lemma_undo_phase(m, modif, eff, w.redos);
        assert((StateModel { board: w.board, marks: w.marks, undos: w.undos, redos: w.redos })
            =~~= w);
        let u0 = StateModel {
            board: m.board,
            marks: m.marks,
            undos: m.undos,
            redos: w.redos + inv_steps_rev(m, modif, eff),
        };
        assert(undo_n(w, k) == u0);
        lemma_undo_n_split(w, k, (n - k) as nat);
        lemma_undo_n_noop(u0, (n - k) as nat);
        assert(undo_n(w, n) == u0);
        lemma_redo_phase(m, modif, eff, w.redos);
        assert(redo_n(u0, k) == (StateModel {
            board: w.board,
            marks: w.marks,
            undos: w.undos,
            redos: w.redos,
        }));
        lemma_redo_n_split(u0, k, (n - k) as nat);
        lemma_redo_n_noop(redo_n(u0, k), (n - k) as nat);
        assert(redo_n(u0, n) == w);
    }
}

/// Redo invalidation: a fresh effective action clears the redo stack, so a
/// redo right after it changes nothing.
pub proof fn lemma_new_action_invalidates_redo(
    m: StateModel,
    modif: Seq<Seq<bool>>,
    a: PlayerAct,
)
    requires
        model_wf(m),
        mask_dims(modif),
        act_wf(a),
        act_effective(m, modif, a),
    ensures
        act_tr(m, modif, a).redos.len() == 0,
        redo_tr(act_tr(m, modif, a)) == act_tr(m, modif, a),
{
    match a {
        PlayerAct::Place(r, c, d) => {},
        PlayerAct::Retract(r, c) => {},
        PlayerAct::ToggleMark(r, c, d) => {},
    }
}

/// The recorded positions of the scan are in range and at most 27.
pub proof fn lemma_colliding_bounds(m: Seq<Seq<Seq<bool>>>, d: u8, r: int, c: int, i: int)
    requires
        0 <= r < 9,
        0 <= c < 9,
        0 <= i <= 9,
    ensures
        colliding_seq(m, d, r, c, i).len() <= 3 * i,
        forall|t: int|
            0 <= t < colliding_seq(m, d, r, c, i).len() ==> (#[trigger] colliding_seq(
                m,
                d,
                r,
                c,
                i,
            )[t]).0 < 9 && colliding_seq(m, d, r, c, i)[t].1 < 9,
    decreases i,
{
    if i > 0 {
        lemma_colliding_bounds(m, d, r, c, i - 1);
        assert(0 <= r / 3 * 3 + (i - 1) / 3 < 9 && 0 <= c / 3 * 3 + (i - 1) % 3 < 9)
            by (nonlinear_arith)
            requires
                0 <= r < 9 && 0 <= c < 9 && 0 < i <= 9,
        ;
    }
}

} // verus!
