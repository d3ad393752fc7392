use vstd::prelude::*;

use crate::board::Board;
use crate::board::board_matches;
use crate::board::completable;
use crate::board::consistent;
use crate::board::empty_count;
use crate::board::extends;
use crate::board::grid_solved;
use crate::board::in_range;
use crate::board::is_full;
use crate::board::lemma_empty_count_fill;
use crate::board::lemma_solved_board_to_grid;
use crate::board::placeable;
use crate::board::same_unit;
use crate::board::solved;
use crate::rng::fresh_rng;
use crate::rng::shuffle;

verus! {

broadcast use vstd::seq_lib::group_to_multiset_ensures;

/// Categories of difficulty, each standing for a number of cells left
/// empty on the generated board (see `Difficulty::removal_count`).
#[derive(Clone, Copy, PartialEq, Eq, Structural)]
pub enum Difficulty {
    Easy,
    Mid,
    Hard,
    Expert,
    Custom(usize),
}

impl Difficulty {
    /// The number of cells a board of this difficulty asks to have removed.
    pub open spec fn removal_count_spec(self) -> int {
        match self {
            Difficulty::Easy => 31,
            Difficulty::Mid => 39,
            Difficulty::Hard => 49,
            Difficulty::Expert => 61,
            Difficulty::Custom(x) => x as int,
        }
    }

    /// The number of cells to be deleted from a filled sudoku board of the
    /// given `Difficulty`.
    pub fn removal_count(&self) -> (n: usize)
        ensures
            n == self.removal_count_spec(),
    {
        match self {
            Difficulty::Easy => 31,
            Difficulty::Mid => 39,
            Difficulty::Hard => 49,
            Difficulty::Expert => 61,
            Difficulty::Custom(x) => *x,
        }
    }
}

/// The `j`-th cell scanned in the block around `(r, c)` does not hold `x`.
pub open spec fn block_scan_free(b: Board, r: int, c: int, j: int, x: u8) -> bool {
    b[r / 3 * 3 + j / 3][c / 3 * 3 + j % 3] != x
}

/// Check whether placing value `x` in the cell at `row`, `col` is a valid
/// move on the given board: `x` must not already appear in that cell's row,
/// column, or 3x3 block.
pub fn valid_move(board: &Board, row: usize, col: usize, x: u8) -> (r: bool)
    requires
        row < 9,
        col < 9,
    ensures
        r == placeable(*board, row as int, col as int, x),
{
    let b = *board;
    let base_r = row / 3 * 3;
    let base_c = col / 3 * 3;
    for i in 0..9usize
        invariant
            b == *board,
            row < 9,
            col < 9,
            base_r == (row as int) / 3 * 3,
            base_c == (col as int) / 3 * 3,
            forall|j: int| 0 <= j < i ==> b[row as int][j] != x,
            forall|j: int| 0 <= j < i ==> b[j][col as int] != x,
            forall|j: int| 0 <= j < i ==> #[trigger] block_scan_free(b, row as int, col as int, j, x),
    {
        proof {
            assert(0 <= (i as int) / 3 < 3 && 0 <= (i as int) % 3 < 3) by (nonlinear_arith)
                requires
                    0 <= i < 9,
            ;
        }
        if b[row][i] == x || b[i][col] == x || b[base_r + i / 3][base_c + i % 3] == x {
            return false;
        }
        proof {
            assert(block_scan_free(b, row as int, col as int, i as int, x));
        }
    }
    proof {
        assert forall|r2: int, c2: int|
            0 <= r2 < 9 && 0 <= c2 < 9 && same_unit(row as int, col as int, r2, c2)
            implies #[trigger] b[r2][c2] != x by {
            if r2 == row as int {
                assert(b[row as int][c2] != x);
            } else if c2 == col as int {
                assert(b[r2][col as int] != x);
            } else {
                let j = r2 % 3 * 3 + c2 % 3;
                assert(0 <= r2 % 3 < 3 && r2 == r2 / 3 * 3 + r2 % 3) by (nonlinear_arith)
                    requires
                        0 <= r2 < 9,
                ;
                assert(0 <= c2 % 3 < 3 && c2 == c2 / 3 * 3 + c2 % 3) by (nonlinear_arith)
                    requires
                        0 <= c2 < 9,
                ;
                assert(j / 3 == r2 % 3 && j % 3 == c2 % 3) by (nonlinear_arith)
                    requires
                        0 <= r2 % 3 < 3 && 0 <= c2 % 3 < 3 && j == r2 % 3 * 3 + c2 % 3,
                ;
                assert(block_scan_free(b, row as int, col as int, j, x));
                assert(b[(row as int) / 3 * 3 + j / 3][(col as int) / 3 * 3 + j % 3] != x);
            }
        }
    }
    true
}

/// Swapping two positions of a sequence keeps its multiset of elements.
proof fn lemma_swap_multiset<T>(s: Seq<T>, i: int, j: int)
    requires
        0 <= i < s.len(),
        0 <= j < s.len(),
        i != j,
    ensures
        s.update(i, s[j]).update(j, s[i]).to_multiset() == s.to_multiset(),
{
    broadcast use vstd::multiset::group_multiset_axioms;
    broadcast use vstd::multiset::group_multiset_properties;

    let s1 = s.update(i, s[j]);
    assert(s1[j] == s[j]);
    assert(s.contains(s[i]));
    assert(s.to_multiset().count(s[i]) > 0);
    assert(s1.to_multiset() == s.to_multiset().insert(s[j]).remove(s[i]));
    assert(s1.update(j, s[i]).to_multiset() == s1.to_multiset().insert(s[i]).remove(s1[j]));
    assert(s.to_multiset().insert(s[j]).remove(s[i]).insert(s[i]).remove(s[j])
        =~= s.to_multiset());
}

/// Sort a vector of pairs in place by first component, ascending.
/// The result is a reordering of the input.
fn sort_by_first(v: &mut Vec<(usize, usize)>)
    ensures
        final(v)@.to_multiset() == old(v)@.to_multiset(),
        final(v)@.len() == old(v)@.len(),
        forall|a: int, b: int|
            0 <= a <= b < final(v)@.len() ==> (#[trigger] final(v)@[a]).0 <= (
            #[trigger] final(v)@[b]).0,
{
    let ghost orig = v@;
    let n = v.len();
    if n == 0 {
        return ;
    }
    let mut i: usize = 1;
    while i < n
        invariant
            1 <= i <= n,
            n == v@.len(),
            v@.to_multiset() == orig.to_multiset(),
            forall|a: int, b: int| 0 <= a <= b < i ==> (#[trigger] v@[a]).0 <= (#[trigger] v@[b]).0,
        decreases n - i,
    {
        let mut j: usize = i;
        while j > 0 && v[j - 1].0 > v[j].0
            invariant
                0 <= j <= i < n,
                n == v@.len(),
                v@.to_multiset() == orig.to_multiset(),
                forall|a: int, b: int|
                    0 <= a <= b <= i && a != j && b != j ==> (#[trigger] v@[a]).0 <= (
                    #[trigger] v@[b]).0,
                forall|b: int| j < b <= i ==> (v@[j as int]).0 <= (#[trigger] v@[b]).0,
            decreases j,
        {
            let ghost before = v@;
            let x = v[j - 1];
            let y = v[j];
            v.set(j - 1, y);
            v.set(j, x);
            proof {
                lemma_swap_multiset(before, j - 1, j as int);
                assert(v@ =~= before.update(j - 1, before[j as int]).update(j as int, before[j
                    - 1]));
            }
            j = j - 1;
        }
        i = i + 1;
    }
}

/// The pair `p` names an in-range cell that is empty on `b`.
pub open spec fn empty_pos(b: Board, p: (usize, usize)) -> bool {
    p.0 < 9 && p.1 < 9 && b[p.0 as int][p.1 as int] == 0
}

/// The cell reached through entries `aa` of `rows` and `bb` of `cols` is
/// either filled or already collected in `cells`.
pub open spec fn cell_collected(
    b: Board,
    rows: Seq<usize>,
    cols: Seq<usize>,
    cells: Seq<(usize, usize)>,
    aa: int,
    bb: int,
) -> bool {
    b[rows[aa] as int][cols[bb] as int] == 0 ==> cells.contains((rows[aa], cols[bb]))
}

/// No complete, rule-abiding grid that agrees with `b` puts digit `d` at `(r, c)`.
pub open spec fn no_completion_with(b: Board, r: int, c: int, d: u8) -> bool {
    forall|s: Seq<Seq<u8>>| grid_solved(s) && board_matches(b, s) ==> s[r][c] != d
}

/// Row-major cell codes decode back to their coordinates.
proof fn lemma_pos_code(r: int, c: int)
    requires
        0 <= r < 9,
        0 <= c < 9,
    ensures
        (r * 9 + c) / 9 == r,
        (r * 9 + c) % 9 == c,
        r * 9 + c < 81,
{
    assert((r * 9 + c) / 9 == r && (r * 9 + c) % 9 == c && r * 9 + c < 81) by (nonlinear_arith)
        requires
            0 <= r < 9 && 0 <= c < 9,
    ;
}

/// Placing a placeable digit on an empty cell keeps the board consistent.
proof fn lemma_place_consistent(b: Board, b2: Board, r: int, c: int, x: u8)
    requires
        0 <= r < 9,
        0 <= c < 9,
        in_range(b),
        consistent(b),
        placeable(b, r, c, x),
        1 <= x <= 9,
        b[r][c] == 0,
        b2[r][c] == x,
        forall|r2: int, c2: int|
            0 <= r2 < 9 && 0 <= c2 < 9 && !(r2 == r && c2 == c) ==> #[trigger] b2[r2][c2]
                == b[r2][c2],
    ensures
        in_range(b2),
        consistent(b2),
        extends(b, b2),
{
    assert forall|r1: int, c1: int, r2: int, c2: int|
        0 <= r1 < 9 && 0 <= c1 < 9 && 0 <= r2 < 9 && 0 <= c2 < 9
            && !(r1 == r2 && c1 == c2) && same_unit(r1, c1, r2, c2) && #[trigger] b2[r1][c1] != 0
        implies b2[r1][c1] != #[trigger] b2[r2][c2] by {
        if r1 == r && c1 == c {
            assert(b2[r2][c2] == b[r2][c2]);
            assert(b[r2][c2] != x);
        } else if r2 == r && c2 == c {
            assert(same_unit(r1, c1, r, c) ==> same_unit(r, c, r1, c1));
            assert(b[r1][c1] != x);
        } else {
        }
    }
}

/// A complete grid agreeing with `b` places a digit at any empty cell of `b`
/// that is still a valid move there.
proof fn lemma_completion_digit(b: Board, s: Seq<Seq<u8>>, r: int, c: int)
    requires
        0 <= r < 9,
        0 <= c < 9,
        grid_solved(s),
        board_matches(b, s),
        b[r][c] == 0,
    ensures
        1 <= s[r][c] <= 9,
        placeable(b, r, c, s[r][c]),
{
    let d = s[r][c];
    assert forall|r2: int, c2: int|
        0 <= r2 < 9 && 0 <= c2 < 9 && same_unit(r, c, r2, c2) implies #[trigger] b[r2][c2]
        != d by {
        if b[r2][c2] != 0 {
            assert(s[r2][c2] == b[r2][c2]);
            assert(!(r2 == r && c2 == c));
            assert(s[r2][c2] != s[r][c]);
        }
    }
}

/// A grid agreeing with `b` and placing `x` at `(r, c)` agrees with the board
/// that updates `b` there.
proof fn lemma_completion_update(b: Board, b2: Board, s: Seq<Seq<u8>>, r: int, c: int, x: u8)
    requires
        0 <= r < 9,
        0 <= c < 9,
        board_matches(b, s),
        s[r][c] == x,
        x != 0,
        b2[r][c] == x,
        forall|r2: int, c2: int|
            0 <= r2 < 9 && 0 <= c2 < 9 && !(r2 == r && c2 == c) ==> #[trigger] b2[r2][c2]
                == b[r2][c2],
    ensures
        board_matches(b2, s),
{
}

/// Solve the board by randomized backtracking: collect the empty cells in a
/// random order, pick one with few remaining options, and try its candidate
/// digits in a least-constraining order, recursing after each placement.
///
/// Returns the completed board on success. On failure the board is returned
/// unchanged, and no complete, rule-abiding grid agrees with it.
fn solve_rec(board: Board) -> (res: (Board, bool))
    requires
        in_range(board),
        consistent(board),
    ensures
        in_range(res.0),
        consistent(res.0),
        extends(board, res.0),
        res.1 ==> solved(res.0),
        !res.1 ==> res.0 == board && !completable(board),
    decreases empty_count(board),
{
    let b = board;
    let mut rng = fresh_rng();

    let mut rows: Vec<usize> = Vec::new();
    let mut cols: Vec<usize> = Vec::new();
    for i in 0..9usize
        invariant
            rows@.len() == i,
            cols@.len() == i,
            forall|k: int| 0 <= k < i ==> #[trigger] rows@[k] == k,
            forall|k: int| 0 <= k < i ==> #[trigger] cols@[k] == k,
    {
        rows.push(i);
        cols.push(i);
    }
    let ghost rows0 = rows@;
    let ghost cols0 = cols@;
    shuffle(&mut rows, &mut rng);
    shuffle(&mut cols, &mut rng);
    proof {
        assert(rows@.len() == rows@.to_multiset().len());
        assert(rows0.len() == rows0.to_multiset().len());
        assert(cols@.len() == cols@.to_multiset().len());
        assert(cols0.len() == cols0.to_multiset().len());
        assert forall|rv: usize| rv < 9 implies rows@.contains(rv) && cols@.contains(rv) by {
            assert(rows0[rv as int] == rv);
            assert(rows0.contains(rv));
            assert(rows0.to_multiset().count(rv) > 0);
            assert(rows@.to_multiset().count(rv) > 0);
            assert(cols0[rv as int] == rv);
            assert(cols0.contains(rv));
            assert(cols0.to_multiset().count(rv) > 0);
            assert(cols@.to_multiset().count(rv) > 0);
        }
        assert forall|k: int| 0 <= k < 9 implies #[trigger] rows@[k] < 9 by {
            assert(rows@.contains(rows@[k]));
            assert(rows@.to_multiset().count(rows@[k]) > 0);
            assert(rows0.to_multiset().count(rows@[k]) > 0);
            assert(rows0.contains(rows@[k]));
            let a = choose|a: int| 0 <= a < rows0.len() && rows0[a] == rows@[k];
            assert(rows0[a] == a);
        }
        assert forall|k: int| 0 <= k < 9 implies #[trigger] cols@[k] < 9 by {
            assert(cols@.contains(cols@[k]));
            assert(cols@.to_multiset().count(cols@[k]) > 0);
            assert(cols0.to_multiset().count(cols@[k]) > 0);
            assert(cols0.contains(cols@[k]));
            let a2 = choose|a: int| 0 <= a < cols0.len() && cols0[a] == cols@[k];
            assert(cols0[a2] == a2);
        }
    }

    let mut empty_cells: Vec<(usize, usize)> = Vec::new();
    for ri in 0..9usize
        invariant
            b == board,
            rows@.len() == 9,
            cols@.len() == 9,
            forall|k: int| 0 <= k < 9 ==> #[trigger] rows@[k] < 9,
            forall|k: int| 0 <= k < 9 ==> #[trigger] cols@[k] < 9,
            forall|rv: usize| rv < 9 ==> rows@.contains(rv) && cols@.contains(rv),
            forall|t: int|
                0 <= t < empty_cells@.len() ==> empty_pos(b, #[trigger] empty_cells@[t]),
            forall|aa: int, bb: int|
                0 <= aa < ri && 0 <= bb < 9 ==> #[trigger] cell_collected(
                    b,
                    rows@,
                    cols@,
                    empty_cells@,
                    aa,
                    bb,
                ),
    {
        let r = rows[ri];
        for ci in 0..9usize
            invariant
                b == board,
                ri < 9,
                rows@.len() == 9,
                cols@.len() == 9,
                r == rows@[ri as int],
                r < 9,
                forall|k: int| 0 <= k < 9 ==> #[trigger] cols@[k] < 9,
                forall|t: int|
                    0 <= t < empty_cells@.len() ==> empty_pos(b, #[trigger] empty_cells@[t]),
                forall|aa: int, bb: int|
                    0 <= aa < ri && 0 <= bb < 9 ==> #[trigger] cell_collected(
                        b,
                        rows@,
                        cols@,
                        empty_cells@,
                        aa,
                        bb,
                    ),
                forall|bb: int|
                    0 <= bb < ci ==> #[trigger] cell_collected(
                        b,
                        rows@,
                        cols@,
                        empty_cells@,
                        ri as int,
                        bb,
                    ),
        {
            let c = cols[ci];
            let ghost pre = empty_cells@;
            if b[r][c] == 0 {
                empty_cells.push((r, c));
            }
            proof {
                assert forall|t: int|
                    0 <= t < empty_cells@.len() implies empty_pos(
                    b,
                    #[trigger] empty_cells@[t],
                ) by {
                    if t < pre.len() {
                        assert(empty_cells@[t] == pre[t]);
                    }
                }
                assert forall|p: (usize, usize)| pre.contains(p) implies empty_cells@.contains(
                    p,
                ) by {
                    let t = choose|t: int| 0 <= t < pre.len() && pre[t] == p;
                    assert(empty_cells@[t] == p);
                }
                assert forall|aa: int, bb: int|
                    0 <= aa < ri && 0 <= bb < 9 implies #[trigger] cell_collected(
                    b,
                    rows@,
                    cols@,
                    empty_cells@,
                    aa,
                    bb,
                ) by {
                    assert(cell_collected(b, rows@, cols@, pre, aa, bb));
                }
                assert forall|bb: int|
                    0 <= bb < ci + 1 implies #[trigger] cell_collected(
                    b,
                    rows@,
                    cols@,
                    empty_cells@,
                    ri as int,
                    bb,
                ) by {
                    if bb < ci {
                        assert(cell_collected(b, rows@, cols@, pre, ri as int, bb));
                    } else {
                        if b[r as int][cols@[bb] as int] == 0 {
                            assert(empty_cells@[pre.len() as int] == (r, cols@[bb]));
                        }
                    }
                }
            }
        }
    }

    if empty_cells.len() == 0 {
        proof {
            assert forall|r: int, c: int| 0 <= r < 9 && 0 <= c < 9 implies 1 <= #[trigger] b[r][c]
                <= 9 by {
                if b[r][c] == 0 {
                    assert(rows@.contains(r as usize));
                    assert(cols@.contains(c as usize));
                    let ar = choose|a: int| 0 <= a < rows@.len() && rows@[a] == r as usize;
                    let bc = choose|a: int| 0 <= a < cols@.len() && cols@[a] == c as usize;
                    assert(cell_collected(b, rows@, cols@, empty_cells@, ar, bc));
                }
            }
            assert(is_full(b));
            lemma_solved_board_to_grid(b);
        }
        return (board, true);
    }

    // Rank the empty cells by how many digits remain legal there (fewest
    // first), coding each cell by its row-major position.
    let mut keyed: Vec<(usize, usize)> = Vec::new();
    for idx in 0..empty_cells.len()
        invariant
            b == board,
            keyed@.len() == idx,
            forall|t: int|
                0 <= t < empty_cells@.len() ==> empty_pos(b, #[trigger] empty_cells@[t]),
            forall|t: int|
                0 <= t < idx ==> (#[trigger] keyed@[t]).1 == empty_cells@[t].0 * 9
                    + empty_cells@[t].1,
    {
        let (r, c) = empty_cells[idx];
        let mut count: usize = 0;
        for d in 1..10u8
            invariant
                b == board,
                r < 9,
                c < 9,
                count < d,
        {
            if valid_move(&b, r, c, d) {
                count += 1;
            }
        }
        keyed.push((count, r * 9 + c));
    }
    let ghost keyed0 = keyed@;
    sort_by_first(&mut keyed);
    let code = keyed[0].1;
    proof {
        assert(keyed@.contains(keyed@[0]));
        assert(keyed@.to_multiset().count(keyed@[0]) > 0);
        assert(keyed0.to_multiset().count(keyed@[0]) > 0);
        assert(keyed0.contains(keyed@[0]));
        let t = choose|t: int| 0 <= t < keyed0.len() && keyed0[t] == keyed@[0];
        assert(empty_pos(b, empty_cells@[t]));
        lemma_pos_code(empty_cells@[t].0 as int, empty_cells@[t].1 as int);
    }
    let r0 = code / 9;
    let c0 = code % 9;
    assert(r0 < 9 && c0 < 9 && b[r0 as int][c0 as int] == 0);

    // Gather the digits that may go at the chosen cell.
    let mut values: Vec<u8> = Vec::new();
    for d in 1..10u8
        invariant
            b == board,
            r0 < 9,
            c0 < 9,
            forall|t: int|
                0 <= t < values@.len() ==> 1 <= #[trigger] values@[t] <= 9 && placeable(
                    b,
                    r0 as int,
                    c0 as int,
                    values@[t],
                ),
            forall|dd: u8|
                1 <= dd < d && placeable(b, r0 as int, c0 as int, dd) ==> values@.contains(dd),
    {
        let ghost prev = values@;
        if valid_move(&b, r0, c0, d) {
            values.push(d);
        }
        proof {
            assert forall|dd: u8|
                1 <= dd < d + 1 && placeable(b, r0 as int, c0 as int, dd) implies values@.contains(
                dd,
            ) by {
                if dd < d {
                    assert(prev.contains(dd));
                    let t = choose|t: int| 0 <= t < prev.len() && prev[t] == dd;
                    assert(values@[t] == dd);
                } else {
                    assert(values@[values@.len() - 1] == dd);
                }
            }
        }
    }

    // Order the candidate digits by how many empty cells would still accept
    // them (fewest first), pairing each digit with that count.
    let mut keyed_vals: Vec<(usize, usize)> = Vec::new();
    for idx in 0..values.len()
        invariant
            b == board,
            keyed_vals@.len() == idx,
            forall|t: int|
                0 <= t < values@.len() ==> 1 <= #[trigger] values@[t] <= 9 && placeable(
                    b,
                    r0 as int,
                    c0 as int,
                    values@[t],
                ),
            forall|t: int|
                0 <= t < empty_cells@.len() ==> empty_pos(b, #[trigger] empty_cells@[t]),
            forall|t: int|
                0 <= t < idx ==> (#[trigger] keyed_vals@[t]).1 == values@[t] as usize,
    {
        let x = values[idx];
        let mut count: usize = 0;
        for e in 0..empty_cells.len()
            invariant
                b == board,
                x <= 9,
                count <= e,
                forall|t: int|
                    0 <= t < empty_cells@.len() ==> empty_pos(b, #[trigger] empty_cells@[t]),
        {
            let (rr, cc) = empty_cells[e];
            if valid_move(&b, rr, cc, x) {
                count += 1;
            }
        }
        keyed_vals.push((count, x as usize));
    }
    let ghost kv0 = keyed_vals@;
    sort_by_first(&mut keyed_vals);
    proof {
        assert forall|t: int| 0 <= t < keyed_vals@.len() implies {
            &&& 1 <= (#[trigger] keyed_vals@[t]).1 <= 9
            &&& placeable(b, r0 as int, c0 as int, keyed_vals@[t].1 as u8)
        } by {
            assert(keyed_vals@.contains(keyed_vals@[t]));
            assert(keyed_vals@.to_multiset().count(keyed_vals@[t]) > 0);
            assert(kv0.to_multiset().count(keyed_vals@[t]) > 0);
            assert(kv0.contains(keyed_vals@[t]));
            let t0 = choose|t0: int| 0 <= t0 < kv0.len() && kv0[t0] == keyed_vals@[t];
            assert(kv0[t0].1 == values@[t0] as usize);
        }
        assert forall|dd: u8|
            1 <= dd <= 9 && placeable(b, r0 as int, c0 as int, dd) implies exists|t: int|
            0 <= t < keyed_vals@.len() && (#[trigger] keyed_vals@[t]).1 == dd as usize by {
            assert(values@.contains(dd));
            let t0 = choose|t0: int| 0 <= t0 < values@.len() && values@[t0] == dd;
            assert(kv0[t0].1 == dd as usize);
            assert(kv0.contains(kv0[t0]));
            assert(kv0.to_multiset().count(kv0[t0]) > 0);
            assert(keyed_vals@.to_multiset().count(kv0[t0]) > 0);
            assert(keyed_vals@.contains(kv0[t0]));
            let t = choose|t: int| 0 <= t < keyed_vals@.len() && keyed_vals@[t] == kv0[t0];
            assert(keyed_vals@[t].1 == dd as usize);
        }
    }

    let mut k: usize = 0;
    while k < keyed_vals.len()
        invariant
            b == board,
            in_range(b),
            consistent(b),
            r0 < 9,
            c0 < 9,
            b[r0 as int][c0 as int] == 0,
            k <= keyed_vals@.len(),
            forall|t: int|
                0 <= t < keyed_vals@.len() ==> 1 <= (#[trigger] keyed_vals@[t]).1 <= 9
                    && placeable(b, r0 as int, c0 as int, keyed_vals@[t].1 as u8),
            forall|t: int|
                0 <= t < k ==> no_completion_with(
                    b,
                    r0 as int,
                    c0 as int,
                    (#[trigger] keyed_vals@[t]).1 as u8,
                ),
        decreases keyed_vals@.len() - k,
    {
        let x = keyed_vals[k].1 as u8;
        let mut b2 = b;
        b2[r0][c0] = x;
        proof {
            lemma_place_consistent(b, b2, r0 as int, c0 as int, x);
            lemma_empty_count_fill(b, b2, r0 as int, c0 as int);
        }
        let res = solve_rec(b2);
        if res.1 {
            proof {
                assert forall|r: int, c: int|
                    0 <= r < 9 && 0 <= c < 9 && #[trigger] b[r][c] != 0 implies res.0[r][c]
                    == b[r][c] by {
                    assert(b2[r][c] == b[r][c]);
                }
            }
            return (res.0, true);
        }
        proof {
            assert forall|s: Seq<Seq<u8>>|
                grid_solved(s) && board_matches(b, s) implies s[r0 as int][c0 as int] != x by {
                if s[r0 as int][c0 as int] == x {
                    lemma_completion_update(b, b2, s, r0 as int, c0 as int, x);
                    assert(completable(b2));
                }
            }
            assert(no_completion_with(b, r0 as int, c0 as int, x));
        }
        k += 1;
    }
    proof {
        assert(!completable(b)) by {
            if completable(b) {
                let s = choose|s: Seq<Seq<u8>>| grid_solved(s) && board_matches(b, s);
                lemma_completion_digit(b, s, r0 as int, c0 as int);
                let d = s[r0 as int][c0 as int];
                let t = choose|t: int|
                    0 <= t < keyed_vals@.len() && (#[trigger] keyed_vals@[t]).1 == d as usize;
                assert(no_completion_with(b, r0 as int, c0 as int, keyed_vals@[t].1 as u8));
                assert(s[r0 as int][c0 as int] != d);
            }
        }
    }
    (board, false)
}

/// Shifting two distinct residues by the same amount keeps them distinct mod 9.
proof fn lemma_mod9_shift(u1: int, u2: int, t: int)
    requires
        0 <= u1 < 9,
        0 <= u2 < 9,
        u1 != u2,
        0 <= t < 9,
    ensures
        (u1 + t) % 9 != (u2 + t) % 9,
{
    assert((u1 + t) % 9 != (u2 + t) % 9) by (nonlinear_arith)
        requires
            0 <= u1 < 9 && 0 <= u2 < 9 && u1 != u2 && 0 <= t < 9,
    ;
}

/// Distinct pairs of base-3 digits make distinct two-digit numbers.
proof fn lemma_base3_distinct(a1: int, b1: int, a2: int, b2: int)
    requires
        0 <= a1 < 3,
        0 <= b1 < 3,
        0 <= a2 < 3,
        0 <= b2 < 3,
        !(a1 == a2 && b1 == b2),
    ensures
        3 * a1 + b1 != 3 * a2 + b2,
        0 <= 3 * a1 + b1 < 9,
{
    assert(3 * a1 + b1 != 3 * a2 + b2 && 0 <= 3 * a1 + b1 < 9) by (nonlinear_arith)
        requires
            0 <= a1 < 3 && 0 <= b1 < 3 && 0 <= a2 < 3 && 0 <= b2 < 3 && !(a1 == a2 && b1 == b2),
    ;
}

/// A fixed complete, rule-abiding grid, used as a witness that an empty
/// board always has a completion.
pub open spec fn pattern_grid() -> Seq<Seq<u8>> {
    Seq::new(9, |r: int| Seq::new(9, |c: int| ((3 * (r % 3) + r / 3 + c) % 9 + 1) as u8))
}

/// The pattern grid is a solved grid.
pub proof fn lemma_pattern_solved()
    ensures
        grid_solved(pattern_grid()),
{
    let s = pattern_grid();
    assert forall|r: int, c: int| 0 <= r < 9 && 0 <= c < 9 implies 1 <= #[trigger] s[r][c]
        <= 9 by {
        assert(0 <= (3 * (r % 3) + r / 3 + c) % 9 < 9) by (nonlinear_arith)
            requires
                0 <= r < 9 && 0 <= c < 9,
        ;
    }
    assert forall|r1: int, c1: int, r2: int, c2: int|
        0 <= r1 < 9 && 0 <= c1 < 9 && 0 <= r2 < 9 && 0 <= c2 < 9
            && !(r1 == r2 && c1 == c2) && same_unit(r1, c1, r2, c2)
        implies #[trigger] s[r1][c1] != #[trigger] s[r2][c2] by {
        let k1 = 3 * (r1 % 3) + r1 / 3;
        let k2 = 3 * (r2 % 3) + r2 / 3;
        assert(0 <= r1 % 3 < 3 && 0 <= r1 / 3 < 3 && r1 == 3 * (r1 / 3) + r1 % 3)
            by (nonlinear_arith)
            requires
                0 <= r1 < 9,
        ;
        assert(0 <= r2 % 3 < 3 && 0 <= r2 / 3 < 3 && r2 == 3 * (r2 / 3) + r2 % 3)
            by (nonlinear_arith)
            requires
                0 <= r2 < 9,
        ;
        assert(0 <= c1 % 3 < 3 && 0 <= c1 / 3 < 3 && c1 == 3 * (c1 / 3) + c1 % 3)
            by (nonlinear_arith)
            requires
                0 <= c1 < 9,
        ;
        assert(0 <= c2 % 3 < 3 && 0 <= c2 / 3 < 3 && c2 == 3 * (c2 / 3) + c2 % 3)
            by (nonlinear_arith)
            requires
                0 <= c2 < 9,
        ;
        if r1 == r2 {
            lemma_mod9_shift(c1, c2, k1);
            assert((k1 + c1) % 9 == (c1 + k1) % 9);
            assert((k1 + c2) % 9 == (c2 + k1) % 9);
        } else if c1 == c2 {
            lemma_base3_distinct(r1 % 3, r1 / 3, r2 % 3, r2 / 3);
            lemma_mod9_shift(k1, k2, c1);
        } else {
            let q = r1 / 3;
            let p = c1 / 3;
            let u1 = 3 * (r1 % 3) + c1 % 3;
            let u2 = 3 * (r2 % 3) + c2 % 3;
            assert(r2 / 3 == q && c2 / 3 == p);
            lemma_base3_distinct(r1 % 3, c1 % 3, r2 % 3, c2 % 3);
            assert(k1 + c1 == u1 + (q + 3 * p));
            assert(k2 + c2 == u2 + (q + 3 * p));
            lemma_mod9_shift(u1, u2, q + 3 * p);
        }
    }
}

/// An all-empty board has a completion.
pub proof fn lemma_empty_board_completable(b: Board)
    requires
        forall|r: int, c: int| 0 <= r < 9 && 0 <= c < 9 ==> #[trigger] b[r][c] == 0,
    ensures
        completable(b),
{
    lemma_pattern_solved();
    assert(board_matches(b, pattern_grid()));
}

/// Solve the board in place by randomized backtracking, choosing among the
/// empty cells of equal fewest remaining options at random. Succeeds exactly
/// when some complete, rule-abiding grid agrees with the board's filled
/// cells; on failure the board is left unchanged.
pub fn solve_random(board: &mut Board) -> (r: Result<(), ()>)
    requires
        in_range(*old(board)),
        consistent(*old(board)),
    ensures
        in_range(*final(board)),
        consistent(*final(board)),
        extends(*old(board), *final(board)),
        r is Ok <==> completable(*old(board)),
        r is Ok ==> solved(*final(board)),
        r is Err ==> *final(board) == *old(board),
{
    let res = solve_rec(*board);
    *board = res.0;
    if res.1 {
        proof {
            lemma_solved_board_to_grid(res.0);
            crate::board::lemma_extends_completable(*old(board), res.0);
        }
        Ok(())
    } else {
        Err(())
    }
}

/// The number of cells actually removed for a difficulty: its removal count,
/// held to the 81 cells the board has.
pub open spec fn clamped_removal(difficulty: Difficulty) -> int {
    if difficulty.removal_count_spec() <= 81 {
        difficulty.removal_count_spec()
    } else {
        81
    }
}

/// Generate a random, unsolved sudoku board of the given `Difficulty`:
/// solve an empty board in a random cell order, then empty a number of
/// randomly chosen cells fixed by the difficulty.
///
/// The result always has a completion (it was carved out of a solved board),
/// and exactly the difficulty's removal count of empty cells. Nothing makes
/// the completion unique.
pub fn generate_sudoku(difficulty: Difficulty) -> (b: Board)
    ensures
        in_range(b),
        completable(b),
        consistent(b),
        empty_count(b) == clamped_removal(difficulty),
{
    let mut board: Board = [[0u8; 9]; 9];
    proof {
        lemma_empty_board_completable(board);
    }
    let sr = solve_random(&mut board);
    assert(sr is Ok);
    let ghost s0 = crate::board::board_view(board);
    proof {
        lemma_solved_board_to_grid(board);
        crate::board::lemma_empty_count_full(board);
    }

    let removal_count = difficulty.removal_count();
    let take_n = if removal_count < 81 {
        removal_count
    } else {
        81
    };

    let mut rng = fresh_rng();
    let mut positions: Vec<(usize, usize)> = Vec::new();
    for i in 0..81usize
        invariant
            positions@.len() == i,
            forall|t: int|
                0 <= t < i ==> #[trigger] positions@[t] == ((t / 9) as usize, (t % 9) as usize),
    {
        positions.push((i / 9, i % 9));
        proof {
            assert(positions@[i as int] == ((i as int / 9) as usize, (i as int % 9) as usize));
        }
    }
    let ghost pos0 = positions@;
    proof {
        assert(pos0.no_duplicates()) by {
            assert forall|t1: int, t2: int|
                0 <= t1 < 81 && 0 <= t2 < 81 && t1 != t2 implies pos0[t1] != pos0[t2] by {
                assert(t1 / 9 * 9 + t1 % 9 == t1 && t2 / 9 * 9 + t2 % 9 == t2)
                    by (nonlinear_arith)
                    requires
                        0 <= t1 && 0 <= t2,
                ;
            }
        }
        pos0.lemma_multiset_has_no_duplicates();
    }
    shuffle(&mut positions, &mut rng);
    proof {
        assert(positions@.len() == positions@.to_multiset().len());
        assert(pos0.len() == pos0.to_multiset().len());
        assert forall|x: (usize, usize)|
            positions@.to_multiset().contains(x) implies positions@.to_multiset().count(x)
            == 1 by {
            assert(pos0.to_multiset().count(x) == positions@.to_multiset().count(x));
        }
        positions@.lemma_multiset_has_no_duplicates_conv();
        assert forall|t: int|
            0 <= t < 81 implies (#[trigger] positions@[t]).0 < 9 && positions@[t].1 < 9 by {
            assert(positions@.contains(positions@[t]));
            assert(positions@.to_multiset().count(positions@[t]) > 0);
            assert(pos0.to_multiset().count(positions@[t]) > 0);
            assert(pos0.contains(positions@[t]));
            let a = choose|a: int| 0 <= a < pos0.len() && pos0[a] == positions@[t];
            assert(pos0[a] == ((a / 9) as usize, (a % 9) as usize));
            assert(0 <= a / 9 < 9 && 0 <= a % 9 < 9) by (nonlinear_arith)
                requires
                    0 <= a < 81,
            ;
        }
    }

    for t in 0..take_n
        invariant
            take_n <= 81,
            positions@.len() == 81,
            positions@.no_duplicates(),
            forall|tt: int|
                0 <= tt < 81 ==> (#[trigger] positions@[tt]).0 < 9 && positions@[tt].1 < 9,
            in_range(board),
            grid_solved(s0),
            board_matches(board, s0),
            empty_count(board) == t,
            forall|r: int, c: int|
                0 <= r < 9 && 0 <= c < 9 ==> (#[trigger] board[r][c] == 0 <==> exists|tt: int|
                    0 <= tt < t && #[trigger] positions@[tt] == (r as usize, c as usize)),
    {
        let (rr, cc) = positions[t];
        let ghost pre = board;
        proof {
            assert(pre[rr as int][cc as int] != 0) by {
                if pre[rr as int][cc as int] == 0 {
                    let tt = choose|tt: int|
                        0 <= tt < t && #[trigger] positions@[tt] == (rr, cc);
                    assert(positions@[tt] == positions@[t as int]);
                }
            }
        }
        board[rr][cc] = 0;
        proof {
            crate::board::lemma_empty_count_clear(pre, board, rr as int, cc as int);
            assert forall|r: int, c: int|
                0 <= r < 9 && 0 <= c < 9 implies (#[trigger] board[r][c] == 0 <==> exists|tt: int|
                0 <= tt < t + 1 && #[trigger] positions@[tt] == (r as usize, c as usize)) by {
                if r == rr as int && c == cc as int {
                    assert(positions@[t as int] == (r as usize, c as usize));
                } else {
                    assert(board[r][c] == pre[r][c]);
                    if board[r][c] == 0 {
                        let tt = choose|tt: int|
                            0 <= tt < t && #[trigger] positions@[tt] == (r as usize, c as usize);
                        assert(0 <= tt < t + 1);
                    } else {
                        if exists|tt: int|
                            0 <= tt < t + 1 && #[trigger] positions@[tt] == (
                            r as usize,
                            c as usize,
                        ) {
                            let tt = choose|tt: int|
                                0 <= tt < t + 1 && #[trigger] positions@[tt] == (
                                r as usize,
                                c as usize,
                                );
                            assert(tt != t as int);
                            assert(false);
                        }
                    }
                }
            }
        }
    }
    proof {
        crate::board::lemma_completable_consistent(board);
    }
    board
}

} // verus!
