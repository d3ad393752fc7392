use vstd::prelude::*;

verus! {

/// A sudoku board: 9 rows of 9 cells, each holding 0 (empty) or a digit 1..=9.
pub type Board = [[u8; 9]; 9];

/// Every cell holds a value in 0..=9.
pub open spec fn in_range(b: Board) -> bool {
    forall|r: int, c: int| 0 <= r < 9 && 0 <= c < 9 ==> #[trigger] b[r][c] <= 9
}

/// Every cell holds a digit 1..=9 (no empty cells).
pub open spec fn is_full(b: Board) -> bool {
    forall|r: int, c: int| 0 <= r < 9 && 0 <= c < 9 ==> 1 <= #[trigger] b[r][c] <= 9
}

/// The two cells share a row, a column, or a 3x3 block.
pub open spec fn same_unit(r1: int, c1: int, r2: int, c2: int) -> bool {
    r1 == r2 || c1 == c2 || (r1 / 3 == r2 / 3 && c1 / 3 == c2 / 3)
}

/// No nonzero digit appears in two distinct cells of a row, column or block.
pub open spec fn consistent(b: Board) -> bool {
    forall|r1: int, c1: int, r2: int, c2: int|
        0 <= r1 < 9 && 0 <= c1 < 9 && 0 <= r2 < 9 && 0 <= c2 < 9
            && !(r1 == r2 && c1 == c2) && same_unit(r1, c1, r2, c2) && #[trigger] b[r1][c1] != 0
            ==> b[r1][c1] != #[trigger] b[r2][c2]
}

/// A complete, rule-abiding board.
pub open spec fn solved(b: Board) -> bool {
    is_full(b) && consistent(b)
}

/// Digit `d` may be placed at `(r, c)`: no cell sharing a unit with it holds `d`.
pub open spec fn placeable(b: Board, r: int, c: int, d: u8) -> bool {
    forall|r2: int, c2: int|
        0 <= r2 < 9 && 0 <= c2 < 9 && same_unit(r, c, r2, c2) ==> #[trigger] b[r2][c2] != d
}

/// Every filled cell of `b1` holds the same digit in `b2`.
pub open spec fn extends(b1: Board, b2: Board) -> bool {
    forall|r: int, c: int|
        0 <= r < 9 && 0 <= c < 9 && #[trigger] b1[r][c] != 0 ==> b2[r][c] == b1[r][c]
}

/// A mathematical 9x9 grid that is completely and consistently filled.
pub open spec fn grid_solved(s: Seq<Seq<u8>>) -> bool {
    &&& s.len() == 9
    &&& forall|r: int| 0 <= r < 9 ==> (#[trigger] s[r]).len() == 9
    &&& forall|r: int, c: int| 0 <= r < 9 && 0 <= c < 9 ==> 1 <= #[trigger] s[r][c] <= 9
    &&& forall|r1: int, c1: int, r2: int, c2: int|
        0 <= r1 < 9 && 0 <= c1 < 9 && 0 <= r2 < 9 && 0 <= c2 < 9
            && !(r1 == r2 && c1 == c2) && same_unit(r1, c1, r2, c2)
            ==> #[trigger] s[r1][c1] != #[trigger] s[r2][c2]
}

/// The filled cells of `b` agree with the grid `s`.
pub open spec fn board_matches(b: Board, s: Seq<Seq<u8>>) -> bool {
    forall|r: int, c: int|
        0 <= r < 9 && 0 <= c < 9 && #[trigger] b[r][c] != 0 ==> s[r][c] == b[r][c]
}

/// Some complete, rule-abiding grid agrees with every filled cell of `b`.
pub open spec fn completable(b: Board) -> bool {
    exists|s: Seq<Seq<u8>>| grid_solved(s) && board_matches(b, s)
}

/// The view of a board as a sequence of rows.
pub open spec fn board_view(b: Board) -> Seq<Seq<u8>> {
    Seq::new(9, |r: int| Seq::new(9, |c: int| b[r][c]))
}

/// Number of empty cells among the first `n` cells in row-major order.
pub open spec fn zeros_below(b: Board, n: int) -> nat
    decreases n,
{
    if n <= 0 {
        0
    } else {
        zeros_below(b, n - 1) + if b[(n - 1) / 9][(n - 1) % 9] == 0 {
            1nat
        } else {
            0nat
        }
    }
}

/// Number of empty cells on the board.
pub open spec fn empty_count(b: Board) -> nat {
    zeros_below(b, 81)
}

/// Number of cells holding `d` among the first `n` cells in row-major order.
pub open spec fn digit_count_below(b: Board, d: u8, n: int) -> nat
    decreases n,
{
    if n <= 0 {
        0
    } else {
        digit_count_below(b, d, n - 1) + if b[(n - 1) / 9][(n - 1) % 9] == d {
            1nat
        } else {
            0nat
        }
    }
}

/// Number of cells on the board holding the digit `d`.
pub open spec fn digit_count(b: Board, d: u8) -> nat {
    digit_count_below(b, d, 81)
}

/// A solved board, seen as a grid, is a solved grid that it matches.
pub proof fn lemma_solved_board_to_grid(b: Board)
    requires
        solved(b),
    ensures
        grid_solved(board_view(b)),
        board_matches(b, board_view(b)),
        completable(b),
{
    let s = board_view(b);
    assert forall|r1: int, c1: int, r2: int, c2: int|
        0 <= r1 < 9 && 0 <= c1 < 9 && 0 <= r2 < 9 && 0 <= c2 < 9
            && !(r1 == r2 && c1 == c2) && same_unit(r1, c1, r2, c2)
            implies #[trigger] s[r1][c1] != #[trigger] s[r2][c2] by {
        assert(b[r1][c1] != 0);
        assert(b[r1][c1] != b[r2][c2]);
    }
    assert(grid_solved(s));
    assert(board_matches(b, s));
}

/// A board some solved grid agrees with is consistent: a repeated digit
/// among unit peers would repeat in the grid too.
pub proof fn lemma_completable_consistent(b: Board)
    requires
        completable(b),
    ensures
        consistent(b),
{
    let s = choose|s: Seq<Seq<u8>>| grid_solved(s) && board_matches(b, s);
    assert forall|r1: int, c1: int, r2: int, c2: int|
        0 <= r1 < 9 && 0 <= c1 < 9 && 0 <= r2 < 9 && 0 <= c2 < 9
            && !(r1 == r2 && c1 == c2) && same_unit(r1, c1, r2, c2) && #[trigger] b[r1][c1] != 0
        implies b[r1][c1] != #[trigger] b[r2][c2] by {
        if b[r1][c1] == b[r2][c2] {
            assert(s[r1][c1] == b[r1][c1]);
            assert(s[r2][c2] == b[r2][c2]);
            assert(s[r1][c1] != s[r2][c2]);
        }
    }
}

/// A board that another completable board extends is itself completable.
pub proof fn lemma_extends_completable(b1: Board, b2: Board)
    requires
        extends(b1, b2),
        completable(b2),
    ensures
        completable(b1),
{
    let s = choose|s: Seq<Seq<u8>>| grid_solved(s) && board_matches(b2, s);
    assert(board_matches(b1, s));
}

/// Two boards equal except at one cell have related empty-cell prefix counts.
proof fn lemma_zeros_below_update(b1: Board, b2: Board, r: int, c: int, n: int)
    requires
        0 <= r < 9,
        0 <= c < 9,
        forall|r2: int, c2: int|
            0 <= r2 < 9 && 0 <= c2 < 9 && !(r2 == r && c2 == c) ==> #[trigger] b2[r2][c2]
                == b1[r2][c2],
        0 <= n <= 81,
    ensures
        n <= r * 9 + c ==> zeros_below(b2, n) == zeros_below(b1, n),
        n > r * 9 + c ==> zeros_below(b2, n) + (if b1[r][c] == 0 {
            1nat
        } else {
            0nat
        }) == zeros_below(b1, n) + (if b2[r][c] == 0 {
            1nat
        } else {
            0nat
        }),
    decreases n,
{
    if n > 0 {
        lemma_zeros_below_update(b1, b2, r, c, n - 1);
        let i = n - 1;
        assert(0 <= i / 9 < 9 && 0 <= i % 9 < 9) by (nonlinear_arith)
            requires
                0 <= i < 81,
        ;
        if i / 9 == r && i % 9 == c {
            assert(i == r * 9 + c) by (nonlinear_arith)
                requires
                    i / 9 == r && i % 9 == c && 0 <= i,
            ;
        } else {
            assert(b2[i / 9][i % 9] == b1[i / 9][i % 9]);
            if i == r * 9 + c {
                assert(i / 9 == r && i % 9 == c) by (nonlinear_arith)
                    requires
                        i == r * 9 + c && 0 <= r < 9 && 0 <= c < 9,
                ;
            }
        }
    }
}

/// Filling an empty cell lowers the number of empty cells by one.
pub proof fn lemma_empty_count_fill(b1: Board, b2: Board, r: int, c: int)
    requires
        0 <= r < 9,
        0 <= c < 9,
        forall|r2: int, c2: int|
            0 <= r2 < 9 && 0 <= c2 < 9 && !(r2 == r && c2 == c) ==> #[trigger] b2[r2][c2]
                == b1[r2][c2],
        b1[r][c] == 0,
        b2[r][c] != 0,
    ensures
        empty_count(b2) + 1 == empty_count(b1),
{
    lemma_zeros_below_update(b1, b2, r, c, 81);
}

/// Emptying a filled cell raises the number of empty cells by one.
pub proof fn lemma_empty_count_clear(b1: Board, b2: Board, r: int, c: int)
    requires
        0 <= r < 9,
        0 <= c < 9,
        forall|r2: int, c2: int|
            0 <= r2 < 9 && 0 <= c2 < 9 && !(r2 == r && c2 == c) ==> #[trigger] b2[r2][c2]
                == b1[r2][c2],
        b1[r][c] != 0,
        b2[r][c] == 0,
    ensures
        empty_count(b2) == empty_count(b1) + 1,
{
    lemma_zeros_below_update(b1, b2, r, c, 81);
}

/// A full board has no empty cells; counted over any prefix.
proof fn lemma_zeros_below_full(b: Board, n: int)
    requires
        0 <= n <= 81,
        is_full(b),
    ensures
        zeros_below(b, n) == 0,
    decreases n,
{
    if n > 0 {
        lemma_zeros_below_full(b, n - 1);
        let i = n - 1;
        assert(0 <= i / 9 < 9 && 0 <= i % 9 < 9) by (nonlinear_arith)
            requires
                0 <= i < 81,
        ;
    }
}

/// A full board has no empty cells.
pub proof fn lemma_empty_count_full(b: Board)
    requires
        is_full(b),
    ensures
        empty_count(b) == 0,
{
    lemma_zeros_below_full(b, 81);
}

} // verus!
