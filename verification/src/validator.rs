use vstd::prelude::*;

use crate::board::Board;
use crate::board::consistent;
use crate::board::is_full;
use crate::board::same_unit;
use crate::board::solved;

verus! {

/// Row of the `j`-th cell of block `k`.
pub open spec fn block_row(k: int, j: int) -> int {
    k / 3 * 3 + j / 3
}

/// Column of the `j`-th cell of block `k`.
pub open spec fn block_col(k: int, j: int) -> int {
    k % 3 * 3 + j % 3
}

/// All cells of row `r` hold digits 1..=9.
pub open spec fn row_vals_ok(b: Board, r: int) -> bool {
    forall|c: int| 0 <= c < 9 ==> 1 <= #[trigger] b[r][c] <= 9
}

/// No two cells of row `r` hold the same value.
pub open spec fn row_dup_free(b: Board, r: int) -> bool {
    forall|c1: int, c2: int| 0 <= c1 < c2 < 9 ==> b[r][c1] != b[r][c2]
}

/// No two in-range cells of column `c` hold the same value.
pub open spec fn col_dup_free(b: Board, c: int) -> bool {
    forall|r1: int, r2: int|
        0 <= r1 < r2 < 9 && 1 <= #[trigger] b[r1][c] <= 9 && 1 <= #[trigger] b[r2][c] <= 9
            ==> b[r1][c] != b[r2][c]
}

/// No two cells of block `k` hold the same value.
pub open spec fn block_dup_free(b: Board, k: int) -> bool {
    forall|j1: int, j2: int|
        0 <= j1 < j2 < 9 ==> b[block_row(k, j1)][block_col(k, j1)] != b[block_row(k, j2)][block_col(
            k,
            j2,
        )]
}

/// Division and remainder by 3 of a two-digit base-3 decomposition.
proof fn lemma_div3(a: int, b: int)
    requires
        0 <= a,
        0 <= b < 3,
    ensures
        (a * 3 + b) / 3 == a,
        (a * 3 + b) % 3 == b,
{
    assert((a * 3 + b) / 3 == a && (a * 3 + b) % 3 == b) by (nonlinear_arith)
        requires
            0 <= a,
            0 <= b < 3,
    ;
}

/// Cell `(r, c)` is the `j`-th cell of its block `k`, for the canonical `k` and `j`.
proof fn lemma_cell_in_block(r: int, c: int)
    requires
        0 <= r < 9,
        0 <= c < 9,
    ensures
        ({
            let k = r / 3 * 3 + c / 3;
            let j = r % 3 * 3 + c % 3;
            &&& 0 <= k < 9
            &&& 0 <= j < 9
            &&& block_row(k, j) == r
            &&& block_col(k, j) == c
        }),
{
    let k = r / 3 * 3 + c / 3;
    let j = r % 3 * 3 + c % 3;
    assert(0 <= r / 3 < 3 && 0 <= r % 3 < 3 && r == r / 3 * 3 + r % 3) by (nonlinear_arith)
        requires
            0 <= r < 9,
    ;
    assert(0 <= c / 3 < 3 && 0 <= c % 3 < 3 && c == c / 3 * 3 + c % 3) by (nonlinear_arith)
        requires
            0 <= c < 9,
    ;
    lemma_div3(r / 3, c / 3);
    lemma_div3(r % 3, c % 3);
}

/// Block cells are in range and the block coordinates determine the cell.
proof fn lemma_block_cell_range(k: int, j: int)
    requires
        0 <= k < 9,
        0 <= j < 9,
    ensures
        0 <= block_row(k, j) < 9,
        0 <= block_col(k, j) < 9,
        block_row(k, j) / 3 == k / 3,
        block_col(k, j) / 3 == k % 3,
        block_row(k, j) % 3 == j / 3,
        block_col(k, j) % 3 == j % 3,
{
    assert(0 <= k / 3 < 3 && 0 <= k % 3 < 3 && 0 <= j / 3 < 3 && 0 <= j % 3 < 3)
        by (nonlinear_arith)
        requires
            0 <= k < 9,
            0 <= j < 9,
    ;
    lemma_div3(k / 3, j / 3);
    lemma_div3(k % 3, j % 3);
}

/// Duplicate-free rows, columns and blocks over in-range digits make a solved board.
proof fn lemma_units_to_solved(b: Board)
    requires
        forall|r: int| 0 <= r < 9 ==> row_vals_ok(b, r),
        forall|r: int| 0 <= r < 9 ==> row_dup_free(b, r),
        forall|c: int| 0 <= c < 9 ==> col_dup_free(b, c),
        forall|k: int| 0 <= k < 9 ==> block_dup_free(b, k),
    ensures
        solved(b),
{
    assert forall|r: int, c: int| 0 <= r < 9 && 0 <= c < 9 implies 1 <= #[trigger] b[r][c]
        <= 9 by {
        assert(row_vals_ok(b, r));
    }
    assert(is_full(b));
    assert forall|r1: int, c1: int, r2: int, c2: int|
        0 <= r1 < 9 && 0 <= c1 < 9 && 0 <= r2 < 9 && 0 <= c2 < 9
            && !(r1 == r2 && c1 == c2) && same_unit(r1, c1, r2, c2) && #[trigger] b[r1][c1] != 0
        implies b[r1][c1] != #[trigger] b[r2][c2] by {
        if r1 == r2 {
            assert(row_dup_free(b, r1));
        } else if c1 == c2 {
            assert(col_dup_free(b, c1));
            assert(1 <= b[r1][c1] <= 9 && 1 <= b[r2][c2] <= 9);
        } else {
            let k = r1 / 3 * 3 + c1 / 3;
            let j1 = r1 % 3 * 3 + c1 % 3;
            let j2 = r2 % 3 * 3 + c2 % 3;
            lemma_cell_in_block(r1, c1);
            lemma_cell_in_block(r2, c2);
            assert(r2 / 3 * 3 + c2 / 3 == k);
            assert(j1 != j2) by {
                assert(0 <= r1 % 3 < 3 && r1 == r1 / 3 * 3 + r1 % 3) by (nonlinear_arith)
                    requires
                        0 <= r1 < 9,
                ;
                assert(0 <= r2 % 3 < 3 && r2 == r2 / 3 * 3 + r2 % 3) by (nonlinear_arith)
                    requires
                        0 <= r2 < 9,
                ;
                assert(0 <= c1 % 3 < 3 && c1 == c1 / 3 * 3 + c1 % 3) by (nonlinear_arith)
                    requires
                        0 <= c1 < 9,
                ;
                assert(0 <= c2 % 3 < 3 && c2 == c2 / 3 * 3 + c2 % 3) by (nonlinear_arith)
                    requires
                        0 <= c2 < 9,
                ;
            }
            assert(block_dup_free(b, k));
            if j1 < j2 {
                assert(b[block_row(k, j1)][block_col(k, j1)] != b[block_row(k, j2)][block_col(
                    k,
                    j2,
                )]);
            } else {
                assert(b[block_row(k, j2)][block_col(k, j2)] != b[block_row(k, j1)][block_col(
                    k,
                    j1,
                )]);
            }
        }
    }
}

/// Whether the board is in a completely solved state: all 81 cells hold
/// digits 1..=9 and no row, column or 3x3 block repeats a digit.
///
/// The check is made independently of the solver's placement test: one pass
/// tracks the digits seen in each row and column, a second pass walks the
/// nine blocks.
pub fn is_solution(sudoku: &Board) -> (r: bool)
    ensures
        r == solved(*sudoku),
{
    let b = *sudoku;
    for i in 0..9usize
        invariant
            b == *sudoku,
            forall|r: int| 0 <= r < i ==> row_vals_ok(b, r),
            forall|r: int| 0 <= r < i ==> row_dup_free(b, r),
            forall|c: int| 0 <= c < i ==> col_dup_free(b, c),
    {
        let mut row_seen = [false; 10];
        let mut col_seen = [false; 10];
        for j in 0..9usize
            invariant
                b == *sudoku,
                i < 9,
                forall|c: int| 0 <= c < j ==> 1 <= #[trigger] b[i as int][c] <= 9,
                forall|c1: int, c2: int| 0 <= c1 < c2 < j ==> b[i as int][c1] != b[i as int][c2],
                forall|r1: int, r2: int|
                    0 <= r1 < r2 < j && 1 <= #[trigger] b[r1][i as int] <= 9 && 1 <= #[trigger] b[r2][i as int] <= 9
                        ==> b[r1][i as int] != b[r2][i as int],
                forall|d: int|
                    1 <= d <= 9 ==> (#[trigger] row_seen[d] <==> exists|c: int|
                        0 <= c < j && b[i as int][c] == d),
                forall|d: int|
                    1 <= d <= 9 ==> (#[trigger] col_seen[d] <==> exists|r: int|
                        0 <= r < j && b[r][i as int] == d),
                row_seen.len() == 10,
                col_seen.len() == 10,
        {
            let rv = b[i][j];
            if rv == 0 || rv > 9 {
                assert(!is_full(b));
                return false;
            }
            if row_seen[rv as usize] {
                proof {
                    let c = choose|c: int| 0 <= c < j && b[i as int][c] == rv;
                    if consistent(b) {
                        assert(same_unit(i as int, c, i as int, j as int));
                        assert(b[i as int][c] != b[i as int][j as int]);
                    }
                }
                return false;
            }
            row_seen[rv as usize] = true;
            let cv = b[j][i];
            if cv >= 1 && cv <= 9 {
                if col_seen[cv as usize] {
                    proof {
                        let r = choose|r: int| 0 <= r < j && b[r][i as int] == cv;
                        if consistent(b) {
                            assert(same_unit(r, i as int, j as int, i as int));
                            assert(b[r][i as int] != b[j as int][i as int]);
                        }
                    }
                    return false;
                }
                col_seen[cv as usize] = true;
            }
            proof {
                assert forall|d: int|
                    1 <= d <= 9 implies (#[trigger] row_seen[d] <==> exists|c: int|
                    0 <= c < j + 1 && b[i as int][c] == d) by {
                    if d == rv {
                        assert(b[i as int][j as int] == d);
                    }
                }
            }
        }
    }
    // Every cell is now known to be in range, so the conditional column
    // property extends to all column pairs; the blocks remain to be checked.
    for k in 0..9usize
        invariant
            b == *sudoku,
            forall|r: int| 0 <= r < 9 ==> row_vals_ok(b, r),
            forall|r: int| 0 <= r < 9 ==> row_dup_free(b, r),
            forall|c: int| 0 <= c < 9 ==> col_dup_free(b, c),
            forall|bk: int| 0 <= bk < k ==> block_dup_free(b, bk),
    {
        let mut seen = [false; 10];
        let base_r = k / 3 * 3;
        let base_c = k % 3 * 3;
        for j in 0..9usize
            invariant
                b == *sudoku,
                k < 9,
                base_r == (k as int) / 3 * 3,
                base_c == (k as int) % 3 * 3,
                forall|r: int| 0 <= r < 9 ==> row_vals_ok(b, r),
                forall|j1: int, j2: int|
                    0 <= j1 < j2 < j ==> b[block_row(k as int, j1)][block_col(k as int, j1)]
                        != b[block_row(k as int, j2)][block_col(k as int, j2)],
                forall|d: int|
                    1 <= d <= 9 ==> (#[trigger] seen[d] <==> exists|j1: int|
                        0 <= j1 < j && b[block_row(k as int, j1)][block_col(k as int, j1)] == d),
                seen.len() == 10,
        {
            proof {
                lemma_block_cell_range(k as int, j as int);
            }
            let r = base_r + j / 3;
            let c = base_c + j % 3;
            assert(r as int == block_row(k as int, j as int));
            assert(c as int == block_col(k as int, j as int));
            let v = b[r][c];
            assert(1 <= v <= 9) by {
                assert(row_vals_ok(b, r as int));
            }
            if seen[v as usize] {
                proof {
                    let j1 = choose|j1: int|
                        0 <= j1 < j && b[block_row(k as int, j1)][block_col(k as int, j1)] == v;
                    lemma_block_cell_range(k as int, j1);
                    let r1 = block_row(k as int, j1);
                    let c1 = block_col(k as int, j1);
                    assert(!(r1 == r as int && c1 == c as int)) by {
                        if r1 == r as int && c1 == c as int {
                            assert(j1 / 3 == (j as int) / 3 && j1 % 3 == (j as int) % 3);
                            assert(j1 == j1 / 3 * 3 + j1 % 3) by (nonlinear_arith)
                                requires
                                    0 <= j1,
                            ;
                            assert(j as int == (j as int) / 3 * 3 + (j as int) % 3)
                                by (nonlinear_arith)
                                requires
                                    0 <= j,
                            ;
                        }
                    }
                    if consistent(b) {
                        assert(same_unit(r1, c1, r as int, c as int));
                        assert(b[r1][c1] != 0);
                        assert(b[r1][c1] != b[r as int][c as int]);
                    }
                }
                return false;
            }
            seen[v as usize] = true;
            proof {
                assert forall|d: int|
                    1 <= d <= 9 implies (#[trigger] seen[d] <==> exists|j1: int|
                    0 <= j1 < j + 1 && b[block_row(k as int, j1)][block_col(k as int, j1)] == d) by {
                    if d == v {
                        assert(b[block_row(k as int, j as int)][block_col(k as int, j as int)]
                            == d);
                    }
                }
            }
        }
    }
    proof {
        lemma_units_to_solved(b);
    }
    true
}

} // verus!
