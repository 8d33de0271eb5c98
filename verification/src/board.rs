//! The 4x4 grid: well-formedness, the four directional slides, and the
//! stuck test that drives the loss state machine.
//!
//! A grid is a row-major sequence of sixteen cells.  A move slides all four
//! rows (for `Left` and `Right`) or all four columns (for `Up` and `Down`)
//! independently, using the line transform of `crate::line`.

use vstd::prelude::*;

use crate::line::MAX_GRID_SUM;
use crate::line::WIN_TILE;
use crate::line::lemma_slide_conservation;
use crate::line::lemma_slide_shape;
use crate::line::lemma_sum4;
use crate::line::lemma_sum_nonneg;
use crate::line::lemma_sum_update;
use crate::line::line_gain;
use crate::line::line_gain_back;
use crate::line::line_makes;
use crate::line::line_makes_back;
use crate::line::slide_line;
use crate::line::slide_line_back;
use crate::line::slide_row_left;
use crate::line::slide_row_right;
use crate::line::sum_vals;
use crate::line::valid_tile;

verus! {

/// The four move commands of the grid engine.
#[derive(Debug, Clone, Copy, PartialEq, Eq, Structural)]
pub enum Direction {
    Up,
    Down,
    Left,
    Right,
}

/// The cell of row `r` and column `c` in a row-major grid.
pub open spec fn cell(s: Seq<u32>, r: int, c: int) -> u32 {
    s[4 * r + c]
}

/// Row `r` of the grid, a four-cell line.
pub open spec fn row_of(s: Seq<u32>, r: int) -> Seq<u32> {
    s.subrange(4 * r, 4 * r + 4)
}

/// Column `c` of the grid, a four-cell line read top to bottom.
pub open spec fn col_of(s: Seq<u32>, c: int) -> Seq<u32> {
    seq![s[c], s[c + 4], s[c + 8], s[c + 12]]
}

/// A well-formed grid: sixteen cells, each empty or a power of two of at
/// least 2, with a bounded total so that merge arithmetic cannot overflow.
pub open spec fn wf_board(s: Seq<u32>) -> bool {
    &&& s.len() == 16
    &&& forall|i: int| 0 <= i < 16 ==> valid_tile(#[trigger] s[i])
    &&& sum_vals(s) <= MAX_GRID_SUM as int
}

/// The grid after sliding every line in direction `d`.
#[verifier::opaque]
pub open spec fn slide_grid(s: Seq<u32>, d: Direction) -> Seq<u32> {
    match d {
        Direction::Left => Seq::new(16, |i: int| slide_line(row_of(s, i / 4))[i % 4]),
        Direction::Right => Seq::new(16, |i: int| slide_line_back(row_of(s, i / 4))[i % 4]),
        Direction::Up => Seq::new(16, |i: int| slide_line(col_of(s, i % 4))[i / 4]),
        Direction::Down => Seq::new(16, |i: int| slide_line_back(col_of(s, i % 4))[i / 4]),
    }
}

/// Total score gained by sliding the grid in direction `d`.
#[verifier::opaque]
pub open spec fn grid_gain(s: Seq<u32>, d: Direction) -> int {
    match d {
        Direction::Left => line_gain(row_of(s, 0)) + line_gain(row_of(s, 1)) + line_gain(
            row_of(s, 2),
        ) + line_gain(row_of(s, 3)),
        Direction::Right => line_gain_back(row_of(s, 0)) + line_gain_back(row_of(s, 1))
            + line_gain_back(row_of(s, 2)) + line_gain_back(row_of(s, 3)),
        Direction::Up => line_gain(col_of(s, 0)) + line_gain(col_of(s, 1)) + line_gain(
            col_of(s, 2),
        ) + line_gain(col_of(s, 3)),
        Direction::Down => line_gain_back(col_of(s, 0)) + line_gain_back(col_of(s, 1))
            + line_gain_back(col_of(s, 2)) + line_gain_back(col_of(s, 3)),
    }
}

/// Whether sliding the grid in direction `d` merges a pair into `target`.
#[verifier::opaque]
pub open spec fn grid_makes(s: Seq<u32>, d: Direction, target: u32) -> bool {
    match d {
        Direction::Left => line_makes(row_of(s, 0), target) || line_makes(row_of(s, 1), target)
            || line_makes(row_of(s, 2), target) || line_makes(row_of(s, 3), target),
        Direction::Right => line_makes_back(row_of(s, 0), target) || line_makes_back(
            row_of(s, 1),
            target,
        ) || line_makes_back(row_of(s, 2), target) || line_makes_back(row_of(s, 3), target),
        Direction::Up => line_makes(col_of(s, 0), target) || line_makes(col_of(s, 1), target)
            || line_makes(col_of(s, 2), target) || line_makes(col_of(s, 3), target),
        Direction::Down => line_makes_back(col_of(s, 0), target) || line_makes_back(
            col_of(s, 1),
            target,
        ) || line_makes_back(col_of(s, 2), target) || line_makes_back(col_of(s, 3), target),
    }
}

/// Two equal cells side by side in row `r`, at columns `c` and `c + 1`.
pub open spec fn row_pair_eq(s: Seq<u32>, r: int, c: int) -> bool {
    cell(s, r, c) == cell(s, r, c + 1)
}

/// Two equal cells on top of each other in column `c`, at rows `r` and
/// `r + 1`.
pub open spec fn col_pair_eq(s: Seq<u32>, r: int, c: int) -> bool {
    cell(s, r, c) == cell(s, r + 1, c)
}

/// A stuck grid: no empty cell, and no two equal neighbours in a row or in
/// a column.
#[verifier::opaque]
pub open spec fn grid_over(s: Seq<u32>) -> bool {
    &&& forall|r: int, c: int| 0 <= r < 4 && 0 <= c < 4 ==> #[trigger] cell(s, r, c) != 0
    &&& forall|r: int, c: int| 0 <= r < 4 && 0 <= c < 3 ==> !#[trigger] row_pair_eq(s, r, c)
    &&& forall|r: int, c: int| 0 <= r < 3 && 0 <= c < 4 ==> !#[trigger] col_pair_eq(s, r, c)
}

/// Whether the grid has at least one empty cell.
pub open spec fn has_empty(s: Seq<u32>) -> bool {
    exists|i: int| 0 <= i < 16 && s[i] == 0
}

/// Number of occupied cells.
pub open spec fn count_nonzero(s: Seq<u32>) -> int
    decreases s.len(),
{
    if s.len() == 0 {
        0
    } else {
        (if s.first() != 0 {
            1int
        } else {
            0int
        }) + count_nonzero(s.drop_first())
    }
}

/// A spawn step: one empty cell received a 2 or a 4 and every other cell
/// is unchanged.
pub open spec fn spawned(pre: Seq<u32>, post: Seq<u32>) -> bool {
    exists|i: int|
        0 <= i < 16 && pre[i] == 0 && (post[i] == 2 || post[i] == 4) && post == pre.update(
            i,
            post[i],
        )
}

pub proof fn lemma_count_push(s: Seq<u32>, x: u32)
    ensures
        count_nonzero(s.push(x)) == count_nonzero(s) + (if x != 0 {
            1int
        } else {
            0int
        }),
    decreases s.len(),
{
    if s.len() == 0 {
        assert(s.push(x).len() == 1);
        assert(s.push(x)[0] == x);
        assert(s.push(x).drop_first() =~= Seq::<u32>::empty());
        assert(count_nonzero(Seq::<u32>::empty()) == 0);
    } else {
        assert(s.push(x)[0] == s[0]);
        assert(s.push(x).drop_first() =~= s.drop_first().push(x));
        lemma_count_push(s.drop_first(), x);
    }
}

pub proof fn lemma_count_update(s: Seq<u32>, i: int, x: u32)
    requires
        0 <= i < s.len(),
        s[i] == 0,
        x != 0,
    ensures
        count_nonzero(s.update(i, x)) == count_nonzero(s) + 1,
    decreases s.len(),
{
    if i == 0 {
        assert(s.update(0, x).drop_first() =~= s.drop_first());
    } else {
        assert(s.update(i, x)[0] == s[0]);
        assert(s.update(i, x).drop_first() =~= s.drop_first().update(i - 1, x));
        lemma_count_update(s.drop_first(), i - 1, x);
    }
}

/// Law: a spawn adds exactly 2 or 4 to the grid sum and fills exactly one
/// cell.  Together with `lemma_slide_grid_conservation` this pins down how
/// the grid sum evolves over a whole move.
pub proof fn lemma_spawned_effect(pre: Seq<u32>, post: Seq<u32>)
    requires
        pre.len() == 16,
        spawned(pre, post),
    ensures
        sum_vals(post) == sum_vals(pre) + 2 || sum_vals(post) == sum_vals(pre) + 4,
        count_nonzero(post) == count_nonzero(pre) + 1,
{
    let i = choose|i: int|
        0 <= i < 16 && pre[i] == 0 && (#[trigger] post[i] == 2 || post[i] == 4) && post
            == pre.update(i, post[i]);
    lemma_sum_update(pre, i, post[i]);
    lemma_count_update(pre, i, post[i]);
}

pub proof fn lemma_sum_concat(a: Seq<u32>, b: Seq<u32>)
    ensures
        sum_vals(a + b) == sum_vals(a) + sum_vals(b),
    decreases a.len(),
{
    if a.len() == 0 {
        assert(a + b =~= b);
    } else {
        assert((a + b)[0] == a[0]);
        assert((a + b).drop_first() =~= a.drop_first() + b);
        lemma_sum_concat(a.drop_first(), b);
    }
}

/// The grid sum is the sum of the four row sums.
pub proof fn lemma_sum_rows(s: Seq<u32>)
    requires
        s.len() == 16,
    ensures
        sum_vals(s) == sum_vals(row_of(s, 0)) + sum_vals(row_of(s, 1)) + sum_vals(row_of(s, 2))
            + sum_vals(row_of(s, 3)),
{
    assert(s =~= row_of(s, 0) + row_of(s, 1) + row_of(s, 2) + row_of(s, 3));
    lemma_sum_concat(row_of(s, 0) + row_of(s, 1) + row_of(s, 2), row_of(s, 3));
    lemma_sum_concat(row_of(s, 0) + row_of(s, 1), row_of(s, 2));
    lemma_sum_concat(row_of(s, 0), row_of(s, 1));
}

/// The grid sum is the sum of the four column sums.
pub proof fn lemma_sum_cols(s: Seq<u32>)
    requires
        s.len() == 16,
    ensures
        sum_vals(s) == sum_vals(col_of(s, 0)) + sum_vals(col_of(s, 1)) + sum_vals(col_of(s, 2))
            + sum_vals(col_of(s, 3)),
{
    lemma_sum_rows(s);
    lemma_sum4(row_of(s, 0));
    lemma_sum4(row_of(s, 1));
    lemma_sum4(row_of(s, 2));
    lemma_sum4(row_of(s, 3));
    lemma_sum4(col_of(s, 0));
    lemma_sum4(col_of(s, 1));
    lemma_sum4(col_of(s, 2));
    lemma_sum4(col_of(s, 3));
}

/// Law: sliding the grid conserves the sum of all tiles, keeps every cell
/// legal, and gains a score of at most the grid sum.  Together with the
/// spawn contract (which adds exactly 2 or 4) this is the conservation law
/// of a whole move.
pub proof fn lemma_slide_grid_conservation(s: Seq<u32>, d: Direction)
    requires
        wf_board(s),
    ensures
        wf_board(slide_grid(s, d)),
        sum_vals(slide_grid(s, d)) == sum_vals(s),
        0 <= grid_gain(s, d) <= sum_vals(s),
{
    reveal(slide_grid);
    reveal(grid_gain);
    let t = slide_grid(s, d);
    assert(t.len() == 16);
    match d {
        Direction::Left | Direction::Right => {
            lemma_sum_rows(s);
            lemma_sum_nonneg(row_of(s, 0));
            lemma_sum_nonneg(row_of(s, 1));
            lemma_sum_nonneg(row_of(s, 2));
            lemma_sum_nonneg(row_of(s, 3));
            assert(forall|r: int, i: int|
                0 <= r < 4 && 0 <= i < 4 ==> valid_tile(#[trigger] row_of(s, r)[i]));
            if d == Direction::Left {
                lemma_slide_conservation(row_of(s, 0));
                lemma_slide_conservation(row_of(s, 1));
                lemma_slide_conservation(row_of(s, 2));
                lemma_slide_conservation(row_of(s, 3));
                lemma_slide_shape(row_of(s, 0));
                lemma_slide_shape(row_of(s, 1));
                lemma_slide_shape(row_of(s, 2));
                lemma_slide_shape(row_of(s, 3));
                assert forall|r: int| 0 <= r < 4 implies #[trigger] row_of(t, r) =~= slide_line(
                    row_of(s, r),
                ) by {
                    assert forall|j: int| 0 <= j < 4 implies row_of(t, r)[j] == slide_line(
                        row_of(s, r),
                    )[j] by {
                        assert(row_of(t, r)[j] == t[4 * r + j]);
                        assert((4 * r + j) / 4 == r && (4 * r + j) % 4 == j) by (nonlinear_arith)
                            requires
                                0 <= r < 4 && 0 <= j < 4,
                        ;
                    }
                }
            } else {
                lemma_slide_back_conservation(row_of(s, 0));
                lemma_slide_back_conservation(row_of(s, 1));
                lemma_slide_back_conservation(row_of(s, 2));
                lemma_slide_back_conservation(row_of(s, 3));
                assert forall|r: int| 0 <= r < 4 implies #[trigger] row_of(t, r)
                    =~= slide_line_back(row_of(s, r)) by {
                    assert forall|j: int| 0 <= j < 4 implies row_of(t, r)[j] == slide_line_back(
                        row_of(s, r),
                    )[j] by {
                        assert(row_of(t, r)[j] == t[4 * r + j]);
                        assert((4 * r + j) / 4 == r && (4 * r + j) % 4 == j) by (nonlinear_arith)
                            requires
                                0 <= r < 4 && 0 <= j < 4,
                        ;
                    }
                }
            }
            lemma_sum_rows(t);
            assert forall|i: int| 0 <= i < 16 implies valid_tile(#[trigger] t[i]) by {
                assert(t[i] == row_of(t, i / 4)[i % 4]);
            }
        },
        Direction::Up | Direction::Down => {
            lemma_sum_cols(s);
            lemma_sum_nonneg(col_of(s, 0));
            lemma_sum_nonneg(col_of(s, 1));
            lemma_sum_nonneg(col_of(s, 2));
            lemma_sum_nonneg(col_of(s, 3));
            assert(forall|c: int, i: int|
                0 <= c < 4 && 0 <= i < 4 ==> valid_tile(#[trigger] col_of(s, c)[i]));
            if d == Direction::Up {
                lemma_slide_conservation(col_of(s, 0));
                lemma_slide_conservation(col_of(s, 1));
                lemma_slide_conservation(col_of(s, 2));
                lemma_slide_conservation(col_of(s, 3));
                lemma_slide_shape(col_of(s, 0));
                lemma_slide_shape(col_of(s, 1));
                lemma_slide_shape(col_of(s, 2));
                lemma_slide_shape(col_of(s, 3));
                assert forall|c: int| 0 <= c < 4 implies #[trigger] col_of(t, c) =~= slide_line(
                    col_of(s, c),
                ) by {
                    assert forall|j: int| 0 <= j < 4 implies col_of(t, c)[j] == slide_line(
                        col_of(s, c),
                    )[j] by {
                        assert(col_of(t, c)[j] == t[c + 4 * j]);
                        assert((c + 4 * j) / 4 == j && (c + 4 * j) % 4 == c) by (nonlinear_arith)
                            requires
                                0 <= c < 4 && 0 <= j < 4,
                        ;
                    }
                }
            } else {
                lemma_slide_back_conservation(col_of(s, 0));
                lemma_slide_back_conservation(col_of(s, 1));
                lemma_slide_back_conservation(col_of(s, 2));
                lemma_slide_back_conservation(col_of(s, 3));
                assert forall|c: int| 0 <= c < 4 implies #[trigger] col_of(t, c)
                    =~= slide_line_back(col_of(s, c)) by {
                    assert forall|j: int| 0 <= j < 4 implies col_of(t, c)[j] == slide_line_back(
                        col_of(s, c),
                    )[j] by {
                        assert(col_of(t, c)[j] == t[c + 4 * j]);
                        assert((c + 4 * j) / 4 == j && (c + 4 * j) % 4 == c) by (nonlinear_arith)
                            requires
                                0 <= c < 4 && 0 <= j < 4,
                        ;
                    }
                }
            }
            lemma_sum_cols(t);
            assert forall|i: int| 0 <= i < 16 implies valid_tile(#[trigger] t[i]) by {
                assert(t[i] == col_of(t, i % 4)[i / 4]);
            }
        },
    }
}

/// Conservation and shape for a line slid toward its far end.
pub proof fn lemma_slide_back_conservation(l: Seq<u32>)
    requires
        sum_vals(l) <= MAX_GRID_SUM as int,
        forall|i: int| 0 <= i < l.len() ==> valid_tile(#[trigger] l[i]),
    ensures
        sum_vals(slide_line_back(l)) == sum_vals(l),
        0 <= line_gain_back(l) <= sum_vals(l),
        slide_line_back(l).len() == l.len(),
        forall|i: int|
            0 <= i < slide_line_back(l).len() ==> valid_tile(#[trigger] slide_line_back(l)[i]),
{
    crate::line::lemma_sum_reverse(l);
    assert(forall|i: int|
        0 <= i < l.reverse().len() ==> valid_tile(#[trigger] l.reverse()[i]));
    lemma_slide_conservation(l.reverse());
    lemma_slide_shape(l.reverse());
    crate::line::lemma_sum_reverse(slide_line(l.reverse()));
    assert(forall|i: int|
        0 <= i < slide_line_back(l).len() ==> slide_line_back(l)[i] == slide_line(l.reverse())[
            slide_line(l.reverse()).len() - 1 - i
        ]);
}

/// Read row `r` of the grid into a four-cell line.
fn read_row(board: &Vec<u32>, r: usize) -> (line: Vec<u32>)
    requires
        board@.len() == 16,
        r < 4,
    ensures
        line@ == row_of(board@, r as int),
        line@.len() == 4,
{
    let mut line: Vec<u32> = Vec::new();
    line.push(board[4 * r]);
    line.push(board[4 * r + 1]);
    line.push(board[4 * r + 2]);
    line.push(board[4 * r + 3]);
    proof {
        assert(line@ =~= row_of(board@, r as int));
    }
    line
}

/// Read column `c` of the grid into a four-cell line, top to bottom.
fn read_col(board: &Vec<u32>, c: usize) -> (line: Vec<u32>)
    requires
        board@.len() == 16,
        c < 4,
    ensures
        line@ == col_of(board@, c as int),
        line@.len() == 4,
{
    let mut line: Vec<u32> = Vec::new();
    line.push(board[c]);
    line.push(board[c + 4]);
    line.push(board[c + 8]);
    line.push(board[c + 12]);
    proof {
        assert(line@ =~= col_of(board@, c as int));
    }
    line
}

#[verifier::rlimit(50)]
fn slide_board_left(board: &Vec<u32>) -> (res: (Vec<u32>, u32, bool))
    requires
        wf_board(board@),
    ensures
        res.0@ == slide_grid(board@, Direction::Left),
        res.1 as int == grid_gain(board@, Direction::Left),
        res.2 == grid_makes(board@, Direction::Left, WIN_TILE),
{
    proof {
        reveal(slide_grid);
        reveal(grid_gain);
        reveal(grid_makes);
        lemma_sum_rows(board@);
        lemma_sum_nonneg(row_of(board@, 0));
        lemma_sum_nonneg(row_of(board@, 1));
        lemma_sum_nonneg(row_of(board@, 2));
        lemma_sum_nonneg(row_of(board@, 3));
    }
    let s0 = slide_row_left(&read_row(board, 0));
    let s1 = slide_row_left(&read_row(board, 1));
    let s2 = slide_row_left(&read_row(board, 2));
    let s3 = slide_row_left(&read_row(board, 3));
    proof {
        crate::line::lemma_slide_conservation(row_of(board@, 0));
        crate::line::lemma_slide_conservation(row_of(board@, 1));
        crate::line::lemma_slide_conservation(row_of(board@, 2));
        crate::line::lemma_slide_conservation(row_of(board@, 3));
    }
    let gain = s0.1 + s1.1 + s2.1 + s3.1;
    let hit = s0.2 || s1.2 || s2.2 || s3.2;
    let mut out: Vec<u32> = Vec::new();
    out.push(s0.0[0]);
    out.push(s0.0[1]);
    out.push(s0.0[2]);
    out.push(s0.0[3]);
    out.push(s1.0[0]);
    out.push(s1.0[1]);
    out.push(s1.0[2]);
    out.push(s1.0[3]);
    out.push(s2.0[0]);
    out.push(s2.0[1]);
    out.push(s2.0[2]);
    out.push(s2.0[3]);
    out.push(s3.0[0]);
    out.push(s3.0[1]);
    out.push(s3.0[2]);
    out.push(s3.0[3]);
    proof {
        assert(out@ =~= slide_grid(board@, Direction::Left));
    }
    (out, gain, hit)
}

#[verifier::rlimit(50)]
fn slide_board_right(board: &Vec<u32>) -> (res: (Vec<u32>, u32, bool))
    requires
        wf_board(board@),
    ensures
        res.0@ == slide_grid(board@, Direction::Right),
        res.1 as int == grid_gain(board@, Direction::Right),
        res.2 == grid_makes(board@, Direction::Right, WIN_TILE),
{
    proof {
        reveal(slide_grid);
        reveal(grid_gain);
        reveal(grid_makes);
        lemma_sum_rows(board@);
        lemma_sum_nonneg(row_of(board@, 0));
        lemma_sum_nonneg(row_of(board@, 1));
        lemma_sum_nonneg(row_of(board@, 2));
        lemma_sum_nonneg(row_of(board@, 3));
        assert(forall|r: int, i: int|
            0 <= r < 4 && 0 <= i < 4 ==> valid_tile(#[trigger] row_of(board@, r)[i]));
    }
    let s0 = slide_row_right(&read_row(board, 0));
    let s1 = slide_row_right(&read_row(board, 1));
    let s2 = slide_row_right(&read_row(board, 2));
    let s3 = slide_row_right(&read_row(board, 3));
    proof {
        lemma_slide_back_conservation(row_of(board@, 0));
        lemma_slide_back_conservation(row_of(board@, 1));
        lemma_slide_back_conservation(row_of(board@, 2));
        lemma_slide_back_conservation(row_of(board@, 3));
    }
    let gain = s0.1 + s1.1 + s2.1 + s3.1;
    let hit = s0.2 || s1.2 || s2.2 || s3.2;
    let mut out: Vec<u32> = Vec::new();
    out.push(s0.0[0]);
    out.push(s0.0[1]);
    out.push(s0.0[2]);
    out.push(s0.0[3]);
    out.push(s1.0[0]);
    out.push(s1.0[1]);
    out.push(s1.0[2]);
    out.push(s1.0[3]);
    out.push(s2.0[0]);
    out.push(s2.0[1]);
    out.push(s2.0[2]);
    out.push(s2.0[3]);
    out.push(s3.0[0]);
    out.push(s3.0[1]);
    out.push(s3.0[2]);
    out.push(s3.0[3]);
    proof {
        assert(out@ =~= slide_grid(board@, Direction::Right));
    }
    (out, gain, hit)
}

#[verifier::rlimit(50)]
fn slide_board_up(board: &Vec<u32>) -> (res: (Vec<u32>, u32, bool))
    requires
        wf_board(board@),
    ensures
        res.0@ == slide_grid(board@, Direction::Up),
        res.1 as int == grid_gain(board@, Direction::Up),
        res.2 == grid_makes(board@, Direction::Up, WIN_TILE),
{
    proof {
        reveal(slide_grid);
        reveal(grid_gain);
        reveal(grid_makes);
        lemma_sum_cols(board@);
        lemma_sum_nonneg(col_of(board@, 0));
        lemma_sum_nonneg(col_of(board@, 1));
        lemma_sum_nonneg(col_of(board@, 2));
        lemma_sum_nonneg(col_of(board@, 3));
    }
    let s0 = slide_row_left(&read_col(board, 0));
    let s1 = slide_row_left(&read_col(board, 1));
    let s2 = slide_row_left(&read_col(board, 2));
    let s3 = slide_row_left(&read_col(board, 3));
    proof {
        crate::line::lemma_slide_conservation(col_of(board@, 0));
        crate::line::lemma_slide_conservation(col_of(board@, 1));
        crate::line::lemma_slide_conservation(col_of(board@, 2));
        crate::line::lemma_slide_conservation(col_of(board@, 3));
    }
    let gain = s0.1 + s1.1 + s2.1 + s3.1;
    let hit = s0.2 || s1.2 || s2.2 || s3.2;
    let mut out: Vec<u32> = Vec::new();
    out.push(s0.0[0]);
    out.push(s1.0[0]);
    out.push(s2.0[0]);
    out.push(s3.0[0]);
    out.push(s0.0[1]);
    out.push(s1.0[1]);
    out.push(s2.0[1]);
    out.push(s3.0[1]);
    out.push(s0.0[2]);
    out.push(s1.0[2]);
    out.push(s2.0[2]);
    out.push(s3.0[2]);
    out.push(s0.0[3]);
    out.push(s1.0[3]);
    out.push(s2.0[3]);
    out.push(s3.0[3]);
    proof {
        assert(out@ =~= slide_grid(board@, Direction::Up));
    }
    (out, gain, hit)
}

#[verifier::rlimit(50)]
fn slide_board_down(board: &Vec<u32>) -> (res: (Vec<u32>, u32, bool))
    requires
        wf_board(board@),
    ensures
        res.0@ == slide_grid(board@, Direction::Down),
        res.1 as int == grid_gain(board@, Direction::Down),
        res.2 == grid_makes(board@, Direction::Down, WIN_TILE),
{
    proof {
        reveal(slide_grid);
        reveal(grid_gain);
        reveal(grid_makes);
        lemma_sum_cols(board@);
        lemma_sum_nonneg(col_of(board@, 0));
        lemma_sum_nonneg(col_of(board@, 1));
        lemma_sum_nonneg(col_of(board@, 2));
        lemma_sum_nonneg(col_of(board@, 3));
        assert(forall|c: int, i: int|
            0 <= c < 4 && 0 <= i < 4 ==> valid_tile(#[trigger] col_of(board@, c)[i]));
    }
    let s0 = slide_row_right(&read_col(board, 0));
    let s1 = slide_row_right(&read_col(board, 1));
    let s2 = slide_row_right(&read_col(board, 2));
    let s3 = slide_row_right(&read_col(board, 3));
    proof {
        lemma_slide_back_conservation(col_of(board@, 0));
        lemma_slide_back_conservation(col_of(board@, 1));
        lemma_slide_back_conservation(col_of(board@, 2));
        lemma_slide_back_conservation(col_of(board@, 3));
    }
    let gain = s0.1 + s1.1 + s2.1 + s3.1;
    let hit = s0.2 || s1.2 || s2.2 || s3.2;
    let mut out: Vec<u32> = Vec::new();
    out.push(s0.0[0]);
    out.push(s1.0[0]);
    out.push(s2.0[0]);
    out.push(s3.0[0]);
    out.push(s0.0[1]);
    out.push(s1.0[1]);
    out.push(s2.0[1]);
    out.push(s3.0[1]);
    out.push(s0.0[2]);
    out.push(s1.0[2]);
    out.push(s2.0[2]);
    out.push(s3.0[2]);
    out.push(s0.0[3]);
    out.push(s1.0[3]);
    out.push(s2.0[3]);
    out.push(s3.0[3]);
    proof {
        assert(out@ =~= slide_grid(board@, Direction::Down));
    }
    (out, gain, hit)
}

/// Slide the whole grid in direction `d`: the executable grid engine.
/// Returns the slid grid, the score gained and whether the winning tile
/// was produced by a merge.
pub fn slide_board(board: &Vec<u32>, d: Direction) -> (res: (Vec<u32>, u32, bool))
    requires
        wf_board(board@),
    ensures
        res.0@ == slide_grid(board@, d),
        wf_board(res.0@),
        sum_vals(res.0@) == sum_vals(board@),
        res.1 as int == grid_gain(board@, d),
        res.2 == grid_makes(board@, d, WIN_TILE),
{
    proof {
        lemma_slide_grid_conservation(board@, d);
    }
    match d {
        Direction::Left => slide_board_left(board),
        Direction::Right => slide_board_right(board),
        Direction::Up => slide_board_up(board),
        Direction::Down => slide_board_down(board),
    }
}

/// Decide whether the grid is stuck: no empty cell and no equal adjacent
/// pair, row-wise or column-wise.  This is the loss test of the state
/// machine, evaluated after every effective move.
#[verifier::loop_isolation(false)]
pub fn evaluate(board: &Vec<u32>) -> (over: bool)
    requires
        board@.len() == 16,
    ensures
        over == grid_over(board@),
{
    proof {
        reveal(grid_over);
    }
    let mut i: usize = 0;
    while i < 16
        invariant
            i <= 16,
            forall|k: int| 0 <= k < i ==> board@[k] != 0,
        decreases 16 - i,
    {
        if board[i] == 0 {
            proof {
                reveal(grid_over);
                let r = i as int / 4;
                let c = i as int % 4;
                assert(4 * r + c == i as int);
                assert(cell(board@, r, c) == 0);
            }
            return false;
        }
        i += 1;
    }
    assert(forall|r: int, c: int|
        0 <= r < 4 && 0 <= c < 4 ==> #[trigger] cell(board@, r, c) != 0);
    let mut r: usize = 0;
    while r < 4
        invariant
            r <= 4,
            forall|rr: int, cc: int|
                0 <= rr < r && 0 <= cc < 3 ==> !#[trigger] row_pair_eq(board@, rr, cc),
        decreases 4 - r,
    {
        let mut c: usize = 0;
        while c < 3
            invariant
                c <= 3,
                forall|cc: int| 0 <= cc < c ==> !#[trigger] row_pair_eq(board@, r as int, cc),
        decreases 3 - c,
        {
            if board[4 * r + c] == board[4 * r + c + 1] {
                proof {
                    reveal(grid_over);
                    assert(row_pair_eq(board@, r as int, c as int));
                }
                return false;
            }
            proof {
                assert(!row_pair_eq(board@, r as int, c as int));
            }
            c += 1;
        }
        r += 1;
    }
    let mut r2: usize = 0;
    while r2 < 3
        invariant
            r2 <= 3,
            forall|rr: int, cc: int|
                0 <= rr < r2 && 0 <= cc < 4 ==> !#[trigger] col_pair_eq(board@, rr, cc),
        decreases 3 - r2,
    {
        let mut c2: usize = 0;
        while c2 < 4
            invariant
                c2 <= 4,
                forall|cc: int| 0 <= cc < c2 ==> !#[trigger] col_pair_eq(board@, r2 as int, cc),
            decreases 4 - c2,
        {
            if board[4 * r2 + c2] == board[4 * r2 + 4 + c2] {
                proof {
                    reveal(grid_over);
                    assert(col_pair_eq(board@, r2 as int, c2 as int));
                }
                return false;
            }
            proof {
                assert(!col_pair_eq(board@, r2 as int, c2 as int));
            }
            c2 += 1;
        }
        r2 += 1;
    }
    proof {
        reveal(grid_over);
    }
    true
}

/// Cell-by-cell comparison of two grids.
#[verifier::loop_isolation(false)]
pub fn boards_equal(a: &Vec<u32>, b: &Vec<u32>) -> (eq: bool)
    requires
        a@.len() == 16,
        b@.len() == 16,
    ensures
        eq == (a@ == b@),
{
    let mut i: usize = 0;
    while i < 16
        invariant
            i <= 16,
            forall|k: int| 0 <= k < i ==> a@[k] == b@[k],
        decreases 16 - i,
    {
        if a[i] != b[i] {
            return false;
        }
        i += 1;
    }
    proof {
        assert(a@ =~= b@);
    }
    true
}

} // verus!
