use vstd::prelude::*;
use vstd::seq_lib::{commutative_foldr, lemma_fold_right_permutation};

use crate::board::{count_eq, lemma_count_eq_bounds};
use crate::game::Knucklebones;

verus! {

/// Points contributed by the first `n` cells of a column: each cell counts
/// its face value times the number of cells of that value in the whole
/// column, so a value `v` occurring `c` times contributes `v * c * c` in
/// total. Empty cells contribute 0 (their value is 0).
pub open spec fn cell_points(col: Seq<u8>, n: int) -> int
    decreases n,
{
    if n <= 0 {
        0
    } else {
        cell_points(col, n - 1) + col[n - 1] * count_eq(col, col[n - 1], col.len() as int)
    }
}

/// The knucklebones score of one column.
pub open spec fn column_score(col: Seq<u8>) -> int {
    cell_points(col, col.len() as int)
}

/// The score of the first `n` columns of a board.
pub open spec fn board_score_prefix(grid: Seq<Seq<u8>>, n: int) -> int
    decreases n,
{
    if n <= 0 {
        0
    } else {
        board_score_prefix(grid, n - 1) + column_score(grid[n - 1])
    }
}

/// The knucklebones score of a whole board.
pub open spec fn board_score(grid: Seq<Seq<u8>>) -> int {
    board_score_prefix(grid, grid.len() as int)
}

pub proof fn lemma_cell_points_bounds(col: Seq<u8>, n: int, max: u8)
    requires
        0 <= n <= col.len(),
        forall|i: int| 0 <= i < col.len() ==> col[i] <= max,
    ensures
        0 <= cell_points(col, n) <= n * ((max as int) * col.len()),
    decreases n,
{
    if n > 0 {
        lemma_cell_points_bounds(col, n - 1, max);
        lemma_count_eq_bounds(col, col[n - 1], col.len() as int);
        assert(col[n - 1] * count_eq(col, col[n - 1], col.len() as int) <= (max as int)
            * col.len()) by (nonlinear_arith)
            requires
                0 <= col[n - 1] <= max,
                0 <= count_eq(col, col[n - 1], col.len() as int) <= col.len(),
        ;
        assert(col[n - 1] * count_eq(col, col[n - 1], col.len() as int) >= 0) by (nonlinear_arith)
            requires
                0 <= col[n - 1],
                0 <= count_eq(col, col[n - 1], col.len() as int),
        ;
        assert(n * ((max as int) * col.len()) == (n - 1) * ((max as int) * col.len()) + (max as int)
            * col.len()) by (nonlinear_arith);
    }
}

pub proof fn lemma_board_score_prefix_bounds(grid: Seq<Seq<u8>>, n: int, rows: int, max: u8)
    requires
        0 <= n <= grid.len(),
        0 <= rows,
        forall|j: int| 0 <= j < grid.len() ==> (#[trigger] grid[j]).len() == rows,
        forall|j: int, i: int|
            0 <= j < grid.len() && 0 <= i < rows ==> #[trigger] grid[j][i] <= max,
    ensures
        0 <= board_score_prefix(grid, n) <= n * ((max as int) * rows * rows),
    decreases n,
{
    if n > 0 {
        lemma_board_score_prefix_bounds(grid, n - 1, rows, max);
        lemma_cell_points_bounds(grid[n - 1], rows, max);
        assert(rows * ((max as int) * rows) == (max as int) * rows * rows) by (nonlinear_arith);
        assert(n * ((max as int) * rows * rows) == (n - 1) * ((max as int) * rows * rows) + (
        max as int) * rows * rows) by (nonlinear_arith);
    }
}

/// Two boards whose first `n` columns agree score those columns alike.
proof fn lemma_board_score_prefix_agree(g1: Seq<Seq<u8>>, g2: Seq<Seq<u8>>, n: int)
    requires
        0 <= n <= g1.len(),
        n <= g2.len(),
        forall|k: int| 0 <= k < n ==> g1[k] == g2[k],
    ensures
        board_score_prefix(g1, n) == board_score_prefix(g2, n),
    decreases n,
{
    if n > 0 {
        lemma_board_score_prefix_agree(g1, g2, n - 1);
    }
}

/// The board score is the fold of the column scores.
proof fn lemma_board_score_fold(g: Seq<Seq<u8>>)
    ensures
        board_score(g) == g.fold_right(|col: Seq<u8>, acc: int| acc + column_score(col), 0),
    decreases g.len(),
{
    let f = |col: Seq<u8>, acc: int| acc + column_score(col);
    if g.len() > 0 {
        lemma_board_score_fold(g.drop_last());
        g.drop_last().lemma_fold_right_commute_one(g.last(), f, 0);
        lemma_board_score_prefix_agree(g, g.drop_last(), g.len() - 1);
    }
}

/// Law: the board score does not depend on the order of the columns; any
/// rearrangement of the same multiset of columns scores the same.
pub proof fn lemma_score_column_permutation(g1: Seq<Seq<u8>>, g2: Seq<Seq<u8>>)
    requires
        g1.to_multiset() == g2.to_multiset(),
    ensures
        board_score(g1) == board_score(g2),
{
    let f = |col: Seq<u8>, acc: int| acc + column_score(col);
    assert(commutative_foldr(f));
    lemma_board_score_fold(g1);
    lemma_board_score_fold(g2);
    lemma_fold_right_permutation(g1, g2, f, 0);
}

impl Knucklebones {
    /// The score of `player_index`'s board: in each column, each face value
    /// `v` occurring `c` times contributes `v * c * c`.
    pub fn get_score(&self, player_index: usize) -> (r: usize)
        requires
            self.well_formed(),
            player_index < 2,
        ensures
            r == board_score(self.grid_of(player_index as int)),
    {
        let ghost g = self.grid_of(player_index as int);
        let cols = self.columns_number;
        let rows = self.rows_number;
        let ghost max = self.max_dice_value;
        let mut score: usize = 0;
        let mut c: usize = 0;
        proof {
            assert(self.boards@[player_index as int].board@.len() == self.cols());
        }
        while c < cols
            invariant
                self.well_formed(),
                player_index < 2,
                g == self.grid_of(player_index as int),
                cols == self.columns_number,
                rows == self.rows_number,
                max == self.max_dice_value,
                c <= cols,
                score == board_score_prefix(g, c as int),
            decreases cols - c,
        {
            proof {
                lemma_board_score_prefix_bounds(g, c as int, rows as int, max);
            }
            let mut r_i: usize = 0;
            while r_i < rows
                invariant
                    self.well_formed(),
                    player_index < 2,
                    g == self.grid_of(player_index as int),
                    cols == self.columns_number,
                    rows == self.rows_number,
                    max == self.max_dice_value,
                    c < cols,
                    r_i <= rows,
                    score == board_score_prefix(g, c as int) + cell_points(g[c as int], r_i as int),
                decreases rows - r_i,
            {
                let v = self.boards[player_index].board[c][r_i];
                let mut cnt: usize = 0;
                let mut k: usize = 0;
                while k < rows
                    invariant
                        self.well_formed(),
                        player_index < 2,
                        g == self.grid_of(player_index as int),
                        cols == self.columns_number,
                        rows == self.rows_number,
                        c < cols,
                        k <= rows,
                        v == g[c as int][r_i as int],
                        cnt == count_eq(g[c as int], v, k as int),
                        cnt <= k,
                    decreases rows - k,
                {
                    if self.boards[player_index].board[c][k] == v {
                        cnt = cnt + 1;
                    }
                    k = k + 1;
                }
                proof {
                    lemma_board_score_prefix_bounds(g, c as int, rows as int, max);
                    lemma_cell_points_bounds(g[c as int], r_i as int, max);
                    lemma_count_eq_bounds(g[c as int], v, rows as int);
                    assert((v as int) * (cnt as int) <= (max as int) * (rows as int))
                        by (nonlinear_arith)
                        requires
                            0 <= v <= max,
                            0 <= cnt <= rows,
                    ;
                    assert((v as int) * (cnt as int) >= 0) by (nonlinear_arith)
                        requires
                            0 <= v,
                            0 <= cnt,
                    ;
                    assert(board_score_prefix(g, c as int) + cell_points(g[c as int], r_i as int)
                        + (v as int) * (cnt as int) <= (cols as int) * ((max as int) * (
                    rows as int) * (rows as int))) by (nonlinear_arith)
                        requires
                            0 <= board_score_prefix(g, c as int) <= (c as int) * ((max as int) * (
                            rows as int) * (rows as int)),
                            0 <= cell_points(g[c as int], r_i as int) <= (r_i as int) * ((
                            max as int) * (rows as int)),
                            (v as int) * (cnt as int) <= (max as int) * (rows as int),
                            0 <= r_i < rows,
                            0 <= c < cols,
                    ;
                    assert((cols as int) * ((max as int) * (rows as int) * (rows as int)) == (
                    cols as int) * (rows as int) * (rows as int) * (max as int))
                        by (nonlinear_arith);
                    assert((max as int) * (rows as int) <= (cols as int) * (rows as int) * (
                    rows as int) * (max as int)) by (nonlinear_arith)
                        requires
                            1 <= cols as int,
                            1 <= rows as int,
                            0 <= max as int,
                    ;
                    assert(cell_points(g[c as int], r_i as int + 1) == cell_points(
                        g[c as int],
                        r_i as int,
                    ) + v * count_eq(g[c as int], v, rows as int));
                }
                score = score + (v as usize) * cnt;
                r_i = r_i + 1;
            }
            c = c + 1;
        }
        score
    }

    /// The score differential `player_index`'s board holds over the
    /// opponent's, used by external search to rank states.
    pub fn get_heuristic_score(&self, player_index: usize) -> (r: i64)
        requires
            self.well_formed(),
            player_index < 2,
        ensures
            r == board_score(self.grid_of(player_index as int)) - board_score(
                self.grid_of(Self::spec_other(player_index as int)),
            ),
    {
        let other = self.get_other_player(player_index);
        let player_score = self.get_score(player_index);
        let other_score = self.get_score(other);
        proof {
            lemma_board_score_prefix_bounds(
                self.grid_of(player_index as int),
                self.cols(),
                self.rows(),
                self.max_dice_value,
            );
            lemma_board_score_prefix_bounds(
                self.grid_of(Self::spec_other(player_index as int)),
                self.cols(),
                self.rows(),
                self.max_dice_value,
            );
            assert((self.cols()) * ((self.max_dice_value as int) * self.rows() * self.rows())
                == self.cols() * self.rows() * self.rows() * (self.max_dice_value as int))
                by (nonlinear_arith);
        }
        (player_score as i64) - (other_score as i64)
    }
}

} // verus!
