use vstd::prelude::*;

use crate::board::col_full;
use crate::game::Knucklebones;

verus! {

/// The ascending list of non-full columns among the first `n` of a grid.
pub open spec fn avail_cols(grid: Seq<Seq<u8>>, n: int) -> Seq<usize>
    decreases n,
{
    if n <= 0 {
        Seq::empty()
    } else if col_full(grid[n - 1]) {
        avail_cols(grid, n - 1)
    } else {
        avail_cols(grid, n - 1).push((n - 1) as usize)
    }
}

/// A verified copy of a list of column indices.
fn copy_usize_vec(v: &Vec<usize>) -> (r: Vec<usize>)
    ensures
        r@ == v@,
{
    let mut r: Vec<usize> = Vec::new();
    let mut i: usize = 0;
    while i < v.len()
        invariant
            i <= v@.len(),
            r@ == v@.subrange(0, i as int),
        decreases v@.len() - i,
    {
        r.push(v[i]);
        proof {
            assert(r@ =~= v@.subrange(0, i + 1));
        }
        i = i + 1;
    }
    proof {
        assert(v@.subrange(0, v@.len() as int) =~= v@);
    }
    r
}

impl Knucklebones {
    /// Whether column `column` of `player_index`'s board has no empty cell.
    pub fn is_column_full(&self, column: usize, player_index: usize) -> (r: bool)
        requires
            self.well_formed(),
            column < self.columns_number,
            player_index < 2,
        ensures
            r == col_full(self.grid_of(player_index as int)[column as int]),
    {
        let ghost col = self.grid_of(player_index as int)[column as int];
        let rows = self.rows_number;
        let mut i: usize = 0;
        proof {
            assert(self.boards@[player_index as int].board@.len() == self.cols());
        }
        while i < rows
            invariant
                self.well_formed(),
                column < self.columns_number,
                player_index < 2,
                rows == self.rows_number,
                col == self.grid_of(player_index as int)[column as int],
                i <= rows,
                forall|k: int| 0 <= k < i ==> col[k] != 0,
            decreases rows - i,
        {
            if self.boards[player_index].board[column][i] == 0 {
                return false;
            }
            i = i + 1;
        }
        true
    }

    /// The columns of `player_index`'s board that still accept a die, in
    /// ascending order.
    pub fn get_available_columns(&self, player_index: usize) -> (r: Vec<usize>)
        requires
            self.well_formed(),
            player_index < 2,
        ensures
            r@ == avail_cols(self.grid_of(player_index as int), self.cols()),
    {
        let ghost g = self.grid_of(player_index as int);
        let mut available_columns: Vec<usize> = Vec::new();
        let cols = self.columns_number;
        let mut column: usize = 0;
        while column < cols
            invariant
                self.well_formed(),
                player_index < 2,
                g == self.grid_of(player_index as int),
                cols == self.columns_number,
                column <= cols,
                available_columns@ == avail_cols(g, column as int),
            decreases cols - column,
        {
            if !self.is_column_full(column, player_index) {
                available_columns.push(column);
            }
            column = column + 1;
        }
        available_columns
    }

    /// Every move reachable over all die outcomes for the current player:
    /// when at least one column is open, each face value `1..=max_dice_value`
    /// is paired, in ascending face order, with the ascending list of open
    /// columns; with no open column the enumeration is empty.
    pub fn get_possible_moves(&self) -> (r: Vec<(u8, Vec<usize>)>)
        requires
            self.well_formed(),
        ensures
            avail_cols(self.grid_of(self.current_player as int), self.cols()).len() == 0
                ==> r@.len() == 0,
            avail_cols(self.grid_of(self.current_player as int), self.cols()).len() > 0 ==> {
                &&& r@.len() == self.max_dice_value
                &&& forall|k: int| 0 <= k < r@.len() ==> (#[trigger] r@[k]).0 == k + 1
                &&& forall|k: int|
                    0 <= k < r@.len() ==> (#[trigger] r@[k]).1@ == avail_cols(
                        self.grid_of(self.current_player as int),
                        self.cols(),
                    )
            },
    {
        let current = self.current_player;
        let avail = self.get_available_columns(current);
        let mut possible_moves: Vec<(u8, Vec<usize>)> = Vec::new();
        if avail.len() == 0 {
            return possible_moves;
        }
        let max = self.max_dice_value;
        let mut d: usize = 1;
        while d <= max as usize
            invariant
                1 <= d <= max as usize + 1,
                max == self.max_dice_value,
                possible_moves@.len() == d - 1,
                forall|k: int| 0 <= k < d - 1 ==> (#[trigger] possible_moves@[k]).0 == k + 1,
                forall|k: int| 0 <= k < d - 1 ==> (#[trigger] possible_moves@[k]).1@ == avail@,
            decreases max as usize + 1 - d,
        {
            possible_moves.push(((d as u8), copy_usize_vec(&avail)));
            d = d + 1;
        }
        possible_moves
    }
}

} // verus!
