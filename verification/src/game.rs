use vstd::prelude::*;

use crate::board::{
    Board, cleared, cleared_prefix, col_full, count_eq, first_zero, lemma_count_eq_bounds,
    lemma_first_zero_from,
    lemma_occ_col_ge_one, lemma_occ_col_update, lemma_occ_grid_bounds, lemma_occ_grid_ge_col,
    lemma_occ_grid_update,
};
use crate::dice::roll_die;

verus! {

/// The Knucklebones rules engine: two boards, the configuration fixed at
/// construction, the die shown to the current player, and whose turn it is.
pub struct Knucklebones {
    pub boards: Vec<Board>,
    pub columns_number: usize,
    pub rows_number: usize,
    pub max_dice_value: u8,
    pub dice_value: u8,
    pub current_player: usize,
    pub max_number_of_elements: usize,
}

/// Every cell of `g` holds either 0 or a face value of a die with `max` faces.
pub open spec fn grid_bounded(g: Seq<Seq<u8>>, cols: int, rows: int, max: u8) -> bool {
    forall|j: int, i: int| 0 <= j < cols && 0 <= i < rows ==> #[trigger] g[j][i] <= max
}

/// Two boards agree on everything a caller can observe.
pub open spec fn board_like(a: Board, b: Board) -> bool {
    &&& a.grid() == b.grid()
    &&& a.number_of_elements == b.number_of_elements
}

impl Knucklebones {
    pub open spec fn cols(self) -> int {
        self.columns_number as int
    }

    pub open spec fn rows(self) -> int {
        self.rows_number as int
    }

    /// Total number of cells of one board.
    pub open spec fn capacity(self) -> int {
        self.cols() * self.rows()
    }

    /// The grid of player `p`.
    pub open spec fn grid_of(self, p: int) -> Seq<Seq<u8>> {
        self.boards@[p].grid()
    }

    /// The cached occupancy count of player `p`.
    pub open spec fn count_of(self, p: int) -> int {
        self.boards@[p].number_of_elements as int
    }

    /// The opponent of player `p`.
    pub open spec fn spec_other(p: int) -> int {
        if p == 0 {
            1
        } else {
            0
        }
    }

    /// Every cell of player `p` holds either 0 or a face value of the die.
    pub open spec fn cells_bounded(self, p: int) -> bool {
        grid_bounded(self.grid_of(p), self.cols(), self.rows(), self.max_dice_value)
    }

    /// The engine's invariant: two well-formed boards of the configured
    /// shape, a die face in range, a valid player index, and a board small
    /// enough that occupancy counts and scores fit the machine integers.
    pub open spec fn well_formed(self) -> bool {
        &&& self.boards@.len() == 2
        &&& self.boards@[0].well_formed(self.cols(), self.rows())
        &&& self.boards@[1].well_formed(self.cols(), self.rows())
        &&& self.cells_bounded(0)
        &&& self.cells_bounded(1)
        &&& self.max_number_of_elements == self.capacity()
        &&& self.current_player < 2
        &&& 1 <= self.dice_value <= self.max_dice_value
        &&& 1 <= self.columns_number
        &&& 1 <= self.rows_number
        &&& 1 <= self.max_dice_value
        &&& self.cols() * self.rows() <= usize::MAX
        &&& self.cols() * self.rows() * self.rows() * (self.max_dice_value as int)
            <= usize::MAX
        &&& self.cols() * self.rows() * self.rows() * (self.max_dice_value as int)
            <= i64::MAX
    }

    /// Configuration, die and turn state agree between two engine values.
    pub open spec fn same_config(self, other: Self) -> bool {
        &&& self.columns_number == other.columns_number
        &&& self.rows_number == other.rows_number
        &&& self.max_dice_value == other.max_dice_value
        &&& self.max_number_of_elements == other.max_number_of_elements
    }

    /// All observable state agrees between two engine values.
    pub open spec fn state_like(self, other: Self) -> bool {
        &&& self.same_config(other)
        &&& self.dice_value == other.dice_value
        &&& self.current_player == other.current_player
        &&& self.boards@.len() == other.boards@.len()
        &&& forall|p: int|
            0 <= p < self.boards@.len()
                ==> board_like(#[trigger] self.boards@[p], other.boards@[p])
    }

    /// A fresh game: two empty boards, player 0 to move, a random first die.
    pub fn new(columns_number: usize, rows_number: usize, max_dice_value: u8) -> (r: Self)
        requires
            1 <= columns_number,
            1 <= rows_number,
            1 <= max_dice_value,
            columns_number * rows_number * rows_number * (max_dice_value as int) <= usize::MAX,
            columns_number * rows_number * rows_number * (max_dice_value as int) <= i64::MAX,
        ensures
            r.well_formed(),
            r.columns_number == columns_number,
            r.rows_number == rows_number,
            r.max_dice_value == max_dice_value,
            r.current_player == 0,
            r.count_of(0) == 0,
            r.count_of(1) == 0,
            forall|p: int, j: int, i: int|
                0 <= p < 2 && 0 <= j < columns_number && 0 <= i < rows_number
                    ==> #[trigger] r.grid_of(p)[j][i] == 0,
    {
        proof {
            assert(columns_number * rows_number <= columns_number * rows_number * rows_number
                * (max_dice_value as int)) by (nonlinear_arith)
                requires 1 <= columns_number && 1 <= rows_number && 1 <= max_dice_value;
        }
        let mut boards: Vec<Board> = Vec::new();
        boards.push(Board::new(columns_number, rows_number));
        boards.push(Board::new(columns_number, rows_number));
        Knucklebones {
            boards,
            columns_number,
            rows_number,
            max_dice_value,
            dice_value: roll_die(max_dice_value),
            current_player: 0,
            max_number_of_elements: columns_number * rows_number,
        }
    }

    /// The opponent of `player_index`: 0 and 1 swap; any index other than 0
    /// is answered with player 0.
    pub fn get_other_player(&self, player_index: usize) -> (r: usize)
        ensures
            r == Self::spec_other(player_index as int),
    {
        if player_index == 0 {
            1
        } else {
            0
        }
    }

    pub fn get_current_player(&self) -> (r: usize)
        ensures
            r == self.current_player,
    {
        self.current_player
    }

    pub fn get_dice_value(&self) -> (r: u8)
        ensures
            r == self.dice_value,
    {
        self.dice_value
    }

    pub fn get_number_of_elements(&self, player_index: usize) -> (r: usize)
        requires
            self.well_formed(),
            player_index < 2,
        ensures
            r == self.count_of(player_index as int),
    {
        self.boards[player_index].number_of_elements
    }

    /// Overrides the die shown to the current player, for deterministic
    /// replay; the value must be a legal face of the configured die.
    pub fn set_dice_value(&mut self, dice_value: u8)
        requires
            old(self).well_formed(),
            1 <= dice_value <= old(self).max_dice_value,
        ensures
            final(self).well_formed(),
            final(self).dice_value == dice_value,
            final(self).same_config(*old(self)),
            final(self).current_player == old(self).current_player,
            final(self).boards == old(self).boards,
    {
        self.dice_value = dice_value;
    }

    /// The game ends exactly when one of the two boards is completely full.
    pub fn is_game_over(&self) -> (r: bool)
        requires
            self.well_formed(),
        ensures
            r == (self.count_of(0) == self.capacity() || self.count_of(1) == self.capacity()),
    {
        proof {
            lemma_occ_grid_bounds(self.grid_of(0), self.cols(), self.rows());
            lemma_occ_grid_bounds(self.grid_of(1), self.cols(), self.rows());
        }
        self.boards[0].number_of_elements >= self.max_number_of_elements
            || self.boards[1].number_of_elements >= self.max_number_of_elements
    }

    /// Copies of both boards, in player order, independent of the engine.
    pub fn get_boards(&self) -> (r: Vec<Board>)
        requires
            self.well_formed(),
        ensures
            r@.len() == 2,
            forall|p: int| 0 <= p < 2 ==> board_like(#[trigger] r@[p], self.boards@[p]),
    {
        let mut r: Vec<Board> = Vec::new();
        r.push(self.boards[0].duplicate());
        r.push(self.boards[1].duplicate());
        r
    }

    /// An independent deep copy of the whole engine: equal in every
    /// observable part, sharing no storage with the original.
    pub fn copy(&self) -> (r: Self)
        requires
            self.well_formed(),
        ensures
            r.well_formed(),
            r.state_like(*self),
    {
        Knucklebones {
            boards: self.get_boards(),
            columns_number: self.columns_number,
            rows_number: self.rows_number,
            max_dice_value: self.max_dice_value,
            dice_value: self.dice_value,
            current_player: self.current_player,
            max_number_of_elements: self.max_number_of_elements,
        }
    }

    /// Drops `value` into column `board_index` of `player_index`'s board:
    /// the lowest empty cell receives it and the occupancy count grows by
    /// one; a full column rejects the drop and nothing changes.
    pub fn add_value_to_column(
        &mut self,
        board_index: usize,
        player_index: usize,
        value: u8,
    ) -> (r: bool)
        requires
            old(self).well_formed(),
            board_index < old(self).columns_number,
            player_index < 2,
            1 <= value <= old(self).max_dice_value,
        ensures
            final(self).well_formed(),
            final(self).same_config(*old(self)),
            final(self).dice_value == old(self).dice_value,
            final(self).current_player == old(self).current_player,
            forall|q: int|
                0 <= q < 2 && q != player_index
                    ==> board_like(final(self).boards@[q], old(self).boards@[q]),
            r == !col_full(old(self).grid_of(player_index as int)[board_index as int]),
            r ==> final(self).grid_of(player_index as int) == old(self).grid_of(
                player_index as int,
            ).update(
                board_index as int,
                old(self).grid_of(player_index as int)[board_index as int].update(
                    first_zero(old(self).grid_of(player_index as int)[board_index as int], 0),
                    value,
                ),
            ),
            r ==> final(self).count_of(player_index as int) == old(self).count_of(
                player_index as int,
            ) + 1,
            !r ==> board_like(
                final(self).boards@[player_index as int],
                old(self).boards@[player_index as int],
            ),
    {
        let ghost g0 = old(self).grid_of(player_index as int);
        let ghost col0 = g0[board_index as int];
        let rows = self.rows_number;
        let mut i: usize = 0;
        while i < rows
            invariant
                *self == *old(self),
                old(self).well_formed(),
                board_index < old(self).columns_number,
                player_index < 2,
                1 <= value <= old(self).max_dice_value,
                rows == old(self).rows_number,
                g0 == old(self).grid_of(player_index as int),
                col0 == g0[board_index as int],
                i <= rows,
                forall|k: int| 0 <= k < i ==> col0[k] != 0,
            decreases rows - i,
        {
            proof {
                assert(self.boards@[player_index as int].board@.len() == self.cols());
                assert(self.boards@[player_index as int].board@[board_index as int]@
                    == col0);
            }
            if self.boards[player_index].board[board_index][i] == 0 {
                proof {
                    lemma_first_zero_from(col0, 0, i as int);
                }
                self.boards[player_index].board[board_index][i] = value;
                proof {
                    let p = player_index as int;
                    let j = board_index as int;
                    assert(self.grid_of(p) =~= g0.update(j, col0.update(i as int, value)));
                    lemma_occ_col_update(col0, i as int, value, old(self).rows());
                    lemma_occ_grid_update(g0, j, col0.update(i as int, value), old(self).cols());
                    lemma_occ_grid_bounds(self.grid_of(p), old(self).cols(), old(self).rows());
                    assert(grid_bounded(
                        self.grid_of(p),
                        old(self).cols(),
                        old(self).rows(),
                        old(self).max_dice_value,
                    ));
                }
                self.boards[player_index].number_of_elements =
                    self.boards[player_index].number_of_elements + 1;
                return true;
            }
            i = i + 1;
        }
        false
    }

    /// Clears every cell equal to `value` in column `board_index` of
    /// `player_index`'s board, lowering the occupancy count once per cleared
    /// cell; cells above a cleared one are left in place, not compacted.
    /// Reports whether anything was cleared.
    pub fn remove_value_from_column(
        &mut self,
        board_index: usize,
        player_index: usize,
        value: u8,
    ) -> (r: bool)
        requires
            old(self).well_formed(),
            board_index < old(self).columns_number,
            player_index < 2,
            1 <= value <= old(self).max_dice_value,
        ensures
            final(self).well_formed(),
            final(self).same_config(*old(self)),
            final(self).dice_value == old(self).dice_value,
            final(self).current_player == old(self).current_player,
            forall|q: int|
                0 <= q < 2 && q != player_index
                    ==> board_like(final(self).boards@[q], old(self).boards@[q]),
            final(self).grid_of(player_index as int) == old(self).grid_of(
                player_index as int,
            ).update(
                board_index as int,
                cleared(old(self).grid_of(player_index as int)[board_index as int], value),
            ),
            final(self).count_of(player_index as int) == old(self).count_of(player_index as int)
                - count_eq(
                old(self).grid_of(player_index as int)[board_index as int],
                value,
                old(self).rows(),
            ),
            r == (count_eq(
                old(self).grid_of(player_index as int)[board_index as int],
                value,
                old(self).rows(),
            ) > 0),
    {
        let ghost g0 = old(self).grid_of(player_index as int);
        let ghost col0 = g0[board_index as int];
        let ghost p = player_index as int;
        let ghost j = board_index as int;
        let rows = self.rows_number;
        let mut found = false;
        let mut i: usize = 0;
        proof {
            assert(cleared_prefix(col0, value, 0) =~= col0);
            assert(g0.update(j, col0) =~= g0);
        }
        while i < rows
            invariant
                old(self).well_formed(),
                self.well_formed(),
                self.same_config(*old(self)),
                self.dice_value == old(self).dice_value,
                self.current_player == old(self).current_player,
                board_index < old(self).columns_number,
                player_index < 2,
                1 <= value <= old(self).max_dice_value,
                rows == old(self).rows_number,
                p == player_index as int,
                j == board_index as int,
                g0 == old(self).grid_of(p),
                col0 == g0[j],
                i <= rows,
                forall|q: int|
                    0 <= q < 2 && q != p ==> #[trigger] self.boards@[q] == old(self).boards@[q],
                self.grid_of(p) == g0.update(j, cleared_prefix(col0, value, i as int)),
                self.count_of(p) == old(self).count_of(p) - count_eq(col0, value, i as int),
                found == (count_eq(col0, value, i as int) > 0),
            decreases rows - i,
        {
            let ghost cur = cleared_prefix(col0, value, i as int);
            proof {
                assert(self.boards@[p].board@.len() == self.cols());
                assert(self.grid_of(p)[j] == g0.update(j, cur)[j]);
                assert(self.boards@[p].board@[j]@ == cur);
                assert(cur[i as int] == col0[i as int]);
            }
            if self.boards[player_index].board[board_index][i] == value {
                let ghost pre = *self;
                proof {
                    lemma_count_eq_bounds(col0, value, i as int);
                    lemma_occ_grid_ge_col(pre.grid_of(p), j, pre.cols());
                    lemma_occ_col_ge_one(cur, i as int, pre.rows());
                    lemma_occ_col_update(cur, i as int, 0u8, pre.rows());
                    lemma_occ_grid_update(
                        pre.grid_of(p),
                        j,
                        cur.update(i as int, 0u8),
                        pre.cols(),
                    );
                }
                self.boards[player_index].board[board_index][i] = 0;
                self.boards[player_index].number_of_elements =
                    self.boards[player_index].number_of_elements - 1;
                found = true;
                proof {
                    assert(self.boards@[p].board@[j]@ == cur.update(i as int, 0u8));
                    assert forall|k: int| 0 <= k < g0.len() && k != j implies #[trigger] self
                        .boards@[p].board@[k]@ == g0[k] by {
                        assert(self.boards@[p].board@[k] == pre.boards@[p].board@[k]);
                        assert(pre.grid_of(p)[k] == g0.update(j, cur)[k]);
                    }
                    assert(cur.update(i as int, 0u8) =~= cleared_prefix(
                        col0,
                        value,
                        i as int + 1,
                    ));
                    assert(self.grid_of(p) =~= pre.grid_of(p).update(
                        j,
                        cur.update(i as int, 0u8),
                    ));
                    assert(self.grid_of(p) =~= g0.update(
                        j,
                        cleared_prefix(col0, value, i as int + 1),
                    ));
                    assert(grid_bounded(
                        self.grid_of(p),
                        old(self).cols(),
                        old(self).rows(),
                        old(self).max_dice_value,
                    ));
                }
            } else {
                proof {
                    assert(cleared_prefix(col0, value, i as int) =~= cleared_prefix(
                        col0,
                        value,
                        i as int + 1,
                    ));
                }
            }
            i = i + 1;
        }
        proof {
            assert(cleared_prefix(col0, value, rows as int) =~= cleared(col0, value));
        }
        found
    }

    /// The full transition `make_move` performs when it succeeds, relating
    /// the state before the move to the state after it.
    pub open spec fn move_applied(pre: Self, post: Self, j: int) -> bool {
        let p = pre.current_player as int;
        let o = Self::spec_other(p);
        let col = pre.grid_of(p)[j];
        let opp = pre.grid_of(o)[j];
        &&& post.same_config(pre)
        &&& post.current_player == o
        &&& 1 <= post.dice_value <= pre.max_dice_value
        &&& post.grid_of(p) == pre.grid_of(p).update(
            j,
            col.update(first_zero(col, 0), pre.dice_value),
        )
        &&& post.count_of(p) == pre.count_of(p) + 1
        &&& post.grid_of(o) == pre.grid_of(o).update(j, cleared(opp, pre.dice_value))
        &&& post.count_of(o) == pre.count_of(o) - count_eq(opp, pre.dice_value, pre.rows())
    }

    /// One turn of the current player: the rolled die goes into the chosen
    /// column, every matching die in the opponent's same column is cleared,
    /// the turn passes to the opponent and a new die is rolled. A move on a
    /// column index out of range, on a full board or into a full column is
    /// rejected and changes nothing.
    pub fn make_move(&mut self, board_index: usize) -> (r: bool)
        requires
            old(self).well_formed(),
        ensures
            final(self).well_formed(),
            r == (board_index < old(self).columns_number && old(self).count_of(
                old(self).current_player as int,
            ) < old(self).capacity() && !col_full(
                old(self).grid_of(old(self).current_player as int)[board_index as int],
            )),
            !r ==> final(self).state_like(*old(self)),
            r ==> Self::move_applied(*old(self), *final(self), board_index as int),
    {
        let p = self.current_player;
        proof {
            assert(self.boards@[p as int].board@.len() == self.cols());
            lemma_occ_grid_bounds(self.grid_of(p as int), self.cols(), self.rows());
        }

        // A column index outside the board is never legal.
        if board_index >= self.boards[p].board.len() {
            return false;
        }

        // A full board ends the game; no further placement is accepted.
        if self.boards[p].number_of_elements >= self.max_number_of_elements {
            return false;
        }

        // Place the rolled die for the current player.
        let v = self.dice_value;
        let success = self.add_value_to_column(board_index, p, v);
        if !success {
            return false;
        }

        // Clear the matching dice from the opponent's same column.
        let other = self.get_other_player(p);
        self.remove_value_from_column(board_index, other, v);

        // Hand the turn over and roll the die anew.
        self.current_player = other;
        let m = self.max_dice_value;
        self.dice_value = roll_die(m);
        true
    }
}

} // verus!
