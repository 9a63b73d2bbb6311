use vstd::prelude::*;

verus! {

/// One player's grid of die values, indexed `board[column][row]`.
/// A cell holds 0 when empty, otherwise the face value placed there.
/// `number_of_elements` caches the number of non-zero cells.
pub struct Board {
    pub board: Vec<Vec<u8>>,
    pub number_of_elements: usize,
}

/// Number of non-zero cells among the first `n` cells of a column.
pub open spec fn occ_col(col: Seq<u8>, n: int) -> int
    decreases n,
{
    if n <= 0 {
        0
    } else {
        occ_col(col, n - 1) + if col[n - 1] == 0 {
            0int
        } else {
            1int
        }
    }
}

/// Number of non-zero cells among the first `n` columns of a grid.
pub open spec fn occ_grid(grid: Seq<Seq<u8>>, n: int) -> int
    decreases n,
{
    if n <= 0 {
        0
    } else {
        occ_grid(grid, n - 1) + occ_col(grid[n - 1], grid[n - 1].len() as int)
    }
}

/// A column is full when every cell is occupied.
pub open spec fn col_full(col: Seq<u8>) -> bool {
    forall|i: int| 0 <= i < col.len() ==> col[i] != 0
}

/// Index of the lowest empty cell of `col` at or above `start`,
/// or `col.len()` when there is none.
pub open spec fn first_zero(col: Seq<u8>, start: int) -> int
    decreases col.len() - start,
{
    if start < 0 || start >= col.len() {
        col.len() as int
    } else if col[start] == 0 {
        start
    } else {
        first_zero(col, start + 1)
    }
}

/// `first_zero` finds exactly the lowest empty cell.
pub proof fn lemma_first_zero_from(col: Seq<u8>, start: int, i: int)
    requires
        0 <= start <= i < col.len(),
        col[i] == 0,
        forall|k: int| start <= k < i ==> col[k] != 0,
    ensures
        first_zero(col, start) == i,
    decreases i - start,
{
    if start < i {
        lemma_first_zero_from(col, start + 1, i);
    }
}

/// The column after an opponent removal of `v`: every cell equal to `v` cleared.
pub open spec fn cleared(col: Seq<u8>, v: u8) -> Seq<u8> {
    Seq::new(col.len(), |i: int| if col[i] == v { 0u8 } else { col[i] })
}

/// A removal of `v` caught up to cell `n`: cells below `n` equal to `v` are
/// cleared, the rest still stand.
pub open spec fn cleared_prefix(col: Seq<u8>, v: u8, n: int) -> Seq<u8> {
    Seq::new(col.len(), |k: int| if k < n && col[k] == v { 0u8 } else { col[k] })
}

/// Number of cells equal to `v` among the first `n` cells of a column.
pub open spec fn count_eq(col: Seq<u8>, v: u8, n: int) -> int
    decreases n,
{
    if n <= 0 {
        0
    } else {
        count_eq(col, v, n - 1) + if col[n - 1] == v {
            1int
        } else {
            0int
        }
    }
}

pub proof fn lemma_count_eq_bounds(col: Seq<u8>, v: u8, n: int)
    requires
        0 <= n,
    ensures
        0 <= count_eq(col, v, n) <= n,
    decreases n,
{
    if n > 0 {
        lemma_count_eq_bounds(col, v, n - 1);
    }
}

pub proof fn lemma_occ_col_bounds(col: Seq<u8>, n: int)
    requires
        0 <= n,
    ensures
        0 <= occ_col(col, n) <= n,
    decreases n,
{
    if n > 0 {
        lemma_occ_col_bounds(col, n - 1);
    }
}

pub proof fn lemma_occ_grid_bounds(grid: Seq<Seq<u8>>, n: int, rows: int)
    requires
        0 <= n <= grid.len(),
        0 <= rows,
        forall|j: int| 0 <= j < grid.len() ==> (#[trigger] grid[j]).len() == rows,
    ensures
        0 <= occ_grid(grid, n) <= n * rows,
    decreases n,
{
    if n > 0 {
        lemma_occ_grid_bounds(grid, n - 1, rows);
        lemma_occ_col_bounds(grid[n - 1], rows);
        assert(n * rows == (n - 1) * rows + rows) by (nonlinear_arith);
    }
}

/// A column with a non-zero cell in range has at least one occupied cell.
pub proof fn lemma_occ_col_ge_one(col: Seq<u8>, i: int, n: int)
    requires
        0 <= i < n,
        col[i] != 0,
    ensures
        occ_col(col, n) >= 1,
    decreases n,
{
    lemma_occ_col_bounds(col, i);
    if n - 1 > i {
        lemma_occ_col_ge_one(col, i, n - 1);
    }
}

/// The whole grid holds at least as many occupied cells as any one column.
pub proof fn lemma_occ_grid_ge_col(grid: Seq<Seq<u8>>, j: int, n: int)
    requires
        0 <= j < n <= grid.len(),
    ensures
        occ_grid(grid, n) >= occ_col(grid[j], grid[j].len() as int),
    decreases n,
{
    lemma_occ_col_bounds(grid[n - 1], grid[n - 1].len() as int);
    if j < n - 1 {
        lemma_occ_grid_ge_col(grid, j, n - 1);
    } else {
        lemma_occ_grid_bounds_nonneg(grid, n - 1);
    }
}

pub proof fn lemma_occ_grid_bounds_nonneg(grid: Seq<Seq<u8>>, n: int)
    requires
        0 <= n,
    ensures
        occ_grid(grid, n) >= 0,
    decreases n,
{
    if n > 0 {
        lemma_occ_grid_bounds_nonneg(grid, n - 1);
        lemma_occ_col_bounds(grid[n - 1], grid[n - 1].len() as int);
    }
}

/// How writing one cell changes a column's occupancy.
pub proof fn lemma_occ_col_update(col: Seq<u8>, i: int, v: u8, n: int)
    requires
        0 <= i < col.len(),
        0 <= n <= col.len(),
    ensures
        occ_col(col.update(i, v), n) == occ_col(col, n) + if i < n {
            (if v == 0 {
                0int
            } else {
                1int
            }) - (if col[i] == 0 {
                0int
            } else {
                1int
            })
        } else {
            0int
        },
    decreases n,
{
    if n > 0 {
        lemma_occ_col_update(col, i, v, n - 1);
    }
}

/// How replacing one column changes a grid's occupancy.
pub proof fn lemma_occ_grid_update(grid: Seq<Seq<u8>>, j: int, col: Seq<u8>, n: int)
    requires
        0 <= j < grid.len(),
        0 <= n <= grid.len(),
    ensures
        occ_grid(grid.update(j, col), n) == occ_grid(grid, n) + if j < n {
            occ_col(col, col.len() as int) - occ_col(grid[j], grid[j].len() as int)
        } else {
            0int
        },
    decreases n,
{
    if n > 0 {
        lemma_occ_grid_update(grid, j, col, n - 1);
    }
}

pub proof fn lemma_occ_col_all_zero(col: Seq<u8>, n: int)
    requires
        0 <= n,
        forall|i: int| 0 <= i < n ==> col[i] == 0,
    ensures
        occ_col(col, n) == 0,
    decreases n,
{
    if n > 0 {
        lemma_occ_col_all_zero(col, n - 1);
    }
}

pub proof fn lemma_occ_grid_all_zero(grid: Seq<Seq<u8>>, n: int)
    requires
        0 <= n <= grid.len(),
        forall|j: int, i: int|
            0 <= j < n && 0 <= i < grid[j].len() ==> #[trigger] grid[j][i] == 0,
    ensures
        occ_grid(grid, n) == 0,
    decreases n,
{
    if n > 0 {
        lemma_occ_grid_all_zero(grid, n - 1);
        lemma_occ_col_all_zero(grid[n - 1], grid[n - 1].len() as int);
    }
}

/// The mathematical contents of a grid stored as a vector of columns.
pub open spec fn grid_of_vecs(v: Vec<Vec<u8>>) -> Seq<Seq<u8>> {
    Seq::new(v@.len(), |j: int| v@[j]@)
}

/// A verified deep copy of one column.
pub(crate) fn copy_column(col: &Vec<u8>) -> (r: Vec<u8>)
    ensures
        r@ == col@,
{
    let mut r: Vec<u8> = Vec::new();
    let mut i: usize = 0;
    while i < col.len()
        invariant
            i <= col@.len(),
            r@ == col@.subrange(0, i as int),
        decreases col@.len() - i,
    {
        r.push(col[i]);
        proof {
            assert(r@ =~= col@.subrange(0, i + 1));
        }
        i = i + 1;
    }
    proof {
        assert(col@.subrange(0, col@.len() as int) =~= col@);
    }
    r
}

impl Board {
    /// The grid as a mathematical sequence of columns.
    pub open spec fn grid(self) -> Seq<Seq<u8>> {
        grid_of_vecs(self.board)
    }

    /// Shape and the cached-count invariant for a `columns x rows` board.
    pub open spec fn well_formed(self, columns: int, rows: int) -> bool {
        &&& self.grid().len() == columns
        &&& forall|j: int| 0 <= j < columns ==> (#[trigger] self.grid()[j]).len() == rows
        &&& self.number_of_elements == occ_grid(self.grid(), columns)
    }

    /// An empty board: every cell zero, nothing occupied.
    pub fn new(columns_number: usize, rows_number: usize) -> (r: Self)
        ensures
            r.well_formed(columns_number as int, rows_number as int),
            r.number_of_elements == 0,
            forall|j: int, i: int|
                0 <= j < columns_number && 0 <= i < rows_number ==> r.grid()[j][i] == 0,
    {
        let mut board: Vec<Vec<u8>> = Vec::new();
        let mut j: usize = 0;
        while j < columns_number
            invariant
                j <= columns_number,
                board@.len() == j,
                forall|k: int| 0 <= k < j ==> (#[trigger] board@[k])@.len() == rows_number,
                forall|k: int, i: int|
                    0 <= k < j && 0 <= i < rows_number ==> #[trigger] board@[k]@[i] == 0,
            decreases columns_number - j,
        {
            let mut col: Vec<u8> = Vec::new();
            let mut i: usize = 0;
            while i < rows_number
                invariant
                    i <= rows_number,
                    col@.len() == i,
                    forall|k: int| 0 <= k < i ==> col@[k] == 0,
                decreases rows_number - i,
            {
                col.push(0);
                i = i + 1;
            }
            board.push(col);
            j = j + 1;
        }
        let r = Board { board, number_of_elements: 0 };
        proof {
            lemma_occ_grid_all_zero(r.grid(), columns_number as int);
        }
        r
    }

    /// A copy of the grid, independent of the board's own storage.
    pub fn get_board(&self) -> (r: Vec<Vec<u8>>)
        ensures
            grid_of_vecs(r) == self.grid(),
    {
        let mut r: Vec<Vec<u8>> = Vec::new();
        let mut j: usize = 0;
        while j < self.board.len()
            invariant
                j <= self.board@.len(),
                r@.len() == j,
                forall|k: int| 0 <= k < j ==> #[trigger] r@[k]@ == self.board@[k]@,
            decreases self.board@.len() - j,
        {
            r.push(copy_column(&self.board[j]));
            j = j + 1;
        }
        proof {
            assert(grid_of_vecs(r) =~~= self.grid());
        }
        r
    }

    /// A deep copy of the whole board.
    pub fn duplicate(&self) -> (r: Self)
        ensures
            r.grid() == self.grid(),
            r.number_of_elements == self.number_of_elements,
    {
        Board { board: self.get_board(), number_of_elements: self.number_of_elements }
    }
}

} // verus!
