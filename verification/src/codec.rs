use vstd::prelude::*;

use crate::game::Knucklebones;

verus! {

/// The decimal digit character for `d` in `0..=9`.
pub open spec fn digit_char(d: int) -> char {
    if d == 0 {
        '0'
    } else if d == 1 {
        '1'
    } else if d == 2 {
        '2'
    } else if d == 3 {
        '3'
    } else if d == 4 {
        '4'
    } else if d == 5 {
        '5'
    } else if d == 6 {
        '6'
    } else if d == 7 {
        '7'
    } else if d == 8 {
        '8'
    } else {
        '9'
    }
}

/// The decimal numeral of a non-negative integer, most significant digit
/// first, without leading zeros (a lone 0 for the number zero).
pub open spec fn dec_of(n: int) -> Seq<char>
    decreases n,
{
    if n < 10 {
        seq![digit_char(n)]
    } else {
        dec_of(n / 10).push(digit_char(n % 10))
    }
}

/// The comma-terminated decimal encoding of the first `n` cells of a column.
pub open spec fn col_enc(col: Seq<u8>, n: int) -> Seq<char>
    decreases n,
{
    if n <= 0 {
        Seq::empty()
    } else {
        col_enc(col, n - 1) + dec_of(col[n - 1] as int) + seq![',']
    }
}

/// The encoding of the first `n` columns of a grid, column by column.
pub open spec fn grid_enc(grid: Seq<Seq<u8>>, n: int) -> Seq<char>
    decreases n,
{
    if n <= 0 {
        Seq::empty()
    } else {
        grid_enc(grid, n - 1) + col_enc(grid[n - 1], grid[n - 1].len() as int)
    }
}

/// One rendered display row: the cells of row `i` across the first `n`
/// columns, each followed by a space.
pub open spec fn disp_row(grid: Seq<Seq<u8>>, i: int, n: int) -> Seq<char>
    decreases n,
{
    if n <= 0 {
        Seq::empty()
    } else {
        disp_row(grid, i, n - 1) + dec_of(grid[n - 1][i] as int) + seq![' ']
    }
}

/// The first `r` rendered display rows, printed top-down: the `r`-th printed
/// row shows the cells at row index `rows - r`, each row ending in a newline.
pub open spec fn disp_rows(grid: Seq<Seq<u8>>, rows: int, r: int) -> Seq<char>
    decreases r,
{
    if r <= 0 {
        Seq::empty()
    } else {
        disp_rows(grid, rows, r - 1) + disp_row(grid, rows - r, grid.len() as int) + seq!['\n']
    }
}

/// The comma-terminated encodings of a flat run of cell values.
pub open spec fn enc_cells(vals: Seq<u8>) -> Seq<char>
    decreases vals.len(),
{
    if vals.len() == 0 {
        Seq::empty()
    } else {
        dec_of(vals[0] as int) + seq![','] + enc_cells(vals.drop_first())
    }
}

/// The cells of the first `n` columns of a grid, one flat run in storage
/// order.
pub open spec fn flat_grid(g: Seq<Seq<u8>>, n: int) -> Seq<u8>
    decreases n,
{
    if n <= 0 {
        Seq::empty()
    } else {
        flat_grid(g, n - 1) + g[n - 1]
    }
}

pub proof fn lemma_dec_of_len(n: int)
    ensures
        dec_of(n).len() >= 1,
        n >= 10 ==> dec_of(n).len() >= 2,
    decreases n,
{
    if n >= 10 {
        lemma_dec_of_len(n / 10);
    }
}

pub proof fn lemma_dec_of_no_comma(n: int)
    ensures
        forall|k: int| 0 <= k < dec_of(n).len() ==> dec_of(n)[k] != ',',
    decreases n,
{
    if n >= 10 {
        lemma_dec_of_no_comma(n / 10);
    }
    assert forall|k: int| 0 <= k < dec_of(n).len() implies dec_of(n)[k] != ',' by {
        if n < 10 {
            assert(dec_of(n)[k] == digit_char(n));
        } else if k < dec_of(n).len() - 1 {
            assert(dec_of(n)[k] == dec_of(n / 10)[k]);
        } else {
            assert(dec_of(n)[k] == digit_char(n % 10));
        }
    }
}

/// A decimal numeral determines its number.
pub proof fn lemma_dec_of_inj(m: int, n: int)
    requires
        0 <= m,
        0 <= n,
        dec_of(m) == dec_of(n),
    ensures
        m == n,
    decreases m,
{
    lemma_dec_of_len(m);
    lemma_dec_of_len(n);
    if m < 10 && n < 10 {
        assert(dec_of(m)[0] == digit_char(m));
        assert(dec_of(n)[0] == digit_char(n));
    } else if m < 10 {
        assert(dec_of(m).len() == 1);
    } else if n < 10 {
        assert(dec_of(n).len() == 1);
    } else {
        assert(dec_of(m).last() == digit_char(m % 10));
        assert(dec_of(n).last() == digit_char(n % 10));
        assert(m % 10 == n % 10);
        assert(dec_of(m).drop_last() =~= dec_of(m / 10));
        assert(dec_of(n).drop_last() =~= dec_of(n / 10));
        lemma_dec_of_inj(m / 10, n / 10);
    }
}

/// Splitting a string at its first comma is unambiguous: equal strings of
/// the shape `a , x` with comma-free `a` split alike.
proof fn lemma_comma_split(a: Seq<char>, x: Seq<char>, b: Seq<char>, y: Seq<char>)
    requires
        a + seq![','] + x == b + seq![','] + y,
        forall|k: int| 0 <= k < a.len() ==> a[k] != ',',
        forall|k: int| 0 <= k < b.len() ==> b[k] != ',',
    ensures
        a == b,
        x == y,
{
    let s = a + seq![','] + x;
    if a.len() < b.len() {
        assert(s[a.len() as int] == ',');
        assert((b + seq![','] + y)[a.len() as int] == b[a.len() as int]);
        assert(false);
    } else if b.len() < a.len() {
        assert(s[b.len() as int] == a[b.len() as int]);
        assert((b + seq![','] + y)[b.len() as int] == ',');
        assert(false);
    }
    assert(forall|k: int| 0 <= k < a.len() ==> #[trigger] a[k] == s[k]);
    assert(forall|k: int| 0 <= k < b.len() ==> #[trigger] b[k] == s[k]);
    assert(a =~= b);
    assert(s == b + seq![','] + y);
    assert(s.len() == a.len() + 1 + x.len());
    assert((b + seq![','] + y).len() == b.len() + 1 + y.len());
    assert(x.len() == y.len());
    assert(forall|k: int| 0 <= k < x.len() ==> #[trigger] x[k] == s[k + a.len() + 1]);
    assert(forall|k: int| 0 <= k < y.len() ==> #[trigger] y[k] == s[k + b.len() + 1]);
    assert(x =~= y);
}

/// Two equally long runs of comma-terminated cells with equal encodings,
/// followed by arbitrary equal remainders, agree cell by cell.
proof fn lemma_enc_cells_inj(u: Seq<u8>, v: Seq<u8>, x: Seq<char>, y: Seq<char>)
    requires
        u.len() == v.len(),
        enc_cells(u) + x == enc_cells(v) + y,
    ensures
        u == v,
        x == y,
    decreases u.len(),
{
    if u.len() == 0 {
        assert(enc_cells(u) + x =~= x);
        assert(enc_cells(v) + y =~= y);
        assert(u =~= v);
    } else {
        let du = dec_of(u[0] as int);
        let dv = dec_of(v[0] as int);
        let xu = enc_cells(u.drop_first()) + x;
        let yv = enc_cells(v.drop_first()) + y;
        assert(enc_cells(u) + x =~= du + seq![','] + xu);
        assert(enc_cells(v) + y =~= dv + seq![','] + yv);
        lemma_dec_of_no_comma(u[0] as int);
        lemma_dec_of_no_comma(v[0] as int);
        lemma_comma_split(du, xu, dv, yv);
        lemma_dec_of_inj(u[0] as int, v[0] as int);
        lemma_enc_cells_inj(u.drop_first(), v.drop_first(), x, y);
        assert forall|k: int| 0 <= k < u.len() implies #[trigger] u[k] == v[k] by {
            if k > 0 {
                assert(u[k] == u.drop_first()[k - 1]);
                assert(v[k] == v.drop_first()[k - 1]);
            }
        }
        assert(u =~= v);
    }
}

/// `enc_cells` distributes over concatenation of cell runs.
proof fn lemma_enc_cells_concat(u: Seq<u8>, v: Seq<u8>)
    ensures
        enc_cells(u + v) == enc_cells(u) + enc_cells(v),
    decreases u.len(),
{
    if u.len() == 0 {
        assert(u + v =~= v);
        assert(enc_cells(u) + enc_cells(v) =~= enc_cells(v));
    } else {
        assert((u + v).drop_first() =~= u.drop_first() + v);
        lemma_enc_cells_concat(u.drop_first(), v);
        assert(enc_cells(u + v) =~= enc_cells(u) + enc_cells(v));
    }
}

/// A column's encoding is the encoding of its flat run of cells.
proof fn lemma_col_enc_flat(col: Seq<u8>, n: int)
    requires
        0 <= n <= col.len(),
    ensures
        col_enc(col, n) == enc_cells(col.subrange(0, n)),
    decreases n,
{
    if n <= 0 {
        assert(col.subrange(0, 0) =~= Seq::<u8>::empty());
    } else {
        lemma_col_enc_flat(col, n - 1);
        let last: Seq<u8> = seq![col[n - 1]];
        assert(col.subrange(0, n) =~= col.subrange(0, n - 1) + last);
        lemma_enc_cells_concat(col.subrange(0, n - 1), last);
        assert(last.drop_first() =~= Seq::<u8>::empty());
        assert(enc_cells(Seq::<u8>::empty()) == Seq::<char>::empty());
        assert(enc_cells(last) =~= dec_of(col[n - 1] as int) + seq![',']);
        assert(col_enc(col, n) =~= enc_cells(col.subrange(0, n)));
    }
}

/// A grid's encoding is the encoding of its flat run of cells.
proof fn lemma_grid_enc_flat(g: Seq<Seq<u8>>, n: int)
    requires
        0 <= n <= g.len(),
    ensures
        grid_enc(g, n) == enc_cells(flat_grid(g, n)),
    decreases n,
{
    if n > 0 {
        lemma_grid_enc_flat(g, n - 1);
        lemma_col_enc_flat(g[n - 1], g[n - 1].len() as int);
        assert(g[n - 1].subrange(0, g[n - 1].len() as int) =~= g[n - 1]);
        lemma_enc_cells_concat(flat_grid(g, n - 1), g[n - 1]);
    }
}

pub proof fn lemma_flat_grid_len(g: Seq<Seq<u8>>, n: int, rows: int)
    requires
        0 <= n <= g.len(),
        0 <= rows,
        forall|j: int| 0 <= j < g.len() ==> (#[trigger] g[j]).len() == rows,
    ensures
        flat_grid(g, n).len() == n * rows,
    decreases n,
{
    if n > 0 {
        lemma_flat_grid_len(g, n - 1, rows);
        assert(n * rows == (n - 1) * rows + rows) by (nonlinear_arith);
    } else {
        assert(n * rows == 0) by (nonlinear_arith)
            requires
                n == 0,
        ;
    }
}

/// Equal flat runs of two equally shaped grids mean equal grids.
proof fn lemma_flat_grid_inj(g1: Seq<Seq<u8>>, g2: Seq<Seq<u8>>, n: int, rows: int)
    requires
        0 <= n <= g1.len(),
        n <= g2.len(),
        0 <= rows,
        forall|j: int| 0 <= j < g1.len() ==> (#[trigger] g1[j]).len() == rows,
        forall|j: int| 0 <= j < g2.len() ==> (#[trigger] g2[j]).len() == rows,
        flat_grid(g1, n) == flat_grid(g2, n),
    ensures
        forall|k: int| 0 <= k < n ==> g1[k] == g2[k],
    decreases n,
{
    if n > 0 {
        lemma_flat_grid_len(g1, n - 1, rows);
        lemma_flat_grid_len(g2, n - 1, rows);
        let f1 = flat_grid(g1, n);
        assert(flat_grid(g1, n - 1) =~= f1.subrange(0, (n - 1) * rows));
        assert(flat_grid(g2, n - 1) =~= f1.subrange(0, (n - 1) * rows));
        assert(g1[n - 1] =~= f1.subrange((n - 1) * rows, f1.len() as int));
        assert(g2[n - 1] =~= f1.subrange((n - 1) * rows, f1.len() as int));
        lemma_flat_grid_inj(g1, g2, n - 1, rows);
    }
}

/// Law: the fingerprint pins the observable state down. Two well-formed
/// engines of the same shape whose `encode_game` strings are equal agree on
/// both grids, on the die shown, and on whose turn it is.
pub proof fn lemma_encode_injective(a: Knucklebones, b: Knucklebones)
    requires
        a.well_formed(),
        b.well_formed(),
        a.columns_number == b.columns_number,
        a.rows_number == b.rows_number,
        a.encode_spec() == b.encode_spec(),
    ensures
        a.grid_of(0) == b.grid_of(0),
        a.grid_of(1) == b.grid_of(1),
        a.dice_value == b.dice_value,
        a.current_player == b.current_player,
{
    let cols = a.cols();
    let rows = a.rows();
    let fa0 = flat_grid(a.grid_of(0), cols);
    let fa1 = flat_grid(a.grid_of(1), cols);
    let fb0 = flat_grid(b.grid_of(0), cols);
    let fb1 = flat_grid(b.grid_of(1), cols);
    let ua = fa0 + fa1 + seq![a.dice_value];
    let vb = fb0 + fb1 + seq![b.dice_value];

    // The whole encoding is one run of comma-terminated numbers (all cells
    // of both grids, then the die) followed by the player's numeral.
    lemma_grid_enc_flat(a.grid_of(0), cols);
    lemma_grid_enc_flat(a.grid_of(1), cols);
    lemma_grid_enc_flat(b.grid_of(0), cols);
    lemma_grid_enc_flat(b.grid_of(1), cols);
    lemma_enc_cells_concat(fa0, fa1);
    lemma_enc_cells_concat(fa0 + fa1, seq![a.dice_value]);
    lemma_enc_cells_concat(fb0, fb1);
    lemma_enc_cells_concat(fb0 + fb1, seq![b.dice_value]);
    assert(seq![a.dice_value].drop_first() =~= Seq::<u8>::empty());
    assert(seq![b.dice_value].drop_first() =~= Seq::<u8>::empty());
    assert(enc_cells(Seq::<u8>::empty()) == Seq::<char>::empty());
    assert(enc_cells(seq![a.dice_value]) =~= dec_of(a.dice_value as int) + seq![',']);
    assert(enc_cells(seq![b.dice_value]) =~= dec_of(b.dice_value as int) + seq![',']);
    assert(enc_cells(ua) + dec_of(a.current_player as int) =~= a.encode_spec());
    assert(enc_cells(vb) + dec_of(b.current_player as int) =~= b.encode_spec());

    // Equal encodings peel to equal cell runs and equal player numerals.
    lemma_flat_grid_len(a.grid_of(0), cols, rows);
    lemma_flat_grid_len(a.grid_of(1), cols, rows);
    lemma_flat_grid_len(b.grid_of(0), cols, rows);
    lemma_flat_grid_len(b.grid_of(1), cols, rows);
    lemma_enc_cells_inj(ua, vb, dec_of(a.current_player as int), dec_of(b.current_player as int));
    lemma_dec_of_inj(a.current_player as int, b.current_player as int);

    // The equal runs split back into the two grids and the die.
    assert(a.dice_value == ua[ua.len() - 1]);
    assert(b.dice_value == vb[vb.len() - 1]);
    assert(fa0 =~= ua.subrange(0, cols * rows));
    assert(fb0 =~= vb.subrange(0, cols * rows));
    assert(fa1 =~= ua.subrange(cols * rows, 2 * (cols * rows)));
    assert(fb1 =~= vb.subrange(cols * rows, 2 * (cols * rows)));
    lemma_flat_grid_inj(a.grid_of(0), b.grid_of(0), cols, rows);
    lemma_flat_grid_inj(a.grid_of(1), b.grid_of(1), cols, rows);
    assert(a.grid_of(0) =~= b.grid_of(0));
    assert(a.grid_of(1) =~= b.grid_of(1));
}

/// The string literal for one decimal digit.
fn digit_str(d: u8) -> (r: &'static str)
    requires
        d < 10,
    ensures
        r@ == seq![digit_char(d as int)],
{
    if d == 0 {
        proof {
            reveal_strlit("0");
            assert(("0")@ =~= seq![digit_char(0int)]);
        }
        "0"
    } else if d == 1 {
        proof {
            reveal_strlit("1");
            assert(("1")@ =~= seq![digit_char(1int)]);
        }
        "1"
    } else if d == 2 {
        proof {
            reveal_strlit("2");
            assert(("2")@ =~= seq![digit_char(2int)]);
        }
        "2"
    } else if d == 3 {
        proof {
            reveal_strlit("3");
            assert(("3")@ =~= seq![digit_char(3int)]);
        }
        "3"
    } else if d == 4 {
        proof {
            reveal_strlit("4");
            assert(("4")@ =~= seq![digit_char(4int)]);
        }
        "4"
    } else if d == 5 {
        proof {
            reveal_strlit("5");
            assert(("5")@ =~= seq![digit_char(5int)]);
        }
        "5"
    } else if d == 6 {
        proof {
            reveal_strlit("6");
            assert(("6")@ =~= seq![digit_char(6int)]);
        }
        "6"
    } else if d == 7 {
        proof {
            reveal_strlit("7");
            assert(("7")@ =~= seq![digit_char(7int)]);
        }
        "7"
    } else if d == 8 {
        proof {
            reveal_strlit("8");
            assert(("8")@ =~= seq![digit_char(8int)]);
        }
        "8"
    } else {
        proof {
            reveal_strlit("9");
            assert(("9")@ =~= seq![digit_char(9int)]);
        }
        "9"
    }
}

/// Appends the decimal numeral of `n` to `s`.
fn append_u8_dec(s: &mut String, n: u8)
    ensures
        final(s)@ == old(s)@ + dec_of(n as int),
    decreases n,
{
    if n < 10 {
        s.append(digit_str(n));
        proof {
            assert(s@ =~= old(s)@ + dec_of(n as int));
        }
    } else {
        append_u8_dec(s, n / 10);
        s.append(digit_str(n % 10));
        proof {
            assert(s@ =~= old(s)@ + dec_of(n as int));
        }
    }
}

/// Appends the decimal numeral of `n` to `s`.
fn append_usize_dec(s: &mut String, n: usize)
    ensures
        final(s)@ == old(s)@ + dec_of(n as int),
    decreases n,
{
    if n < 10 {
        s.append(digit_str(n as u8));
        proof {
            assert(s@ =~= old(s)@ + dec_of(n as int));
        }
    } else {
        append_usize_dec(s, n / 10);
        s.append(digit_str((n % 10) as u8));
        proof {
            assert(s@ =~= old(s)@ + dec_of(n as int));
        }
    }
}

impl Knucklebones {
    /// The state fingerprint `encode_game` produces: both grids flattened
    /// column by column, every cell comma-terminated, then the die value,
    /// a comma, and the current player.
    pub open spec fn encode_spec(self) -> Seq<char> {
        grid_enc(self.grid_of(0), self.cols()) + grid_enc(self.grid_of(1), self.cols()) + dec_of(
            self.dice_value as int,
        ) + seq![','] + dec_of(self.current_player as int)
    }

    /// Appends the encoding of one player's grid to `s`.
    fn append_board_enc(&self, player_index: usize, s: &mut String)
        requires
            self.well_formed(),
            player_index < 2,
        ensures
            final(s)@ == old(s)@ + grid_enc(
                self.grid_of(player_index as int),
                self.cols(),
            ),
    {
        let ghost g = self.grid_of(player_index as int);
        let cols = self.columns_number;
        let rows = self.rows_number;
        proof {
            assert(self.boards@[player_index as int].board@.len() == self.cols());
            assert(s@ =~= old(s)@ + grid_enc(g, 0));
        }
        let mut j: usize = 0;
        while j < cols
            invariant
                self.well_formed(),
                player_index < 2,
                g == self.grid_of(player_index as int),
                cols == self.columns_number,
                rows == self.rows_number,
                j <= cols,
                s@ == old(s)@ + grid_enc(g, j as int),
            decreases cols - j,
        {
            let mut i: usize = 0;
            proof {
                assert(s@ =~= old(s)@ + grid_enc(g, j as int) + col_enc(g[j as int], 0));
            }
            while i < rows
                invariant
                    self.well_formed(),
                    player_index < 2,
                    g == self.grid_of(player_index as int),
                    cols == self.columns_number,
                    rows == self.rows_number,
                    j < cols,
                    i <= rows,
                    s@ == old(s)@ + grid_enc(g, j as int) + col_enc(g[j as int], i as int),
                decreases rows - i,
            {
                append_u8_dec(s, self.boards[player_index].board[j][i]);
                s.append(",");
                proof {
                    reveal_strlit(",");
                    assert((",")@ =~= seq![',']);
                    assert(s@ =~= old(s)@ + grid_enc(g, j as int) + col_enc(
                        g[j as int],
                        i as int + 1,
                    ));
                }
                i = i + 1;
            }
            proof {
                assert(g[j as int].len() == rows);
                assert(s@ =~= old(s)@ + grid_enc(g, j as int + 1));
            }
            j = j + 1;
        }
    }

    /// A deterministic fingerprint of the whole state: every cell of both
    /// grids in storage order, comma-separated, then the die value and the
    /// current player.
    pub fn encode_game(&self) -> (r: String)
        requires
            self.well_formed(),
        ensures
            r@ == self.encode_spec(),
    {
        let mut encoded_game = String::from_str("");
        proof {
            reveal_strlit("");
            assert(encoded_game@ =~= Seq::<char>::empty());
        }
        self.append_board_enc(0, &mut encoded_game);
        self.append_board_enc(1, &mut encoded_game);
        append_u8_dec(&mut encoded_game, self.dice_value);
        encoded_game.append(",");
        append_usize_dec(&mut encoded_game, self.current_player);
        proof {
            reveal_strlit(",");
            assert((",")@ =~= seq![',']);
            assert(encoded_game@ =~= self.encode_spec());
        }
        encoded_game
    }

    /// A human-readable rendering of one player's grid: rows printed
    /// top-down (highest row index first), cells space-separated, one line
    /// per row.
    pub fn display_board(&self, player_index: usize) -> (result: String)
        requires
            self.well_formed(),
            player_index < 2,
        ensures
            result@ == disp_rows(self.grid_of(player_index as int), self.rows(), self.rows()),
    {
        let ghost g = self.grid_of(player_index as int);
        let cols = self.columns_number;
        let rows = self.rows_number;
        let mut result = String::from_str("");
        proof {
            assert(self.boards@[player_index as int].board@.len() == self.cols());
            reveal_strlit("");
            assert(result@ =~= Seq::<char>::empty());
            assert(result@ =~= disp_rows(g, rows as int, 0));
        }
        let mut row: usize = 0;
        while row < rows
            invariant
                self.well_formed(),
                player_index < 2,
                g == self.grid_of(player_index as int),
                cols == self.columns_number,
                rows == self.rows_number,
                row <= rows,
                result@ == disp_rows(g, rows as int, row as int),
            decreases rows - row,
        {
            let mut column: usize = 0;
            proof {
                assert(result@ =~= disp_rows(g, rows as int, row as int) + disp_row(
                    g,
                    rows as int - row as int - 1,
                    0,
                ));
            }
            while column < cols
                invariant
                    self.well_formed(),
                    player_index < 2,
                    g == self.grid_of(player_index as int),
                    cols == self.columns_number,
                    rows == self.rows_number,
                    row < rows,
                    column <= cols,
                    result@ == disp_rows(g, rows as int, row as int) + disp_row(
                        g,
                        rows as int - row as int - 1,
                        column as int,
                    ),
                decreases cols - column,
            {
                proof {
                    assert(g[column as int].len() == rows);
                }
                append_u8_dec(&mut result, self.boards[player_index].board[column][rows - row - 1]);
                result.append(" ");
                proof {
                    reveal_strlit(" ");
                    assert((" ")@ =~= seq![' ']);
                    assert(result@ =~= disp_rows(g, rows as int, row as int) + disp_row(
                        g,
                        rows as int - row as int - 1,
                        column as int + 1,
                    ));
                }
                column = column + 1;
            }
            result.append("\n");
            proof {
                reveal_strlit("\n");
                assert(("\n")@ =~= seq!['\n']);
                assert(result@ =~= disp_rows(g, rows as int, row as int + 1));
            }
            row = row + 1;
        }
        result
    }
}

} // verus!
