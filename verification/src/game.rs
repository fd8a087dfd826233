//! The board engine: a grid of tiles and an accumulated score, mutated by
//! the four directional moves, random tile injection and the randomized
//! factory, with terminal-state detection.

use vstd::prelude::*;

use crate::line::{slide_line_fwd, slide_line_rev};
use crate::model::{
    cells_two_or_four, grid_after, grid_full, grid_nonzero_count, grid_of, grid_wf,
    has_empty_cell, inject_post, move_gain, rows_gain, sat32, slide_fwd, slide_rev, slide_rows,
    terminal, transpose_of, zero_row, Keypress, lemma_grid_count_push, lemma_grid_count_update,
    lemma_line_gain_nonneg, lemma_noop_move, lemma_row_count_update,
    lemma_row_count_zero_row, lemma_rows_gain_nonneg, lemma_sat32_chain, lemma_slide_fwd_len,
    lemma_slide_rev_len,
};

verus! {

/// The shape of a fresh board: its dimensions and how many tiles it starts
/// with.
#[derive(Clone, Copy, Debug, PartialEq, Eq, Structural)]
pub struct BoardConfig {
    pub width: usize,
    pub height: usize,
    pub count: usize,
}

impl BoardConfig {
    /// A configuration the factory accepts: at least one starting tile, and
    /// at least one cell left empty for later injection.
    pub open spec fn valid(self) -> bool {
        0 < self.count < self.width * self.height
    }
}

impl Default for BoardConfig {
    /// The classic board: four by four, two starting tiles.
    fn default() -> (c: Self)
        ensures
            c.width == 4 && c.height == 4 && c.count == 2,
    {
        BoardConfig { width: 4, height: 4, count: 2 }
    }
}

/// What one turn of the game did to the state, for the loop that drives the
/// interaction.
#[derive(Debug, PartialEq, Eq, Structural)]
pub enum GameResult {
    GameOver,
    Exit,
    NoMove,
    NextMove,
    Reset,
    UnknownKeyPress,
}

/// Relies on rand: `thread_rng().gen_range(0..n)` returns a value of the
/// range `0..n`, which is non-empty, so the call cannot panic. Nothing is
/// assumed about which value comes back.
#[verifier::external_body]
fn rand_below(n: usize) -> (r: usize)
    requires
        n >= 1,
    ensures
        r < n,
{
    rand::Rng::gen_range(&mut rand::thread_rng(), 0..n)
}

/// Draws the value of a fresh tile: a 4 with chance one in ten, else a 2.
fn random_tile() -> (t: u32)
    ensures
        t == 2u32 || t == 4u32,
{
    if rand_below(10) == 0 {
        4
    } else {
        2
    }
}

/// An element-by-element copy of one row.
fn copy_row(row: &Vec<u32>) -> (out: Vec<u32>)
    ensures
        out@ == row@,
{
    let mut out: Vec<u32> = Vec::new();
    let mut i: usize = 0;
    while i < row.len()
        invariant
            i <= row@.len(),
            out@ == row@.take(i as int),
        decreases row@.len() - i,
    {
        proof {
            assert(row@.take(i as int + 1) =~= row@.take(i as int).push(row@[i as int]));
        }
        out.push(row[i]);
        i += 1;
    }
    proof {
        assert(row@.take(row@.len() as int) =~= row@);
    }
    out
}

/// A row-by-row copy of a board.
fn copy_grid(g: &Vec<Vec<u32>>) -> (out: Vec<Vec<u32>>)
    ensures
        out@.len() == g@.len(),
        grid_of(out@) == grid_of(g@),
{
    let mut out: Vec<Vec<u32>> = Vec::new();
    let mut i: usize = 0;
    while i < g.len()
        invariant
            i <= g@.len(),
            out@.len() == i,
            forall|t: int| 0 <= t < i ==> (#[trigger] out@[t])@ == g@[t]@,
        decreases g@.len() - i,
    {
        let row: Vec<u32> = copy_row(&g[i]);
        out.push(row);
        i += 1;
    }
    proof {
        assert(grid_of(out@) =~= grid_of(g@));
    }
    out
}

/// Cell-by-cell comparison of two boards over identical dimensions.
fn equal_boards(a: &Vec<Vec<u32>>, b: &Vec<Vec<u32>>) -> (r: bool)
    ensures
        r <==> grid_of(a@) == grid_of(b@),
{
    if a.len() != b.len() {
        proof {
            assert(grid_of(a@).len() == a@.len());
            assert(grid_of(b@).len() == b@.len());
        }
        return false;
    }
    let mut row: usize = 0;
    while row < a.len()
        invariant
            a@.len() == b@.len(),
            row <= a@.len(),
            forall|t: int| 0 <= t < row ==> (#[trigger] a@[t])@ == b@[t]@,
        decreases a@.len() - row,
    {
        if a[row].len() != b[row].len() {
            proof {
                assert(grid_of(a@)[row as int].len() != grid_of(b@)[row as int].len());
            }
            return false;
        }
        let mut i: usize = 0;
        while i < a[row].len()
            invariant
                row < a@.len() == b@.len(),
                a@[row as int]@.len() == b@[row as int]@.len(),
                i <= a@[row as int]@.len(),
                forall|t: int| 0 <= t < i ==> a@[row as int]@[t] == b@[row as int]@[t],
            decreases a@[row as int]@.len() - i,
        {
            if a[row][i] != b[row][i] {
                proof {
                    assert(grid_of(a@)[row as int][i as int] != grid_of(b@)[row as int][i as int]);
                }
                return false;
            }
            i += 1;
        }
        proof {
            assert(a@[row as int]@ =~= b@[row as int]@);
        }
        row += 1;
    }
    proof {
        assert(grid_of(a@) =~= grid_of(b@));
    }
    true
}

/// Every row slid toward one edge, the score taking each row's gain.
fn slide_all_rows(board: &mut Vec<Vec<u32>>, forward: bool, score: &mut u32)
    ensures
        final(board)@.len() == old(board)@.len(),
        forall|i: int|
            0 <= i < old(board)@.len() ==> (#[trigger] final(board)@[i])@.len()
                == old(board)@[i]@.len(),
        grid_of(final(board)@) == slide_rows(grid_of(old(board)@), forward),
        *final(score) == sat32(*old(score) as int + rows_gain(grid_of(old(board)@), forward)),
{
    let ghost g0 = grid_of(old(board)@);
    let ghost s0: u32 = *score;
    let mut r: usize = 0;
    while r < board.len()
        invariant
            board@.len() == g0.len(),
            r <= g0.len(),
            forall|i: int| r <= i < g0.len() ==> (#[trigger] board@[i])@ == g0[i],
            forall|i: int|
                0 <= i < r ==> (#[trigger] board@[i])@ == (if forward {
                    slide_fwd(g0[i])
                } else {
                    slide_rev(g0[i])
                }),
            *score == sat32(s0 as int + rows_gain(g0.take(r as int), forward)),
        decreases g0.len() - r,
    {
        proof {
            lemma_rows_gain_nonneg(g0.take(r as int), forward);
            lemma_line_gain_nonneg(g0[r as int]);
            lemma_sat32_chain(
                s0 as int + rows_gain(g0.take(r as int), forward),
                if forward {
                    crate::model::fwd_gain(g0[r as int])
                } else {
                    crate::model::rev_gain(g0[r as int])
                },
            );
            assert(g0.take(r as int + 1).drop_last() =~= g0.take(r as int));
            assert(g0.take(r as int + 1).last() == g0[r as int]);
        }
        let new_row: Vec<u32> = if forward {
            slide_line_fwd(&board[r], score)
        } else {
            slide_line_rev(&board[r], score)
        };
        board.set(r, new_row);
        r += 1;
    }
    proof {
        assert(g0.take(g0.len() as int) =~= g0);
        assert(grid_of(board@) =~= slide_rows(g0, forward));
        assert forall|i: int|
            0 <= i < g0.len() implies (#[trigger] board@[i])@.len() == g0[i].len() by {
            if forward {
                lemma_slide_fwd_len(g0[i]);
            } else {
                lemma_slide_rev_len(g0[i]);
            }
        }
    }
}

/// The board transposed: cell `(i, j)` of a `rows x cols` board becomes
/// cell `(j, i)`, so that a column move can run as a row move.
fn transposed(g: &Vec<Vec<u32>>, rows: usize, cols: usize) -> (t: Vec<Vec<u32>>)
    requires
        g@.len() == rows,
        forall|i: int| 0 <= i < rows ==> (#[trigger] g@[i])@.len() == cols,
    ensures
        t@.len() == cols,
        forall|j: int| 0 <= j < cols ==> (#[trigger] t@[j])@.len() == rows,
        grid_of(t@) == transpose_of(grid_of(g@), rows as nat, cols as nat),
{
    let mut t: Vec<Vec<u32>> = Vec::new();
    let mut j: usize = 0;
    while j < cols
        invariant
            g@.len() == rows,
            forall|i: int| 0 <= i < rows ==> (#[trigger] g@[i])@.len() == cols,
            j <= cols,
            t@.len() == j,
            forall|jj: int| 0 <= jj < j ==> (#[trigger] t@[jj])@.len() == rows,
            forall|jj: int, ii: int|
                0 <= jj < j && 0 <= ii < rows ==> (#[trigger] t@[jj]@[ii]) == g@[ii]@[jj],
        decreases cols - j,
    {
        let mut col: Vec<u32> = Vec::new();
        let mut i: usize = 0;
        while i < rows
            invariant
                g@.len() == rows,
                forall|ii: int| 0 <= ii < rows ==> (#[trigger] g@[ii])@.len() == cols,
                j < cols,
                i <= rows,
                col@.len() == i,
                forall|ii: int| 0 <= ii < i ==> col@[ii] == g@[ii]@[j as int],
            decreases rows - i,
        {
            col.push(g[i][j]);
            i += 1;
        }
        t.push(col);
        j += 1;
    }
    proof {
        assert forall|jj: int|
            0 <= jj < cols implies #[trigger] grid_of(t@)[jj] == transpose_of(
            grid_of(g@),
            rows as nat,
            cols as nat,
        )[jj] by {
            assert(t@[jj]@ =~= Seq::new(rows as nat, |i: int| grid_of(g@)[i][jj]));
        }
        assert(grid_of(t@) =~= transpose_of(grid_of(g@), rows as nat, cols as nat));
    }
    t
}

/// A running game: its configuration, its board, and the score earned so
/// far.
#[derive(Debug)]
pub struct Game {
    pub config: BoardConfig,
    board: Vec<Vec<u32>>,
    score: u32,
}

impl Game {
    /// The mathematical grid the board holds.
    pub closed spec fn grid(self) -> Seq<Seq<u32>> {
        grid_of(self.board@)
    }

    /// The score earned so far.
    pub closed spec fn score_value(self) -> u32 {
        self.score
    }

    /// The configuration this game was created with.
    pub closed spec fn spec_config(self) -> BoardConfig {
        self.config
    }

    /// A well-formed game: positive dimensions and a rectangular board of
    /// exactly the configured shape.
    pub closed spec fn wf(self) -> bool {
        self.config.width >= 1 && self.config.height >= 1 && self.board@.len()
            == self.config.height && (forall|i: int|
            0 <= i < self.board@.len() ==> (#[trigger] self.board@[i])@.len() == self.config.width)
    }

    /// What well-formedness means for the grid a caller sees: positive
    /// dimensions, and exactly `height` rows of `width` cells.
    pub proof fn lemma_wf_shape(self)
        requires
            self.wf(),
        ensures
            self.spec_config().width >= 1,
            self.spec_config().height >= 1,
            grid_wf(
                self.grid(),
                self.spec_config().width as nat,
                self.spec_config().height as nat,
            ),
    {
        assert(forall|i: int|
            0 <= i < self.board@.len() ==> #[trigger] self.grid()[i] == self.board@[i]@);
    }

    /// The grid after one slide of this game's board in direction `k`.
    pub open spec fn moved(self, k: Keypress) -> Seq<Seq<u32>> {
        grid_after(
            self.grid(),
            self.spec_config().width as nat,
            self.spec_config().height as nat,
            k,
        )
    }

    /// The score one slide of this game's board in direction `k` earns.
    pub open spec fn gain(self, k: Keypress) -> int {
        move_gain(
            self.grid(),
            self.spec_config().width as nat,
            self.spec_config().height as nat,
            k,
        )
    }

    /// The board's width.
    pub fn width(&self) -> (w: usize)
        ensures
            w == self.spec_config().width,
    {
        self.config.width
    }

    /// The board's height.
    pub fn height(&self) -> (h: usize)
        ensures
            h == self.spec_config().height,
    {
        self.config.height
    }

    /// Read access to the score, for the render collaborator.
    pub fn score(&self) -> (s: u32)
        ensures
            s == self.score_value(),
    {
        self.score
    }

    /// Read access to one cell, for the render collaborator.
    pub fn tile(&self, row: usize, col: usize) -> (v: u32)
        requires
            self.wf(),
            row < self.spec_config().height,
            col < self.spec_config().width,
        ensures
            v == self.grid()[row as int][col as int],
    {
        self.board[row][col]
    }

    /// One slide to the left: each row merges and compacts toward its
    /// front.
    pub fn move_left(&mut self)
        requires
            old(self).wf(),
        ensures
            final(self).wf(),
            final(self).spec_config() == old(self).spec_config(),
            final(self).grid() == old(self).moved(Keypress::Left),
            final(self).score_value() == sat32(
                old(self).score_value() as int + old(self).gain(Keypress::Left),
            ),
    {
        slide_all_rows(&mut self.board, true, &mut self.score);
    }

    /// One slide to the right: each row merges and compacts toward its
    /// back.
    pub fn move_right(&mut self)
        requires
            old(self).wf(),
        ensures
            final(self).wf(),
            final(self).spec_config() == old(self).spec_config(),
            final(self).grid() == old(self).moved(Keypress::Right),
            final(self).score_value() == sat32(
                old(self).score_value() as int + old(self).gain(Keypress::Right),
            ),
    {
        slide_all_rows(&mut self.board, false, &mut self.score);
    }

    /// One slide upward: each column merges and compacts toward the top,
    /// carried out on the transposed board.
    pub fn move_up(&mut self)
        requires
            old(self).wf(),
        ensures
            final(self).wf(),
            final(self).spec_config() == old(self).spec_config(),
            final(self).grid() == old(self).moved(Keypress::Up),
            final(self).score_value() == sat32(
                old(self).score_value() as int + old(self).gain(Keypress::Up),
            ),
    {
        let h: usize = self.config.height;
        let w: usize = self.config.width;
        let mut t: Vec<Vec<u32>> = transposed(&self.board, h, w);
        slide_all_rows(&mut t, true, &mut self.score);
        self.board = transposed(&t, w, h);
    }

    /// One slide downward: each column merges and compacts toward the
    /// bottom, carried out on the transposed board.
    pub fn move_down(&mut self)
        requires
            old(self).wf(),
        ensures
            final(self).wf(),
            final(self).spec_config() == old(self).spec_config(),
            final(self).grid() == old(self).moved(Keypress::Down),
            final(self).score_value() == sat32(
                old(self).score_value() as int + old(self).gain(Keypress::Down),
            ),
    {
        let h: usize = self.config.height;
        let w: usize = self.config.width;
        let mut t: Vec<Vec<u32>> = transposed(&self.board, h, w);
        slide_all_rows(&mut t, false, &mut self.score);
        self.board = transposed(&t, w, h);
    }

    /// Whether the game is over: every cell holds a tile and no two
    /// neighbours in a row or column are equal. On a full board each of the
    /// four scan orders finds a merge exactly where some pair of immediate
    /// neighbours is equal, so rows and columns are each scanned once.
    pub fn game_over(&self) -> (r: bool)
        requires
            self.wf(),
        ensures
            r == terminal(
                self.grid(),
                self.spec_config().width as nat,
                self.spec_config().height as nat,
            ),
    {
        let w: usize = self.config.width;
        let h: usize = self.config.height;
        let mut i: usize = 0;
        while i < h
            invariant
                self.wf(),
                w == self.config.width,
                h == self.config.height,
                i <= h,
                forall|a: int, b: int|
                    0 <= a < i && 0 <= b < w ==> #[trigger] self.board@[a]@[b] != 0u32,
            decreases h - i,
        {
            let mut j: usize = 0;
            while j < w
                invariant
                    self.wf(),
                    w == self.config.width,
                    h == self.config.height,
                    i < h,
                    j <= w,
                    forall|a: int, b: int|
                        0 <= a < i && 0 <= b < w ==> #[trigger] self.board@[a]@[b] != 0u32,
                    forall|b: int| 0 <= b < j ==> #[trigger] self.board@[i as int]@[b] != 0u32,
                decreases w - j,
            {
                if self.board[i][j] == 0 {
                    proof {
                        assert(self.grid()[i as int][j as int] == 0u32);
                        assert(!grid_full(self.grid()));
                    }
                    return false;
                }
                j += 1;
            }
            i += 1;
        }
        let mut row: usize = 0;
        while row < h
            invariant
                self.wf(),
                w == self.config.width,
                h == self.config.height,
                row <= h,
                forall|a: int, b: int|
                    0 <= a < row && 0 <= b < w - 1 ==> #[trigger] self.board@[a]@[b]
                        != self.board@[a]@[b + 1],
            decreases h - row,
        {
            let mut j: usize = 0;
            while j < w - 1
                invariant
                    self.wf(),
                    w == self.config.width,
                    h == self.config.height,
                    row < h,
                    j <= w,
                    forall|b: int|
                        0 <= b < j ==> #[trigger] self.board@[row as int]@[b]
                            != self.board@[row as int]@[b + 1],
                decreases w - j,
            {
                if self.board[row][j] == self.board[row][j + 1] {
                    proof {
                        assert(self.grid()[row as int][j as int] == self.grid()[row as int][j as int
                            + 1]);
                    }
                    return false;
                }
                j += 1;
            }
            row += 1;
        }
        let mut col: usize = 0;
        while col < w
            invariant
                self.wf(),
                w == self.config.width,
                h == self.config.height,
                col <= w,
                forall|a: int, b: int|
                    0 <= a < h - 1 && 0 <= b < col ==> #[trigger] self.board@[a]@[b]
                        != self.board@[a + 1]@[b],
            decreases w - col,
        {
            let mut i2: usize = 0;
            while i2 < h - 1
                invariant
                    self.wf(),
                    w == self.config.width,
                    h == self.config.height,
                    col < w,
                    i2 <= h,
                    forall|a: int|
                        0 <= a < i2 ==> #[trigger] self.board@[a]@[col as int] != self.board@[a
                            + 1]@[col as int],
                decreases h - i2,
            {
                if self.board[i2][col] == self.board[i2 + 1][col] {
                    proof {
                        assert(self.grid()[i2 as int][col as int] == self.grid()[i2 as int
                            + 1][col as int]);
                    }
                    return false;
                }
                i2 += 1;
            }
            col += 1;
        }
        proof {
            assert(grid_full(self.grid()));
        }
        true
    }
}

/// A strictly increasing run of positions in row-major order: pairwise
/// distinct by construction.
spec fn lex_sorted(s: Seq<(usize, usize)>, h: nat, w: nat) -> bool {
    (forall|k: int| 0 <= k < s.len() ==> (#[trigger] s[k]).0 < h && s[k].1 < w) && (forall|
        x: int,
        y: int,
    |
        0 <= x < y < s.len() ==> ((#[trigger] s[x]).0 < (#[trigger] s[y]).0 || (s[x].0 == s[y].0
            && s[x].1 < s[y].1)))
}

/// Pairwise distinct positions, all on a `w x h` board.
spec fn distinct_positions(s: Seq<(usize, usize)>, h: nat, w: nat) -> bool {
    (forall|k: int| 0 <= k < s.len() ==> (#[trigger] s[k]).0 < h && s[k].1 < w) && (forall|
        x: int,
        y: int,
    |
        0 <= x < y < s.len() ==> #[trigger] s[x] != #[trigger] s[y])
}

/// No position occurs in both runs.
spec fn disjoint_positions(a: Seq<(usize, usize)>, b: Seq<(usize, usize)>) -> bool {
    forall|x: int, y: int|
        0 <= x < a.len() && 0 <= y < b.len() ==> #[trigger] a[x] != #[trigger] b[y]
}

/// Whether one of the first `k` chosen positions is `(a, b)`.
spec fn placed(chosen: Seq<(usize, usize)>, k: int, a: int, b: int) -> bool {
    exists|t: int| 0 <= t < k && (#[trigger] chosen[t]).0 == a && chosen[t].1 == b
}

/// A `w x h` board of empty cells.
fn zero_board(w: usize, h: usize) -> (g: Vec<Vec<u32>>)
    ensures
        grid_wf(grid_of(g@), w as nat, h as nat),
        forall|a: int, b: int| 0 <= a < h && 0 <= b < w ==> #[trigger] grid_of(g@)[a][b] == 0u32,
        grid_nonzero_count(grid_of(g@)) == 0,
{
    let mut g: Vec<Vec<u32>> = Vec::new();
    let mut i: usize = 0;
    while i < h
        invariant
            i <= h,
            g@.len() == i,
            forall|a: int| 0 <= a < i ==> (#[trigger] g@[a])@ == zero_row(w as nat),
            grid_nonzero_count(grid_of(g@)) == 0,
        decreases h - i,
    {
        let mut r: Vec<u32> = Vec::new();
        let mut j: usize = 0;
        while j < w
            invariant
                j <= w,
                r@ == zero_row(j as nat),
            decreases w - j,
        {
            proof {
                assert(zero_row(j as nat).push(0u32) =~= zero_row(j as nat + 1));
            }
            r.push(0);
            j += 1;
        }
        proof {
            lemma_grid_count_push(grid_of(g@), r@);
            lemma_row_count_zero_row(w as nat);
            assert(grid_of(g@.push(r)) =~= grid_of(g@).push(r@));
        }
        g.push(r);
        i += 1;
    }
    proof {
        assert(forall|a: int| 0 <= a < h ==> #[trigger] grid_of(g@)[a] == g@[a]@);
    }
    g
}

/// Sets one cell of the board, leaving every other cell as it was.
fn set_cell(g: &mut Vec<Vec<u32>>, i: usize, j: usize, v: u32)
    requires
        i < old(g)@.len(),
        j < old(g)@[i as int]@.len(),
    ensures
        final(g)@.len() == old(g)@.len(),
        grid_of(final(g)@) == grid_of(old(g)@).update(
            i as int,
            grid_of(old(g)@)[i as int].update(j as int, v),
        ),
{
    let mut row: Vec<u32> = copy_row(&g[i]);
    row.set(j, v);
    g.set(i, row);
    proof {
        assert(grid_of(g@) =~= grid_of(old(g)@).update(
            i as int,
            grid_of(old(g)@)[i as int].update(j as int, v),
        ));
    }
}

/// A fresh board for `config`: exactly `count` cells hold a tile drawn by
/// the tile value distribution, every other cell is empty. The positions
/// are a uniformly drawn set of `count` distinct cells, taken from a
/// partial shuffle of the cell pool. Fails exactly when the configuration
/// leaves no room to play: no starting tile, a full board, or more tiles
/// than cells.
pub fn random_board(config: &BoardConfig) -> (r: Result<Vec<Vec<u32>>, &'static str>)
    requires
        config.width * config.height <= usize::MAX,
    ensures
        r is Ok <==> config.valid(),
        match r {
            Ok(b) => grid_wf(grid_of(b@), config.width as nat, config.height as nat)
                && cells_two_or_four(grid_of(b@)) && grid_nonzero_count(grid_of(b@))
                == config.count,
            Err(e) => e@ == if config.count == 0 {
                "Empty board!"@
            } else if config.count == config.width * config.height {
                "Full board!"@
            } else {
                "Overflow!"@
            },
        },
{
    let w: usize = config.width;
    let h: usize = config.height;
    if config.count == 0 {
        return Err("Empty board!");
    }
    let total: usize = w * h;
    if config.count == total {
        return Err("Full board!");
    }
    if config.count > total {
        return Err("Overflow!");
    }
    let mut pool: Vec<(usize, usize)> = Vec::new();
    let mut i: usize = 0;
    while i < h
        invariant
            w == config.width,
            h == config.height,
            pool@.len() == i * w,
            i <= h,
            lex_sorted(pool@, h as nat, w as nat),
            forall|k: int| 0 <= k < pool@.len() ==> (#[trigger] pool@[k]).0 < i,
        decreases h - i,
    {
        let mut j: usize = 0;
        while j < w
            invariant
                w == config.width,
                h == config.height,
                i < h,
                j <= w,
                pool@.len() == i * w + j,
                lex_sorted(pool@, h as nat, w as nat),
                forall|k: int|
                    0 <= k < pool@.len() ==> ((#[trigger] pool@[k]).0 < i || (pool@[k].0 == i
                        && pool@[k].1 < j)),
            decreases w - j,
        {
            pool.push((i, j));
            j += 1;
        }
        proof {
            assert((i + 1) * w == i * w + w) by (nonlinear_arith);
        }
        i += 1;
    }
    proof {
        assert(h * w == w * h) by (nonlinear_arith);
        assert(pool@.len() == w * h);
    }
    let mut chosen: Vec<(usize, usize)> = Vec::new();
    while chosen.len() < config.count
        invariant
            w == config.width,
            h == config.height,
            config.count < w * h <= usize::MAX,
            chosen@.len() <= config.count,
            pool@.len() + chosen@.len() == w * h,
            distinct_positions(pool@, h as nat, w as nat),
            distinct_positions(chosen@, h as nat, w as nat),
            disjoint_positions(pool@, chosen@),
        decreases config.count - chosen.len(),
    {
        let ghost p0 = pool@;
        let ghost c0 = chosen@;
        let idx: usize = rand_below(pool.len());
        let pos: (usize, usize) = pool.swap_remove(idx);
        chosen.push(pos);
        proof {
            let p1 = pool@;
            assert(pos == p0[idx as int]);
            assert(forall|k: int|
                0 <= k < p1.len() ==> #[trigger] p1[k] == (if k == idx {
                    p0[p0.len() - 1]
                } else {
                    p0[k]
                }));
            assert forall|x: int, y: int| 0 <= x < y < p1.len() implies #[trigger] p1[x]
                != #[trigger] p1[y] by {
                if x == idx {
                    assert(p1[x] == p0[p0.len() - 1]);
                    assert(p1[y] == p0[y]);
                } else if y == idx {
                    assert(p1[y] == p0[p0.len() - 1]);
                    assert(p1[x] == p0[x]);
                }
            }
            assert forall|x: int| 0 <= x < p1.len() implies #[trigger] p1[x] != pos by {
                if x != idx {
                    assert(p1[x] == p0[x]);
                }
            }
            assert(distinct_positions(p1, h as nat, w as nat));
            assert(distinct_positions(chosen@, h as nat, w as nat)) by {
                assert(forall|x: int| 0 <= x < c0.len() ==> #[trigger] chosen@[x] == c0[x]);
                assert(chosen@[c0.len() as int] == pos);
            }
            assert(disjoint_positions(pool@, chosen@)) by {
                assert(forall|x: int| 0 <= x < c0.len() ==> #[trigger] chosen@[x] == c0[x]);
                assert(chosen@[c0.len() as int] == pos);
            }
        }
    }
    let mut board: Vec<Vec<u32>> = zero_board(w, h);
    let mut k: usize = 0;
    while k < config.count
        invariant
            w == config.width,
            h == config.height,
            chosen@.len() == config.count,
            k <= config.count,
            distinct_positions(chosen@, h as nat, w as nat),
            grid_wf(grid_of(board@), w as nat, h as nat),
            cells_two_or_four(grid_of(board@)),
            grid_nonzero_count(grid_of(board@)) == k,
            forall|a: int, b: int|
                0 <= a < h && 0 <= b < w ==> ((#[trigger] grid_of(board@)[a][b] != 0u32) <==> placed(
                    chosen@,
                    k as int,
                    a,
                    b,
                )),
        decreases config.count - k,
    {
        let ghost gb = grid_of(board@);
        let pos: (usize, usize) = chosen[k];
        let v: u32 = random_tile();
        proof {
            if gb[pos.0 as int][pos.1 as int] != 0u32 {
                let t = choose|t: int|
                    0 <= t < k && (#[trigger] chosen@[t]).0 == pos.0 && chosen@[t].1 == pos.1;
                assert(chosen@[t] == chosen@[k as int]);
                assert(false);
            }
        }
        set_cell(&mut board, pos.0, pos.1, v);
        proof {
            lemma_row_count_update(gb[pos.0 as int], pos.1 as int, v);
            lemma_grid_count_update(gb, pos.0 as int, gb[pos.0 as int].update(pos.1 as int, v));
            assert forall|a: int, b: int|
                0 <= a < h && 0 <= b < w implies ((#[trigger] grid_of(board@)[a][b] != 0u32)
                <==> placed(chosen@, k as int + 1, a, b)) by {
                if a == pos.0 && b == pos.1 {
                    assert(grid_of(board@)[a][b] == v);
                    assert(placed(chosen@, k as int + 1, a, b)) by {
                        assert((chosen@[k as int]).0 == a && chosen@[k as int].1 == b);
                    }
                } else {
                    assert(grid_of(board@)[a][b] == gb[a][b]);
                    if placed(chosen@, k as int + 1, a, b) {
                        let t = choose|t: int|
                            0 <= t < k + 1 && (#[trigger] chosen@[t]).0 == a && chosen@[t].1 == b;
                        assert(t < k);
                        assert(placed(chosen@, k as int, a, b));
                    }
                }
            }
        }
        k += 1;
    }
    Ok(board)
}

/// The configuration a game starts from: the given one, or the default
/// when none is given.
pub open spec fn chosen_config(o: Option<BoardConfig>) -> BoardConfig {
    match o {
        Option::Some(c) => c,
        Option::None => (BoardConfig { width: 4, height: 4, count: 2 }),
    }
}

impl Game {
    /// Adds `value` to the score, clamped at the score's top so the count
    /// never wraps around.
    fn apply_score(&mut self, value: u32)
        ensures
            final(self).score_value() == sat32(old(self).score_value() as int + value),
            final(self).config == old(self).config,
            final(self).grid() == old(self).grid(),
    {
        self.score = self.score.saturating_add(value);
    }

    /// A fresh randomized game for the given configuration (the default
    /// `4 x 4` board with two tiles when none is given): `count` cells hold
    /// a 2 or a 4, every other cell is empty, and the score starts at zero.
    /// Fails exactly on the configurations the factory rejects.
    pub fn new_game(board_config: Option<BoardConfig>) -> (r: Result<Self, &'static str>)
        requires
            chosen_config(board_config).width * chosen_config(board_config).height <= usize::MAX,
        ensures
            r is Ok <==> chosen_config(board_config).valid(),
            match r {
                Ok(g) => g.wf() && g.spec_config() == chosen_config(board_config)
                    && g.score_value() == 0 && cells_two_or_four(g.grid()) && grid_nonzero_count(
                    g.grid(),
                ) == g.spec_config().count,
                Err(e) => e@ == if chosen_config(board_config).count == 0 {
                    "Empty board!"@
                } else if chosen_config(board_config).count == chosen_config(board_config).width
                    * chosen_config(board_config).height {
                    "Full board!"@
                } else {
                    "Overflow!"@
                },
            },
    {
        let config: BoardConfig = match board_config {
            Some(c) => c,
            None => BoardConfig::default(),
        };
        let board: Vec<Vec<u32>> = match random_board(&config) {
            Ok(b) => b,
            Err(e) => {
                return Err(e);
            },
        };
        proof {
            if config.width == 0 || config.height == 0 {
                assert(config.width * config.height == 0) by (nonlinear_arith)
                    requires
                        config.width == 0 || config.height == 0,
                ;
            }
            assert(forall|i: int|
                0 <= i < board@.len() ==> (#[trigger] board@[i])@ == grid_of(board@)[i]);
        }
        Ok(Game { config, board, score: 0 })
    }

    /// A game over a given board, for a caller that supplies the position
    /// itself; the score starts at zero. Fails unless the board has exactly
    /// the configured rectangular shape with positive dimensions.
    pub fn with_board(config: BoardConfig, board: Vec<Vec<u32>>) -> (r: Result<Self, &'static str>)
        ensures
            r is Ok <==> (config.width >= 1 && config.height >= 1 && grid_wf(
                grid_of(board@),
                config.width as nat,
                config.height as nat,
            )),
            match r {
                Ok(g) => g.wf() && g.spec_config() == config && g.grid() == grid_of(board@)
                    && g.score_value() == 0,
                Err(e) => e@ == "Malformed board!"@,
            },
    {
        if config.width == 0 || config.height == 0 || board.len() != config.height {
            return Err("Malformed board!");
        }
        let mut i: usize = 0;
        while i < board.len()
            invariant
                i <= board@.len(),
                forall|t: int| 0 <= t < i ==> (#[trigger] board@[t])@.len() == config.width,
            decreases board@.len() - i,
        {
            if board[i].len() != config.width {
                proof {
                    assert(grid_of(board@)[i as int].len() != config.width);
                }
                return Err("Malformed board!");
            }
            i += 1;
        }
        proof {
            assert(forall|t: int|
                0 <= t < board@.len() ==> #[trigger] grid_of(board@)[t].len() == config.width);
        }
        Ok(Game { config, board, score: 0 })
    }

    /// After a successful move, one uniformly chosen empty cell receives a
    /// tile drawn by the tile value distribution; a board without an empty
    /// cell is tolerated and left unchanged.
    fn add_random_tile(&mut self)
        requires
            old(self).wf(),
        ensures
            final(self).wf(),
            final(self).config == old(self).config,
            final(self).score_value() == old(self).score_value(),
            inject_post(old(self).grid(), final(self).grid()),
    {
        let w: usize = self.config.width;
        let h: usize = self.config.height;
        let mut free: Vec<(usize, usize)> = Vec::new();
        let mut i: usize = 0;
        while i < h
            invariant
                self.wf(),
                w == self.config.width,
                h == self.config.height,
                i <= h,
                forall|t: int|
                    0 <= t < free@.len() ==> (#[trigger] free@[t]).0 < h && free@[t].1 < w
                        && self.grid()[free@[t].0 as int][free@[t].1 as int] == 0u32,
                free@.len() == 0 ==> forall|a: int, b: int|
                    0 <= a < i && 0 <= b < w ==> #[trigger] self.grid()[a][b] != 0u32,
            decreases h - i,
        {
            let mut j: usize = 0;
            while j < w
                invariant
                    self.wf(),
                    w == self.config.width,
                    h == self.config.height,
                    i < h,
                    j <= w,
                    forall|t: int|
                        0 <= t < free@.len() ==> (#[trigger] free@[t]).0 < h && free@[t].1 < w
                            && self.grid()[free@[t].0 as int][free@[t].1 as int] == 0u32,
                    free@.len() == 0 ==> forall|a: int, b: int|
                        0 <= a < i && 0 <= b < w ==> #[trigger] self.grid()[a][b] != 0u32,
                    free@.len() == 0 ==> forall|b: int|
                        0 <= b < j ==> #[trigger] self.grid()[i as int][b] != 0u32,
                decreases w - j,
            {
                if self.board[i][j] == 0 {
                    free.push((i, j));
                }
                j += 1;
            }
            i += 1;
        }
        if free.len() == 0 {
            proof {
                assert(!has_empty_cell(self.grid()));
            }
            return;
        }
        let idx: usize = rand_below(free.len());
        let pos: (usize, usize) = free[idx];
        let v: u32 = random_tile();
        proof {
            assert(self.grid()[pos.0 as int][pos.1 as int] == 0u32);
            assert(has_empty_cell(self.grid()));
        }
        set_cell(&mut self.board, pos.0, pos.1, v);
        proof {
            assert(forall|t: int|
                0 <= t < self.board@.len() ==> (#[trigger] self.board@[t])@ == grid_of(
                    self.board@,
                )[t]);
        }
    }

    /// One turn of the game, fed one classified input. A finished game
    /// reports `GameOver` before any input is considered; an unrecognized
    /// input (`None`) and the control keys leave the state untouched; a
    /// directional move that changes nothing is reported as `NoMove` and
    /// changes neither board nor score; a move that changes the board earns
    /// its merges' score and is followed by one injected tile.
    pub fn play_move(&mut self, input: Option<Keypress>) -> (r: GameResult)
        requires
            old(self).wf(),
        ensures
            final(self).wf(),
            final(self).spec_config() == old(self).spec_config(),
            ({
                let g0 = old(self).grid();
                let s0 = old(self).score_value();
                let w = old(self).spec_config().width as nat;
                let h = old(self).spec_config().height as nat;
                let g1 = final(self).grid();
                let s1 = final(self).score_value();
                match r {
                    GameResult::GameOver => terminal(g0, w, h) && g1 == g0 && s1 == s0,
                    GameResult::UnknownKeyPress => !terminal(g0, w, h) && input is None && g1 == g0
                        && s1 == s0,
                    GameResult::Exit => !terminal(g0, w, h) && input == Some(Keypress::Quit) && g1
                        == g0 && s1 == s0,
                    GameResult::Reset => !terminal(g0, w, h) && input == Some(Keypress::Reset) && g1
                        == g0 && s1 == s0,
                    GameResult::NoMove => !terminal(g0, w, h) && (exists|k: Keypress|
                        input == Some(k) && #[trigger] crate::model::is_direction(k) && old(
                            self,
                        ).moved(k) == g0) && g1 == g0 && s1 == s0,
                    GameResult::NextMove => !terminal(g0, w, h) && (exists|k: Keypress|
                        input == Some(k) && #[trigger] crate::model::is_direction(k) && old(
                            self,
                        ).moved(k) != g0 && inject_post(old(self).moved(k), g1) && s1 == sat32(
                            s0 as int + old(self).gain(k),
                        )),
                }
            }),
    {
        if self.game_over() {
            return GameResult::GameOver;
        }
        let k: Keypress = match input {
            None => {
                return GameResult::UnknownKeyPress;
            },
            Some(kk) => kk,
        };
        match k {
            Keypress::Quit => {
                return GameResult::Exit;
            },
            Keypress::Reset => {
                return GameResult::Reset;
            },
            _ => {
            },
        }
        let ghost g0 = self.grid();
        let ghost s0: u32 = self.score;
        let before: Vec<Vec<u32>> = copy_grid(&self.board);
        match k {
            Keypress::Left => self.move_left(),
            Keypress::Right => self.move_right(),
            Keypress::Up => self.move_up(),
            Keypress::Down => self.move_down(),
            _ => {
            },
        }
        if equal_boards(&self.board, &before) {
            proof {
                assert(grid_wf(g0, self.config.width as nat, self.config.height as nat));
                lemma_noop_move(g0, self.config.width as nat, self.config.height as nat, k);
                assert(crate::model::is_direction(k));
                assert(input == Some(k) && old(self).moved(k) == g0);
            }
            GameResult::NoMove
        } else {
            self.add_random_tile();
            proof {
                assert(crate::model::is_direction(k));
                assert(input == Some(k) && old(self).moved(k) != g0);
            }
            GameResult::NextMove
        }
    }
}

} // verus!
