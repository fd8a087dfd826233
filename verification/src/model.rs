//! Mathematical model of the board: lines, the slide-and-merge step, grids,
//! tile counting and mass accounting. Everything here is specification-level;
//! the executable engine in `game` is proved against these definitions.

use vstd::prelude::*;

verus! {

/// Doubling of a tile value, with the same wrap-around as the machine
/// left-shift the merge step performs.
pub open spec fn dbl(v: u32) -> u32 {
    ((2 * (v as nat)) % 0x1_0000_0000nat) as u32
}

/// The non-zero entries of a line, in order.
pub open spec fn nonzeros(s: Seq<u32>) -> Seq<u32>
    decreases s.len(),
{
    if s.len() == 0 {
        Seq::empty()
    } else if s[0] == 0u32 {
        nonzeros(s.skip(1))
    } else {
        seq![s[0]] + nonzeros(s.skip(1))
    }
}

/// One merge pass over the already-compacted non-zero entries of a line,
/// scanned front to back: the first two equal neighbours merge into a doubled
/// tile, and the scan resumes after the pair, so a merged tile never merges
/// again within the same move.
pub open spec fn merged_line(s: Seq<u32>) -> Seq<u32>
    decreases s.len(),
{
    if s.len() == 0 {
        Seq::empty()
    } else if s.len() >= 2 && s[1] == s[0] {
        seq![dbl(s[0])] + merged_line(s.skip(2))
    } else {
        seq![s[0]] + merged_line(s.skip(1))
    }
}

/// The score earned by one merge pass: the doubled value of every pair merged.
pub open spec fn merge_gain(s: Seq<u32>) -> int
    decreases s.len(),
{
    if s.len() == 0 {
        0
    } else if s.len() >= 2 && s[1] == s[0] {
        dbl(s[0]) + merge_gain(s.skip(2))
    } else {
        merge_gain(s.skip(1))
    }
}

/// A run of `n` empty cells.
pub open spec fn zero_row(n: nat) -> Seq<u32> {
    Seq::new(n, |i: int| 0u32)
}

/// `s` slid to the front of a line of width `n`: the vacated tail is empty.
pub open spec fn pad_right(s: Seq<u32>, n: nat) -> Seq<u32> {
    s + zero_row((n - s.len()) as nat)
}

/// A full slide of one line toward its front (a Left move on a row, an Up
/// move on a column): merge once, then compact the survivors to the front.
pub open spec fn slide_fwd(s: Seq<u32>) -> Seq<u32> {
    pad_right(nonzeros(merged_line(nonzeros(s))), s.len())
}

/// A full slide of one line toward its back (a Right move on a row, a Down
/// move on a column): the mirror image of `slide_fwd`.
pub open spec fn slide_rev(s: Seq<u32>) -> Seq<u32> {
    slide_fwd(s.reverse()).reverse()
}

/// Score earned by sliding a line toward its front.
pub open spec fn fwd_gain(s: Seq<u32>) -> int {
    merge_gain(nonzeros(s))
}

/// Score earned by sliding a line toward its back.
pub open spec fn rev_gain(s: Seq<u32>) -> int {
    merge_gain(nonzeros(s.reverse()))
}

/// The mathematical grid behind a vector of rows.
pub open spec fn grid_of(b: Seq<Vec<u32>>) -> Seq<Seq<u32>> {
    Seq::new(b.len(), |i: int| b[i]@)
}

/// A rectangular grid: `h` rows, each of width `w`.
pub open spec fn grid_wf(g: Seq<Seq<u32>>, w: nat, h: nat) -> bool {
    g.len() == h && forall|i: int| 0 <= i < g.len() ==> (#[trigger] g[i]).len() == w
}

/// The transpose of a `rows x cols` grid: columns become rows.
pub open spec fn transpose_of(g: Seq<Seq<u32>>, rows: nat, cols: nat) -> Seq<Seq<u32>> {
    Seq::new(cols, |j: int| Seq::new(rows, |i: int| g[i][j]))
}

/// Every row slid toward one edge: the front when `forward` holds, else the back.
pub open spec fn slide_rows(g: Seq<Seq<u32>>, forward: bool) -> Seq<Seq<u32>> {
    Seq::new(g.len(), |i: int| if forward { slide_fwd(g[i]) } else { slide_rev(g[i]) })
}

/// Total score earned by sliding every row of `g` toward one edge.
pub open spec fn rows_gain(g: Seq<Seq<u32>>, forward: bool) -> int
    decreases g.len(),
{
    if g.len() == 0 {
        0
    } else {
        rows_gain(g.drop_last(), forward) + if forward {
            fwd_gain(g.last())
        } else {
            rev_gain(g.last())
        }
    }
}

/// A direction or control intent, as classified by the input collaborator.
#[derive(Clone, Copy, Debug, PartialEq, Eq, Structural)]
pub enum Keypress {
    Up,
    Down,
    Left,
    Right,
    Reset,
    Quit,
}

/// Whether a keypress names one of the four slide directions.
pub open spec fn is_direction(k: Keypress) -> bool {
    k == Keypress::Up || k == Keypress::Down || k == Keypress::Left || k == Keypress::Right
}

/// The grid after one slide of a `w x h` grid in direction `k`; a control
/// key leaves the grid as it is. Rows slide in place; columns slide through
/// the transpose.
pub open spec fn grid_after(g: Seq<Seq<u32>>, w: nat, h: nat, k: Keypress) -> Seq<Seq<u32>> {
    match k {
        Keypress::Left => slide_rows(g, true),
        Keypress::Right => slide_rows(g, false),
        Keypress::Up => transpose_of(slide_rows(transpose_of(g, h, w), true), w, h),
        Keypress::Down => transpose_of(slide_rows(transpose_of(g, h, w), false), w, h),
        _ => g,
    }
}

/// The score earned by one slide of a `w x h` grid in direction `k`.
pub open spec fn move_gain(g: Seq<Seq<u32>>, w: nat, h: nat, k: Keypress) -> int {
    match k {
        Keypress::Left => rows_gain(g, true),
        Keypress::Right => rows_gain(g, false),
        Keypress::Up => rows_gain(transpose_of(g, h, w), true),
        Keypress::Down => rows_gain(transpose_of(g, h, w), false),
        _ => 0,
    }
}

/// No cell of the grid is empty.
pub open spec fn grid_full(g: Seq<Seq<u32>>) -> bool {
    forall|i: int, j: int| 0 <= i < g.len() && 0 <= j < g[i].len() ==> g[i][j] != 0u32
}

/// Some cell of the grid is empty.
pub open spec fn has_empty_cell(g: Seq<Seq<u32>>) -> bool {
    exists|i: int, j: int| 0 <= i < g.len() && 0 <= j < g[i].len() && g[i][j] == 0u32
}

/// A terminal position: every cell holds a tile and no two neighbours in a
/// row or in a column are equal. On a full grid the neighbour search of a
/// slide never skips a cell, so this is exactly "no move can change the grid".
pub open spec fn terminal(g: Seq<Seq<u32>>, w: nat, h: nat) -> bool {
    grid_full(g) && (forall|i: int, j: int|
        0 <= i < h && 0 <= j < w - 1 ==> #[trigger] g[i][j] != g[i][j + 1]) && (forall|
        i: int,
        j: int,
    |
        0 <= i < h - 1 && 0 <= j < w ==> #[trigger] g[i][j] != g[i + 1][j])
}

/// How tile injection relates the grid before to the grid after: one
/// uniformly chosen empty cell receives a 2 or a 4; a grid with no empty
/// cell is tolerated and left unchanged.
pub open spec fn inject_post(g0: Seq<Seq<u32>>, g1: Seq<Seq<u32>>) -> bool {
    if has_empty_cell(g0) {
        exists|i: int, j: int, v: u32|
            0 <= i < g0.len() && 0 <= j < g0[i].len() && g0[i][j] == 0u32 && (v == 2u32 || v
                == 4u32) && g1 == g0.update(i, g0[i].update(j, v))
    } else {
        g1 == g0
    }
}

/// How many cells of a row hold a tile.
pub open spec fn row_nonzero_count(s: Seq<u32>) -> int
    decreases s.len(),
{
    if s.len() == 0 {
        0
    } else {
        row_nonzero_count(s.drop_last()) + if s.last() != 0u32 {
            1int
        } else {
            0int
        }
    }
}

/// How many cells of a grid hold a tile.
pub open spec fn grid_nonzero_count(g: Seq<Seq<u32>>) -> int
    decreases g.len(),
{
    if g.len() == 0 {
        0
    } else {
        grid_nonzero_count(g.drop_last()) + row_nonzero_count(g.last())
    }
}

/// Every tile of the grid is a 2 or a 4 (or the cell is empty).
pub open spec fn cells_two_or_four(g: Seq<Seq<u32>>) -> bool {
    forall|i: int, j: int|
        0 <= i < g.len() && 0 <= j < g[i].len() ==> (g[i][j] == 0u32 || g[i][j] == 2u32 || g[i][j]
            == 4u32)
}

/// The sum of the tile values of one line.
pub open spec fn sum_line(s: Seq<u32>) -> int
    decreases s.len(),
{
    if s.len() == 0 {
        0
    } else {
        s[0] + sum_line(s.skip(1))
    }
}

/// The sum of all tile values of a grid.
pub open spec fn grid_sum(g: Seq<Seq<u32>>) -> int
    decreases g.len(),
{
    if g.len() == 0 {
        0
    } else {
        grid_sum(g.drop_last()) + sum_line(g.last())
    }
}

/// Addition clamped to the score's range: the score never wraps around.
pub open spec fn sat32(g: int) -> u32 {
    if g > u32::MAX {
        u32::MAX
    } else if g < 0 {
        0u32
    } else {
        g as u32
    }
}

pub proof fn lemma_nonzeros_snoc(s: Seq<u32>, v: u32)
    ensures
        nonzeros(s.push(v)) == if v == 0u32 {
            nonzeros(s)
        } else {
            nonzeros(s).push(v)
        },
    decreases s.len(),
{
    if s.len() == 0 {
        assert(s.push(v).skip(1) =~= s);
        assert(s.push(v)[0] == v);
        if v == 0u32 {
            assert(nonzeros(s.push(v)) == nonzeros(s));
        } else {
            assert(nonzeros(s.push(v)) == seq![v] + nonzeros(s));
            assert(seq![v] + nonzeros(s) =~= nonzeros(s).push(v));
        }
    } else {
        assert(s.push(v).skip(1) =~= s.skip(1).push(v));
        assert(s.push(v)[0] == s[0]);
        lemma_nonzeros_snoc(s.skip(1), v);
        if s[0] == 0u32 {
            assert(nonzeros(s.push(v)) == nonzeros(s.skip(1).push(v)));
            assert(nonzeros(s) == nonzeros(s.skip(1)));
        } else {
            assert(nonzeros(s.push(v)) == seq![s[0]] + nonzeros(s.skip(1).push(v)));
            assert(nonzeros(s) == seq![s[0]] + nonzeros(s.skip(1)));
            if v != 0u32 {
                assert(seq![s[0]] + nonzeros(s.skip(1)).push(v) =~= (seq![s[0]] + nonzeros(
                    s.skip(1),
                )).push(v));
            }
        }
    }
}

pub proof fn lemma_nonzeros_len(s: Seq<u32>)
    ensures
        nonzeros(s).len() <= s.len(),
    decreases s.len(),
{
    if s.len() > 0 {
        lemma_nonzeros_len(s.skip(1));
    }
}

pub proof fn lemma_nonzeros_all_nonzero(s: Seq<u32>)
    ensures
        forall|k: int| 0 <= k < nonzeros(s).len() ==> #[trigger] nonzeros(s)[k] != 0u32,
    decreases s.len(),
{
    if s.len() > 0 {
        lemma_nonzeros_all_nonzero(s.skip(1));
        if s[0] == 0u32 {
            assert(nonzeros(s) == nonzeros(s.skip(1)));
        } else {
            assert(nonzeros(s) == seq![s[0]] + nonzeros(s.skip(1)));
            assert forall|k: int| 0 <= k < nonzeros(s).len() implies #[trigger] nonzeros(s)[k]
                != 0u32 by {
                if k > 0 {
                    assert(nonzeros(s)[k] == nonzeros(s.skip(1))[k - 1]);
                }
            }
        }
    }
}

pub proof fn lemma_nonzeros_identity(s: Seq<u32>)
    requires
        forall|k: int| 0 <= k < s.len() ==> #[trigger] s[k] != 0u32,
    ensures
        nonzeros(s) == s,
    decreases s.len(),
{
    if s.len() > 0 {
        lemma_nonzeros_identity(s.skip(1));
        assert(nonzeros(s) =~= s);
    }
}

pub proof fn lemma_nonzeros_append(a: Seq<u32>, b: Seq<u32>)
    ensures
        nonzeros(a + b) == nonzeros(a) + nonzeros(b),
    decreases a.len(),
{
    if a.len() == 0 {
        assert(a + b =~= b);
        assert(nonzeros(a) + nonzeros(b) =~= nonzeros(b));
    } else {
        assert((a + b).skip(1) =~= a.skip(1) + b);
        lemma_nonzeros_append(a.skip(1), b);
        if a[0] != 0u32 {
            assert(seq![a[0]] + (nonzeros(a.skip(1)) + nonzeros(b)) =~= (seq![a[0]] + nonzeros(
                a.skip(1),
            )) + nonzeros(b));
        }
    }
}

pub proof fn lemma_nonzeros_zero_row(n: nat)
    ensures
        nonzeros(zero_row(n)) == Seq::<u32>::empty(),
    decreases n,
{
    if n > 0 {
        assert(zero_row(n).skip(1) =~= zero_row((n - 1) as nat));
        lemma_nonzeros_zero_row((n - 1) as nat);
    }
}

pub proof fn lemma_nonzeros_bounded(s: Seq<u32>, bound: u32)
    requires
        forall|k: int| 0 <= k < s.len() ==> #[trigger] s[k] < bound,
    ensures
        forall|k: int| 0 <= k < nonzeros(s).len() ==> #[trigger] nonzeros(s)[k] < bound,
    decreases s.len(),
{
    if s.len() > 0 {
        assert(forall|k: int| 0 <= k < s.skip(1).len() ==> #[trigger] s.skip(1)[k] < bound);
        lemma_nonzeros_bounded(s.skip(1), bound);
        if s[0] == 0u32 {
            assert(nonzeros(s) == nonzeros(s.skip(1)));
        } else {
            assert(nonzeros(s) == seq![s[0]] + nonzeros(s.skip(1)));
            assert forall|k: int| 0 <= k < nonzeros(s).len() implies #[trigger] nonzeros(s)[k]
                < bound by {
                if k > 0 {
                    assert(nonzeros(s)[k] == nonzeros(s.skip(1))[k - 1]);
                } else {
                    assert(nonzeros(s)[0] == s[0]);
                }
            }
        }
    }
}

pub proof fn lemma_merged_len(s: Seq<u32>)
    ensures
        merged_line(s).len() <= s.len(),
    decreases s.len(),
{
    if s.len() >= 2 && s[1] == s[0] {
        lemma_merged_len(s.skip(2));
    } else if s.len() > 0 {
        lemma_merged_len(s.skip(1));
    }
}

pub proof fn lemma_merged_len_eq(s: Seq<u32>)
    requires
        merged_line(s).len() == s.len(),
    ensures
        merged_line(s) == s,
        merge_gain(s) == 0,
    decreases s.len(),
{
    if s.len() == 0 {
        assert(merged_line(s) =~= s);
    } else if s.len() >= 2 && s[1] == s[0] {
        lemma_merged_len(s.skip(2));
        assert(false);
    } else {
        lemma_merged_len(s.skip(1));
        lemma_merged_len_eq(s.skip(1));
        assert(merged_line(s) =~= s);
    }
}

pub proof fn lemma_merge_gain_nonneg(s: Seq<u32>)
    ensures
        merge_gain(s) >= 0,
    decreases s.len(),
{
    if s.len() >= 2 && s[1] == s[0] {
        lemma_merge_gain_nonneg(s.skip(2));
    } else if s.len() > 0 {
        lemma_merge_gain_nonneg(s.skip(1));
    }
}

/// A line that a slide leaves as it is earns no score: a fixed point of the
/// slide has no mergeable pair in scan order.
pub proof fn lemma_slide_fixed_no_gain(s: Seq<u32>)
    requires
        slide_fwd(s) == s,
    ensures
        fwd_gain(s) == 0,
{
    let nz = nonzeros(s);
    let m = merged_line(nz);
    let f = nonzeros(m);
    lemma_nonzeros_len(s);
    lemma_merged_len(nz);
    lemma_nonzeros_len(m);
    lemma_nonzeros_append(f, zero_row((s.len() - f.len()) as nat));
    lemma_nonzeros_zero_row((s.len() - f.len()) as nat);
    assert(nonzeros(s) == nonzeros(f) + Seq::<u32>::empty());
    lemma_nonzeros_all_nonzero(m);
    lemma_nonzeros_identity(f);
    assert(nonzeros(f) + Seq::<u32>::empty() =~= f);
    assert(nz == f);
    lemma_merged_len_eq(nz);
}

pub proof fn lemma_sum_append(a: Seq<u32>, b: Seq<u32>)
    ensures
        sum_line(a + b) == sum_line(a) + sum_line(b),
    decreases a.len(),
{
    if a.len() == 0 {
        assert(a + b =~= b);
    } else {
        assert((a + b).skip(1) =~= a.skip(1) + b);
        lemma_sum_append(a.skip(1), b);
    }
}

pub proof fn lemma_sum_zero_row(n: nat)
    ensures
        sum_line(zero_row(n)) == 0,
    decreases n,
{
    if n > 0 {
        assert(zero_row(n).skip(1) =~= zero_row((n - 1) as nat));
        lemma_sum_zero_row((n - 1) as nat);
    }
}

pub proof fn lemma_sum_nonzeros(s: Seq<u32>)
    ensures
        sum_line(nonzeros(s)) == sum_line(s),
    decreases s.len(),
{
    if s.len() > 0 {
        lemma_sum_nonzeros(s.skip(1));
        assert(sum_line(s) == s[0] + sum_line(s.skip(1)));
        if s[0] == 0u32 {
            assert(nonzeros(s) == nonzeros(s.skip(1)));
        } else {
            assert(nonzeros(s) == seq![s[0]] + nonzeros(s.skip(1)));
            lemma_sum_append(seq![s[0]], nonzeros(s.skip(1)));
            lemma_sum_single(s[0]);
        }
    }
}

pub proof fn lemma_sum_single(v: u32)
    ensures
        sum_line(seq![v]) == v,
{
    assert(seq![v].skip(1) =~= Seq::<u32>::empty());
    assert(sum_line(Seq::<u32>::empty()) == 0);
    assert(sum_line(seq![v]) == v + sum_line(seq![v].skip(1)));
}

pub proof fn lemma_sum_merged(s: Seq<u32>)
    ensures
        sum_line(merged_line(s)) <= sum_line(s),
        (forall|k: int| 0 <= k < s.len() ==> #[trigger] s[k] < 0x8000_0000u32) ==> sum_line(
            merged_line(s),
        ) == sum_line(s),
    decreases s.len(),
{
    if s.len() >= 2 && s[1] == s[0] {
        lemma_sum_merged(s.skip(2));
        assert(merged_line(s) == seq![dbl(s[0])] + merged_line(s.skip(2)));
        lemma_sum_append(seq![dbl(s[0])], merged_line(s.skip(2)));
        lemma_sum_single(dbl(s[0]));
        assert(sum_line(s) == s[0] + sum_line(s.skip(1)));
        assert(sum_line(s.skip(1)) == s[1] + sum_line(s.skip(2))) by {
            assert(s.skip(1)[0] == s[1]);
            assert(s.skip(1).skip(1) =~= s.skip(2));
        }
        lemma_dbl_bounds(s[0]);
        assert(forall|k: int| 0 <= k < s.skip(2).len() ==> #[trigger] s.skip(2)[k] == s[k + 2]);
    } else if s.len() > 0 {
        lemma_sum_merged(s.skip(1));
        assert(merged_line(s) == seq![s[0]] + merged_line(s.skip(1)));
        lemma_sum_append(seq![s[0]], merged_line(s.skip(1)));
        lemma_sum_single(s[0]);
        assert(sum_line(s) == s[0] + sum_line(s.skip(1)));
        assert(forall|k: int| 0 <= k < s.skip(1).len() ==> #[trigger] s.skip(1)[k] == s[k + 1]);
    }
}

/// Doubling a tile never exceeds twice its value, and is exact below the
/// wrap-around threshold.
pub proof fn lemma_dbl_bounds(v: u32)
    ensures
        dbl(v) <= 2 * (v as int),
        v < 0x8000_0000u32 ==> dbl(v) == 2 * (v as int),
{
    if v < 0x8000_0000u32 {
        assert((2 * (v as nat)) % 0x1_0000_0000nat == 2 * (v as nat)) by {
            assert(2 * (v as nat) < 0x1_0000_0000nat);
        }
    } else {
        assert((2 * (v as nat)) % 0x1_0000_0000nat <= 2 * (v as nat)) by (nonlinear_arith);
    }
}

pub proof fn lemma_sum_reverse(s: Seq<u32>)
    ensures
        sum_line(s.reverse()) == sum_line(s),
    decreases s.len(),
{
    if s.len() > 0 {
        lemma_sum_reverse(s.skip(1));
        assert(s.reverse() =~= s.skip(1).reverse() + seq![s[0]]);
        lemma_sum_append(s.skip(1).reverse(), seq![s[0]]);
        lemma_sum_single(s[0]);
        assert(sum_line(s) == s[0] + sum_line(s.skip(1)));
    }
}

/// Mass accounting for one slide toward the front: merging never creates
/// tile mass, and as long as no doubled tile overflows its cell, the mass
/// of a line is conserved exactly; compaction moves tiles without changing
/// them.
pub proof fn lemma_slide_preserves_mass(s: Seq<u32>)
    ensures
        sum_line(slide_fwd(s)) <= sum_line(s),
        (forall|k: int| 0 <= k < s.len() ==> #[trigger] s[k] < 0x8000_0000u32) ==> sum_line(
            slide_fwd(s),
        ) == sum_line(s),
{
    let nz = nonzeros(s);
    let m = merged_line(nz);
    let f = nonzeros(m);
    lemma_nonzeros_len(s);
    lemma_merged_len(nz);
    lemma_nonzeros_len(m);
    lemma_sum_append(f, zero_row((s.len() - f.len()) as nat));
    lemma_sum_zero_row((s.len() - f.len()) as nat);
    lemma_sum_nonzeros(m);
    lemma_sum_merged(nz);
    lemma_sum_nonzeros(s);
    if forall|k: int| 0 <= k < s.len() ==> #[trigger] s[k] < 0x8000_0000u32 {
        lemma_nonzeros_bounded(s, 0x8000_0000u32);
    }
}

/// The same mass accounting for a slide toward the back.
pub proof fn lemma_slide_rev_preserves_mass(s: Seq<u32>)
    ensures
        sum_line(slide_rev(s)) <= sum_line(s),
        (forall|k: int| 0 <= k < s.len() ==> #[trigger] s[k] < 0x8000_0000u32) ==> sum_line(
            slide_rev(s),
        ) == sum_line(s),
{
    lemma_sum_reverse(slide_fwd(s.reverse()));
    lemma_slide_preserves_mass(s.reverse());
    lemma_sum_reverse(s);
    assert(forall|k: int| 0 <= k < s.reverse().len() ==> #[trigger] s.reverse()[k] == s[s.len() - 1
        - k]);
    if forall|k: int| 0 <= k < s.len() ==> #[trigger] s[k] < 0x8000_0000u32 {
        assert(forall|k: int|
            0 <= k < s.reverse().len() ==> #[trigger] s.reverse()[k] < 0x8000_0000u32);
    }
}

pub proof fn lemma_slide_fwd_len(s: Seq<u32>)
    ensures
        slide_fwd(s).len() == s.len(),
{
    lemma_nonzeros_len(s);
    lemma_merged_len(nonzeros(s));
    lemma_nonzeros_len(merged_line(nonzeros(s)));
}

pub proof fn lemma_slide_rev_len(s: Seq<u32>)
    ensures
        slide_rev(s).len() == s.len(),
{
    lemma_slide_fwd_len(s.reverse());
}

/// A line that a slide toward the back leaves as it is earns no score.
pub proof fn lemma_slide_rev_fixed_no_gain(s: Seq<u32>)
    requires
        slide_rev(s) == s,
    ensures
        rev_gain(s) == 0,
{
    assert(slide_fwd(s.reverse()).reverse().reverse() =~= slide_fwd(s.reverse()));
    assert(slide_fwd(s.reverse()) == s.reverse());
    lemma_slide_fixed_no_gain(s.reverse());
}

/// Transposing twice gives the grid back.
pub proof fn lemma_transpose_transpose(g: Seq<Seq<u32>>, rows: nat, cols: nat)
    requires
        grid_wf(g, cols, rows),
    ensures
        transpose_of(transpose_of(g, rows, cols), cols, rows) == g,
{
    let t = transpose_of(g, rows, cols);
    let tt = transpose_of(t, cols, rows);
    assert forall|i: int| 0 <= i < rows implies #[trigger] tt[i] == g[i] by {
        assert(forall|j: int| 0 <= j < cols ==> #[trigger] tt[i][j] == g[i][j]);
        assert(tt[i] =~= g[i]);
    }
    assert(tt =~= g);
}

pub proof fn lemma_rows_gain_zero(g: Seq<Seq<u32>>, forward: bool)
    requires
        forall|i: int|
            0 <= i < g.len() ==> (if forward {
                fwd_gain(#[trigger] g[i])
            } else {
                rev_gain(g[i])
            }) == 0,
    ensures
        rows_gain(g, forward) == 0,
    decreases g.len(),
{
    if g.len() > 0 {
        assert(forall|i: int|
            0 <= i < g.drop_last().len() ==> #[trigger] g.drop_last()[i] == g[i]);
        lemma_rows_gain_zero(g.drop_last(), forward);
        assert(g.last() == g[g.len() - 1]);
    }
}

/// A move that leaves the grid as it is earns no score: the no-op outcome
/// changes neither the board nor the score, and repeating it is again a
/// no-op.
pub proof fn lemma_noop_move(g: Seq<Seq<u32>>, w: nat, h: nat, k: Keypress)
    requires
        grid_wf(g, w, h),
        is_direction(k),
        grid_after(g, w, h, k) == g,
    ensures
        move_gain(g, w, h, k) == 0,
        grid_after(grid_after(g, w, h, k), w, h, k) == grid_after(g, w, h, k),
{
    match k {
        Keypress::Left => {
            assert(forall|i: int|
                0 <= i < g.len() ==> #[trigger] slide_rows(g, true)[i] == slide_fwd(g[i]));
            assert forall|i: int| 0 <= i < g.len() implies fwd_gain(#[trigger] g[i]) == 0 by {
                assert(slide_fwd(g[i]) == g[i]);
                lemma_slide_fixed_no_gain(g[i]);
            }
            lemma_rows_gain_zero(g, true);
        },
        Keypress::Right => {
            assert(forall|i: int|
                0 <= i < g.len() ==> #[trigger] slide_rows(g, false)[i] == slide_rev(g[i]));
            assert forall|i: int| 0 <= i < g.len() implies rev_gain(#[trigger] g[i]) == 0 by {
                assert(slide_rev(g[i]) == g[i]);
                lemma_slide_rev_fixed_no_gain(g[i]);
            }
            lemma_rows_gain_zero(g, false);
        },
        Keypress::Up => {
            lemma_transpose_fixed(g, w, h, true);
        },
        Keypress::Down => {
            lemma_transpose_fixed(g, w, h, false);
        },
        _ => {
        },
    }
}

/// The column cases of `lemma_noop_move`: carried through the transpose.
proof fn lemma_transpose_fixed(g: Seq<Seq<u32>>, w: nat, h: nat, forward: bool)
    requires
        grid_wf(g, w, h),
        transpose_of(slide_rows(transpose_of(g, h, w), forward), w, h) == g,
    ensures
        rows_gain(transpose_of(g, h, w), forward) == 0,
{
    let t = transpose_of(g, h, w);
    let st = slide_rows(t, forward);
    assert(grid_wf(t, h, w));
    assert forall|j: int| 0 <= j < st.len() implies (#[trigger] st[j]).len() == h by {
        if forward {
            lemma_slide_fwd_len(t[j]);
        } else {
            lemma_slide_rev_len(t[j]);
        }
    }
    assert(grid_wf(st, h, w));
    lemma_transpose_transpose(st, w, h);
    assert(transpose_of(transpose_of(st, w, h), h, w) == st);
    assert(st == t);
    assert forall|j: int|
        0 <= j < t.len() implies (if forward {
        fwd_gain(#[trigger] t[j])
    } else {
        rev_gain(t[j])
    }) == 0 by {
        assert(st[j] == t[j]);
        if forward {
            lemma_slide_fixed_no_gain(t[j]);
        } else {
            lemma_slide_rev_fixed_no_gain(t[j]);
        }
    }
    lemma_rows_gain_zero(t, forward);
}

/// A line with no equal neighbours keeps every tile where it is: the merge
/// pass changes nothing and earns nothing.
proof fn lemma_merged_identity(s: Seq<u32>)
    requires
        forall|k: int| 0 <= k < s.len() - 1 ==> #[trigger] s[k] != s[k + 1],
    ensures
        merged_line(s) == s,
        merge_gain(s) == 0,
    decreases s.len(),
{
    if s.len() == 0 {
        assert(merged_line(s) =~= s);
    } else {
        assert(forall|k: int|
            0 <= k < s.skip(1).len() - 1 ==> #[trigger] s.skip(1)[k] != s.skip(1)[k + 1]);
        lemma_merged_identity(s.skip(1));
        if s.len() >= 2 {
            assert(s[0] != s[1]);
        }
        assert(merged_line(s) =~= s);
    }
}

/// A fully compacted line of pairwise-unequal neighbours is a fixed point
/// of the forward slide.
pub proof fn lemma_slide_fixed_point(s: Seq<u32>)
    requires
        forall|k: int| 0 <= k < s.len() ==> #[trigger] s[k] != 0u32,
        forall|k: int| 0 <= k < s.len() - 1 ==> #[trigger] s[k] != s[k + 1],
    ensures
        slide_fwd(s) == s,
        fwd_gain(s) == 0,
{
    lemma_nonzeros_identity(s);
    lemma_merged_identity(s);
    assert(pad_right(s, s.len()) =~= s);
}

/// The mirror image of `lemma_slide_fixed_point`, for the backward slide.
pub proof fn lemma_slide_rev_fixed_point(s: Seq<u32>)
    requires
        forall|k: int| 0 <= k < s.len() ==> #[trigger] s[k] != 0u32,
        forall|k: int| 0 <= k < s.len() - 1 ==> #[trigger] s[k] != s[k + 1],
    ensures
        slide_rev(s) == s,
        rev_gain(s) == 0,
{
    let v = s.reverse();
    assert(forall|k: int| 0 <= k < v.len() ==> #[trigger] v[k] == s[s.len() - 1 - k]);
    assert forall|k: int| 0 <= k < v.len() - 1 implies #[trigger] v[k] != v[k + 1] by {
        assert(s[s.len() - 2 - k] != s[s.len() - 2 - k + 1]);
    }
    lemma_slide_fixed_point(v);
    assert(v.reverse() =~= s);
}

/// A terminal position is stuck: no direction changes the grid, and none
/// earns any score.
pub proof fn lemma_terminal_no_moves(g: Seq<Seq<u32>>, w: nat, h: nat, k: Keypress)
    requires
        grid_wf(g, w, h),
        terminal(g, w, h),
        is_direction(k),
    ensures
        grid_after(g, w, h, k) == g,
        move_gain(g, w, h, k) == 0,
{
    let t = transpose_of(g, h, w);
    assert forall|i: int| 0 <= i < g.len() implies slide_fwd(#[trigger] g[i]) == g[i] && fwd_gain(
        g[i],
    ) == 0 && slide_rev(g[i]) == g[i] && rev_gain(g[i]) == 0 by {
        assert(forall|j: int| 0 <= j < g[i].len() ==> #[trigger] g[i][j] != 0u32);
        assert(forall|j: int| 0 <= j < g[i].len() - 1 ==> #[trigger] g[i][j] != g[i][j + 1]);
        lemma_slide_fixed_point(g[i]);
        lemma_slide_rev_fixed_point(g[i]);
    }
    assert forall|j: int| 0 <= j < t.len() implies slide_fwd(#[trigger] t[j]) == t[j] && fwd_gain(
        t[j],
    ) == 0 && slide_rev(t[j]) == t[j] && rev_gain(t[j]) == 0 by {
        assert(forall|i: int| 0 <= i < t[j].len() ==> #[trigger] t[j][i] == g[i][j]);
        assert(forall|i: int| 0 <= i < t[j].len() ==> #[trigger] t[j][i] != 0u32);
        assert forall|i: int| 0 <= i < t[j].len() - 1 implies #[trigger] t[j][i] != t[j][i
            + 1] by {
            assert(g[i][j] != g[i + 1][j]);
        }
        lemma_slide_fixed_point(t[j]);
        lemma_slide_rev_fixed_point(t[j]);
    }
    match k {
        Keypress::Left => {
            assert(slide_rows(g, true) =~= g);
            lemma_rows_gain_zero(g, true);
        },
        Keypress::Right => {
            assert(slide_rows(g, false) =~= g);
            lemma_rows_gain_zero(g, false);
        },
        Keypress::Up => {
            assert(slide_rows(t, true) =~= t);
            lemma_transpose_transpose(g, h as nat, w as nat);
            lemma_rows_gain_zero(t, true);
        },
        Keypress::Down => {
            assert(slide_rows(t, false) =~= t);
            lemma_transpose_transpose(g, h as nat, w as nat);
            lemma_rows_gain_zero(t, false);
        },
        _ => {
        },
    }
}

/// A grid with an empty cell is never terminal.
pub proof fn lemma_empty_cell_never_terminal(g: Seq<Seq<u32>>, w: nat, h: nat)
    requires
        has_empty_cell(g),
    ensures
        !terminal(g, w, h),
{
}

pub proof fn lemma_row_count_zero_row(n: nat)
    ensures
        row_nonzero_count(zero_row(n)) == 0,
    decreases n,
{
    if n > 0 {
        assert(zero_row(n).drop_last() =~= zero_row((n - 1) as nat));
        lemma_row_count_zero_row((n - 1) as nat);
    }
}

pub proof fn lemma_row_count_update(s: Seq<u32>, j: int, v: u32)
    requires
        0 <= j < s.len(),
        s[j] == 0u32,
        v != 0u32,
    ensures
        row_nonzero_count(s.update(j, v)) == row_nonzero_count(s) + 1,
    decreases s.len(),
{
    let s2 = s.update(j, v);
    if j == s.len() - 1 {
        assert(s2.drop_last() =~= s.drop_last());
        assert(s2.last() == v);
        assert(s.last() == 0u32);
    } else {
        assert(s2.drop_last() =~= s.drop_last().update(j, v));
        lemma_row_count_update(s.drop_last(), j, v);
        assert(s2.last() == s.last());
    }
}

pub proof fn lemma_grid_count_update(g: Seq<Seq<u32>>, i: int, r2: Seq<u32>)
    requires
        0 <= i < g.len(),
    ensures
        grid_nonzero_count(g.update(i, r2)) == grid_nonzero_count(g) - row_nonzero_count(g[i])
            + row_nonzero_count(r2),
    decreases g.len(),
{
    let g2 = g.update(i, r2);
    if i == g.len() - 1 {
        assert(g2.drop_last() =~= g.drop_last());
        assert(g2.last() == r2);
        assert(g.last() == g[i]);
    } else {
        assert(g2.drop_last() =~= g.drop_last().update(i, r2));
        lemma_grid_count_update(g.drop_last(), i, r2);
        assert(g2.last() == g.last());
        assert(g.drop_last()[i] == g[i]);
    }
}

pub proof fn lemma_line_gain_nonneg(s: Seq<u32>)
    ensures
        fwd_gain(s) >= 0,
        rev_gain(s) >= 0,
{
    lemma_merge_gain_nonneg(nonzeros(s));
    lemma_merge_gain_nonneg(nonzeros(s.reverse()));
}

pub proof fn lemma_rows_gain_nonneg(g: Seq<Seq<u32>>, forward: bool)
    ensures
        rows_gain(g, forward) >= 0,
    decreases g.len(),
{
    if g.len() > 0 {
        lemma_rows_gain_nonneg(g.drop_last(), forward);
        lemma_line_gain_nonneg(g.last());
    }
}

pub proof fn lemma_nonzeros_single(v: u32)
    ensures
        nonzeros(seq![v]) == if v == 0u32 {
            Seq::<u32>::empty()
        } else {
            seq![v]
        },
{
    assert(seq![v].skip(1) =~= Seq::<u32>::empty());
    assert(nonzeros(Seq::<u32>::empty()) == Seq::<u32>::empty());
    if v != 0u32 {
        assert(seq![v] + Seq::<u32>::empty() =~= seq![v]);
    }
}

/// Clamped addition can be applied in steps: adding `b` on top of an
/// already clamped `a` clamps the true total.
pub proof fn lemma_sat32_chain(a: int, b: int)
    requires
        a >= 0,
        b >= 0,
    ensures
        sat32(sat32(a) as int + b) == sat32(a + b),
{
}

pub proof fn lemma_grid_count_push(g: Seq<Seq<u32>>, r: Seq<u32>)
    ensures
        grid_nonzero_count(g.push(r)) == grid_nonzero_count(g) + row_nonzero_count(r),
{
    assert(g.push(r).drop_last() =~= g);
    assert(g.push(r).last() == r);
}

proof fn lemma_sum_line_update(s: Seq<u32>, j: int, v: u32)
    requires
        0 <= j < s.len(),
    ensures
        sum_line(s.update(j, v)) == sum_line(s) - s[j] + v,
    decreases s.len(),
{
    let s2 = s.update(j, v);
    if j == 0 {
        assert(s2.skip(1) =~= s.skip(1));
        assert(s2[0] == v);
    } else {
        assert(s2.skip(1) =~= s.skip(1).update(j - 1, v));
        lemma_sum_line_update(s.skip(1), j - 1, v);
        assert(s2[0] == s[0]);
        assert(s.skip(1)[j - 1] == s[j]);
    }
}

proof fn lemma_grid_sum_update(g: Seq<Seq<u32>>, i: int, r2: Seq<u32>)
    requires
        0 <= i < g.len(),
    ensures
        grid_sum(g.update(i, r2)) == grid_sum(g) - sum_line(g[i]) + sum_line(r2),
    decreases g.len(),
{
    let g2 = g.update(i, r2);
    if i == g.len() - 1 {
        assert(g2.drop_last() =~= g.drop_last());
        assert(g2.last() == r2);
        assert(g.last() == g[i]);
    } else {
        assert(g2.drop_last() =~= g.drop_last().update(i, r2));
        lemma_grid_sum_update(g.drop_last(), i, r2);
        assert(g2.last() == g.last());
        assert(g.drop_last()[i] == g[i]);
    }
}

/// Merging never creates tile mass across a whole-grid slide of the rows,
/// and conserves it exactly as long as no doubled tile overflows its cell.
pub proof fn lemma_rows_slide_preserves_mass(g: Seq<Seq<u32>>, forward: bool)
    ensures
        grid_sum(slide_rows(g, forward)) <= grid_sum(g),
        (forall|i: int, j: int|
            0 <= i < g.len() && 0 <= j < g[i].len() ==> #[trigger] g[i][j] < 0x8000_0000u32)
            ==> grid_sum(slide_rows(g, forward)) == grid_sum(g),
    decreases g.len(),
{
    if g.len() > 0 {
        let s = slide_rows(g, forward);
        assert(s.drop_last() =~= slide_rows(g.drop_last(), forward));
        assert(forall|i: int, j: int|
            0 <= i < g.drop_last().len() && 0 <= j < g.drop_last()[i].len()
                ==> #[trigger] g.drop_last()[i][j] == g[i][j]);
        lemma_rows_slide_preserves_mass(g.drop_last(), forward);
        assert(s.last() == (if forward {
            slide_fwd(g.last())
        } else {
            slide_rev(g.last())
        }));
        if forward {
            lemma_slide_preserves_mass(g.last());
        } else {
            lemma_slide_rev_preserves_mass(g.last());
        }
        if forall|i: int, j: int|
            0 <= i < g.len() && 0 <= j < g[i].len() ==> #[trigger] g[i][j] < 0x8000_0000u32 {
            assert(forall|j: int|
                0 <= j < g.last().len() ==> #[trigger] g.last()[j] == g[g.len() - 1][j]);
            assert(forall|j: int| 0 <= j < g.last().len() ==> #[trigger] g.last()[j]
                < 0x8000_0000u32);
        }
    }
}

/// Tile injection is the one thing that adds board mass, and it adds
/// exactly the injected tile: a 2 or a 4 on some formerly empty cell; on a
/// board without an empty cell it adds nothing.
pub proof fn lemma_inject_adds_mass(g0: Seq<Seq<u32>>, g1: Seq<Seq<u32>>)
    requires
        inject_post(g0, g1),
    ensures
        grid_sum(g0) <= grid_sum(g1) <= grid_sum(g0) + 4,
        has_empty_cell(g0) ==> (grid_sum(g1) == grid_sum(g0) + 2 || grid_sum(g1) == grid_sum(g0)
            + 4),
        !has_empty_cell(g0) ==> grid_sum(g1) == grid_sum(g0),
{
    if has_empty_cell(g0) {
        let (i, j, v): (int, int, u32) = choose|i: int, j: int, v: u32|
            0 <= i < g0.len() && 0 <= j < g0[i].len() && g0[i][j] == 0u32 && (v == 2u32 || v
                == 4u32) && g1 == g0.update(i, g0[i].update(j, v));
        lemma_sum_line_update(g0[i], j, v);
        lemma_grid_sum_update(g0, i, g0[i].update(j, v));
    }
}

} // verus!
