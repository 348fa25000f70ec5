//! Mathematical model of the grid and the single-placement simulation:
//! marking a piece onto a snapshot, detecting full rows, columns and chunks,
//! and clearing them.

use vstd::prelude::*;

verus! {

/// A grid is well formed when it has exactly `rows` rows of `cols` cells each.
pub open spec fn grid_wf(g: Seq<Seq<bool>>, rows: int, cols: int) -> bool {
    &&& g.len() == rows
    &&& forall|r: int| 0 <= r < rows ==> (#[trigger] g[r]).len() == cols
}

/// Every layer of the snapshot stack is a well-formed grid.
pub open spec fn stack_wf(ss: Seq<Seq<Seq<bool>>>, rows: int, cols: int) -> bool {
    forall|d: int| 0 <= d < ss.len() ==> grid_wf(#[trigger] ss[d], rows, cols)
}

/// A piece layout is well formed when it is a non-empty rectangle.
pub open spec fn piece_wf(p: Seq<Seq<bool>>) -> bool {
    &&& p.len() >= 1
    &&& p[0].len() >= 1
    &&& forall|i: int| 0 <= i < p.len() ==> (#[trigger] p[i]).len() == p[0].len()
}

/// The piece `p`, anchored with its top-left cell at `(pr, pc)`, occupies the
/// absolute grid cell `(r, c)`.
pub open spec fn covers(p: Seq<Seq<bool>>, pr: int, pc: int, r: int, c: int) -> bool {
    &&& pr <= r < pr + p.len()
    &&& pc <= c < pc + p[r - pr].len()
    &&& p[r - pr][c - pc]
}

/// Some occupied cell of the piece lands on an already occupied grid cell.
pub open spec fn overlaps(g: Seq<Seq<bool>>, p: Seq<Seq<bool>>, pr: int, pc: int) -> bool {
    exists|i: int, j: int|
        0 <= i < p.len() && 0 <= j < p[i].len() && (#[trigger] p[i][j]) && g[pr + i][pc + j]
}

/// The grid after the piece's occupied cells are marked occupied.
pub open spec fn marked(g: Seq<Seq<bool>>, p: Seq<Seq<bool>>, pr: int, pc: int) -> Seq<Seq<bool>> {
    Seq::new(g.len(), |r: int| Seq::new(g[r].len(), |c: int| g[r][c] || covers(p, pr, pc, r, c)))
}

/// Row `r` of the grid is entirely occupied.
pub open spec fn row_full(g: Seq<Seq<bool>>, r: int) -> bool {
    forall|c: int| 0 <= c < g[r].len() ==> #[trigger] g[r][c]
}

/// Column `c` of the grid is entirely occupied.
pub open spec fn col_full(g: Seq<Seq<bool>>, c: int) -> bool {
    forall|r: int| 0 <= r < g.len() ==> #[trigger] g[r][c]
}

/// The `cr` x `cc` chunk with block coordinates `(bi, bj)` is entirely
/// occupied.
pub open spec fn chunk_full(g: Seq<Seq<bool>>, cr: int, cc: int, bi: int, bj: int) -> bool {
    forall|r: int, c: int|
        bi * cr <= r < bi * cr + cr && bj * cc <= c < bj * cc + cc ==> #[trigger] g[r][c]
}

/// Cell `(r, c)` belongs to a full row, a full column, or (in chunk mode) a
/// full chunk, so a clearing pass resets it.
pub open spec fn cell_cleared(
    m: Seq<Seq<bool>>,
    wooden: bool,
    cr: int,
    cc: int,
    r: int,
    c: int,
) -> bool {
    ||| row_full(m, r)
    ||| col_full(m, c)
    ||| (wooden && chunk_full(m, cr, cc, r / cr, c / cc))
}

/// The grid after one clearing pass: full rows, full columns and (in chunk
/// mode) full chunks are all detected against `m` itself, then reset.
pub open spec fn cleared(m: Seq<Seq<bool>>, wooden: bool, cr: int, cc: int) -> Seq<Seq<bool>> {
    Seq::new(
        m.len(),
        |r: int| Seq::new(m[r].len(), |c: int| m[r][c] && !cell_cleared(m, wooden, cr, cc, r, c)),
    )
}

/// How many of the first `i` rows are full.
pub open spec fn count_full_rows(g: Seq<Seq<bool>>, i: int) -> int
    decreases i,
{
    if i <= 0 {
        0
    } else {
        count_full_rows(g, i - 1) + if row_full(g, i - 1) {
            1int
        } else {
            0int
        }
    }
}

/// How many of the first `j` columns are full.
pub open spec fn count_full_cols(g: Seq<Seq<bool>>, j: int) -> int
    decreases j,
{
    if j <= 0 {
        0
    } else {
        count_full_cols(g, j - 1) + if col_full(g, j - 1) {
            1int
        } else {
            0int
        }
    }
}

/// How many of the first `bj` chunks of block row `bi` are full.
pub open spec fn count_full_chunks_in_band(
    g: Seq<Seq<bool>>,
    cr: int,
    cc: int,
    bi: int,
    bj: int,
) -> int
    decreases bj,
{
    if bj <= 0 {
        0
    } else {
        count_full_chunks_in_band(g, cr, cc, bi, bj - 1) + if chunk_full(g, cr, cc, bi, bj - 1) {
            1int
        } else {
            0int
        }
    }
}

/// How many chunks of the first `bi` block rows are full, with `bcols` chunks
/// per block row.
pub open spec fn count_full_chunks(g: Seq<Seq<bool>>, cr: int, cc: int, bi: int, bcols: int) -> int
    decreases bi,
{
    if bi <= 0 {
        0
    } else {
        count_full_chunks(g, cr, cc, bi - 1, bcols) + count_full_chunks_in_band(
            g,
            cr,
            cc,
            bi - 1,
            bcols,
        )
    }
}

/// How many of the first `i` flags are set.
pub open spec fn count_true(flags: Seq<bool>, i: int) -> int
    decreases i,
{
    if i <= 0 {
        0
    } else {
        count_true(flags, i - 1) + if flags[i - 1] {
            1int
        } else {
            0int
        }
    }
}

/// The grid with every flagged row reset to unoccupied.
pub open spec fn rows_zeroed(g: Seq<Seq<bool>>, flags: Seq<bool>) -> Seq<Seq<bool>> {
    Seq::new(
        g.len(),
        |r: int|
            if flags[r] {
                Seq::new(g[r].len(), |c: int| false)
            } else {
                g[r]
            },
    )
}

/// The grid with every flagged column reset to unoccupied.
pub open spec fn cols_zeroed(g: Seq<Seq<bool>>, flags: Seq<bool>) -> Seq<Seq<bool>> {
    Seq::new(g.len(), |r: int| Seq::new(g[r].len(), |c: int| g[r][c] && !flags[c]))
}

/// The grid with every full `cr` x `cc` chunk reset to unoccupied; fullness
/// is judged against `g` itself.
pub open spec fn chunks_zeroed(g: Seq<Seq<bool>>, cr: int, cc: int) -> Seq<Seq<bool>> {
    Seq::new(
        g.len(),
        |r: int| Seq::new(g[r].len(), |c: int| g[r][c] && !chunk_full(g, cr, cc, r / cr, c / cc)),
    )
}

/// Flags that record exactly which rows are full have as many set entries as
/// the grid has full rows.
pub proof fn lemma_count_true_is_row_count(flags: Seq<bool>, g: Seq<Seq<bool>>, i: int)
    requires
        forall|r: int| 0 <= r < i ==> flags[r] == row_full(g, r),
    ensures
        count_true(flags, i) == count_full_rows(g, i),
    decreases i,
{
    if i > 0 {
        lemma_count_true_is_row_count(flags, g, i - 1);
    }
}

/// Flags that record exactly which columns are full have as many set entries
/// as the grid has full columns.
pub proof fn lemma_count_true_is_col_count(flags: Seq<bool>, g: Seq<Seq<bool>>, j: int)
    requires
        forall|c: int| 0 <= c < j ==> flags[c] == col_full(g, c),
    ensures
        count_true(flags, j) == count_full_cols(g, j),
    decreases j,
{
    if j > 0 {
        lemma_count_true_is_col_count(flags, g, j - 1);
    }
}

/// A block row holds at most `bj` full chunks.
pub proof fn lemma_count_band_bound(g: Seq<Seq<bool>>, cr: int, cc: int, bi: int, bj: int)
    ensures
        0 <= count_full_chunks_in_band(g, cr, cc, bi, bj) <= if bj <= 0 {
            0int
        } else {
            bj
        },
    decreases bj,
{
    if bj > 0 {
        lemma_count_band_bound(g, cr, cc, bi, bj - 1);
    }
}

/// The first `bi` block rows hold at most `bi * bcols` full chunks.
pub proof fn lemma_count_full_chunks_bound(g: Seq<Seq<bool>>, cr: int, cc: int, bi: int, bcols: int)
    requires
        bcols >= 0,
    ensures
        0 <= count_full_chunks(g, cr, cc, bi, bcols) <= if bi <= 0 {
            0int
        } else {
            bi * bcols
        },
    decreases bi,
{
    if bi > 0 {
        lemma_count_full_chunks_bound(g, cr, cc, bi - 1, bcols);
        lemma_count_band_bound(g, cr, cc, bi - 1, bcols);
        assert((bi - 1) * bcols + bcols == bi * bcols) by (nonlinear_arith);
    }
}

/// A cell whose coordinate lies within block `bi` of stride `cr` has block
/// index `bi`.
pub proof fn lemma_in_block(a: int, cr: int, bi: int)
    requires
        cr >= 1,
        bi * cr <= a < bi * cr + cr,
    ensures
        a / cr == bi,
{
    vstd::arithmetic::div_mod::lemma_fundamental_div_mod_converse_div(a, cr, bi, a - bi * cr);
}

/// Every coordinate lies within its own block.
pub proof fn lemma_block_of(a: int, cr: int)
    requires
        cr >= 1,
        0 <= a,
    ensures
        a / cr >= 0,
        (a / cr) * cr <= a < (a / cr) * cr + cr,
{
    vstd::arithmetic::div_mod::lemma_fundamental_div_mod(a, cr);
    vstd::arithmetic::div_mod::lemma_mod_bound(a, cr);
    assert((a / cr) * cr == cr * (a / cr)) by (nonlinear_arith);
    if a / cr < 0 {
        assert(cr * (a / cr) + a % cr < 0) by (nonlinear_arith)
            requires
                cr >= 1,
                a / cr <= -1,
                a % cr < cr,
        ;
    }
}

/// A coordinate below `rows` has block index below `rows / cr` when `cr`
/// divides `rows`.
pub proof fn lemma_block_index_bound(a: int, cr: int, rows: int)
    requires
        cr >= 1,
        0 <= a < rows,
        rows % cr == 0,
    ensures
        0 <= a / cr < rows / cr,
{
    lemma_block_of(a, cr);
    vstd::arithmetic::div_mod::lemma_fundamental_div_mod(rows, cr);
    assert(a / cr < rows / cr) by (nonlinear_arith)
        requires
            cr >= 1,
            (a / cr) * cr <= a,
            a < rows,
            rows == cr * (rows / cr),
    ;
}

/// The score of one placement: full rows, full columns and (in chunk mode)
/// full chunks of the post-placement grid `m`, each counted once.
pub open spec fn clear_count(
    m: Seq<Seq<bool>>,
    rows: int,
    cols: int,
    wooden: bool,
    cr: int,
    cc: int,
) -> int {
    count_full_rows(m, rows) + count_full_cols(m, cols) + if wooden {
        count_full_chunks(m, cr, cc, rows / cr, cols / cc)
    } else {
        0int
    }
}

/// The grid after placing piece `p` at `(pr, pc)` on `g` and running one
/// clearing pass.
pub open spec fn after_place(
    g: Seq<Seq<bool>>,
    p: Seq<Seq<bool>>,
    pr: int,
    pc: int,
    wooden: bool,
    cr: int,
    cc: int,
) -> Seq<Seq<bool>> {
    cleared(marked(g, p, pr, pc), wooden, cr, cc)
}

/// The clear count scored by placing piece `p` at `(pr, pc)` on `g`.
pub open spec fn place_clears(
    g: Seq<Seq<bool>>,
    p: Seq<Seq<bool>>,
    pr: int,
    pc: int,
    rows: int,
    cols: int,
    wooden: bool,
    cr: int,
    cc: int,
) -> int {
    clear_count(marked(g, p, pr, pc), rows, cols, wooden, cr, cc)
}

} // verus!
