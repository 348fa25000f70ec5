//! The grid simulator: applies one piece placement to a snapshot of the grid,
//! detects and clears full rows, full columns and (in chunk mode) full
//! chunks, and reports the clear count.

use vstd::prelude::*;

use crate::arrays::{stack_cells, stack_get, stack_set, mat_cells, mat_get, Mat, Stack};
use crate::arrays::mat_dim;
use crate::grid::{
    after_place, cell_cleared, chunk_full, chunks_zeroed, cleared, col_full, cols_zeroed,
    count_full_chunks, count_full_chunks_in_band, count_full_cols, count_full_rows, count_true,
    covers, grid_wf, place_clears,
    lemma_block_index_bound, lemma_block_of, lemma_count_band_bound,
    lemma_count_full_chunks_bound, lemma_count_true_is_col_count, lemma_count_true_is_row_count,
    lemma_in_block, marked, overlaps, piece_wf, row_full, rows_zeroed, stack_wf,
};

verus! {

/// Chunk dimensions (rows, columns) for chunk ("wooden") mode.
#[derive(Copy, Clone, Debug)]
pub struct Chunk(pub usize, pub usize);

/// Applies single placements to the snapshot stack. `chunk` is `Some` when
/// full chunks are cleared in addition to full rows and columns.
pub struct GridSimulator {
    pub rows: usize,
    pub cols: usize,
    pub chunk: Option<Chunk>,
}

impl GridSimulator {
    /// Validated configuration: positive dimensions, the grid small enough to
    /// count clears without overflow, and, in chunk mode, chunk dimensions
    /// that evenly divide the grid's.
    pub open spec fn wf(self) -> bool {
        &&& 1 <= self.rows
        &&& 1 <= self.cols
        &&& self.rows * self.cols <= usize::MAX / 4
        &&& match self.chunk {
            Some(ch) => {
                &&& 1 <= ch.0 <= self.rows
                &&& 1 <= ch.1 <= self.cols
                &&& self.rows % ch.0 == 0
                &&& self.cols % ch.1 == 0
            },
            None => true,
        }
    }

    /// Whether chunk clearing is enabled.
    pub open spec fn wooden(self) -> bool {
        self.chunk is Some
    }

    /// Chunk height in chunk mode; 1 otherwise, so that it is never zero.
    pub open spec fn chunk_rows(self) -> int {
        match self.chunk {
            Some(ch) => ch.0 as int,
            None => 1,
        }
    }

    /// Chunk width in chunk mode; 1 otherwise, so that it is never zero.
    pub open spec fn chunk_cols(self) -> int {
        match self.chunk {
            Some(ch) => ch.1 as int,
            None => 1,
        }
    }

    /// Tries to place `piece` with its origin at `(pos_r, pos_c)` onto the
    /// snapshot at `depth`. If any occupied cell of the piece lands on an
    /// occupied grid cell the placement is rejected and nothing is mutated.
    /// Otherwise snapshot `depth + 1` becomes the marked-then-cleared grid and
    /// the clear count of the placement is returned. One placement may
    /// complete rows, columns and chunks at once: all are judged against the
    /// same post-placement grid, and each full row, column or chunk scores
    /// one clear even where their cells overlap.
    pub fn place(
        &self,
        depth: usize,
        piece: &Mat,
        pos_r: usize,
        pos_c: usize,
        state: &mut Stack,
    ) -> (res: Option<usize>)
        requires
            self.wf(),
            stack_cells(*old(state)).len() <= usize::MAX,
            depth + 1 < stack_cells(*old(state)).len(),
            stack_wf(stack_cells(*old(state)), self.rows as int, self.cols as int),
            piece_wf(mat_cells(*piece)),
            pos_r + mat_cells(*piece).len() <= self.rows,
            pos_c + mat_cells(*piece)[0].len() <= self.cols,
        ensures
            res is None <==> overlaps(
                stack_cells(*old(state))[depth as int],
                mat_cells(*piece),
                pos_r as int,
                pos_c as int,
            ),
            res is None ==> stack_cells(*final(state)) == stack_cells(*old(state)),
            res is Some ==> stack_cells(*final(state)) == stack_cells(*old(state)).update(
                depth + 1,
                after_place(
                    stack_cells(*old(state))[depth as int],
                    mat_cells(*piece),
                    pos_r as int,
                    pos_c as int,
                    self.wooden(),
                    self.chunk_rows(),
                    self.chunk_cols(),
                ),
            ),
            res matches Some(c) ==> c == place_clears(
                stack_cells(*old(state))[depth as int],
                mat_cells(*piece),
                pos_r as int,
                pos_c as int,
                self.rows as int,
                self.cols as int,
                self.wooden(),
                self.chunk_rows(),
                self.chunk_cols(),
            ),
            res matches Some(c) ==> c <= self.rows * self.cols + self.rows + self.cols,
            stack_cells(*final(state)).len() == stack_cells(*old(state)).len(),
            stack_wf(stack_cells(*final(state)), self.rows as int, self.cols as int),
    {
        let rows = self.rows;
        let cols = self.cols;
        let ghost ss0 = stack_cells(*old(state));
        let ghost g = ss0[depth as int];
        let ghost p = mat_cells(*piece);
        let (prows, pcols) = mat_dim(piece);
        if overlap_found(state, depth, piece, prows, pcols, pos_r, pos_c, rows, cols) {
            return None;
        }
        let ghost m = marked(g, p, pos_r as int, pos_c as int);
        proof {
            assert(grid_wf(m, rows as int, cols as int)) by {
                assert(forall|r: int| 0 <= r < rows ==> (#[trigger] m[r]).len() == g[r].len());
            }
        }
        write_marked_layer(state, depth + 1, depth, piece, prows, pcols, pos_r, pos_c, rows, cols);
        let rflags = row_flags(state, depth + 1, rows, cols);
        let cflags = col_flags(state, depth + 1, rows, cols);
        let ghost wooden = self.wooden();
        let ghost scr = self.chunk_rows();
        let ghost scc = self.chunk_cols();
        let mut clear: usize = 0;
        if let Some(ch) = self.chunk {
            clear = clear_full_chunks(state, depth + 1, ch.0, ch.1, rows, cols);
        }
        let ghost z1 = if wooden {
            chunks_zeroed(m, scr, scc)
        } else {
            m
        };
        proof {
            assert(stack_cells(*state) == ss0.update(depth + 1, z1)) by {
                if wooden {
                    assert(ss0.update(depth + 1, m).update(depth + 1, z1) =~= ss0.update(
                        depth + 1,
                        z1,
                    ));
                }
            }
            assert(grid_wf(z1, rows as int, cols as int)) by {
                assert(forall|r: int| 0 <= r < rows ==> (#[trigger] z1[r]).len() == m[r].len());
            }
        }
        let kr = clear_flagged_rows(state, depth + 1, &rflags, rows, cols);
        let ghost z2 = rows_zeroed(z1, rflags@);
        proof {
            assert(stack_cells(*state) == ss0.update(depth + 1, z2)) by {
                assert(ss0.update(depth + 1, z1).update(depth + 1, z2) =~= ss0.update(
                    depth + 1,
                    z2,
                ));
            }
            assert(grid_wf(z2, rows as int, cols as int)) by {
                assert(forall|r: int| 0 <= r < rows ==> (#[trigger] z2[r]).len() == z1[r].len());
            }
            lemma_count_true_is_row_count(rflags@, m, rows as int);
        }
        let kc = clear_flagged_cols(state, depth + 1, &cflags, rows, cols);
        let ghost z3 = cols_zeroed(z2, cflags@);
        proof {
            assert(stack_cells(*state) == ss0.update(depth + 1, z3)) by {
                assert(ss0.update(depth + 1, z2).update(depth + 1, z3) =~= ss0.update(
                    depth + 1,
                    z3,
                ));
            }
            lemma_count_true_is_col_count(cflags@, m, cols as int);
            assert(rows <= rows * cols && cols <= rows * cols) by (nonlinear_arith)
                requires
                    1 <= rows,
                    1 <= cols,
            ;
        }
        let total = clear + kr + kc;
        proof {
            // The three passes together produce exactly one clearing pass
            // over the marked grid.
            assert forall|r: int, c: int|
                0 <= r < rows && 0 <= c < cols implies #[trigger] z3[r][c] == (m[r][c]
                && !cell_cleared(m, wooden, scr, scc, r, c)) by {
                assert(z2[r].len() == z1[r].len());
                assert(rflags@[r] == row_full(m, r));
                assert(cflags@[c] == col_full(m, c));
            }
            assert(z3 =~~= cleared(m, wooden, scr, scc));
            assert(stack_cells(*state) == ss0.update(
                depth + 1,
                after_place(g, p, pos_r as int, pos_c as int, wooden, scr, scc),
            ));
            assert(total == place_clears(
                g,
                p,
                pos_r as int,
                pos_c as int,
                rows as int,
                cols as int,
                wooden,
                scr,
                scc,
            ));
            assert(stack_wf(stack_cells(*state), rows as int, cols as int)) by {
                assert(grid_wf(cleared(m, wooden, scr, scc), rows as int, cols as int)) by {
                    assert(forall|r: int|
                        0 <= r < rows ==> (#[trigger] cleared(m, wooden, scr, scc)[r]).len()
                            == m[r].len());
                }
            }
        }
        Some(total)
    }
}

/// Scans the piece's occupied cells against layer `depth`; true exactly when
/// one of them lands on an occupied grid cell.
fn overlap_found(
    state: &Stack,
    depth: usize,
    piece: &Mat,
    prows: usize,
    pcols: usize,
    pos_r: usize,
    pos_c: usize,
    rows: usize,
    cols: usize,
) -> (b: bool)
    requires
        depth < stack_cells(*state).len(),
        grid_wf(stack_cells(*state)[depth as int], rows as int, cols as int),
        piece_wf(mat_cells(*piece)),
        prows == mat_cells(*piece).len(),
        pcols == mat_cells(*piece)[0].len(),
        pos_r + prows <= rows,
        pos_c + pcols <= cols,
    ensures
        b == overlaps(stack_cells(*state)[depth as int], mat_cells(*piece), pos_r as int, pos_c as int),
{
    let ghost g = stack_cells(*state)[depth as int];
    let ghost p = mat_cells(*piece);
    for i in 0..prows
        invariant
            depth < stack_cells(*state).len(),
            g == stack_cells(*state)[depth as int],
            p == mat_cells(*piece),
            grid_wf(g, rows as int, cols as int),
            piece_wf(p),
            prows == p.len(),
            pcols == p[0].len(),
            pos_r + prows <= rows,
            pos_c + pcols <= cols,
            forall|a: int, b2: int|
                0 <= a < i && 0 <= b2 < pcols ==> !((#[trigger] p[a][b2])
                    && g[pos_r + a][pos_c + b2]),
    {
        for j in 0..pcols
            invariant
                depth < stack_cells(*state).len(),
                g == stack_cells(*state)[depth as int],
                p == mat_cells(*piece),
                grid_wf(g, rows as int, cols as int),
                piece_wf(p),
                i < prows,
                prows == p.len(),
                pcols == p[0].len(),
                pos_r + prows <= rows,
                pos_c + pcols <= cols,
                forall|a: int, b2: int|
                    0 <= a < i && 0 <= b2 < pcols ==> !((#[trigger] p[a][b2])
                        && g[pos_r + a][pos_c + b2]),
                forall|b2: int|
                    0 <= b2 < j ==> !((#[trigger] p[i as int][b2]) && g[pos_r + i][pos_c + b2]),
        {
            if mat_get(piece, i, j) && stack_get(state, depth, pos_r + i, pos_c + j) {
                assert(overlaps(g, p, pos_r as int, pos_c as int)) by {
                    assert(0 <= i < p.len() && 0 <= j < p[i as int].len() && p[i as int][j as int]
                        && g[pos_r + i][pos_c + j]);
                }
                return true;
            }
        }
    }
    false
}

/// Copies layer `src` onto layer `dst` with the piece's occupied cells marked
/// occupied: afterwards layer `dst` is `marked(src, piece, pos_r, pos_c)`.
fn write_marked_layer(
    state: &mut Stack,
    dst: usize,
    src: usize,
    piece: &Mat,
    prows: usize,
    pcols: usize,
    pos_r: usize,
    pos_c: usize,
    rows: usize,
    cols: usize,
)
    requires
        src < stack_cells(*old(state)).len(),
        dst < stack_cells(*old(state)).len(),
        dst != src,
        grid_wf(stack_cells(*old(state))[src as int], rows as int, cols as int),
        grid_wf(stack_cells(*old(state))[dst as int], rows as int, cols as int),
        piece_wf(mat_cells(*piece)),
        prows == mat_cells(*piece).len(),
        pcols == mat_cells(*piece)[0].len(),
        pos_r + prows <= rows,
        pos_c + pcols <= cols,
    ensures
        stack_cells(*final(state)) == stack_cells(*old(state)).update(
            dst as int,
            marked(
                stack_cells(*old(state))[src as int],
                mat_cells(*piece),
                pos_r as int,
                pos_c as int,
            ),
        ),
{
    let ghost ss0 = stack_cells(*old(state));
    let ghost g = ss0[src as int];
    let ghost p = mat_cells(*piece);
    let ghost m = marked(g, p, pos_r as int, pos_c as int);
    assert(m.len() == rows as int);
    assert(forall|r: int| 0 <= r < rows ==> (#[trigger] m[r]).len() == cols as int);
    for r in 0..rows
        invariant
            stack_cells(*state).len() == ss0.len(),
            src < ss0.len(),
            dst < ss0.len(),
            dst != src,
            forall|k: int| 0 <= k < ss0.len() && k != dst ==> stack_cells(*state)[k] == ss0[k],
            g == ss0[src as int],
            p == mat_cells(*piece),
            m == marked(g, p, pos_r as int, pos_c as int),
            grid_wf(g, rows as int, cols as int),
            grid_wf(stack_cells(*state)[dst as int], rows as int, cols as int),
            piece_wf(p),
            prows == p.len(),
            pcols == p[0].len(),
            pos_r + prows <= rows,
            pos_c + pcols <= cols,
            forall|a: int, b2: int|
                0 <= a < r && 0 <= b2 < cols ==> #[trigger] stack_cells(*state)[dst as int][a][b2]
                    == m[a][b2],
    {
        for c in 0..cols
            invariant
                stack_cells(*state).len() == ss0.len(),
                src < ss0.len(),
                dst < ss0.len(),
                dst != src,
                r < rows,
                forall|k: int| 0 <= k < ss0.len() && k != dst ==> stack_cells(*state)[k] == ss0[k],
                g == ss0[src as int],
                p == mat_cells(*piece),
                m == marked(g, p, pos_r as int, pos_c as int),
                grid_wf(g, rows as int, cols as int),
                grid_wf(stack_cells(*state)[dst as int], rows as int, cols as int),
                piece_wf(p),
                prows == p.len(),
                pcols == p[0].len(),
                pos_r + prows <= rows,
                pos_c + pcols <= cols,
                forall|a: int, b2: int|
                    0 <= a < r && 0 <= b2 < cols ==> #[trigger] stack_cells(*state)[dst as int][a][b2]
                        == m[a][b2],
                forall|b2: int|
                    0 <= b2 < c ==> #[trigger] stack_cells(*state)[dst as int][r as int][b2]
                        == m[r as int][b2],
        {
            let mut v = stack_get(state, src, r, c);
            if r >= pos_r && r < pos_r + prows && c >= pos_c && c < pos_c + pcols {
                if mat_get(piece, r - pos_r, c - pos_c) {
                    v = true;
                }
            }
            assert(v == m[r as int][c as int]) by {
                assert(m[r as int][c as int] == (g[r as int][c as int] || covers(
                    p,
                    pos_r as int,
                    pos_c as int,
                    r as int,
                    c as int,
                )));
            }
            stack_set(state, dst, r, c, v);
        }
    }
    proof {
        assert(stack_cells(*state)[dst as int] =~~= m);
        assert(stack_cells(*state) =~~= ss0.update(dst as int, m));
    }
}

/// One flag per row of layer `d`: set exactly when that row is full.
fn row_flags(state: &Stack, d: usize, rows: usize, cols: usize) -> (flags: Vec<bool>)
    requires
        d < stack_cells(*state).len(),
        grid_wf(stack_cells(*state)[d as int], rows as int, cols as int),
    ensures
        flags@.len() == rows,
        forall|r: int| 0 <= r < rows ==> flags@[r] == row_full(stack_cells(*state)[d as int], r),
{
    let ghost g = stack_cells(*state)[d as int];
    let mut flags: Vec<bool> = Vec::new();
    for r in 0..rows
        invariant
            d < stack_cells(*state).len(),
            g == stack_cells(*state)[d as int],
            grid_wf(g, rows as int, cols as int),
            flags@.len() == r,
            forall|a: int| 0 <= a < r ==> flags@[a] == row_full(g, a),
    {
        let mut full = true;
        for c in 0..cols
            invariant
                d < stack_cells(*state).len(),
                g == stack_cells(*state)[d as int],
                grid_wf(g, rows as int, cols as int),
                r < rows,
                full <==> (forall|b: int| 0 <= b < c ==> #[trigger] g[r as int][b]),
        {
            if !stack_get(state, d, r, c) {
                full = false;
            }
        }
        assert(full == row_full(g, r as int));
        flags.push(full);
    }
    flags
}

/// One flag per column of layer `d`: set exactly when that column is full.
fn col_flags(state: &Stack, d: usize, rows: usize, cols: usize) -> (flags: Vec<bool>)
    requires
        d < stack_cells(*state).len(),
        grid_wf(stack_cells(*state)[d as int], rows as int, cols as int),
    ensures
        flags@.len() == cols,
        forall|c: int| 0 <= c < cols ==> flags@[c] == col_full(stack_cells(*state)[d as int], c),
{
    let ghost g = stack_cells(*state)[d as int];
    let mut flags: Vec<bool> = Vec::new();
    for c in 0..cols
        invariant
            d < stack_cells(*state).len(),
            g == stack_cells(*state)[d as int],
            grid_wf(g, rows as int, cols as int),
            flags@.len() == c,
            forall|b: int| 0 <= b < c ==> flags@[b] == col_full(g, b),
    {
        let mut full = true;
        for r in 0..rows
            invariant
                d < stack_cells(*state).len(),
                g == stack_cells(*state)[d as int],
                grid_wf(g, rows as int, cols as int),
                c < cols,
                full <==> (forall|a: int| 0 <= a < r ==> #[trigger] g[a][c as int]),
        {
            if !stack_get(state, d, r, c) {
                full = false;
            }
        }
        assert(full == col_full(g, c as int));
        flags.push(full);
    }
    flags
}

/// Resets every flagged row of layer `d` and returns how many were flagged.
fn clear_flagged_rows(state: &mut Stack, d: usize, flags: &Vec<bool>, rows: usize, cols: usize) -> (k:
    usize)
    requires
        d < stack_cells(*old(state)).len(),
        grid_wf(stack_cells(*old(state))[d as int], rows as int, cols as int),
        flags@.len() == rows,
    ensures
        stack_cells(*final(state)) == stack_cells(*old(state)).update(
            d as int,
            rows_zeroed(stack_cells(*old(state))[d as int], flags@),
        ),
        k == count_true(flags@, rows as int),
        k <= rows,
{
    let ghost ss0 = stack_cells(*old(state));
    let ghost g0 = ss0[d as int];
    let mut k: usize = 0;
    for r in 0..rows
        invariant
            stack_cells(*state).len() == ss0.len(),
            d < ss0.len(),
            forall|x: int| 0 <= x < ss0.len() && x != d ==> #[trigger] stack_cells(*state)[x]
                == ss0[x],
            g0 == ss0[d as int],
            grid_wf(g0, rows as int, cols as int),
            grid_wf(stack_cells(*state)[d as int], rows as int, cols as int),
            flags@.len() == rows,
            k == count_true(flags@, r as int),
            k <= r,
            forall|a: int, b: int|
                0 <= a < rows && 0 <= b < cols ==> #[trigger] stack_cells(*state)[d as int][a][b]
                    == (g0[a][b] && !(a < r && flags@[a])),
    {
        if flags[r] {
            for c in 0..cols
                invariant
                    stack_cells(*state).len() == ss0.len(),
                    d < ss0.len(),
                    r < rows,
                    flags@[r as int],
                    forall|x: int| 0 <= x < ss0.len() && x != d ==> #[trigger] stack_cells(
                        *state,
                    )[x] == ss0[x],
                    g0 == ss0[d as int],
                    grid_wf(g0, rows as int, cols as int),
                    grid_wf(stack_cells(*state)[d as int], rows as int, cols as int),
                    flags@.len() == rows,
                    forall|a: int, b: int|
                        0 <= a < rows && 0 <= b < cols && a != r ==> #[trigger] stack_cells(
                            *state,
                        )[d as int][a][b] == (g0[a][b] && !(a < r && flags@[a])),
                    forall|b: int|
                        0 <= b < cols ==> #[trigger] stack_cells(*state)[d as int][r as int][b]
                            == (if b < c {
                            false
                        } else {
                            g0[r as int][b]
                        }),
            {
                stack_set(state, d, r, c, false);
            }
            k += 1;
        }
        proof {
            assert(count_true(flags@, r + 1) == count_true(flags@, r as int) + if flags@[r as int] {
                1int
            } else {
                0int
            });
        }
    }
    proof {
        assert(stack_cells(*state)[d as int] =~~= rows_zeroed(g0, flags@));
        assert(stack_cells(*state) =~~= ss0.update(d as int, rows_zeroed(g0, flags@)));
    }
    k
}

/// Resets every flagged column of layer `d` and returns how many were
/// flagged.
fn clear_flagged_cols(state: &mut Stack, d: usize, flags: &Vec<bool>, rows: usize, cols: usize) -> (k:
    usize)
    requires
        d < stack_cells(*old(state)).len(),
        grid_wf(stack_cells(*old(state))[d as int], rows as int, cols as int),
        flags@.len() == cols,
    ensures
        stack_cells(*final(state)) == stack_cells(*old(state)).update(
            d as int,
            cols_zeroed(stack_cells(*old(state))[d as int], flags@),
        ),
        k == count_true(flags@, cols as int),
        k <= cols,
{
    let ghost ss0 = stack_cells(*old(state));
    let ghost g0 = ss0[d as int];
    let mut k: usize = 0;
    for c in 0..cols
        invariant
            stack_cells(*state).len() == ss0.len(),
            d < ss0.len(),
            forall|x: int| 0 <= x < ss0.len() && x != d ==> #[trigger] stack_cells(*state)[x]
                == ss0[x],
            g0 == ss0[d as int],
            grid_wf(g0, rows as int, cols as int),
            grid_wf(stack_cells(*state)[d as int], rows as int, cols as int),
            flags@.len() == cols,
            k == count_true(flags@, c as int),
            k <= c,
            forall|a: int, b: int|
                0 <= a < rows && 0 <= b < cols ==> #[trigger] stack_cells(*state)[d as int][a][b]
                    == (g0[a][b] && !(b < c && flags@[b])),
    {
        if flags[c] {
            for r in 0..rows
                invariant
                    stack_cells(*state).len() == ss0.len(),
                    d < ss0.len(),
                    c < cols,
                    flags@[c as int],
                    forall|x: int| 0 <= x < ss0.len() && x != d ==> #[trigger] stack_cells(
                        *state,
                    )[x] == ss0[x],
                    g0 == ss0[d as int],
                    grid_wf(g0, rows as int, cols as int),
                    grid_wf(stack_cells(*state)[d as int], rows as int, cols as int),
                    flags@.len() == cols,
                    forall|a: int, b: int|
                        0 <= a < rows && 0 <= b < cols && b != c ==> #[trigger] stack_cells(
                            *state,
                        )[d as int][a][b] == (g0[a][b] && !(b < c && flags@[b])),
                    forall|a: int|
                        0 <= a < rows ==> #[trigger] stack_cells(*state)[d as int][a][c as int]
                            == (if a < r {
                            false
                        } else {
                            g0[a][c as int]
                        }),
            {
                stack_set(state, d, r, c, false);
            }
            k += 1;
        }
        proof {
            assert(count_true(flags@, c + 1) == count_true(flags@, c as int) + if flags@[c as int] {
                1int
            } else {
                0int
            });
        }
    }
    proof {
        assert(stack_cells(*state)[d as int] =~~= cols_zeroed(g0, flags@));
        assert(stack_cells(*state) =~~= ss0.update(d as int, cols_zeroed(g0, flags@)));
    }
    k
}

/// The value cell `(a, b)` holds once every full chunk lexicographically
/// before block `(bi, bj)` has been zeroed, fullness judged against `g0`.
spec fn chunk_pass_cell(
    g0: Seq<Seq<bool>>,
    cr: int,
    cc: int,
    bi: int,
    bj: int,
    a: int,
    b: int,
) -> bool {
    g0[a][b] && !(chunk_full(g0, cr, cc, a / cr, b / cc) && (a / cr < bi || (a / cr == bi && b / cc
        < bj)))
}

/// Zeroes every full `cr` x `ccs` chunk of layer `d` (fullness judged against
/// the layer as it stood on entry) and returns how many chunks were full.
fn clear_full_chunks(
    state: &mut Stack,
    d: usize,
    cr: usize,
    ccs: usize,
    rows: usize,
    cols: usize,
) -> (k: usize)
    requires
        d < stack_cells(*old(state)).len(),
        grid_wf(stack_cells(*old(state))[d as int], rows as int, cols as int),
        1 <= cr <= rows,
        1 <= ccs <= cols,
        rows % cr == 0,
        cols % ccs == 0,
        rows * cols <= usize::MAX / 4,
    ensures
        stack_cells(*final(state)) == stack_cells(*old(state)).update(
            d as int,
            chunks_zeroed(stack_cells(*old(state))[d as int], cr as int, ccs as int),
        ),
        k == count_full_chunks(
            stack_cells(*old(state))[d as int],
            cr as int,
            ccs as int,
            rows as int / cr as int,
            cols as int / ccs as int,
        ),
        k <= rows * cols,
{
    let ghost ss0 = stack_cells(*old(state));
    let ghost g0 = ss0[d as int];
    let brows = rows / cr;
    let bcols = cols / ccs;
    proof {
        vstd::arithmetic::div_mod::lemma_fundamental_div_mod(rows as int, cr as int);
        vstd::arithmetic::div_mod::lemma_fundamental_div_mod(cols as int, ccs as int);
        assert(rows as int == cr as int * brows as int);
        assert(cols as int == ccs as int * bcols as int);
        assert(brows <= rows && bcols <= cols) by (nonlinear_arith)
            requires
                rows as int == cr as int * brows as int,
                cols as int == ccs as int * bcols as int,
                cr >= 1,
                ccs >= 1,
                rows >= 1,
                cols >= 1,
                brows == rows / cr,
                bcols == cols / ccs,
                brows >= 0,
                bcols >= 0,
        ;
        assert(brows * bcols <= rows * cols) by (nonlinear_arith)
            requires
                0 <= brows <= rows,
                0 <= bcols <= cols,
        ;
    }
    let mut k: usize = 0;
    for bi in 0..brows
        invariant
            stack_cells(*state).len() == ss0.len(),
            d < ss0.len(),
            forall|x: int| 0 <= x < ss0.len() && x != d ==> #[trigger] stack_cells(*state)[x]
                == ss0[x],
            g0 == ss0[d as int],
            grid_wf(g0, rows as int, cols as int),
            grid_wf(stack_cells(*state)[d as int], rows as int, cols as int),
            1 <= cr <= rows,
            1 <= ccs <= cols,
            rows % cr == 0,
            cols % ccs == 0,
            rows * cols <= usize::MAX / 4,
            brows == rows as int / cr as int,
            bcols == cols as int / ccs as int,
            rows as int == cr as int * brows as int,
            cols as int == ccs as int * bcols as int,
            brows * bcols <= rows * cols,
            k == count_full_chunks(g0, cr as int, ccs as int, bi as int, bcols as int),
            forall|a: int, b: int|
                0 <= a < rows && 0 <= b < cols ==> #[trigger] stack_cells(*state)[d as int][a][b]
                    == chunk_pass_cell(g0, cr as int, ccs as int, bi as int, 0, a, b),
    {
        for bj in 0..bcols
            invariant
                stack_cells(*state).len() == ss0.len(),
                d < ss0.len(),
                forall|x: int| 0 <= x < ss0.len() && x != d ==> #[trigger] stack_cells(*state)[x]
                    == ss0[x],
                g0 == ss0[d as int],
                grid_wf(g0, rows as int, cols as int),
                grid_wf(stack_cells(*state)[d as int], rows as int, cols as int),
                1 <= cr <= rows,
                1 <= ccs <= cols,
                rows % cr == 0,
                cols % ccs == 0,
                rows * cols <= usize::MAX / 4,
                bi < brows,
                brows == rows as int / cr as int,
                bcols == cols as int / ccs as int,
                rows as int == cr as int * brows as int,
                cols as int == ccs as int * bcols as int,
                brows * bcols <= rows * cols,
                k == count_full_chunks(g0, cr as int, ccs as int, bi as int, bcols as int)
                    + count_full_chunks_in_band(g0, cr as int, ccs as int, bi as int, bj as int),
                forall|a: int, b: int|
                    0 <= a < rows && 0 <= b < cols ==> #[trigger] stack_cells(*state)[d as int][a][b]
                        == chunk_pass_cell(g0, cr as int, ccs as int, bi as int, bj as int, a, b),
        {
            proof {
                assert(bi * cr + cr <= rows && bj * ccs + ccs <= cols) by (nonlinear_arith)
                    requires
                        0 <= bi < brows,
                        0 <= bj < bcols,
                        rows as int == cr as int * brows as int,
                        cols as int == ccs as int * bcols as int,
                        cr >= 1,
                        ccs >= 1,
                ;
            }
            let base_r = bi * cr;
            let base_c = bj * ccs;
            // Is chunk (bi, bj) entirely occupied in the entry-time layer?
            let mut full = true;
            for u in 0..cr
                invariant
                    stack_cells(*state).len() == ss0.len(),
                    d < ss0.len(),
                    g0 == ss0[d as int],
                    grid_wf(g0, rows as int, cols as int),
                    grid_wf(stack_cells(*state)[d as int], rows as int, cols as int),
                    1 <= cr,
                    1 <= ccs,
                    0 <= bi as int,
                    0 <= bj as int,
                    base_r == bi * cr,
                    base_c == bj * ccs,
                    base_r + cr <= rows,
                    base_c + ccs <= cols,
                    forall|a: int, b: int|
                        0 <= a < rows && 0 <= b < cols ==> #[trigger] stack_cells(
                            *state,
                        )[d as int][a][b] == chunk_pass_cell(
                            g0,
                            cr as int,
                            ccs as int,
                            bi as int,
                            bj as int,
                            a,
                            b,
                        ),
                    full <==> (forall|a: int, b: int|
                        base_r <= a < base_r + u && base_c <= b < base_c + ccs
                            ==> #[trigger] g0[a][b]),
            {
                for v in 0..ccs
                    invariant
                        stack_cells(*state).len() == ss0.len(),
                        d < ss0.len(),
                        g0 == ss0[d as int],
                        grid_wf(g0, rows as int, cols as int),
                        grid_wf(stack_cells(*state)[d as int], rows as int, cols as int),
                        1 <= cr,
                        1 <= ccs,
                        0 <= bi as int,
                        0 <= bj as int,
                        u < cr,
                        base_r == bi * cr,
                        base_c == bj * ccs,
                        base_r + cr <= rows,
                        base_c + ccs <= cols,
                        forall|a: int, b: int|
                            0 <= a < rows && 0 <= b < cols ==> #[trigger] stack_cells(
                                *state,
                            )[d as int][a][b] == chunk_pass_cell(
                                g0,
                                cr as int,
                                ccs as int,
                                bi as int,
                                bj as int,
                                a,
                                b,
                            ),
                        full <==> ((forall|a: int, b: int|
                            base_r <= a < base_r + u && base_c <= b < base_c + ccs
                                ==> #[trigger] g0[a][b]) && (forall|b: int|
                            base_c <= b < base_c + v ==> #[trigger] g0[base_r + u][b])),
                {
                    let cell = stack_get(state, d, base_r + u, base_c + v);
                    proof {
                        lemma_in_block((base_r + u) as int, cr as int, bi as int);
                        lemma_in_block((base_c + v) as int, ccs as int, bj as int);
                        assert(cell == g0[base_r + u][base_c + v]);
                    }
                    if !cell {
                        full = false;
                    }
                }
            }
            assert(full == chunk_full(g0, cr as int, ccs as int, bi as int, bj as int));
            if full {
                proof {
                    lemma_count_full_chunks_bound(g0, cr as int, ccs as int, bi as int, bcols as int);
                    lemma_count_band_bound(g0, cr as int, ccs as int, bi as int, bj as int);
                    assert(bi * bcols + bj + 1 <= brows * bcols) by (nonlinear_arith)
                        requires
                            0 <= bi < brows,
                            0 <= bj < bcols,
                    ;
                }
                k += 1;
                proof {
                    assert forall|a: int, b: int|
                        base_r <= a < base_r + cr && base_c <= b < base_c
                            + ccs implies #[trigger] stack_cells(*state)[d as int][a][b]
                        == g0[a][b] by {
                        lemma_in_block(a, cr as int, bi as int);
                        lemma_in_block(b, ccs as int, bj as int);
                    }
                }
                for u in 0..cr
                    invariant
                        stack_cells(*state).len() == ss0.len(),
                        d < ss0.len(),
                        forall|x: int| 0 <= x < ss0.len() && x != d ==> #[trigger] stack_cells(
                            *state,
                        )[x] == ss0[x],
                        g0 == ss0[d as int],
                        grid_wf(g0, rows as int, cols as int),
                        grid_wf(stack_cells(*state)[d as int], rows as int, cols as int),
                        1 <= cr,
                        1 <= ccs,
                        0 <= bi as int,
                        0 <= bj as int,
                        base_r == bi * cr,
                        base_c == bj * ccs,
                        base_r + cr <= rows,
                        base_c + ccs <= cols,
                        forall|a: int, b: int|
                            0 <= a < rows && 0 <= b < cols && !(base_r <= a < base_r + cr && base_c
                                <= b < base_c + ccs) ==> #[trigger] stack_cells(
                                *state,
                            )[d as int][a][b] == chunk_pass_cell(
                                g0,
                                cr as int,
                                ccs as int,
                                bi as int,
                                bj as int,
                                a,
                                b,
                            ),
                        forall|a: int, b: int|
                            base_r <= a < base_r + cr && base_c <= b < base_c + ccs
                                ==> #[trigger] stack_cells(*state)[d as int][a][b] == (if a < base_r
                                + u {
                                false
                            } else {
                                g0[a][b]
                            }),
                {
                    for v in 0..ccs
                        invariant
                            stack_cells(*state).len() == ss0.len(),
                            d < ss0.len(),
                            forall|x: int| 0 <= x < ss0.len() && x != d ==> #[trigger] stack_cells(
                                *state,
                            )[x] == ss0[x],
                            g0 == ss0[d as int],
                            grid_wf(g0, rows as int, cols as int),
                            grid_wf(stack_cells(*state)[d as int], rows as int, cols as int),
                            1 <= cr,
                            1 <= ccs,
                            0 <= bi as int,
                            0 <= bj as int,
                            u < cr,
                            base_r == bi * cr,
                            base_c == bj * ccs,
                            base_r + cr <= rows,
                            base_c + ccs <= cols,
                            forall|a: int, b: int|
                                0 <= a < rows && 0 <= b < cols && !(base_r <= a < base_r + cr
                                    && base_c <= b < base_c + ccs) ==> #[trigger] stack_cells(
                                    *state,
                                )[d as int][a][b] == chunk_pass_cell(
                                    g0,
                                    cr as int,
                                    ccs as int,
                                    bi as int,
                                    bj as int,
                                    a,
                                    b,
                                ),
                            forall|a: int, b: int|
                                base_r <= a < base_r + cr && base_c <= b < base_c + ccs
                                    ==> #[trigger] stack_cells(*state)[d as int][a][b] == (if a
                                    < base_r + u || (a == base_r + u && b < base_c + v) {
                                    false
                                } else {
                                    g0[a][b]
                                }),
                    {
                        stack_set(state, d, base_r + u, base_c + v, false);
                    }
                }
            }
            // Re-establish the pointwise picture for the next block.
            proof {
                assert forall|a: int, b: int| 0 <= a < rows && 0 <= b < cols implies #[trigger] stack_cells(
                    *state,
                )[d as int][a][b] == chunk_pass_cell(
                    g0,
                    cr as int,
                    ccs as int,
                    bi as int,
                    bj + 1,
                    a,
                    b,
                ) by {
                    lemma_block_of(a, cr as int);
                    lemma_block_of(b, ccs as int);
                    if base_r <= a < base_r + cr && base_c <= b < base_c + ccs {
                        lemma_in_block(a, cr as int, bi as int);
                        lemma_in_block(b, ccs as int, bj as int);
                    }
                }
            }
        }
        // A full band has been processed: blocks before (bi + 1, 0) are
        // exactly the blocks before (bi, bcols).
        proof {
            assert forall|a: int, b: int| 0 <= a < rows && 0 <= b < cols implies #[trigger] stack_cells(
                *state,
            )[d as int][a][b] == chunk_pass_cell(
                g0,
                cr as int,
                ccs as int,
                bi + 1,
                0,
                a,
                b,
            ) by {
                lemma_block_of(a, cr as int);
                lemma_block_index_bound(b, ccs as int, cols as int);
            }
        }
    }
    proof {
        assert forall|a: int, b: int| 0 <= a < rows && 0 <= b < cols implies #[trigger] stack_cells(
            *state,
        )[d as int][a][b] == (g0[a][b] && !chunk_full(
            g0,
            cr as int,
            ccs as int,
            a / (cr as int),
            b / (ccs as int),
        )) by {
            lemma_block_index_bound(a, cr as int, rows as int);
            lemma_block_of(b, ccs as int);
        }
        assert(stack_cells(*state)[d as int] =~~= chunks_zeroed(g0, cr as int, ccs as int));
        assert(stack_cells(*state) =~~= ss0.update(
            d as int,
            chunks_zeroed(g0, cr as int, ccs as int),
        ));
        lemma_count_full_chunks_bound(g0, cr as int, ccs as int, brows as int, bcols as int);
    }
    k
}

} // verus!
