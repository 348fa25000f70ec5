// Grid simulation and end-to-end search behavior.

use block_blast::arrays::{
    mat_dim, mat_get, mat_new, mat_set, stack_clone, stack_get, stack_new, stack_set, Mat, Stack,
};
use block_blast::search::{solve, SolutionTracker};
use block_blast::sim::{Chunk, GridSimulator};
use block_blast::Available;

/// Builds a piece/grid matrix from a row-by-row description.
fn mk_mat(cells: &[&[bool]]) -> Mat {
    let rows = cells.len();
    let cols = cells[0].len();
    let mut m = mat_new(rows, cols, false);
    for (i, row) in cells.iter().enumerate() {
        assert_eq!(row.len(), cols);
        for (j, &v) in row.iter().enumerate() {
            if v {
                mat_set(&mut m, i, j, true);
            }
        }
    }
    m
}

/// Builds a snapshot stack with `depths` layers whose layer 0 is `grid`.
fn mk_stack(depths: usize, grid: &[&[bool]]) -> Stack {
    let rows = grid.len();
    let cols = grid[0].len();
    let mut s = stack_new(depths, rows, cols, false);
    for (i, row) in grid.iter().enumerate() {
        for (j, &v) in row.iter().enumerate() {
            if v {
                stack_set(&mut s, 0, i, j, true);
            }
        }
    }
    s
}

fn layer(s: &Stack, d: usize, rows: usize, cols: usize) -> Vec<Vec<bool>> {
    (0..rows).map(|i| (0..cols).map(|j| stack_get(s, d, i, j)).collect()).collect()
}

fn avail_for(rows: usize, cols: usize, piece: &Mat) -> Available {
    let (r, c) = mat_dim(piece);
    Available::new(rows, cols, r, c)
}

#[test]
fn available_counts_origins() {
    let a = Available::new(4, 4, 2, 3);
    assert_eq!(a.0, 2); // row stride: 4 - 3 + 1
    assert_eq!(a.1, 6); // (4 - 2 + 1) * (4 - 3 + 1)
}

#[test]
fn mat_wrappers_store_and_report_cells() {
    let mut m = mat_new(2, 3, false);
    assert_eq!(mat_dim(&m), (2, 3));
    assert!(!mat_get(&m, 1, 2));
    mat_set(&mut m, 1, 2, true);
    assert!(mat_get(&m, 1, 2));
    assert!(!mat_get(&m, 0, 2));
    mat_set(&mut m, 1, 2, false);
    assert!(!mat_get(&m, 1, 2));
}

#[test]
fn stack_wrappers_store_and_copy_cells() {
    let mut s = stack_new(2, 2, 2, false);
    stack_set(&mut s, 1, 0, 1, true);
    assert!(stack_get(&s, 1, 0, 1));
    assert!(!stack_get(&s, 0, 0, 1));
    let snapshot = stack_clone(&s);
    stack_set(&mut s, 1, 0, 1, false);
    assert!(snapshot_cells_equal(&snapshot, 1, 0, 1, true));
    assert!(!stack_get(&s, 1, 0, 1));
}

fn snapshot_cells_equal(s: &Stack, d: usize, i: usize, j: usize, expect: bool) -> bool {
    stack_get(s, d, i, j) == expect
}

#[test]
fn place_rejects_overlap_without_mutation() {
    let sim = GridSimulator { rows: 2, cols: 2, chunk: None };
    let grid: &[&[bool]] = &[&[true, false], &[false, false]];
    let mut s = mk_stack(2, grid);
    let piece = mk_mat(&[&[true]]);
    // scribble on layer 1 so mutation would be visible
    stack_set(&mut s, 1, 1, 1, true);
    let before0 = layer(&s, 0, 2, 2);
    let before1 = layer(&s, 1, 2, 2);
    let res = sim.place(0, &piece, 0, 0, &mut s);
    assert_eq!(res, None);
    assert_eq!(layer(&s, 0, 2, 2), before0);
    assert_eq!(layer(&s, 1, 2, 2), before1);
}

#[test]
fn place_accepts_free_cell() {
    let sim = GridSimulator { rows: 2, cols: 2, chunk: None };
    let grid: &[&[bool]] = &[&[true, false], &[false, false]];
    let mut s = mk_stack(2, grid);
    let piece = mk_mat(&[&[true]]);
    let res = sim.place(0, &piece, 1, 1, &mut s);
    assert_eq!(res, Some(0));
    // layer 1 is layer 0 plus the piece; nothing was full, nothing cleared
    assert_eq!(
        layer(&s, 1, 2, 2),
        vec![vec![true, false], vec![false, true]]
    );
    // layer 0 untouched
    assert_eq!(layer(&s, 0, 2, 2), vec![vec![true, false], vec![false, false]]);
}

#[test]
fn completed_row_clears_and_rest_is_unchanged() {
    // Only row 0 completes: every other row and every column keeps a hole.
    let sim = GridSimulator { rows: 4, cols: 4, chunk: None };
    let grid: &[&[bool]] = &[
        &[false, false, false, false],
        &[false, true, true, false],
        &[true, false, true, true],
        &[true, true, false, true],
    ];
    let mut s = mk_stack(2, grid);
    let piece = mk_mat(&[&[true, true, true, true]]);
    let res = sim.place(0, &piece, 0, 0, &mut s);
    assert_eq!(res, Some(1));
    let expected: Vec<Vec<bool>> = vec![
        vec![false, false, false, false], // the cleared row
        vec![false, true, true, false],
        vec![true, false, true, true],
        vec![true, true, false, true],
    ];
    assert_eq!(layer(&s, 1, 4, 4), expected);
}

#[test]
fn row_col_and_chunk_count_separately() {
    // One placement completes row 1, column 1 and the 2x2 chunk at (0, 0):
    // three clears, overlapping cells counted once per category.
    let sim = GridSimulator { rows: 4, cols: 4, chunk: Some(Chunk(2, 2)) };
    let grid: &[&[bool]] = &[
        &[true, true, false, false],
        &[true, false, true, true],
        &[false, true, false, false],
        &[false, true, false, false],
    ];
    let mut s = mk_stack(2, grid);
    let piece = mk_mat(&[&[true]]);
    let res = sim.place(0, &piece, 1, 1, &mut s);
    assert_eq!(res, Some(3));
    // Everything occupied lay in the full row, column or chunk, so the next
    // snapshot is empty.
    assert_eq!(layer(&s, 1, 4, 4), vec![vec![false; 4]; 4]);
}

#[test]
fn chunk_mode_counts_chunk_even_without_lines() {
    let sim = GridSimulator { rows: 4, cols: 4, chunk: Some(Chunk(2, 2)) };
    let grid: &[&[bool]] = &[
        &[true, true, false, false],
        &[true, false, false, false],
        &[false; 4],
        &[false; 4],
    ];
    let mut s = mk_stack(2, grid);
    let piece = mk_mat(&[&[true]]);
    let res = sim.place(0, &piece, 1, 1, &mut s);
    assert_eq!(res, Some(1));
    assert_eq!(layer(&s, 1, 4, 4), vec![vec![false; 4]; 4]);
}

#[test]
fn tracker_best_is_monotonic_and_keeps_earliest_tie() {
    let positions_a = vec![0, 1];
    let positions_b = vec![2, 3];
    let order = vec![0, 1];
    let clears_a = vec![1, 0];
    let clears_b = vec![0, 3];
    let s = stack_new(3, 2, 2, false);
    let mut tracker = SolutionTracker::new(&positions_a, &order, &clears_a, &s);
    assert!(!tracker.solvable);
    assert_eq!(tracker.max_clears, 0);

    tracker.report(1, &positions_a, &order, &clears_a, &s);
    assert!(tracker.solvable);
    assert_eq!(tracker.max_clears, 1);
    assert_eq!(tracker.place_order, positions_a);

    tracker.report(3, &positions_b, &order, &clears_b, &s);
    assert_eq!(tracker.max_clears, 3);
    assert_eq!(tracker.place_order, positions_b);

    // A later, equal total must not displace the retained sequence.
    tracker.report(3, &positions_a, &order, &clears_a, &s);
    assert_eq!(tracker.max_clears, 3);
    assert_eq!(tracker.place_order, positions_b);

    // A worse total changes nothing either.
    tracker.report(2, &positions_a, &order, &clears_a, &s);
    assert_eq!(tracker.max_clears, 3);
    assert_eq!(tracker.place_order, positions_b);
}

fn run_solve(
    rows: usize,
    cols: usize,
    grid: &[&[bool]],
    piece_cells: &[&[&[bool]]],
    sjt: bool,
    chunk: Option<Chunk>,
) -> (Option<usize>, Vec<usize>, Vec<usize>, Vec<usize>, Stack) {
    let n = piece_cells.len();
    let sim = GridSimulator { rows, cols, chunk };
    let pieces: Vec<Mat> = piece_cells.iter().map(|p| mk_mat(p)).collect();
    let piece_avail: Vec<Available> =
        pieces.iter().map(|p| avail_for(rows, cols, p)).collect();
    let mut place_order = vec![0; n];
    let mut piece_order = vec![0; n];
    let mut lines_cleared = vec![0; n];
    let mut state = mk_stack(n + 1, grid);
    let res = solve(
        &sim,
        &mut place_order,
        &mut piece_order,
        &mut lines_cleared,
        &pieces,
        &piece_avail,
        &mut state,
        sjt,
    );
    (res, place_order, piece_order, lines_cleared, state)
}

#[test]
fn two_pieces_fill_and_clear_two_by_two() {
    let grid: &[&[bool]] = &[&[false, false], &[false, false]];
    let horizontal: &[&[bool]] = &[&[true, true]];
    let vertical: &[&[bool]] = &[&[true], &[true]];
    for sjt in [false, true] {
        let (res, _place, piece_order, lines_cleared, _state) =
            run_solve(2, 2, grid, &[horizontal, vertical], sjt, None);
        // Solvable: some ordering places both without overlap. The best
        // sequence clears one line per placement.
        assert_eq!(res, Some(2));
        assert_eq!(lines_cleared.iter().sum::<usize>(), 2);
        let mut sorted = piece_order.clone();
        sorted.sort();
        assert_eq!(sorted, vec![0, 1]);
    }
}

#[test]
fn blocked_cell_makes_instance_unsolvable() {
    // The single cell is already occupied, so the one piece never fits and
    // no complete sequence exists.
    let grid: &[&[bool]] = &[&[true]];
    let piece: &[&[bool]] = &[&[true]];
    for sjt in [false, true] {
        let (res, place_order, piece_order, lines_cleared, state) =
            run_solve(1, 1, grid, &[piece], sjt, None);
        assert_eq!(res, None);
        // The out-parameters are untouched on the unsolvable path.
        assert_eq!(place_order, vec![0]);
        assert_eq!(piece_order, vec![0]);
        assert_eq!(lines_cleared, vec![0]);
        assert!(stack_get(&state, 0, 0, 0));
    }
}

#[test]
fn clearing_frees_the_single_cell_for_the_second_piece() {
    // Placing a 1x1 piece on an empty 1x1 grid completes its row and its
    // column; the clearing pass empties the cell again, so a second piece
    // still fits and the instance is solvable.
    let grid: &[&[bool]] = &[&[false]];
    let piece: &[&[bool]] = &[&[true]];
    let (res, _place, _order, lines_cleared, _state) =
        run_solve(1, 1, grid, &[piece, piece], false, None);
    assert_eq!(res, Some(4));
    assert_eq!(lines_cleared, vec![2, 2]);
}

#[test]
fn solver_snapshots_replay_the_best_sequence() {
    let grid: &[&[bool]] = &[&[false, false], &[false, false]];
    let horizontal: &[&[bool]] = &[&[true, true]];
    let vertical: &[&[bool]] = &[&[true], &[true]];
    let (res, place_order, piece_order, lines_cleared, state) =
        run_solve(2, 2, grid, &[horizontal, vertical], false, None);
    assert_eq!(res, Some(2));
    // Snapshot 0 is the initial (empty) board.
    assert_eq!(layer(&state, 0, 2, 2), vec![vec![false, false], vec![false, false]]);
    // Each later snapshot follows by replaying the recorded placement.
    let pieces = [mk_mat(horizontal), mk_mat(vertical)];
    let sim = GridSimulator { rows: 2, cols: 2, chunk: None };
    let mut replay = stack_clone(&state);
    for d in 0..2 {
        let idx = piece_order[d];
        let a = avail_for(2, 2, &pieces[idx]);
        let row = place_order[d] / a.0;
        let col = place_order[d] % a.0;
        let clears = sim.place(d, &pieces[idx], row, col, &mut replay);
        assert_eq!(clears, Some(lines_cleared[d]));
        assert_eq!(layer(&replay, d + 1, 2, 2), layer(&state, d + 1, 2, 2));
    }
}

#[test]
fn whole_grid_chunk_counts_rows_cols_and_chunk() {
    // A 2x2 piece fills the whole 2x2 grid: two rows, two columns and the
    // single 2x2 chunk are all full at once, so five clears are scored.
    let sim = GridSimulator { rows: 2, cols: 2, chunk: Some(Chunk(2, 2)) };
    let grid: &[&[bool]] = &[&[false, false], &[false, false]];
    let mut s = mk_stack(2, grid);
    let piece = mk_mat(&[&[true, true], &[true, true]]);
    let res = sim.place(0, &piece, 0, 0, &mut s);
    assert_eq!(res, Some(5));
    assert_eq!(layer(&s, 1, 2, 2), vec![vec![false, false], vec![false, false]]);
}

#[test]
fn solve_in_chunk_mode() {
    let grid: &[&[bool]] = &[&[false, false], &[false, false]];
    let square: &[&[bool]] = &[&[true, true], &[true, true]];
    let (res, _place, _order, lines_cleared, _state) =
        run_solve(2, 2, grid, &[square], false, Some(Chunk(2, 2)));
    assert_eq!(res, Some(5));
    assert_eq!(lines_cleared, vec![5]);
}

#[test]
fn solvable_only_when_order_is_reversed() {
    // The 1x2 piece fits nowhere on the initial board, so the identity
    // order fails; placing the 1x1 piece first fills the board (4 clears),
    // and the 1x2 piece then completes a row of the emptied board.
    let grid: &[&[bool]] = &[&[true, true], &[true, false]];
    let wide: &[&[bool]] = &[&[true, true]];
    let single: &[&[bool]] = &[&[true]];
    for sjt in [false, true] {
        let (res, _place, piece_order, lines_cleared, _state) =
            run_solve(2, 2, grid, &[wide, single], sjt, None);
        assert_eq!(res, Some(5));
        assert_eq!(piece_order, vec![1, 0]);
        assert_eq!(lines_cleared, vec![4, 1]);
    }
}
