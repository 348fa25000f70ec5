//! Exhaustive solver core for a block-packing puzzle: place a fixed set of
//! boolean pieces onto a grid, one at a time in some order, clearing full
//! rows, full columns and (optionally) full rectangular chunks after each
//! placement, and retain the placement sequence with the most clears.

use vstd::prelude::*;

pub mod arrays;
pub mod grid;
pub mod perm;
pub mod search;
pub mod sim;

verus! {

/// Per-piece placement range: for a piece of size `r` x `c` on a `rows` x
/// `cols` grid, `Available(stride, len)` holds the row stride
/// (`cols - c + 1`) used to decode a linear position index into an origin
/// `(row, col)`, and the number of valid origins
/// (`(rows - r + 1) * (cols - c + 1)`).
#[derive(Copy, Clone, Debug)]
pub struct Available(pub usize, pub usize);

impl Available {
    pub fn new(rows: usize, cols: usize, r: usize, c: usize) -> (a: Self)
        requires
            1 <= r <= rows,
            1 <= c <= cols,
            rows * cols <= usize::MAX,
        ensures
            a.0 == cols - c + 1,
            a.1 == (rows - r + 1) * (cols - c + 1),
    {
        let avail_r = rows - r + 1;
        let avail_c = cols - c + 1;
        proof {
            assert(avail_r * avail_c <= rows * cols) by (nonlinear_arith)
                requires
                    1 <= avail_r <= rows,
                    1 <= avail_c <= cols,
            ;
        }
        let avail_len = avail_r * avail_c;
        Available(avail_c, avail_len)
    }
}

} // verus!
