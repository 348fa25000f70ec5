//! The placement search: exhaustive backtracking over positions for one
//! fixed piece order, and the tracker that retains the best complete
//! placement sequence seen across all orders.

use vstd::prelude::*;

use crate::arrays::{mat_cells, stack_cells, stack_clone, Mat, Stack};
use crate::grid::{after_place, overlaps, piece_wf, place_clears, stack_wf};
use crate::perm::is_perm_of;
use crate::sim::GridSimulator;
use crate::Available;

verus! {

/// `av` holds the placement range data that `Available::new` computes for a
/// piece of shape `p` on a `rows` x `cols` grid.
pub open spec fn avail_ok(av: Available, p: Seq<Seq<bool>>, rows: int, cols: int) -> bool {
    &&& piece_wf(p)
    &&& p.len() <= rows
    &&& p[0].len() <= cols
    &&& av.0 == cols - p[0].len() + 1
    &&& av.1 == (rows - p.len() + 1) * (cols - p[0].len() + 1)
}

/// The search context is consistent: one placement range per piece, each
/// computed from that piece's shape.
pub open spec fn ctx_ok(sim: GridSimulator, pieces: Seq<Mat>, avail: Seq<Available>) -> bool {
    &&& avail.len() == pieces.len()
    &&& forall|i: int|
        0 <= i < pieces.len() ==> avail_ok(
            #[trigger] avail[i],
            mat_cells(pieces[i]),
            sim.rows as int,
            sim.cols as int,
        )
}

/// One valid placement step: the piece, placed at the origin that linear
/// index `pos` (stride `stride`) decodes to, does not overlap `g1`, turns
/// `g1` into `g2` after clearing, and scores `cl` clears.
pub open spec fn step_ok(
    sim: GridSimulator,
    g1: Seq<Seq<bool>>,
    g2: Seq<Seq<bool>>,
    p: Seq<Seq<bool>>,
    pos: int,
    stride: int,
    cl: int,
) -> bool {
    &&& !overlaps(g1, p, pos / stride, pos % stride)
    &&& g2 == after_place(
        g1,
        p,
        pos / stride,
        pos % stride,
        sim.wooden(),
        sim.chunk_rows(),
        sim.chunk_cols(),
    )
    &&& cl == place_clears(
        g1,
        p,
        pos / stride,
        pos % stride,
        sim.rows as int,
        sim.cols as int,
        sim.wooden(),
        sim.chunk_rows(),
        sim.chunk_cols(),
    )
}

/// The first `d` placements of the working sequence are valid: each position
/// index is in range and each snapshot follows from the one before it.
pub open spec fn seq_ok(
    sim: GridSimulator,
    pieces: Seq<Mat>,
    avail: Seq<Available>,
    order: Seq<usize>,
    positions: Seq<usize>,
    clears: Seq<usize>,
    ss: Seq<Seq<Seq<bool>>>,
    d: int,
) -> bool {
    forall|t: int|
        0 <= t < d ==> {
            let pi = #[trigger] order[t] as int;
            &&& positions[t] < avail[pi].1
            &&& step_ok(
                sim,
                ss[t],
                ss[t + 1],
                mat_cells(pieces[pi]),
                positions[t] as int,
                avail[pi].0 as int,
                clears[t] as int,
            )
        }
}

/// A complete solution: the order is a permutation of all pieces, every
/// placement is valid, snapshot 0 is the initial board `g_init`, and `total`
/// is the sum of the per-depth clear counts.
pub open spec fn solution_ok(
    sim: GridSimulator,
    pieces: Seq<Mat>,
    avail: Seq<Available>,
    order: Seq<usize>,
    positions: Seq<usize>,
    clears: Seq<usize>,
    ss: Seq<Seq<Seq<bool>>>,
    g_init: Seq<Seq<bool>>,
    total: int,
) -> bool {
    let n = pieces.len() as int;
    &&& is_perm_of(order, n)
    &&& positions.len() == n
    &&& clears.len() == n
    &&& ss.len() == n + 1
    &&& stack_wf(ss, sim.rows as int, sim.cols as int)
    &&& ss[0] == g_init
    &&& seq_ok(sim, pieces, avail, order, positions, clears, ss, n)
    &&& total == sum_clears(clears, n)
}

/// The sum of the first `d` per-depth clear counts.
pub open spec fn sum_clears(clears: Seq<usize>, d: int) -> int
    decreases d,
{
    if d <= 0 {
        0
    } else {
        sum_clears(clears, d - 1) + clears[d - 1]
    }
}

/// A sum of `d` clear counts, each at most `step`, is at most `d * step`.
pub proof fn lemma_sum_clears_bound(clears: Seq<usize>, d: int, step: int)
    requires
        forall|t: int| 0 <= t < d ==> (#[trigger] clears[t]) <= step,
    ensures
        0 <= sum_clears(clears, d) <= if d <= 0 {
            0int
        } else {
            d * step
        },
    decreases d,
{
    if d > 0 {
        lemma_sum_clears_bound(clears, d - 1, step);
        assert((d - 1) * step + step == d * step) by (nonlinear_arith);
    }
}

/// An upper bound on the clear count of any single placement: every row,
/// every column and every cell-sized chunk.
pub open spec fn max_step(sim: GridSimulator) -> int {
    sim.rows as int * sim.cols as int + sim.rows as int + sim.cols as int
}

/// The per-depth position bound (`Available.1`) for the given piece order.
pub open spec fn bounds_of(avail: Seq<Available>, order: Seq<usize>, n: int) -> Seq<int> {
    Seq::new(n as nat, |e: int| avail[order[e] as int].1 as int)
}

/// The number of position tuples at depths `d` and deeper, plus one: the
/// product of `bound + 1` over those depths. This is the unit used to rank
/// backtracking states.
pub open spec fn weight(bounds: Seq<int>, d: int) -> int
    decreases bounds.len() - d,
{
    if d >= bounds.len() {
        1
    } else {
        (bounds[d] + 1) * weight(bounds, d + 1)
    }
}

/// The rank of a position tuple: its value as a mixed-radix number whose
/// digit at depth `e` has radix `bounds[e] + 1`. Backtracking only ever moves
/// to states of strictly larger rank, which bounds the search.
pub open spec fn rank(positions: Seq<usize>, bounds: Seq<int>, d: int) -> int
    decreases bounds.len() - d,
{
    if d >= bounds.len() {
        0
    } else {
        positions[d] * weight(bounds, d + 1) + rank(positions, bounds, d + 1)
    }
}

/// Weights are positive whenever all bounds are non-negative.
proof fn lemma_weight_pos(bounds: Seq<int>, d: int)
    requires
        d >= 0,
        forall|e: int| 0 <= e < bounds.len() ==> #[trigger] bounds[e] >= 0,
    ensures
        weight(bounds, d) >= 1,
    decreases bounds.len() - d,
{
    if d < bounds.len() {
        lemma_weight_pos(bounds, d + 1);
        assert((bounds[d] + 1) * weight(bounds, d + 1) >= 1) by (nonlinear_arith)
            requires
                bounds[d] + 1 >= 1,
                weight(bounds, d + 1) >= 1,
        ;
    }
}

/// A position tuple whose digits respect their bounds has rank between 0 and
/// `weight - 1`.
proof fn lemma_rank_bounds(positions: Seq<usize>, bounds: Seq<int>, d: int)
    requires
        positions.len() == bounds.len(),
        forall|e: int| 0 <= e < bounds.len() ==> 0 <= (#[trigger] positions[e]) <= bounds[e],
        d >= 0,
    ensures
        0 <= rank(positions, bounds, d) <= weight(bounds, d) - 1,
    decreases bounds.len() - d,
{
    if d < bounds.len() {
        assert forall|e: int| 0 <= e < bounds.len() implies #[trigger] bounds[e] >= 0 by {
            assert(0 <= positions[e] <= bounds[e]);
        }
        lemma_rank_bounds(positions, bounds, d + 1);
        lemma_weight_pos(bounds, d + 1);
        assert(0 <= positions[d] * weight(bounds, d + 1) <= bounds[d] * weight(bounds, d + 1))
            by (nonlinear_arith)
            requires
                0 <= positions[d] <= bounds[d],
                weight(bounds, d + 1) >= 1,
        ;
        assert(bounds[d] * weight(bounds, d + 1) + weight(bounds, d + 1) == (bounds[d] + 1)
            * weight(bounds, d + 1)) by (nonlinear_arith);
    }
}

/// Two position tuples that agree at depths `d` and deeper have equal rank.
proof fn lemma_rank_agree(p1: Seq<usize>, p2: Seq<usize>, bounds: Seq<int>, d: int)
    requires
        p1.len() == bounds.len(),
        p2.len() == bounds.len(),
        forall|e: int| d <= e < bounds.len() ==> p1[e] == p2[e],
    ensures
        rank(p1, bounds, d) == rank(p2, bounds, d),
    decreases bounds.len() - d,
{
    if d < bounds.len() {
        lemma_rank_agree(p1, p2, bounds, d + 1);
    }
}

/// Overwriting the digit at depth `t` changes the rank by the difference
/// times that depth's weight.
proof fn lemma_rank_update(positions: Seq<usize>, bounds: Seq<int>, d: int, t: int, x: usize)
    requires
        positions.len() == bounds.len(),
        0 <= d <= t < bounds.len(),
    ensures
        rank(positions.update(t, x), bounds, d) == rank(positions, bounds, d) + (x
            - positions[t]) * weight(bounds, t + 1),
    decreases t - d,
{
    let upd = positions.update(t, x);
    if d == t {
        lemma_rank_agree(upd, positions, bounds, d + 1);
        assert(x * weight(bounds, t + 1) == positions[t] * weight(bounds, t + 1) + (x
            - positions[t]) * weight(bounds, t + 1)) by (nonlinear_arith);
    } else {
        lemma_rank_update(positions, bounds, d + 1, t, x);
    }
}

/// A linear position index below `span * stride` decodes to a row below
/// `span` and a column below `stride`.
proof fn lemma_decode(pos: int, stride: int, span: int)
    requires
        stride >= 1,
        0 <= pos < span * stride,
    ensures
        0 <= pos / stride < span,
        0 <= pos % stride < stride,
{
    crate::grid::lemma_block_of(pos, stride);
    vstd::arithmetic::div_mod::lemma_mod_bound(pos, stride);
    assert(pos / stride < span) by (nonlinear_arith)
        requires
            stride >= 1,
            (pos / stride) * stride <= pos,
            pos < span * stride,
    ;
}


/// `n` factorial: how many orderings `n` pieces have.
pub open spec fn factorial(n: int) -> int
    decreases n,
{
    if n <= 1 {
        1
    } else {
        n * factorial(n - 1)
    }
}

proof fn lemma_factorial_pos(n: int)
    ensures
        factorial(n) >= 1,
    decreases n,
{
    if n > 1 {
        lemma_factorial_pos(n - 1);
        assert(n * factorial(n - 1) >= 1) by (nonlinear_arith)
            requires
                n >= 2,
                factorial(n - 1) >= 1,
        ;
    }
}

/// The ordering that places piece 0 first, then piece 1, and so on.
pub open spec fn identity_order(n: int) -> Seq<usize> {
    Seq::new(n as nat, |i: int| i as usize)
}

/// The grid after replaying the first `d` placements of candidate position
/// vector `q` under `order`, starting from board `g0`.
pub open spec fn grid_after(
    sim: GridSimulator,
    pieces: Seq<Mat>,
    avail: Seq<Available>,
    order: Seq<usize>,
    q: Seq<usize>,
    g0: Seq<Seq<bool>>,
    d: int,
) -> Seq<Seq<bool>>
    decreases d,
{
    if d <= 0 {
        g0
    } else {
        let pi = order[d - 1] as int;
        let stride = avail[pi].0 as int;
        after_place(
            grid_after(sim, pieces, avail, order, q, g0, d - 1),
            mat_cells(pieces[pi]),
            q[d - 1] as int / stride,
            q[d - 1] as int % stride,
            sim.wooden(),
            sim.chunk_rows(),
            sim.chunk_cols(),
        )
    }
}

/// The first `d` entries of `q` are a valid start of a placement sequence:
/// each position index is in range and each replayed placement is free of
/// overlap.
pub open spec fn cand_ok(
    sim: GridSimulator,
    pieces: Seq<Mat>,
    avail: Seq<Available>,
    order: Seq<usize>,
    q: Seq<usize>,
    g0: Seq<Seq<bool>>,
    d: int,
) -> bool
    decreases d,
{
    if d <= 0 {
        true
    } else {
        let pi = order[d - 1] as int;
        let stride = avail[pi].0 as int;
        &&& cand_ok(sim, pieces, avail, order, q, g0, d - 1)
        &&& q[d - 1] < avail[pi].1
        &&& !overlaps(
            grid_after(sim, pieces, avail, order, q, g0, d - 1),
            mat_cells(pieces[pi]),
            q[d - 1] as int / stride,
            q[d - 1] as int % stride,
        )
    }
}

/// The total clears scored by replaying the first `d` placements of `q`.
pub open spec fn cand_total(
    sim: GridSimulator,
    pieces: Seq<Mat>,
    avail: Seq<Available>,
    order: Seq<usize>,
    q: Seq<usize>,
    g0: Seq<Seq<bool>>,
    d: int,
) -> int
    decreases d,
{
    if d <= 0 {
        0
    } else {
        let pi = order[d - 1] as int;
        let stride = avail[pi].0 as int;
        cand_total(sim, pieces, avail, order, q, g0, d - 1) + place_clears(
            grid_after(sim, pieces, avail, order, q, g0, d - 1),
            mat_cells(pieces[pi]),
            q[d - 1] as int / stride,
            q[d - 1] as int % stride,
            sim.rows as int,
            sim.cols as int,
            sim.wooden(),
            sim.chunk_rows(),
            sim.chunk_cols(),
        )
    }
}

/// Replays only read the first `d` entries: vectors that agree there replay
/// alike.
proof fn lemma_cand_agree(
    sim: GridSimulator,
    pieces: Seq<Mat>,
    avail: Seq<Available>,
    order: Seq<usize>,
    q1: Seq<usize>,
    q2: Seq<usize>,
    g0: Seq<Seq<bool>>,
    d: int,
)
    requires
        forall|t: int| 0 <= t < d ==> q1[t] == q2[t],
    ensures
        grid_after(sim, pieces, avail, order, q1, g0, d) == grid_after(
            sim,
            pieces,
            avail,
            order,
            q2,
            g0,
            d,
        ),
        cand_ok(sim, pieces, avail, order, q1, g0, d) == cand_ok(
            sim,
            pieces,
            avail,
            order,
            q2,
            g0,
            d,
        ),
        cand_total(sim, pieces, avail, order, q1, g0, d) == cand_total(
            sim,
            pieces,
            avail,
            order,
            q2,
            g0,
            d,
        ),
    decreases d,
{
    if d > 0 {
        lemma_cand_agree(sim, pieces, avail, order, q1, q2, g0, d - 1);
    }
}

/// A valid start stays valid when truncated.
proof fn lemma_cand_ok_prefix(
    sim: GridSimulator,
    pieces: Seq<Mat>,
    avail: Seq<Available>,
    order: Seq<usize>,
    q: Seq<usize>,
    g0: Seq<Seq<bool>>,
    d1: int,
    d2: int,
)
    requires
        d1 <= d2,
        cand_ok(sim, pieces, avail, order, q, g0, d2),
    ensures
        cand_ok(sim, pieces, avail, order, q, g0, d1),
    decreases d2 - d1,
{
    if d1 < d2 {
        lemma_cand_ok_prefix(sim, pieces, avail, order, q, g0, d1, d2 - 1);
    }
}

/// The search's working snapshot chain replays its own position vector:
/// a `seq_ok` prefix of depth `d` is a valid candidate start whose replayed
/// grid is the working snapshot at depth `d` and whose replayed total is the
/// recorded clear sum.
proof fn lemma_seq_chain(
    sim: GridSimulator,
    pieces: Seq<Mat>,
    avail: Seq<Available>,
    order: Seq<usize>,
    positions: Seq<usize>,
    clears: Seq<usize>,
    ss: Seq<Seq<Seq<bool>>>,
    d: int,
)
    requires
        0 <= d < ss.len(),
        seq_ok(sim, pieces, avail, order, positions, clears, ss, d),
    ensures
        cand_ok(sim, pieces, avail, order, positions, ss[0], d),
        ss[d] == grid_after(sim, pieces, avail, order, positions, ss[0], d),
        cand_total(sim, pieces, avail, order, positions, ss[0], d) == sum_clears(clears, d),
    decreases d,
{
    if d > 0 {
        lemma_seq_chain(sim, pieces, avail, order, positions, clears, ss, d - 1);
    }
}

/// `q` lies strictly behind the search frontier `positions[0..=depth]`:
/// at some depth `d` it agrees with the frontier before `d` and picks a
/// smaller position at `d`.
pub open spec fn behind(q: Seq<usize>, positions: Seq<usize>, depth: int) -> bool {
    exists|d: int|
        0 <= d <= depth && (forall|t: int| 0 <= t < d ==> q[t] == positions[t]) && q[d]
            < positions[d]
}

/// Retains the best complete placement sequence reported so far: the piece
/// order, the per-depth position indices and clear counts, and the final
/// snapshot stack, together with the total clears they achieve. `solvable`
/// stays false until the first complete sequence is reported.
pub struct SolutionTracker {
    pub solvable: bool,
    pub max_clears: usize,
    pub place_order: Vec<usize>,
    pub piece_order: Vec<usize>,
    pub lines_cleared: Vec<usize>,
    pub state: Stack,
}

/// A copy of a position/clear vector, made so the tracker never aliases the
/// search's working buffers.
fn copy_usize_vec(src: &Vec<usize>) -> (r: Vec<usize>)
    ensures
        r@ == src@,
{
    let mut r: Vec<usize> = Vec::new();
    for i in 0..src.len()
        invariant
            r@.len() == i,
            forall|j: int| 0 <= j < i ==> #[trigger] r@[j] == src@[j],
    {
        r.push(src[i]);
    }
    proof {
        assert(r@ =~= src@);
    }
    r
}

impl SolutionTracker {
    /// A tracker that has seen no complete sequence yet; its retained fields
    /// start as copies of the supplied buffers and are only ever replaced by
    /// a strictly better sequence.
    pub fn new(
        place_order: &Vec<usize>,
        piece_order: &Vec<usize>,
        lines_cleared: &Vec<usize>,
        state: &Stack,
    ) -> (t: Self)
        ensures
            !t.solvable,
            t.max_clears == 0,
            t.place_order@ == place_order@,
            t.piece_order@ == piece_order@,
            t.lines_cleared@ == lines_cleared@,
            stack_cells(t.state) == stack_cells(*state),
    {
        SolutionTracker {
            solvable: false,
            max_clears: 0,
            place_order: copy_usize_vec(place_order),
            piece_order: copy_usize_vec(piece_order),
            lines_cleared: copy_usize_vec(lines_cleared),
            state: stack_clone(state),
        }
    }

    /// Observes one complete placement sequence with total clears `total`.
    /// The retained total never decreases; it is replaced, together with the
    /// retained sequence, exactly when the new total is strictly better, so
    /// ties keep the earliest-found sequence.
    pub fn report(
        &mut self,
        total: usize,
        place_order: &Vec<usize>,
        piece_order: &Vec<usize>,
        lines_cleared: &Vec<usize>,
        state: &Stack,
    )
        ensures
            final(self).solvable,
            final(self).max_clears >= old(self).max_clears,
            final(self).max_clears == if total > old(self).max_clears {
                total
            } else {
                old(self).max_clears
            },
            total > old(self).max_clears ==> {
                &&& final(self).place_order@ == place_order@
                &&& final(self).piece_order@ == piece_order@
                &&& final(self).lines_cleared@ == lines_cleared@
                &&& stack_cells(final(self).state) == stack_cells(*state)
            },
            total <= old(self).max_clears ==> {
                &&& final(self).place_order@ == old(self).place_order@
                &&& final(self).piece_order@ == old(self).piece_order@
                &&& final(self).lines_cleared@ == old(self).lines_cleared@
                &&& stack_cells(final(self).state) == stack_cells(old(self).state)
            },
    {
        self.solvable = true;
        if total > self.max_clears {
            self.max_clears = total;
            self.place_order = copy_usize_vec(place_order);
            self.piece_order = copy_usize_vec(piece_order);
            self.lines_cleared = copy_usize_vec(lines_cleared);
            self.state = stack_clone(state);
        }
    }
}

/// Exhaustive backtracking over placement positions for one fixed piece
/// order. Every complete, non-overlapping placement sequence for `order` is
/// found: afterwards the tracker reports solvable and its retained total is
/// at least the total of every such sequence. The working buffers are handed
/// back ready for the next order (every position cursor at zero, snapshot 0
/// untouched). The tracker's retained best only ever improves, and any
/// improvement is a valid complete solution for the initial board.
#[verifier::rlimit(100)]
#[verifier::spinoff_prover]
pub fn blast(
    sim: &GridSimulator,
    pieces: &Vec<Mat>,
    piece_avail: &Vec<Available>,
    order: &Vec<usize>,
    positions: &mut Vec<usize>,
    clears: &mut Vec<usize>,
    state: &mut Stack,
    tracker: &mut SolutionTracker,
)
    requires
        sim.wf(),
        ctx_ok(*sim, pieces@, piece_avail@),
        1 <= pieces@.len() < usize::MAX,
        pieces@.len() * max_step(*sim) <= usize::MAX,
        is_perm_of(order@, pieces@.len() as int),
        old(positions)@.len() == pieces@.len(),
        forall|t: int| 0 <= t < pieces@.len() ==> old(positions)@[t] == 0,
        old(clears)@.len() == pieces@.len(),
        stack_cells(*old(state)).len() == pieces@.len() + 1,
        stack_wf(stack_cells(*old(state)), sim.rows as int, sim.cols as int),
    ensures
        final(positions)@.len() == pieces@.len(),
        forall|t: int| 0 <= t < pieces@.len() ==> final(positions)@[t] == 0,
        final(clears)@.len() == pieces@.len(),
        stack_cells(*final(state)).len() == pieces@.len() + 1,
        stack_wf(stack_cells(*final(state)), sim.rows as int, sim.cols as int),
        stack_cells(*final(state))[0] == stack_cells(*old(state))[0],
        final(tracker).max_clears >= old(tracker).max_clears,
        old(tracker).solvable ==> final(tracker).solvable,
        final(tracker).max_clears == old(tracker).max_clears ==> {
            &&& final(tracker).place_order@ == old(tracker).place_order@
            &&& final(tracker).piece_order@ == old(tracker).piece_order@
            &&& final(tracker).lines_cleared@ == old(tracker).lines_cleared@
            &&& stack_cells(final(tracker).state) == stack_cells(old(tracker).state)
        },
        final(tracker).max_clears > old(tracker).max_clears ==> {
            &&& final(tracker).solvable
            &&& solution_ok(
                *sim,
                pieces@,
                piece_avail@,
                final(tracker).piece_order@,
                final(tracker).place_order@,
                final(tracker).lines_cleared@,
                stack_cells(final(tracker).state),
                stack_cells(*old(state))[0],
                final(tracker).max_clears as int,
            )
        },
        final(tracker).solvable ==> old(tracker).solvable || exists|
            ord: Seq<usize>,
            posv: Seq<usize>,
            cl: Seq<usize>,
            ss: Seq<Seq<Seq<bool>>>,
            t: int,
        |
            solution_ok(*sim, pieces@, piece_avail@, ord, posv, cl, ss, stack_cells(*old(state))[0], t),
        forall|q: Seq<usize>|
            q.len() == pieces@.len() && #[trigger] cand_ok(
                *sim,
                pieces@,
                piece_avail@,
                order@,
                q,
                stack_cells(*old(state))[0],
                pieces@.len() as int,
            ) ==> final(tracker).solvable && final(tracker).max_clears as int >= cand_total(
                *sim,
                pieces@,
                piece_avail@,
                order@,
                q,
                stack_cells(*old(state))[0],
                pieces@.len() as int,
            ),
{
    let n = pieces.len();
    let ghost bounds = bounds_of(piece_avail@, order@, n as int);
    let ghost g_init = stack_cells(*old(state))[0];
    let ghost t0 = *old(tracker);
    proof {
        assert forall|e: int| 0 <= e < n implies #[trigger] bounds[e] >= 0 by {
            assert(bounds[e] == piece_avail@[order@[e] as int].1 as int);
        }
        assert(max_step(*sim) >= 3) by (nonlinear_arith)
            requires
                sim.rows >= 1,
                sim.cols >= 1,
                max_step(*sim) == sim.rows as int * sim.cols as int + sim.rows as int
                    + sim.cols as int,
        ;
    }
    let mut depth: usize = 0;
    let mut total: usize = 0;
    loop
        invariant
            sim.wf(),
            ctx_ok(*sim, pieces@, piece_avail@),
            n == pieces@.len(),
            1 <= n < usize::MAX,
            n * max_step(*sim) <= usize::MAX,
            max_step(*sim) >= 3,
            is_perm_of(order@, n as int),
            bounds == bounds_of(piece_avail@, order@, n as int),
            forall|e: int| 0 <= e < n ==> #[trigger] bounds[e] >= 0,
            positions@.len() == n,
            clears@.len() == n,
            stack_cells(*state).len() == n + 1,
            stack_wf(stack_cells(*state), sim.rows as int, sim.cols as int),
            stack_cells(*state)[0] == g_init,
            g_init == stack_cells(*old(state))[0],
            t0 == *old(tracker),
            0 <= depth < n,
            forall|t: int| 0 <= t < n ==> (#[trigger] positions@[t]) as int <= bounds[t],
            forall|t: int| depth < t < n ==> positions@[t] == 0,
            seq_ok(
                *sim,
                pieces@,
                piece_avail@,
                order@,
                positions@,
                clears@,
                stack_cells(*state),
                depth as int,
            ),
            forall|t: int| 0 <= t < depth ==> (#[trigger] clears@[t]) <= max_step(*sim),
            total == sum_clears(clears@, depth as int),
            tracker.max_clears >= t0.max_clears,
            t0.solvable ==> tracker.solvable,
            tracker.max_clears == t0.max_clears ==> {
                &&& tracker.place_order@ == t0.place_order@
                &&& tracker.piece_order@ == t0.piece_order@
                &&& tracker.lines_cleared@ == t0.lines_cleared@
                &&& stack_cells(tracker.state) == stack_cells(t0.state)
            },
            tracker.max_clears > t0.max_clears ==> {
                &&& tracker.solvable
                &&& solution_ok(
                    *sim,
                    pieces@,
                    piece_avail@,
                    tracker.piece_order@,
                    tracker.place_order@,
                    tracker.lines_cleared@,
                    stack_cells(tracker.state),
                    g_init,
                    tracker.max_clears as int,
                )
            },
            tracker.solvable ==> t0.solvable || exists|
                ord: Seq<usize>,
                posv: Seq<usize>,
                cl: Seq<usize>,
                ss: Seq<Seq<Seq<bool>>>,
                t: int,
            | solution_ok(*sim, pieces@, piece_avail@, ord, posv, cl, ss, g_init, t),
            forall|q: Seq<usize>|
                q.len() == n && #[trigger] cand_ok(
                    *sim,
                    pieces@,
                    piece_avail@,
                    order@,
                    q,
                    g_init,
                    n as int,
                ) && behind(q, positions@, depth as int) ==> tracker.solvable
                    && tracker.max_clears as int >= cand_total(
                    *sim,
                    pieces@,
                    piece_avail@,
                    order@,
                    q,
                    g_init,
                    n as int,
                ),
        decreases weight(bounds, 0) - rank(positions@, bounds, 0), n - depth,
    {
        let ghost p_start = positions@;
        proof {
            lemma_rank_bounds(positions@, bounds, 0);
        }
        let pidx = order[depth];
        let av = piece_avail[pidx];
        proof {
            assert(avail_ok(av, mat_cells(pieces@[pidx as int]), sim.rows as int, sim.cols as int));
            assert(bounds[depth as int] == av.1 as int);
        }
        let pos = positions[depth];
        if pos == av.1 {
            // This depth is exhausted: rewind the cursor for the next visit
            // and resume one depth up, one position further on.
            let ghost dd = depth as int;
            positions[depth] = 0;
            proof {
                lemma_rank_update(p_start, bounds, 0, dd, 0);
            }
            let ghost p1 = positions@;
            if depth == 0 {
                proof {
                    assert forall|q: Seq<usize>|
                        q.len() == n && #[trigger] cand_ok(
                            *sim,
                            pieces@,
                            piece_avail@,
                            order@,
                            q,
                            g_init,
                            n as int,
                        ) implies tracker.solvable && tracker.max_clears as int >= cand_total(
                        *sim,
                        pieces@,
                        piece_avail@,
                        order@,
                        q,
                        g_init,
                        n as int,
                    ) by {
                        lemma_cand_ok_prefix(*sim, pieces@, piece_avail@, order@, q, g_init, 1, n as int);
                        assert(q[0] < p_start[0]);
                        assert(0 <= 0 <= 0 && (forall|t: int| 0 <= t < 0 ==> q[t] == p_start[t])
                            && q[0] < p_start[0]);
                        assert(behind(q, p_start, 0));
                    }
                }
                return;
            }
            depth -= 1;
            let cl = clears[depth];
            proof {
                lemma_sum_clears_bound(clears@, depth as int, max_step(*sim));
            }
            total -= cl;
            let p0 = positions[depth];
            positions[depth] = p0 + 1;
            proof {
                lemma_rank_update(p1, bounds, 0, dd - 1, (p0 + 1) as usize);
                lemma_weight_pos(bounds, dd + 1);
                assert(weight(bounds, dd) == (bounds[dd] + 1) * weight(bounds, dd + 1));
                assert((0 - (av.1 as int)) * weight(bounds, dd + 1) + ((p0 + 1) - p0) * ((bounds[dd]
                    + 1) * weight(bounds, dd + 1)) == weight(bounds, dd + 1)) by (nonlinear_arith)
                    requires
                        av.1 as int == bounds[dd],
                ;
                lemma_rank_bounds(positions@, bounds, 0);
                assert(rank(positions@, bounds, 0) > rank(p_start, bounds, 0));
            }
            proof {
                assert forall|q: Seq<usize>|
                    q.len() == n && #[trigger] cand_ok(
                        *sim,
                        pieces@,
                        piece_avail@,
                        order@,
                        q,
                        g_init,
                        n as int,
                    ) && behind(q, positions@, depth as int) implies tracker.solvable
                    && tracker.max_clears as int >= cand_total(
                    *sim,
                    pieces@,
                    piece_avail@,
                    order@,
                    q,
                    g_init,
                    n as int,
                ) by {
                    let bd = choose|d: int|
                        0 <= d <= depth as int && (forall|t: int|
                            0 <= t < d ==> q[t] == positions@[t]) && q[d] < positions@[d];
                    assert forall|t: int| 0 <= t < bd implies q[t] == p_start[t] by {
                        assert(q[t] == positions@[t]);
                    }
                    if bd < dd - 1 {
                        assert(q[bd] < p_start[bd]);
                        assert(0 <= bd <= dd && (forall|t: int| 0 <= t < bd ==> q[t] == p_start[t])
                            && q[bd] < p_start[bd]);
                        assert(behind(q, p_start, dd));
                    } else {
                        if q[dd - 1] < p0 {
                            assert(0 <= dd - 1 <= dd && (forall|t: int|
                                0 <= t < dd - 1 ==> q[t] == p_start[t]) && q[dd - 1] < p_start[dd
                                - 1]);
                            assert(behind(q, p_start, dd));
                        } else {
                            assert(q[dd - 1] == p_start[dd - 1]);
                            lemma_cand_ok_prefix(
                                *sim,
                                pieces@,
                                piece_avail@,
                                order@,
                                q,
                                g_init,
                                dd + 1,
                                n as int,
                            );
                            assert(q[dd] < piece_avail@[order@[dd] as int].1);
                            assert(q[dd] < p_start[dd]);
                            assert forall|t: int| 0 <= t < dd implies q[t] == p_start[t] by {
                                if t < dd - 1 {
                                    assert(q[t] == positions@[t]);
                                }
                            }
                            assert(0 <= dd <= dd && (forall|t: int|
                                0 <= t < dd ==> q[t] == p_start[t]) && q[dd] < p_start[dd]);
                            assert(behind(q, p_start, dd));
                        }
                    }
                }
            }
        } else {
            proof {
                lemma_decode(
                    pos as int,
                    av.0 as int,
                    sim.rows - mat_cells(pieces@[pidx as int]).len() + 1,
                );
            }
            let row = pos / av.0;
            let col = pos % av.0;
            let res = sim.place(depth, &pieces[pidx], row, col, state);
            match res {
                None => {
                    positions[depth] = pos + 1;
                    proof {
                        lemma_rank_update(p_start, bounds, 0, depth as int, (pos + 1) as usize);
                        lemma_weight_pos(bounds, depth as int + 1);
                        lemma_rank_bounds(positions@, bounds, 0);
                        let delta = (((pos + 1) as usize) - p_start[depth as int]) as int;
                        let w = weight(bounds, depth as int + 1);
                        assert(delta == 1);
                        assert(delta * w == w) by (nonlinear_arith)
                            requires
                                delta == 1,
                        ;
                        assert(rank(positions@, bounds, 0) > rank(p_start, bounds, 0));
                    }
                    proof {
                        lemma_seq_chain(
                            *sim,
                            pieces@,
                            piece_avail@,
                            order@,
                            p_start,
                            clears@,
                            stack_cells(*state),
                            depth as int,
                        );
                        assert forall|q: Seq<usize>|
                            q.len() == n && #[trigger] cand_ok(
                                *sim,
                                pieces@,
                                piece_avail@,
                                order@,
                                q,
                                g_init,
                                n as int,
                            ) && behind(q, positions@, depth as int) implies tracker.solvable
                            && tracker.max_clears as int >= cand_total(
                            *sim,
                            pieces@,
                            piece_avail@,
                            order@,
                            q,
                            g_init,
                            n as int,
                        ) by {
                            let bd = choose|d: int|
                                0 <= d <= depth as int && (forall|t: int|
                                    0 <= t < d ==> q[t] == positions@[t]) && q[d] < positions@[d];
                            assert forall|t: int| 0 <= t < bd implies q[t] == p_start[t] by {
                                assert(q[t] == positions@[t]);
                            }
                            if bd < depth as int {
                                assert(0 <= bd <= depth as int && (forall|t: int|
                                    0 <= t < bd ==> q[t] == p_start[t]) && q[bd] < p_start[bd]);
                                assert(behind(q, p_start, depth as int));
                            } else {
                                if q[depth as int] < pos {
                                    assert(0 <= depth as int <= depth as int && (forall|t: int|
                                        0 <= t < depth as int ==> q[t] == p_start[t]) && q[depth as int]
                                        < p_start[depth as int]);
                                    assert(behind(q, p_start, depth as int));
                                } else {
                                    assert(q[depth as int] == pos);
                                    lemma_cand_ok_prefix(
                                        *sim,
                                        pieces@,
                                        piece_avail@,
                                        order@,
                                        q,
                                        g_init,
                                        depth as int + 1,
                                        n as int,
                                    );
                                    lemma_cand_agree(
                                        *sim,
                                        pieces@,
                                        piece_avail@,
                                        order@,
                                        q,
                                        p_start,
                                        g_init,
                                        depth as int,
                                    );
                                    assert(!overlaps(
                                        grid_after(
                                            *sim,
                                            pieces@,
                                            piece_avail@,
                                            order@,
                                            q,
                                            g_init,
                                            depth as int,
                                        ),
                                        mat_cells(pieces@[pidx as int]),
                                        pos as int / av.0 as int,
                                        pos as int % av.0 as int,
                                    ));
                                    assert(grid_after(
                                        *sim,
                                        pieces@,
                                        piece_avail@,
                                        order@,
                                        p_start,
                                        g_init,
                                        depth as int,
                                    ) == stack_cells(*state)[depth as int]);
                                    assert(false);
                                }
                            }
                        }
                    }
                },
                Some(c) => {
                    let ghost clears_before = clears@;
                    let ghost ss_before = stack_cells(*state);
                    clears[depth] = c;
                    proof {
                        lemma_sum_clears_agree(clears_before, clears@, depth as int);
                        lemma_sum_clears_bound(clears@, depth as int, max_step(*sim));
                        assert((depth + 1) as int * max_step(*sim) <= n * max_step(*sim))
                            by (nonlinear_arith)
                            requires
                                depth as int + 1 <= n as int,
                                max_step(*sim) >= 0,
                        ;
                        assert(depth as int * max_step(*sim) + max_step(*sim) == (depth + 1) as int
                            * max_step(*sim)) by (nonlinear_arith);
                    }
                    total += c;
                    proof {
                        assert(seq_ok(
                            *sim,
                            pieces@,
                            piece_avail@,
                            order@,
                            positions@,
                            clears@,
                            stack_cells(*state),
                            depth as int + 1,
                        )) by {
                            assert forall|t: int| 0 <= t < depth as int + 1 implies {
                                let pi = #[trigger] order@[t] as int;
                                &&& positions@[t] < piece_avail@[pi].1
                                &&& step_ok(
                                    *sim,
                                    stack_cells(*state)[t],
                                    stack_cells(*state)[t + 1],
                                    mat_cells(pieces@[pi]),
                                    positions@[t] as int,
                                    piece_avail@[pi].0 as int,
                                    clears@[t] as int,
                                )
                            } by {
                                if t < depth as int {
                                    assert(stack_cells(*state)[t] == ss_before[t]);
                                    assert(stack_cells(*state)[t + 1] == ss_before[t + 1]);
                                }
                            }
                        }
                    }
                    if depth + 1 == n {
                        let ghost rep_total = total as int;
                        proof {
                            assert(total == sum_clears(clears@, n as int));
                            assert(seq_ok(
                                *sim,
                                pieces@,
                                piece_avail@,
                                order@,
                                p_start,
                                clears@,
                                stack_cells(*state),
                                n as int,
                            ));
                            assert(solution_ok(
                                *sim,
                                pieces@,
                                piece_avail@,
                                order@,
                                p_start,
                                clears@,
                                stack_cells(*state),
                                g_init,
                                total as int,
                            ));
                            lemma_seq_chain(
                                *sim,
                                pieces@,
                                piece_avail@,
                                order@,
                                p_start,
                                clears@,
                                stack_cells(*state),
                                n as int,
                            );
                        }
                        tracker.report(total, positions, order, clears, state);
                        let cl = clears[depth];
                        total -= cl;
                        positions[depth] = pos + 1;
                        proof {
                            lemma_rank_update(p_start, bounds, 0, depth as int, (pos + 1) as usize);
                            lemma_weight_pos(bounds, depth as int + 1);
                            lemma_rank_bounds(positions@, bounds, 0);
                            let delta = (((pos + 1) as usize) - p_start[depth as int]) as int;
                            let w = weight(bounds, depth as int + 1);
                            assert(delta == 1);
                            assert(delta * w == w) by (nonlinear_arith)
                                requires
                                    delta == 1,
                            ;
                            assert(rank(positions@, bounds, 0) > rank(p_start, bounds, 0));
                        }
                        proof {
                            assert(tracker.max_clears as int >= rep_total);
                            assert forall|q: Seq<usize>|
                                q.len() == n && #[trigger] cand_ok(
                                    *sim,
                                    pieces@,
                                    piece_avail@,
                                    order@,
                                    q,
                                    g_init,
                                    n as int,
                                ) && behind(q, positions@, depth as int) implies tracker.solvable
                                && tracker.max_clears as int >= cand_total(
                                *sim,
                                pieces@,
                                piece_avail@,
                                order@,
                                q,
                                g_init,
                                n as int,
                            ) by {
                                let bd = choose|d: int|
                                    0 <= d <= depth as int && (forall|t: int|
                                        0 <= t < d ==> q[t] == positions@[t]) && q[d]
                                        < positions@[d];
                                assert forall|t: int| 0 <= t < bd implies q[t] == p_start[t] by {
                                    assert(q[t] == positions@[t]);
                                }
                                if bd < depth as int {
                                    assert(0 <= bd <= depth as int && (forall|t: int|
                                        0 <= t < bd ==> q[t] == p_start[t]) && q[bd] < p_start[bd]);
                                    assert(behind(q, p_start, depth as int));
                                } else {
                                    if q[depth as int] < pos {
                                        assert(0 <= depth as int <= depth as int && (forall|t: int|
                                            0 <= t < depth as int ==> q[t] == p_start[t]) && q[depth as int]
                                            < p_start[depth as int]);
                                        assert(behind(q, p_start, depth as int));
                                    } else {
                                        assert(q[depth as int] == pos);
                                        assert forall|t: int|
                                            0 <= t < n implies q[t] == p_start[t] by {
                                            if t < depth as int {
                                                assert(q[t] == positions@[t]);
                                            }
                                        }
                                        lemma_cand_agree(
                                            *sim,
                                            pieces@,
                                            piece_avail@,
                                            order@,
                                            q,
                                            p_start,
                                            g_init,
                                            n as int,
                                        );
                                    }
                                }
                            }
                        }
                    } else {
                        depth += 1;
                        proof {
                            assert forall|q: Seq<usize>|
                                q.len() == n && #[trigger] cand_ok(
                                    *sim,
                                    pieces@,
                                    piece_avail@,
                                    order@,
                                    q,
                                    g_init,
                                    n as int,
                                ) && behind(q, positions@, depth as int) implies tracker.solvable
                                && tracker.max_clears as int >= cand_total(
                                *sim,
                                pieces@,
                                piece_avail@,
                                order@,
                                q,
                                g_init,
                                n as int,
                            ) by {
                                let bd = choose|d: int|
                                    0 <= d <= depth as int && (forall|t: int|
                                        0 <= t < d ==> q[t] == positions@[t]) && q[d]
                                        < positions@[d];
                                if bd == depth as int {
                                    assert(positions@[bd] == 0);
                                    assert(false);
                                } else {
                                    assert(0 <= bd <= depth as int - 1 && (forall|t: int|
                                        0 <= t < bd ==> q[t] == positions@[t]) && q[bd]
                                        < positions@[bd]);
                                    assert(behind(q, positions@, depth as int - 1));
                                }
                            }
                        }
                    }
                },
            }
        }
    }
}

/// The number of orderings of `n` pieces (`n` factorial), saturated at
/// `usize::MAX`. The driver uses it as a bound on how many times the
/// generator can yield before it reports exhaustion.
fn perm_budget(n: usize) -> (f: usize)
    requires
        n < usize::MAX,
    ensures
        f >= 1,
        factorial(n as int) <= usize::MAX ==> f == factorial(n as int),
        factorial(n as int) > usize::MAX ==> f == usize::MAX,
{
    let mut f: usize = 1;
    let mut i: usize = 2;
    while i <= n
        invariant
            2 <= i,
            i <= n + 1 || (i == 2 && n < 2),
            f >= 1,
            n < usize::MAX,
            factorial(i - 1) <= usize::MAX ==> f == factorial(i - 1),
            factorial(i - 1) > usize::MAX ==> f == usize::MAX,
        decreases n + 1 - i,
    {
        proof {
            lemma_factorial_pos(i - 1);
            assert(factorial(i as int) == i * factorial(i - 1));
        }
        if f > usize::MAX / i {
            proof {
                if factorial(i - 1) <= usize::MAX {
                    vstd::arithmetic::div_mod::lemma_fundamental_div_mod(
                        usize::MAX as int,
                        i as int,
                    );
                    vstd::arithmetic::div_mod::lemma_mod_bound(usize::MAX as int, i as int);
                    assert(f * i > usize::MAX) by (nonlinear_arith)
                        requires
                            f >= usize::MAX as int / i as int + 1,
                            i >= 2,
                            usize::MAX as int == i as int * (usize::MAX as int / i as int)
                                + usize::MAX as int % i as int,
                            (usize::MAX as int % i as int) < i as int,
                    ;
                    assert(factorial(i as int) == f * i) by (nonlinear_arith)
                        requires
                            factorial(i as int) == i as int * factorial(i - 1),
                            f == factorial(i - 1),
                    ;
                } else {
                    assert(factorial(i as int) > usize::MAX) by (nonlinear_arith)
                        requires
                            factorial(i as int) == i as int * factorial(i - 1),
                            i >= 2,
                            factorial(i - 1) > usize::MAX as int,
                    ;
                }
            }
            f = usize::MAX;
        } else {
            proof {
                crate::grid::lemma_block_of(usize::MAX as int, i as int);
                assert(f * i <= (usize::MAX as int / i as int) * i && f * i >= 1
                    && (usize::MAX as int / i as int) < usize::MAX as int) by (nonlinear_arith)
                    requires
                        1 <= f <= usize::MAX as int / i as int,
                        i >= 2,
                        (usize::MAX as int / i as int) * i <= usize::MAX as int,
                        usize::MAX as int / i as int >= 0,
                ;
                assert(f == factorial(i - 1));
                assert(factorial(i as int) == f * i) by (nonlinear_arith)
                    requires
                        factorial(i as int) == i as int * factorial(i - 1),
                        f == factorial(i - 1),
                ;
            }
            f = f * i;
        }
        i += 1;
    }
    proof {
        if n < 2 {
            assert(factorial(n as int) == 1);
        }
        lemma_factorial_pos(n as int);
    }
    f
}

/// The driver: runs the backtracking search once per ordering the generator
/// yields, starting from the identity ordering, and exposes the retained
/// best result. Returns `None` when no complete placement sequence was found
/// (the five buffers are then left untouched), and `Some(best)` otherwise;
/// when `best` is positive, the out-parameters hold a valid complete
/// solution for the initial board scoring exactly `best` clears. The
/// contract further pins: a returned success always comes with a witness
/// solution; success is owed, and the returned total is maximal, over every
/// sequence that keeps the identity piece order, since that ordering is
/// always searched first. That the same holds over all `n!` orderings rests
/// on the generators enumerating every permutation, which the step contracts
/// describe but this crate does not prove.
#[verifier::rlimit(30)]
pub fn solve(
    sim: &GridSimulator,
    place_order: &mut Vec<usize>,
    piece_order: &mut Vec<usize>,
    lines_cleared: &mut Vec<usize>,
    pieces: &Vec<Mat>,
    piece_avail: &Vec<Available>,
    state: &mut Stack,
    sjt: bool,
) -> (res: Option<usize>)
    requires
        sim.wf(),
        ctx_ok(*sim, pieces@, piece_avail@),
        1 <= pieces@.len() < usize::MAX,
        pieces@.len() * max_step(*sim) <= usize::MAX,
        old(place_order)@.len() == pieces@.len(),
        old(piece_order)@.len() == pieces@.len(),
        old(lines_cleared)@.len() == pieces@.len(),
        stack_cells(*old(state)).len() == pieces@.len() + 1,
        stack_wf(stack_cells(*old(state)), sim.rows as int, sim.cols as int),
    ensures
        res is None ==> {
            &&& final(place_order)@ == old(place_order)@
            &&& final(piece_order)@ == old(piece_order)@
            &&& final(lines_cleared)@ == old(lines_cleared)@
            &&& stack_cells(*final(state)) == stack_cells(*old(state))
        },
        res matches Some(m) ==> m == 0 ==> {
            &&& final(place_order)@ == old(place_order)@
            &&& final(piece_order)@ == old(piece_order)@
            &&& final(lines_cleared)@ == old(lines_cleared)@
            &&& stack_cells(*final(state)) == stack_cells(*old(state))
        },
        res matches Some(m) ==> m > 0 ==> solution_ok(
            *sim,
            pieces@,
            piece_avail@,
            final(piece_order)@,
            final(place_order)@,
            final(lines_cleared)@,
            stack_cells(*final(state)),
            stack_cells(*old(state))[0],
            m as int,
        ),
        stack_cells(*final(state))[0] == stack_cells(*old(state))[0],
        res is Some ==> exists|
            ord: Seq<usize>,
            posv: Seq<usize>,
            cl: Seq<usize>,
            ss: Seq<Seq<Seq<bool>>>,
            t: int,
        |
            solution_ok(
                *sim,
                pieces@,
                piece_avail@,
                ord,
                posv,
                cl,
                ss,
                stack_cells(*old(state))[0],
                t,
            ),
        (exists|q: Seq<usize>|
            q.len() == pieces@.len() && #[trigger] cand_ok(
                *sim,
                pieces@,
                piece_avail@,
                identity_order(pieces@.len() as int),
                q,
                stack_cells(*old(state))[0],
                pieces@.len() as int,
            )) ==> res is Some,
        res matches Some(m) ==> forall|q: Seq<usize>|
            q.len() == pieces@.len() && #[trigger] cand_ok(
                *sim,
                pieces@,
                piece_avail@,
                identity_order(pieces@.len() as int),
                q,
                stack_cells(*old(state))[0],
                pieces@.len() as int,
            ) ==> m as int >= cand_total(
                *sim,
                pieces@,
                piece_avail@,
                identity_order(pieces@.len() as int),
                q,
                stack_cells(*old(state))[0],
                pieces@.len() as int,
            ),
{
    let n = pieces.len();
    let mut working_positions: Vec<usize> = Vec::new();
    let mut working_clears: Vec<usize> = Vec::new();
    for i in 0..n
        invariant
            working_positions@.len() == i,
            working_clears@.len() == i,
            forall|t: int| 0 <= t < i ==> #[trigger] working_positions@[t] == 0,
    {
        working_positions.push(0);
        working_clears.push(0);
    }
    let mut working_state = stack_clone(state);
    let mut tracker = SolutionTracker::new(place_order, piece_order, lines_cleared, state);
    let mut generator = crate::perm::Permutation::new(n, sjt);
    proof {
        assert(generator.perm@ =~= identity_order(n as int));
    }
    let budget = perm_budget(n);
    let mut steps: usize = 0;
    let mut more = true;
    while more && steps < budget
        invariant
            sim.wf(),
            ctx_ok(*sim, pieces@, piece_avail@),
            n == pieces@.len(),
            1 <= n < usize::MAX,
            n * max_step(*sim) <= usize::MAX,
            generator.wf(),
            generator.n == n,
            working_positions@.len() == n,
            forall|t: int| 0 <= t < n ==> #[trigger] working_positions@[t] == 0,
            working_clears@.len() == n,
            stack_cells(working_state).len() == n + 1,
            stack_wf(stack_cells(working_state), sim.rows as int, sim.cols as int),
            stack_cells(working_state)[0] == stack_cells(*old(state))[0],
            stack_cells(*state) == stack_cells(*old(state)),
            place_order@ == old(place_order)@,
            piece_order@ == old(piece_order)@,
            lines_cleared@ == old(lines_cleared)@,
            tracker.max_clears == 0 ==> {
                &&& tracker.place_order@ == old(place_order)@
                &&& tracker.piece_order@ == old(piece_order)@
                &&& tracker.lines_cleared@ == old(lines_cleared)@
                &&& stack_cells(tracker.state) == stack_cells(*old(state))
            },
            tracker.max_clears > 0 ==> {
                &&& tracker.solvable
                &&& solution_ok(
                    *sim,
                    pieces@,
                    piece_avail@,
                    tracker.piece_order@,
                    tracker.place_order@,
                    tracker.lines_cleared@,
                    stack_cells(tracker.state),
                    stack_cells(*old(state))[0],
                    tracker.max_clears as int,
                )
            },
            budget >= 1,
            steps == 0 ==> more && generator.perm@ == identity_order(n as int),
            tracker.solvable ==> exists|
                ord: Seq<usize>,
                posv: Seq<usize>,
                cl: Seq<usize>,
                ss: Seq<Seq<Seq<bool>>>,
                t: int,
            |
                solution_ok(
                    *sim,
                    pieces@,
                    piece_avail@,
                    ord,
                    posv,
                    cl,
                    ss,
                    stack_cells(*old(state))[0],
                    t,
                ),
            steps >= 1 ==> forall|q: Seq<usize>|
                q.len() == n && #[trigger] cand_ok(
                    *sim,
                    pieces@,
                    piece_avail@,
                    identity_order(n as int),
                    q,
                    stack_cells(*old(state))[0],
                    n as int,
                ) ==> tracker.solvable && tracker.max_clears as int >= cand_total(
                    *sim,
                    pieces@,
                    piece_avail@,
                    identity_order(n as int),
                    q,
                    stack_cells(*old(state))[0],
                    n as int,
                ),
        decreases budget - steps,
    {
        blast(
            sim,
            pieces,
            piece_avail,
            &generator.perm,
            &mut working_positions,
            &mut working_clears,
            &mut working_state,
            &mut tracker,
        );
        more = generator.permute();
        steps += 1;
    }
    proof {
        if steps == 0 {
            assert(more && steps < budget);
            assert(false);
        }
    }
    if tracker.solvable {
        let m = tracker.max_clears;
        let SolutionTracker {
            solvable: _,
            max_clears: _,
            place_order: best_positions,
            piece_order: best_order,
            lines_cleared: best_clears,
            state: best_state,
        } = tracker;
        *place_order = best_positions;
        *piece_order = best_order;
        *lines_cleared = best_clears;
        *state = best_state;
        Some(m)
    } else {
        None
    }
}

/// Sums that only read the first `d` entries agree on sequences that agree
/// there.
proof fn lemma_sum_clears_agree(c1: Seq<usize>, c2: Seq<usize>, d: int)
    requires
        forall|t: int| 0 <= t < d ==> c1[t] == c2[t],
    ensures
        sum_clears(c1, d) == sum_clears(c2, d),
    decreases d,
{
    if d > 0 {
        lemma_sum_clears_agree(c1, c2, d - 1);
    }
}

} // verus!
