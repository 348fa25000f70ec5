//! Trusted boundary around the `ndarray` matrices that hold grid state.
//!
//! A piece layout lives in an `ndarray::Array2<bool>`; the stack of grid
//! snapshots (one per placement depth) lives in an `ndarray::Array3<bool>`.
//! Verus refuses a declaration of `ndarray::ArrayBase` itself (its `RawData`
//! bound cannot be stated here), so each array is held in a private field of
//! an opaque struct. Verus sees the two structs through two uninterpreted
//! contents functions, `mat_cells` and `stack_cells`, and cell-level wrappers
//! whose contracts relate each call to those contents.

use vstd::prelude::*;

verus! {

/// A two-dimensional boolean matrix (a piece layout, or one grid snapshot).
#[verifier::external_body]
pub struct Mat {
    inner: ndarray::Array2<bool>,
}

/// A three-dimensional boolean array: the stack of grid snapshots, one
/// `rows` x `cols` layer per placement depth.
#[verifier::external_body]
pub struct Stack {
    inner: ndarray::Array3<bool>,
}

/// The contents of a two-dimensional boolean array, row by row.
pub uninterp spec fn mat_cells(m: Mat) -> Seq<Seq<bool>>;

/// The contents of a three-dimensional boolean array: a sequence of
/// two-dimensional layers, each a sequence of rows.
pub uninterp spec fn stack_cells(s: Stack) -> Seq<Seq<Seq<bool>>>;

/// Relies on ndarray::Array::from_elem: builds a `rows` x `cols` array with
/// every element set to `v`.
#[verifier::external_body]
pub fn mat_new(rows: usize, cols: usize, v: bool) -> (m: Mat)
    requires
        1 <= rows,
        1 <= cols,
        rows * cols <= usize::MAX / 2,
    ensures
        mat_cells(m) == Seq::new(rows as nat, |i: int| Seq::new(cols as nat, |j: int| v)),
{
    Mat { inner: ndarray::Array::from_elem((rows, cols), v) }
}

/// Relies on ndarray::ArrayBase::dim: returns the array's extent along each
/// of its two axes.
#[verifier::external_body]
pub fn mat_dim(m: &Mat) -> (dim: (usize, usize))
    ensures
        dim.0 == mat_cells(*m).len(),
        dim.0 > 0 ==> dim.1 == mat_cells(*m)[0].len(),
{
    m.inner.dim()
}

/// Relies on indexing (`ndarray::ArrayBase::index`): returns the element at
/// row `i`, column `j`.
#[verifier::external_body]
pub fn mat_get(m: &Mat, i: usize, j: usize) -> (v: bool)
    requires
        i < mat_cells(*m).len(),
        j < mat_cells(*m)[i as int].len(),
    ensures
        v == mat_cells(*m)[i as int][j as int],
{
    m.inner[[i, j]]
}

/// Relies on mutable indexing (`ndarray::ArrayBase::index_mut`): overwrites
/// the element at row `i`, column `j`, and nothing else.
#[verifier::external_body]
pub fn mat_set(m: &mut Mat, i: usize, j: usize, v: bool)
    requires
        i < mat_cells(*old(m)).len(),
        j < mat_cells(*old(m))[i as int].len(),
    ensures
        mat_cells(*final(m)) == mat_cells(*old(m)).update(
            i as int,
            mat_cells(*old(m))[i as int].update(j as int, v),
        ),
{
    m.inner[[i, j]] = v;
}

/// Relies on ndarray::Array::from_elem: builds a `depths` x `rows` x `cols`
/// array with every element set to `v`.
#[verifier::external_body]
pub fn stack_new(depths: usize, rows: usize, cols: usize, v: bool) -> (s: Stack)
    requires
        1 <= depths,
        1 <= rows,
        1 <= cols,
        depths * rows * cols <= usize::MAX / 2,
        rows * cols <= usize::MAX / 2,
    ensures
        stack_cells(s) == Seq::new(
            depths as nat,
            |d: int| Seq::new(rows as nat, |i: int| Seq::new(cols as nat, |j: int| v)),
        ),
{
    Stack { inner: ndarray::Array::from_elem((depths, rows, cols), v) }
}

/// Relies on indexing (`ndarray::ArrayBase::index`): returns the element of
/// layer `d` at row `i`, column `j`.
#[verifier::external_body]
pub fn stack_get(s: &Stack, d: usize, i: usize, j: usize) -> (v: bool)
    requires
        d < stack_cells(*s).len(),
        i < stack_cells(*s)[d as int].len(),
        j < stack_cells(*s)[d as int][i as int].len(),
    ensures
        v == stack_cells(*s)[d as int][i as int][j as int],
{
    s.inner[[d, i, j]]
}

/// Relies on mutable indexing (`ndarray::ArrayBase::index_mut`): overwrites
/// the element of layer `d` at row `i`, column `j`, and nothing else.
#[verifier::external_body]
pub fn stack_set(s: &mut Stack, d: usize, i: usize, j: usize, v: bool)
    requires
        d < stack_cells(*old(s)).len(),
        i < stack_cells(*old(s))[d as int].len(),
        j < stack_cells(*old(s))[d as int][i as int].len(),
    ensures
        stack_cells(*final(s)) == stack_cells(*old(s)).update(
            d as int,
            stack_cells(*old(s))[d as int].update(
                i as int,
                stack_cells(*old(s))[d as int][i as int].update(j as int, v),
            ),
        ),
{
    s.inner[[d, i, j]] = v;
}

/// Relies on ndarray's `Clone` impl: the copy holds the same elements.
#[verifier::external_body]
pub fn stack_clone(s: &Stack) -> (t: Stack)
    ensures
        stack_cells(t) == stack_cells(*s),
{
    Stack { inner: s.inner.clone() }
}

} // verus!
