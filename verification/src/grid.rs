//! Storage for the tableau: a two-dimensional ndarray of `i32`, held in a
//! wrapper struct the verifier treats as opaque.  The verifier sees the
//! array through `grid_seq`, the sequence of its rows (each row the sequence
//! of its entries in column order); the few ndarray calls the engine makes
//! are wrapped here with contracts over that view.
use vstd::prelude::*;

verus! {

/// An `n` by `m` grid of `i32`, stored as an ndarray array.  Opaque to the
/// verifier; `grid_seq` names its contents.
#[verifier::external_body]
pub struct Grid {
    inner: ndarray::Array2<i32>,
}

/// What a grid holds: its rows in order, each row the sequence of its
/// entries in column order.
pub uninterp spec fn grid_seq(g: Grid) -> Seq<Seq<i32>>;

/// An admissible grid size: at least one row, and few enough cells that the
/// byte count of an `n` by `n + 1` grid of `i32` stays within `isize` even
/// on a 32-bit machine (`from_elem` checks that bound and panics past it).
pub open spec fn grid_size_ok(n: int) -> bool {
    1 <= n && n * (n + 1) <= 0x1fff_ffff
}

/// An admissible row count is itself small.
pub proof fn lemma_size_ok_bound(n: int)
    requires
        grid_size_ok(n),
    ensures
        n <= 0x1fff_ffff,
{
    assert(n <= n * (n + 1)) by (nonlinear_arith)
        requires
            n >= 1,
    ;
}

/// Relies on ndarray's `Array2::from_elem`: builds an `n` by `m` array with
/// every element equal to the given one.  The size bound excludes the
/// size-overflow panic inside `from_elem`.
#[verifier::external_body]
pub(crate) fn grid_new(n: usize, m: usize) -> (g: Grid)
    requires
        grid_size_ok(n as int),
        m == n + 1,
    ensures
        grid_seq(g).len() == n,
        forall|i: int| 0 <= i < n ==> (#[trigger] grid_seq(g)[i]).len() == m,
        forall|i: int, j: int| 0 <= i < n && 0 <= j < m ==> #[trigger] grid_seq(g)[i][j] == 0i32,
{
    Grid { inner: ndarray::Array2::from_elem((n, m), 0) }
}

/// Relies on ndarray's `Index` impl for `Array2`: reads the element at row
/// `i`, column `j`.
#[verifier::external_body]
pub(crate) fn grid_get(g: &Grid, i: usize, j: usize) -> (v: i32)
    requires
        i < grid_seq(*g).len(),
        j < grid_seq(*g)[i as int].len(),
    ensures
        v == grid_seq(*g)[i as int][j as int],
{
    g.inner[(i, j)]
}

/// Relies on ndarray's `IndexMut` impl for `Array2`: overwrites the element
/// at row `i`, column `j` and leaves every other element in place.
#[verifier::external_body]
pub(crate) fn grid_set(g: &mut Grid, i: usize, j: usize, v: i32)
    requires
        i < grid_seq(*old(g)).len(),
        j < grid_seq(*old(g))[i as int].len(),
    ensures
        grid_seq(*final(g)) == grid_seq(*old(g)).update(
            i as int,
            grid_seq(*old(g))[i as int].update(j as int, v),
        ),
{
    g.inner[(i, j)] = v;
}

/// Relies on ndarray's `Clone` impl for `Array2`: an element-for-element
/// copy of the array.
#[verifier::external_body]
pub(crate) fn grid_clone(g: &Grid) -> (c: Grid)
    ensures
        grid_seq(c) == grid_seq(*g),
{
    Grid { inner: g.inner.clone() }
}

/// Relies on ndarray's `Array2::nrows`: the number of rows.
#[verifier::external_body]
pub(crate) fn grid_nrows(g: &Grid) -> (n: usize)
    ensures
        n == grid_seq(*g).len(),
{
    g.inner.nrows()
}

} // verus!
