//! The grid storage: a `toodee::TooDee<usize>` seen through its row-major contents.
use toodee::TooDee;
use vstd::prelude::*;

verus! {

#[verifier::external_type_specification]
#[verifier::external_body]
#[verifier::reject_recursive_types(T)]
pub struct ExTooDee<T>(TooDee<T>);

/// The cells of a `TooDee`, row after row: cell `(col, row)` sits at `row * cols + col`.
pub uninterp spec fn toodee_cells(t: TooDee<usize>) -> Seq<usize>;

/// The number of columns of a `TooDee`.
pub uninterp spec fn toodee_cols(t: TooDee<usize>) -> nat;

/// The number of rows of a `TooDee`.
pub uninterp spec fn toodee_rows(t: TooDee<usize>) -> nat;

/// Relies on `TooDee::init`: a `cols` by `rows` array, every cell holding `value`.
/// It panics when `cols * rows` overflows or the `Vec` cannot be allocated, and when
/// exactly one of the two is zero.
#[verifier::external_body]
pub(crate) fn toodee_init(cols: usize, rows: usize, value: usize) -> (r: TooDee<usize>)
    requires
        cols >= 1,
        rows >= 1,
        cols * rows <= isize::MAX as nat / 8,
    ensures
        toodee_cols(r) == cols,
        toodee_rows(r) == rows,
        toodee_cells(r) == Seq::new((cols * rows) as nat, |i: int| value),
{
    TooDee::init(cols, rows, value)
}

/// Relies on `Index<Coordinate> for TooDee`: `t[(col, row)]` reads `data[row * num_cols + col]`
/// and panics outside the array.
#[verifier::external_body]
pub(crate) fn toodee_get(t: &TooDee<usize>, col: usize, row: usize) -> (r: usize)
    requires
        col < toodee_cols(*t),
        row < toodee_rows(*t),
        toodee_cells(*t).len() == toodee_cols(*t) * toodee_rows(*t),
    ensures
        r == toodee_cells(*t)[row * toodee_cols(*t) + col],
{
    t[(col, row)]
}

/// Relies on `IndexMut<Coordinate> for TooDee`: `t[(col, row)] = value` writes
/// `data[row * num_cols + col]` and nothing else; it panics outside the array.
#[verifier::external_body]
pub(crate) fn toodee_set(t: &mut TooDee<usize>, col: usize, row: usize, value: usize)
    requires
        col < toodee_cols(*old(t)),
        row < toodee_rows(*old(t)),
        toodee_cells(*old(t)).len() == toodee_cols(*old(t)) * toodee_rows(*old(t)),
    ensures
        toodee_cols(*final(t)) == toodee_cols(*old(t)),
        toodee_rows(*final(t)) == toodee_rows(*old(t)),
        toodee_cells(*final(t)) == toodee_cells(*old(t)).update(
            row * toodee_cols(*old(t)) + col,
            value,
        ),
{
    t[(col, row)] = value;
}

/// Relies on `Clone for TooDee`: the copy has the same dimensions and cells.
#[verifier::external_body]
pub(crate) fn toodee_clone(t: &TooDee<usize>) -> (r: TooDee<usize>)
    ensures
        toodee_cols(r) == toodee_cols(*t),
        toodee_rows(r) == toodee_rows(*t),
        toodee_cells(r) == toodee_cells(*t),
{
    t.clone()
}

} // verus!
