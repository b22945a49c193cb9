use vstd::prelude::*;

verus! {

/// The adjacency storage of the rules: a two-dimensional `ndarray` array
/// whose cell `(row, column)` holds a list of indices.
#[verifier::external_body]
pub struct SupportTable {
    cells: ndarray::Array2<Vec<usize>>,
}

/// What a table holds: `table_cells(t)[row][column]` is the list stored at
/// `(row, column)`.
pub uninterp spec fn table_cells(t: SupportTable) -> Seq<Seq<Seq<usize>>>;

/// Whether the table has `rows` rows of `cols` cells.
pub open spec fn table_shape(t: SupportTable, rows: int, cols: int) -> bool {
    &&& table_cells(t).len() == rows
    &&& forall|row: int| 0 <= row < rows ==> (#[trigger] table_cells(t)[row]).len() == cols
}

/// `ndarray::Array2::from_elem` with the shape `(rows, cols)` and an empty
/// list as the element: every cell of the new array holds an empty list.
/// The outside function panics where the product of the lengths that are
/// not zero is more than `isize::MAX`.
#[verifier::external_body]
pub(crate) fn table_new(rows: usize, cols: usize) -> (t: SupportTable)
    requires
        rows <= isize::MAX,
        cols <= isize::MAX,
        rows * cols <= isize::MAX,
    ensures
        table_cells(t) == Seq::new(
            rows as nat,
            |row: int| Seq::new(cols as nat, |col: int| Seq::<usize>::empty()),
        ),
{
    SupportTable { cells: ndarray::Array2::from_elem((rows, cols), Vec::new()) }
}

/// `Index<(usize, usize)>` of `ndarray::ArrayBase`: the element at
/// `(row, col)`. The outside function panics on an index outside the array.
#[verifier::external_body]
pub(crate) fn table_get(t: &SupportTable, row: usize, col: usize) -> (list: &Vec<usize>)
    requires
        row < table_cells(*t).len(),
        col < table_cells(*t)[row as int].len(),
    ensures
        list@ == table_cells(*t)[row as int][col as int],
{
    &t.cells[(row, col)]
}

/// `IndexMut<(usize, usize)>` of `ndarray::ArrayBase`: puts `list` at
/// `(row, col)` and leaves every other cell as it was. The outside function
/// panics on an index outside the array.
#[verifier::external_body]
pub(crate) fn table_set(t: &mut SupportTable, row: usize, col: usize, list: Vec<usize>)
    requires
        row < table_cells(*old(t)).len(),
        col < table_cells(*old(t))[row as int].len(),
    ensures
        table_cells(*final(t)) == table_cells(*old(t)).update(
            row as int,
            table_cells(*old(t))[row as int].update(col as int, list@),
        ),
{
    t.cells[(row, col)] = list;
}

} // verus!
