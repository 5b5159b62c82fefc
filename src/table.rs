//! The board of the pentomino solver: rows of cells, where `' '` is an empty
//! cell, `'~'` a cell that cannot be covered and a letter a placed piece.
use vstd::prelude::*;

verus! {

/// Rows of cells; every row has the same length.
pub type Table = Vec<Vec<char>>;

/// The board has at least one row, and its number of rows and the length
/// of its first row fit in an `i32`.
pub open spec fn dims_fit(table: Seq<Vec<char>>) -> bool {
    0 < table.len() <= i32::MAX && table[0]@.len() <= i32::MAX
}

/// Besides, all rows have one length.
pub open spec fn rectangular(table: Seq<Vec<char>>) -> bool {
    &&& dims_fit(table)
    &&& forall|i: int| 0 <= i < table.len() ==> #[trigger] table[i]@.len() == table[0]@.len()
}

/// The cell at row `x`, column `y`.
pub open spec fn cell(table: Seq<Vec<char>>, x: int, y: int) -> char {
    table[x]@[y]
}

/// Position of cell `(x, y)` when the board is read row by row.
pub open spec fn linear(table: Seq<Vec<char>>, x: int, y: int) -> int {
    x * table[0]@.len() + y
}

/// Converts a board coordinate, which must not be negative, to an index.
pub fn idx(i: i32) -> (r: usize)
    requires
        i >= 0,
    ensures
        r == i,
{
    i as usize
}

/// Number of rows and of columns.
pub fn dim(table: &Table) -> (r: (i32, i32))
    requires
        dims_fit(table@),
    ensures
        r.0 == table@.len(),
        r.1 == table@[0]@.len(),
{
    (table.len() as i32, table[0].len() as i32)
}

/// Whether `(x, y)` lies on the board.
pub fn ok(x: i32, y: i32, table: &Table) -> (r: bool)
    requires
        dims_fit(table@),
    ensures
        r == (0 <= x < table@.len() && 0 <= y < table@[0]@.len()),
{
    let d = dim(table);
    0 <= x && x < d.0 && 0 <= y && y < d.1
}

/// The first empty cell at `(x, y)` or after it, reading row by row. One
/// must exist.
pub fn next_empty(x: i32, y: i32, table: &Table) -> (r: (i32, i32))
    requires
        rectangular(table@),
        0 <= x < table@.len(),
        0 <= y < table@[0]@.len(),
        exists|i: int, j: int|
            0 <= i < table@.len() && 0 <= j < table@[0]@.len() && linear(table@, x as int, y as int)
                <= linear(table@, i, j) && #[trigger] cell(table@, i, j) == ' ',
    ensures
        0 <= r.0 < table@.len(),
        0 <= r.1 < table@[0]@.len(),
        cell(table@, r.0 as int, r.1 as int) == ' ',
        linear(table@, x as int, y as int) <= linear(table@, r.0 as int, r.1 as int),
        forall|i: int, j: int|
            0 <= i < table@.len() && 0 <= j < table@[0]@.len() && linear(table@, x as int, y as int)
                <= linear(table@, i, j) < linear(table@, r.0 as int, r.1 as int) ==> #[trigger] cell(
                table@,
                i,
                j,
            ) != ' ',
{
    let ghost t = table@;
    let ghost cols = t[0]@.len() as int;
    let ghost rows = t.len() as int;
    let ghost start = linear(t, x as int, y as int);
    let ghost (ti, tj) = choose|i: int, j: int|
        0 <= i < rows && 0 <= j < cols && start <= linear(t, i, j) && #[trigger] cell(t, i, j)
            == ' ';
    let mut cx = x;
    let mut cy = y;
    while table[idx(cx)][idx(cy)] != ' '
        invariant
            t == table@,
            rectangular(t),
            cols == t[0]@.len(),
            rows == t.len(),
            0 <= cx < rows,
            0 <= cy < cols,
            0 <= ti < rows,
            0 <= tj < cols,
            cell(t, ti, tj) == ' ',
            start == linear(t, x as int, y as int),
            start <= linear(t, cx as int, cy as int) <= linear(t, ti, tj),
            forall|i: int, j: int|
                0 <= i < rows && 0 <= j < cols && start <= linear(t, i, j) < linear(
                    t,
                    cx as int,
                    cy as int,
                ) ==> #[trigger] cell(t, i, j) != ' ',
        decreases linear(t, ti, tj) - linear(t, cx as int, cy as int),
    {
        proof {
            assert(t[cx as int]@.len() == cols);
            if linear(t, cx as int, cy as int) == linear(t, ti, tj) {
                assert(cx == ti && cy == tj) by (nonlinear_arith)
                    requires
                        cx * cols + cy == ti * cols + tj,
                        0 <= cy < cols,
                        0 <= tj < cols,
                ;
            }
        }
        let ghost (ox, oy) = (cx as int, cy as int);
        if cy + 1 >= dim(table).1 {
            proof {
                assert((ox + 1) * cols + 0 == ox * cols + oy + 1) by (nonlinear_arith)
                    requires
                        oy + 1 == cols,
                ;
                assert(ox + 1 <= ti) by (nonlinear_arith)
                    requires
                        ox * cols + oy < ti * cols + tj,
                        oy + 1 == cols,
                        0 <= tj < cols,
                ;
            }
            cx = cx + 1;
            cy = 0;
        } else {
            cy = cy + 1;
        }
        proof {
            assert forall|i: int, j: int|
                0 <= i < rows && 0 <= j < cols && start <= linear(t, i, j) < linear(
                    t,
                    cx as int,
                    cy as int,
                ) implies #[trigger] cell(t, i, j) != ' ' by {
                if linear(t, i, j) == linear(t, ox, oy) {
                    assert(i == ox && j == oy) by (nonlinear_arith)
                        requires
                            i * cols + j == ox * cols + oy,
                            0 <= j < cols,
                            0 <= oy < cols,
                    ;
                }
            }
        }
    }
    (cx, cy)
}

} // verus!
