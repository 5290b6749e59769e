//! Rows of raw cells, as the reader of a delimited file hands them over.

use vstd::prelude::*;

verus! {

/// The cells of a row, each as its bytes.
pub open spec fn row_view(row: &Vec<Vec<u8>>) -> Seq<Seq<u8>> {
    Seq::new(row.len() as nat, |i: int| row[i]@)
}

/// The rows of a table, each as its cells.
pub open spec fn rows_view(rows: &Vec<Vec<Vec<u8>>>) -> Seq<Seq<Seq<u8>>> {
    Seq::new(rows.len() as nat, |i: int| row_view(&rows[i]))
}

/// The cell of `row` in column `c`. A row that ends before column `c` has an
/// empty cell there.
pub open spec fn cell_at(row: Seq<Seq<u8>>, c: int) -> Seq<u8> {
    if 0 <= c < row.len() {
        row[c]
    } else {
        Seq::empty()
    }
}

/// A copy of `bytes`.
pub fn copy_bytes(bytes: &Vec<u8>) -> (r: Vec<u8>)
    ensures
        r@ == bytes@,
{
    let mut out: Vec<u8> = Vec::new();
    let mut i: usize = 0;
    while i < bytes.len()
        invariant
            i <= bytes.len(),
            out@ == bytes@.take(i as int),
        decreases bytes.len() - i,
    {
        out.push(bytes[i]);
        assert(bytes@.take(i + 1) =~= bytes@.take(i as int).push(bytes@[i as int]));
        i += 1;
    }
    assert(bytes@.take(bytes.len() as int) =~= bytes@);
    out
}

} // verus!
