//! Raw rows into typed rows, gathered into row groups.
//!
//! Every data row is read under the settled schema. An empty or absent cell
//! is null, in whatever column it stands. A cell with text that does not
//! spell a value of its column's type fails the file with `TypeCoercion`:
//! it is not replaced by null, and the column is not widened for it.

use vstd::prelude::*;
use crate::error::ConvertError;
use crate::lattice::TypeTag;
use crate::lexical::{boolean_of, integer_of, is_float, is_float_text, parse_boolean, parse_integer};
use crate::infer::data_rows;
use crate::record::{cell_at, copy_bytes, row_view, rows_view};
use crate::schema::{ColumnModel, Schema};

verus! {

/// The number of rows in a full row group.
pub const ROW_GROUP_ROWS: usize = 8192;

/// One cell, read as the type of its column.
#[derive(Debug, PartialEq, Eq)]
pub enum CellValue {
    /// No value: the cell was empty or absent.
    Null,
    /// A 64-bit integer.
    Integer(i64),
    /// A floating-point number, held as the text of its decimal literal.
    Float(Vec<u8>),
    /// A truth value.
    Boolean(bool),
    /// The bytes of the cell as they are.
    Text(Vec<u8>),
}

/// A `CellValue` with its bytes as a sequence.
pub enum CellModel {
    Null,
    Integer(i64),
    Float(Seq<u8>),
    Boolean(bool),
    Text(Seq<u8>),
}

impl View for CellValue {
    type V = CellModel;

    open spec fn view(&self) -> CellModel {
        match self {
            CellValue::Null => CellModel::Null,
            CellValue::Integer(v) => CellModel::Integer(*v),
            CellValue::Float(text) => CellModel::Float(text@),
            CellValue::Boolean(b) => CellModel::Boolean(*b),
            CellValue::Text(bytes) => CellModel::Text(bytes@),
        }
    }
}

/// The rows of one row group, in the order of the file, each aligned to the
/// schema.
#[derive(Debug, PartialEq, Eq)]
pub struct RowBatch {
    pub rows: Vec<Vec<CellValue>>,
}

/// The cells of a typed row, each as its model.
pub open spec fn cells_view(cells: &Vec<CellValue>) -> Seq<CellModel> {
    Seq::new(cells.len() as nat, |i: int| cells[i]@)
}

/// Typed rows, each as its cells.
pub open spec fn typed_view(rows: &Vec<Vec<CellValue>>) -> Seq<Seq<CellModel>> {
    Seq::new(rows.len() as nat, |i: int| cells_view(&rows[i]))
}

impl View for RowBatch {
    type V = Seq<Seq<CellModel>>;

    open spec fn view(&self) -> Seq<Seq<CellModel>> {
        typed_view(&self.rows)
    }
}

/// Row groups, each as its rows.
pub open spec fn batches_view(batches: &Vec<RowBatch>) -> Seq<Seq<Seq<CellModel>>> {
    Seq::new(batches.len() as nat, |i: int| batches[i]@)
}

/// The types of the columns of a schema, in order.
pub open spec fn column_types(columns: Seq<ColumnModel>) -> Seq<TypeTag> {
    Seq::new(columns.len(), |i: int| columns[i].column_type)
}

/// A cell read as type `t`. An empty cell is null under every type. A cell
/// with text must spell a value of the type; under `String` every text does.
/// `None` where it spells none.
pub open spec fn coerced(cell: Seq<u8>, t: TypeTag) -> Option<CellModel> {
    if cell.len() == 0 {
        Some(CellModel::Null)
    } else {
        match t {
            TypeTag::Integer => match integer_of(cell) {
                Some(v) => Some(CellModel::Integer(v)),
                None => None,
            },
            TypeTag::Float => if is_float_text(cell) {
                Some(CellModel::Float(cell))
            } else {
                None
            },
            TypeTag::Boolean => match boolean_of(cell) {
                Some(b) => Some(CellModel::Boolean(b)),
                None => None,
            },
            TypeTag::String => Some(CellModel::Text(cell)),
        }
    }
}

/// Every cell of `row` can be read as the type of its column. Cells beyond
/// the last column do not count.
pub open spec fn row_fits(row: Seq<Seq<u8>>, types: Seq<TypeTag>) -> bool {
    forall|c: int| 0 <= c < types.len() ==> (#[trigger] coerced(cell_at(row, c), types[c])) is Some
}

/// The cells of a row that fits, each read as the type of its column: one
/// cell per column, null where the row has none.
pub open spec fn typed_row(row: Seq<Seq<u8>>, types: Seq<TypeTag>) -> Seq<CellModel> {
    Seq::new(types.len(), |c: int| coerced(cell_at(row, c), types[c])->0)
}

/// Rows that fit, each read by `typed_row`, in the same order.
pub open spec fn typed_rows(rows: Seq<Seq<Seq<u8>>>, types: Seq<TypeTag>) -> Seq<Seq<CellModel>> {
    Seq::new(rows.len(), |r: int| typed_row(rows[r], types))
}

/// Every one of `rows` fits.
pub open spec fn all_rows_fit(rows: Seq<Seq<Seq<u8>>>, types: Seq<TypeTag>) -> bool {
    forall|r: int| 0 <= r < rows.len() ==> row_fits(#[trigger] rows[r], types)
}

/// The number of row groups that `total` rows make: full ones, and one more
/// for what is left over.
pub open spec fn batch_count(total: nat) -> nat {
    (total + ROW_GROUP_ROWS - 1) as nat / (ROW_GROUP_ROWS as nat)
}

/// The rows cut into row groups: group `i` holds the rows from
/// `i * ROW_GROUP_ROWS` on, `ROW_GROUP_ROWS` of them or, in the last group,
/// what is left.
pub open spec fn batched(typed: Seq<Seq<CellModel>>) -> Seq<Seq<Seq<CellModel>>> {
    Seq::new(
        batch_count(typed.len()),
        |i: int|
            typed.subrange(
                i * ROW_GROUP_ROWS,
                if (i + 1) * ROW_GROUP_ROWS < typed.len() {
                    (i + 1) * ROW_GROUP_ROWS
                } else {
                    typed.len() as int
                },
            ),
    )
}

/// The number of rows in all of `batches`.
pub open spec fn total_rows(batches: Seq<Seq<Seq<CellModel>>>) -> nat
    decreases batches.len(),
{
    if batches.len() == 0 {
        0
    } else {
        total_rows(batches.drop_last()) + batches.last().len()
    }
}

/// The rows of all of `batches`, one group after the other.
pub open spec fn joined(batches: Seq<Seq<Seq<CellModel>>>) -> Seq<Seq<CellModel>>
    decreases batches.len(),
{
    if batches.len() == 0 {
        Seq::empty()
    } else {
        joined(batches.drop_last()) + batches.last()
    }
}

/// The first of `rows`, from `from` on, that does not fit; `rows.len()`
/// where all fit.
pub open spec fn first_misfit(rows: Seq<Seq<Seq<u8>>>, types: Seq<TypeTag>, from: int) -> int
    decreases rows.len() - from,
{
    if 0 <= from < rows.len() && row_fits(rows[from], types) {
        first_misfit(rows, types, from + 1)
    } else {
        from
    }
}

/// The first column, from `from` on, whose cell in `row` does not fit;
/// `types.len()` where all fit.
pub open spec fn first_bad_column(row: Seq<Seq<u8>>, types: Seq<TypeTag>, from: int) -> int
    decreases types.len() - from,
{
    if 0 <= from < types.len() && coerced(cell_at(row, from), types[from]) is Some {
        first_bad_column(row, types, from + 1)
    } else {
        from
    }
}

/// What reading `rows` under `types` comes to: the rows, typed and cut into
/// row groups, where all fit; else `TypeCoercion` at the first row that does
/// not fit and, in it, the first column whose cell does not.
pub open spec fn rows_converted(rows: Seq<Seq<Seq<u8>>>, types: Seq<TypeTag>) -> Result<
    Seq<Seq<Seq<CellModel>>>,
    ConvertError,
> {
    if all_rows_fit(rows, types) {
        Ok(batched(typed_rows(rows, types)))
    } else {
        let row = first_misfit(rows, types, 0);
        Err(
            ConvertError::TypeCoercion {
                row: row as usize,
                column: first_bad_column(rows[row], types, 0) as usize,
            },
        )
    }
}

/// A row that does not fit, with every row from `from` up to it fitting, is
/// the first misfit.
pub proof fn lemma_first_misfit(rows: Seq<Seq<Seq<u8>>>, types: Seq<TypeTag>, from: int, at: int)
    requires
        0 <= from <= at < rows.len(),
        forall|k: int| from <= k < at ==> row_fits(#[trigger] rows[k], types),
        !row_fits(rows[at], types),
    ensures
        first_misfit(rows, types, from) == at,
    decreases at - from,
{
    if from < at {
        assert(row_fits(rows[from], types));
        lemma_first_misfit(rows, types, from + 1, at);
    }
}

/// A cell that does not fit, with every cell from `from` up to it fitting,
/// is the first bad one.
pub proof fn lemma_first_bad_column(row: Seq<Seq<u8>>, types: Seq<TypeTag>, from: int, at: int)
    requires
        0 <= from <= at < types.len(),
        forall|k: int| from <= k < at ==> (#[trigger] coerced(cell_at(row, k), types[k])) is Some,
        coerced(cell_at(row, at), types[at]) is None,
    ensures
        first_bad_column(row, types, from) == at,
    decreases at - from,
{
    if from < at {
        assert(coerced(cell_at(row, from), types[from]) is Some);
        lemma_first_bad_column(row, types, from + 1, at);
    }
}

/// Reads one cell as type `t`. `None` where its text spells no value of
/// that type.
pub fn coerce(cell: &Vec<u8>, t: TypeTag) -> (r: Option<CellValue>)
    ensures
        match r {
            Some(v) => coerced(cell@, t) == Some(v@),
            None => coerced(cell@, t) is None,
        },
{
    if cell.len() == 0 {
        return Some(CellValue::Null);
    }
    match t {
        TypeTag::Integer => match parse_integer(cell.as_slice()) {
            Some(v) => Some(CellValue::Integer(v)),
            None => None,
        },
        TypeTag::Float => if is_float(cell.as_slice()) {
            Some(CellValue::Float(copy_bytes(cell)))
        } else {
            None
        },
        TypeTag::Boolean => match parse_boolean(cell.as_slice()) {
            Some(b) => Some(CellValue::Boolean(b)),
            None => None,
        },
        TypeTag::String => Some(CellValue::Text(copy_bytes(cell))),
    }
}

/// Reads a row, cell by cell, as the types of the columns. Fails with the
/// first column whose cell does not fit.
pub fn coerce_row(types: &Vec<TypeTag>, row: &Vec<Vec<u8>>) -> (r: Result<Vec<CellValue>, usize>)
    ensures
        match r {
            Ok(cells) => row_fits(row_view(row), types@) && cells_view(&cells) == typed_row(
                row_view(row),
                types@,
            ),
            Err(c) => {
                &&& c < types.len()
                &&& coerced(cell_at(row_view(row), c as int), types@[c as int]) is None
                &&& forall|k: int|
                    0 <= k < c ==> (#[trigger] coerced(cell_at(row_view(row), k), types@[k])) is Some
            },
        },
{
    let mut cells: Vec<CellValue> = Vec::new();
    let mut c: usize = 0;
    while c < types.len()
        invariant
            c <= types.len(),
            cells.len() == c,
            forall|k: int|
                0 <= k < c ==> (#[trigger] coerced(cell_at(row_view(row), k), types@[k])) == Some(
                    cells[k]@,
                ),
        decreases types.len() - c,
    {
        if c < row.len() {
            match coerce(&row[c], types[c]) {
                Some(v) => cells.push(v),
                None => {
                    return Err(c);
                },
            }
        } else {
            cells.push(CellValue::Null);
        }
        c += 1;
    }
    assert(cells_view(&cells) =~= typed_row(row_view(row), types@));
    Ok(cells)
}

/// The rows that wait for their row group to fill, after `typed` rows in
/// all: the last `typed.len() % ROW_GROUP_ROWS` of them.
pub open spec fn pending(typed: Seq<Seq<CellModel>>) -> Seq<Seq<CellModel>> {
    typed.skip(typed.len() - typed.len() % (ROW_GROUP_ROWS as nat))
}

/// The running state of the conversion pass over one file.
///
/// The rows of the file are pushed one by one, from the first; the header,
/// where there is one, is passed over. Whenever `ROW_GROUP_ROWS` data rows
/// have gathered, they leave as a row group.
pub struct Converter {
    types: Vec<TypeTag>,
    has_header: bool,
    header_pending: bool,
    buffer: Vec<Vec<CellValue>>,
    count: usize,
    records: Ghost<Seq<Seq<Seq<u8>>>>,
}

impl Converter {
    /// The types of the columns.
    pub closed spec fn types(&self) -> Seq<TypeTag> {
        self.types@
    }

    /// Whether the first row of the file is a header.
    pub closed spec fn has_header(&self) -> bool {
        self.has_header
    }

    /// The rows accepted so far, in order, the header among them.
    pub closed spec fn records(&self) -> Seq<Seq<Seq<u8>>> {
        self.records@
    }

    /// The data rows accepted so far.
    pub open spec fn rows(&self) -> Seq<Seq<Seq<u8>>> {
        data_rows(self.records(), self.has_header())
    }

    /// The next row is the header.
    pub open spec fn expects_header(&self) -> bool {
        self.has_header() && self.records().len() == 0
    }

    /// The data rows accepted so far all fit, and those that have not left
    /// in a row group yet are held, typed, in the buffer.
    pub closed spec fn wf(&self) -> bool {
        let rows = data_rows(self.records@, self.has_header);
        &&& self.header_pending == (self.has_header && self.records@.len() == 0)
        &&& self.count == rows.len()
        &&& all_rows_fit(rows, self.types@)
        &&& typed_view(&self.buffer) == pending(typed_rows(rows, self.types@))
    }

    /// Starts a conversion pass under `schema`.
    pub fn new(schema: &Schema, has_header: bool) -> (s: Converter)
        ensures
            s.wf(),
            s.types() == column_types(schema@),
            s.has_header() == has_header,
            s.records() == Seq::<Seq<Seq<u8>>>::empty(),
    {
        let mut types: Vec<TypeTag> = Vec::new();
        let mut c: usize = 0;
        while c < schema.len()
            invariant
                c <= schema@.len(),
                types.len() == c,
                forall|k: int| 0 <= k < c ==> #[trigger] types[k] == schema@[k].column_type,
            decreases schema@.len() - c,
        {
            types.push(schema.column_type(c));
            c += 1;
        }
        assert(types@ =~= column_types(schema@));
        let s = Converter {
            types,
            has_header,
            header_pending: has_header,
            buffer: Vec::new(),
            count: 0,
            records: Ghost(Seq::empty()),
        };
        assert(typed_view(&s.buffer) =~= pending(
            typed_rows(data_rows(s.records@, has_header), s.types@),
        ));
        s
    }

    /// The number of data rows accepted so far.
    pub fn row_count(&self) -> (n: usize)
        requires
            self.wf(),
        ensures
            n == self.rows().len(),
    {
        self.count
    }

    /// Pushes the next row of the file.
    ///
    /// The header is passed over. A data row that fits is accepted; where
    /// it fills a row group, the group leaves with it, in the order of the
    /// file. A data row with a cell that does not fit is refused with
    /// `TypeCoercion`, which names the data row and the first such column,
    /// and the state stays as it was.
    pub fn push_row(&mut self, record: &Vec<Vec<u8>>) -> (r: Result<Option<RowBatch>, ConvertError>)
        requires
            old(self).wf(),
            old(self).rows().len() < usize::MAX,
        ensures
            final(self).wf(),
            final(self).types() == old(self).types(),
            final(self).has_header() == old(self).has_header(),
            match r {
                Ok(flushed) => {
                    let rows = final(self).rows();
                    &&& final(self).records() == old(self).records().push(row_view(record))
                    &&& old(self).expects_header() ==> flushed is None
                    &&& !old(self).expects_header() ==> {
                        &&& row_fits(row_view(record), old(self).types())
                        &&& rows == old(self).rows().push(row_view(record))
                        &&& flushed is Some <==> rows.len() % (ROW_GROUP_ROWS as nat) == 0
                        &&& flushed matches Some(batch) ==> batch@ == typed_rows(
                            rows,
                            old(self).types(),
                        ).skip(rows.len() - ROW_GROUP_ROWS)
                    }
                },
                Err(e) => {
                    &&& !old(self).expects_header()
                    &&& final(self).records() == old(self).records()
                    &&& e matches ConvertError::TypeCoercion { row: at, column }
                    &&& at == old(self).rows().len()
                    &&& column < old(self).types().len()
                    &&& coerced(
                        cell_at(row_view(record), column as int),
                        old(self).types()[column as int],
                    ) is None
                    &&& forall|k: int|
                        0 <= k < column ==> (#[trigger] coerced(
                            cell_at(row_view(record), k),
                            old(self).types()[k],
                        )) is Some
                },
            },
    {
        let ghost before = data_rows(self.records@, self.has_header);
        let ghost fed = self.records@.push(row_view(record));
        if self.header_pending {
            self.header_pending = false;
            self.records = Ghost(fed);
            assert(data_rows(fed, self.has_header) =~= before);
            return Ok(None);
        }
        match coerce_row(&self.types, record) {
            Err(column) => Err(ConvertError::TypeCoercion { row: self.count, column }),
            Ok(cells) => {
                let ghost after = before.push(row_view(record));
                let ghost typed_before = typed_rows(before, self.types@);
                let ghost typed_after = typed_rows(after, self.types@);
                proof {
                    assert(data_rows(fed, self.has_header) =~= after);
                    assert(typed_after =~= typed_before.push(
                        typed_row(row_view(record), self.types@),
                    ));
                    assert(all_rows_fit(after, self.types@)) by {
                        assert forall|r: int| 0 <= r < after.len() implies row_fits(
                            #[trigger] after[r],
                            self.types@,
                        ) by {
                            if r < before.len() {
                                assert(after[r] == before[r]);
                            }
                        }
                    }
                }
                let ghost held = typed_view(&self.buffer);
                self.buffer.push(cells);
                self.count = self.count + 1;
                self.records = Ghost(fed);
                assert(typed_view(&self.buffer) =~= held.push(
                    typed_row(row_view(record), self.types@),
                ));
                if self.buffer.len() == ROW_GROUP_ROWS {
                    let mut full: Vec<Vec<CellValue>> = Vec::new();
                    std::mem::swap(&mut self.buffer, &mut full);
                    let batch = RowBatch { rows: full };
                    assert(batch@ =~= typed_after.skip(after.len() - ROW_GROUP_ROWS));
                    assert(typed_view(&self.buffer) =~= pending(typed_after));
                    Ok(Some(batch))
                } else {
                    assert(typed_view(&self.buffer) =~= pending(typed_after));
                    Ok(None)
                }
            },
        }
    }

    /// Ends the pass and hands out the rows that still wait, as the last
    /// row group; `None` where none wait.
    pub fn finish(self) -> (r: Option<RowBatch>)
        requires
            self.wf(),
        ensures
            r is Some <==> self.rows().len() % (ROW_GROUP_ROWS as nat) != 0,
            r matches Some(batch) ==> batch@ == pending(typed_rows(self.rows(), self.types())),
    {
        proof {
            let typed = typed_rows(data_rows(self.records@, self.has_header), self.types@);
            assert(typed_view(&self.buffer).len() == self.buffer.len());
            assert(pending(typed).len() == typed.len() % (ROW_GROUP_ROWS as nat));
        }
        if self.buffer.len() == 0 {
            None
        } else {
            Some(RowBatch { rows: self.buffer })
        }
    }
}

/// The first `k` row groups hold the first `k * ROW_GROUP_ROWS` rows, or
/// all rows where there are fewer.
pub proof fn lemma_joined_prefix(typed: Seq<Seq<CellModel>>, k: int)
    requires
        0 <= k <= batch_count(typed.len()),
    ensures
        joined(batched(typed).take(k)) == typed.take(
            if k * ROW_GROUP_ROWS < typed.len() {
                k * ROW_GROUP_ROWS
            } else {
                typed.len() as int
            },
        ),
        total_rows(batched(typed).take(k)) == if k * ROW_GROUP_ROWS < typed.len() {
            k * ROW_GROUP_ROWS
        } else {
            typed.len() as int
        },
    decreases k,
{
    let groups = batched(typed).take(k);
    if k == 0 {
        assert(joined(groups) =~= typed.take(0));
    } else {
        lemma_joined_prefix(typed, k - 1);
        assert(groups.drop_last() =~= batched(typed).take(k - 1));
        assert(groups.last() == batched(typed)[k - 1]);
        let end: int = if k * ROW_GROUP_ROWS < typed.len() {
            k * ROW_GROUP_ROWS
        } else {
            typed.len() as int
        };
        assert(joined(groups) =~= typed.take(end));
    }
}

/// Cutting rows into row groups loses none, adds none and keeps their
/// order: the groups, one after the other, are the rows, and their sizes add
/// up to the number of rows. No group is empty or over-full.
pub proof fn lemma_batched_rows(typed: Seq<Seq<CellModel>>)
    ensures
        joined(batched(typed)) == typed,
        total_rows(batched(typed)) == typed.len(),
        forall|i: int|
            0 <= i < batched(typed).len() ==> 0 < (#[trigger] batched(typed)[i]).len()
                <= ROW_GROUP_ROWS,
{
    let n = batch_count(typed.len());
    lemma_joined_prefix(typed, n as int);
    assert(batched(typed).take(n as int) =~= batched(typed));
    assert(typed.take(typed.len() as int) =~= typed);
}

/// Converts the data rows of a file under a settled schema and cuts them
/// into row groups.
///
/// `records` are the rows of the file in order, the header first where
/// `has_header` says that there is one; the header is skipped. Every data
/// row is read anew, whether or not it was sampled. Fails with
/// `TypeCoercion` at the first row, and in it the first column, whose cell
/// does not fit the column's type.
pub fn convert_rows(schema: &Schema, records: &Vec<Vec<Vec<u8>>>, has_header: bool) -> (r: Result<
    Vec<RowBatch>,
    ConvertError,
>)
    ensures
        match r {
            Ok(batches) => rows_converted(
                data_rows(rows_view(records), has_header),
                column_types(schema@),
            ) == Ok::<Seq<Seq<Seq<CellModel>>>, ConvertError>(batches_view(&batches)),
            Err(e) => rows_converted(
                data_rows(rows_view(records), has_header),
                column_types(schema@),
            ) == Err::<Seq<Seq<Seq<CellModel>>>, ConvertError>(e),
        },
{
    let ghost all = rows_view(records);
    let ghost data = data_rows(all, has_header);
    let ghost types = column_types(schema@);
    let ghost typed = typed_rows(data, types);
    let ghost skipped: int = if has_header && records.len() > 0 {
        1
    } else {
        0
    };
    let mut converter = Converter::new(schema, has_header);
    let mut batches: Vec<RowBatch> = Vec::new();
    let mut i: usize = 0;
    proof {
        assert(converter.records() =~= all.take(0));
    }
    while i < records.len()
        invariant
            i <= records.len(),
            all == rows_view(records),
            data == data_rows(all, has_header),
            skipped == if has_header && records.len() > 0 { 1int } else { 0int },
            data.len() == records.len() - skipped,
            types == column_types(schema@),
            typed == typed_rows(data, types),
            converter.wf(),
            converter.types() == types,
            converter.has_header() == has_header,
            converter.records() == all.take(i as int),
            converter.rows().len() == if i < skipped { 0int } else { i - skipped },
            forall|k: int| 0 <= k < i - skipped ==> row_fits(#[trigger] data[k], types),
            batches.len() == converter.rows().len() / (ROW_GROUP_ROWS as nat),
            forall|b: int|
                0 <= b < batches.len() ==> (#[trigger] batches[b])@ == typed.subrange(
                    b * ROW_GROUP_ROWS,
                    (b + 1) * ROW_GROUP_ROWS,
                ),
        decreases records.len() - i,
    {
        let ghost k = i - skipped;
        proof {
            assert(all.take(i + 1) =~= all.take(i as int).push(row_view(&records[i as int])));
            if i >= skipped {
                assert(data[k] == row_view(&records[i as int]));
                assert(data_rows(all.take(i + 1), has_header) =~= data.take(k + 1));
                assert(data_rows(all.take(i as int), has_header) =~= data.take(k));
            } else {
                assert(data_rows(all.take(i + 1), has_header) =~= data.take(0));
            }
        }
        match converter.push_row(&records[i]) {
            Err(e) => {
                proof {
                    match e {
                        ConvertError::TypeCoercion { row, column } => {
                            assert(!row_fits(data[row as int], types));
                            lemma_first_misfit(data, types, 0, row as int);
                            lemma_first_bad_column(data[row as int], types, 0, column as int);
                        },
                        _ => {},
                    }
                }
                return Err(e);
            },
            Ok(flushed) => {
                proof {
                    if i >= skipped {
                        assert(typed_rows(data.take(k + 1), types) =~= typed.take(k + 1));
                    }
                }
                match flushed {
                    Some(batch) => {
                        proof {
                            assert(batch@ =~= typed.subrange(k + 1 - ROW_GROUP_ROWS, k + 1));
                        }
                        batches.push(batch);
                    },
                    None => {},
                }
            },
        }
        i += 1;
    }
    let ghost n = data.len() as int;
    proof {
        assert(all.take(i as int) =~= all);
    }
    match converter.finish() {
        Some(batch) => {
            batches.push(batch);
        },
        None => {},
    }
    proof {
        assert(batches_view(&batches) =~= batched(typed)) by {
            assert(batches.len() == batch_count(typed.len()));
            assert forall|b: int| 0 <= b < batches.len() implies batches_view(&batches)[b]
                =~= batched(typed)[b] by {
                if (b + 1) * ROW_GROUP_ROWS > n {
                    assert(batches[b]@ == pending(typed));
                }
            }
        }
    }
    Ok(batches)
}

} // verus!
