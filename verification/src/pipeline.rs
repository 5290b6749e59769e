//! The conversion of one file, from its rows to its typed row groups.

use vstd::prelude::*;
use crate::convert::{
    CellModel, RowBatch, batches_view, coerced, column_types, convert_rows, joined,
    lemma_batched_rows, row_fits, rows_converted, total_rows, typed_rows,
};
use crate::error::ConvertError;
use crate::infer::{
    candidates_for, classify_text, column_evidence, column_names, data_rows, infer_candidates,
    inferred, lemma_evidence_grows, lemma_evidence_step, lemma_inference_ignores_later_rows,
    lemma_sampling_monotonic, sample_len,
};
use crate::lattice::TypeTag;
use crate::record::{cell_at, rows_view};
use crate::schema::{ColumnModel, Schema, finalize, finalized, settled_type};

verus! {

/// A converted file: its schema and its rows, typed and cut into row groups.
#[derive(Debug, PartialEq, Eq)]
pub struct Table {
    pub schema: Schema,
    pub batches: Vec<RowBatch>,
}

/// A `Table` as plain values.
pub struct TableModel {
    pub columns: Seq<ColumnModel>,
    pub batches: Seq<Seq<Seq<CellModel>>>,
}

impl View for Table {
    type V = TableModel;

    open spec fn view(&self) -> TableModel {
        TableModel { columns: self.schema@, batches: batches_view(&self.batches) }
    }
}

/// What the conversion of a file comes to.
///
/// `EmptyFile` where there is no data row, `EmptySchema` where there is no
/// column. Else the schema is settled from the sample, and every data row is
/// read under it: the table where all fit, `TypeCoercion` at the first cell,
/// in the order of the file, that does not.
pub open spec fn converted(records: Seq<Seq<Seq<u8>>>, has_header: bool, sample_size: nat) -> Result<
    TableModel,
    ConvertError,
> {
    match inferred(records, has_header, sample_size) {
        None => Err(ConvertError::EmptyFile),
        Some(cs) => if cs.len() == 0 {
            Err(ConvertError::EmptySchema)
        } else {
            let columns = finalized(cs);
            match rows_converted(data_rows(records, has_header), column_types(columns)) {
                Ok(batches) => Ok(TableModel { columns, batches }),
                Err(e) => Err(e),
            }
        },
    }
}

/// Converts one file: samples its rows, settles its schema, and reads every
/// data row under it.
///
/// `records` are the rows of the file in order, the header first where
/// `has_header` says that there is one. The result depends on nothing else:
/// the same rows under the same settings give the same table, or the same
/// error.
pub fn convert_table(records: &Vec<Vec<Vec<u8>>>, has_header: bool, sample_size: usize) -> (r:
    Result<Table, ConvertError>)
    ensures
        match r {
            Ok(table) => converted(rows_view(records), has_header, sample_size as nat) == Ok::<
                TableModel,
                ConvertError,
            >(table@) && table.schema.wf(),
            Err(e) => converted(rows_view(records), has_header, sample_size as nat) == Err::<
                TableModel,
                ConvertError,
            >(e),
        },
{
    let candidates = match infer_candidates(records, has_header, sample_size) {
        Ok(cs) => cs,
        Err(e) => {
            return Err(e);
        },
    };
    let schema = match finalize(candidates) {
        Ok(s) => s,
        Err(e) => {
            return Err(e);
        },
    };
    match convert_rows(&schema, records, has_header) {
        Ok(batches) => Ok(Table { schema, batches }),
        Err(e) => Err(e),
    }
}

/// Converting the same file twice gives the same result, wherever the
/// output goes: two results of one conversion are equal, and where they are
/// tables, they have the same columns, as many rows, and row by row the same
/// values.
pub proof fn lemma_conversion_repeatable(
    records: Seq<Seq<Seq<u8>>>,
    has_header: bool,
    sample_size: nat,
    first: Result<TableModel, ConvertError>,
    second: Result<TableModel, ConvertError>,
)
    requires
        first == converted(records, has_header, sample_size),
        second == converted(records, has_header, sample_size),
    ensures
        first == second,
        first matches Ok(a) ==> second matches Ok(b) && a.columns == b.columns && total_rows(
            a.batches,
        ) == total_rows(b.batches) && joined(a.batches) == joined(b.batches),
{
}

/// A conversion that succeeds keeps every data row: the row groups hold as
/// many rows as the file has data rows, and, one group after the other, they
/// are those rows, typed, in the order of the file.
pub proof fn lemma_row_count_preserved(
    records: Seq<Seq<Seq<u8>>>,
    has_header: bool,
    sample_size: nat,
)
    requires
        converted(records, has_header, sample_size) is Ok,
    ensures
        ({
            let table = converted(records, has_header, sample_size)->Ok_0;
            let data = data_rows(records, has_header);
            &&& total_rows(table.batches) == data.len()
            &&& joined(table.batches) == typed_rows(data, column_types(table.columns))
            &&& table.columns.len() == column_names(records, has_header).len()
        }),
{
    let table = converted(records, has_header, sample_size)->Ok_0;
    let data = data_rows(records, has_header);
    lemma_batched_rows(typed_rows(data, column_types(table.columns)));
}

/// Two passes over a file give what one look at all its rows gives: the
/// schema may be settled from the first `k` rows alone, as soon as they fill
/// the sample and hold a data row, and the rows then be read under it.
pub proof fn lemma_two_passes(
    records: Seq<Seq<Seq<u8>>>,
    has_header: bool,
    sample_size: nat,
    k: int,
)
    requires
        0 <= k <= records.len(),
        k == records.len() || {
            let seen = data_rows(records.take(k), has_header);
            seen.len() >= sample_size && seen.len() > 0
        },
    ensures
        converted(records, has_header, sample_size) == match inferred(
            records.take(k),
            has_header,
            sample_size,
        ) {
            None => Err::<TableModel, ConvertError>(ConvertError::EmptyFile),
            Some(cs) => if cs.len() == 0 {
                Err(ConvertError::EmptySchema)
            } else {
                match rows_converted(
                    data_rows(records, has_header),
                    column_types(finalized(cs)),
                ) {
                    Ok(batches) => Ok(TableModel { columns: finalized(cs), batches }),
                    Err(e) => Err(e),
                }
            },
        },
{
    lemma_inference_ignores_later_rows(records, has_header, sample_size, k);
}

/// A cell that speaks for a type can be read as that type and as every
/// type that it widens to.
pub proof fn lemma_coerce_upward(cell: Seq<u8>, t: TypeTag, wider: TypeTag)
    requires
        classify_text(cell) == Some(t),
        t.le(wider),
    ensures
        coerced(cell, wider) is Some,
{
    if t == TypeTag::Integer && wider == TypeTag::Float {
        crate::lexical::lemma_integer_shape_is_float_text(cell);
    }
}

/// Every sampled cell can be read as the type that its column settles to.
pub proof fn lemma_sampled_cell_fits(rows: Seq<Seq<Seq<u8>>>, c: int, n: int, r: int)
    requires
        0 <= r < n <= rows.len(),
    ensures
        coerced(cell_at(rows[r], c), settled_type(column_evidence(rows, c, n))) is Some,
{
    let cell = cell_at(rows[r], c);
    if cell.len() > 0 {
        lemma_evidence_step(rows, c, r);
        lemma_evidence_grows(rows, c, r + 1, n);
        crate::lattice::lemma_evidence_join_grows(
            column_evidence(rows, c, r),
            classify_text(cell),
            column_evidence(rows, c, n),
        );
        let t = classify_text(cell)->0;
        lemma_coerce_upward(cell, t, settled_type(column_evidence(rows, c, n)));
    }
}

/// Where the sample takes in every data row, no cell can fail to fit: the
/// conversion of a file with data rows and columns succeeds.
pub proof fn lemma_full_sample_converts(
    records: Seq<Seq<Seq<u8>>>,
    has_header: bool,
    sample_size: nat,
)
    requires
        data_rows(records, has_header).len() > 0,
        column_names(records, has_header).len() > 0,
        sample_size >= data_rows(records, has_header).len(),
    ensures
        converted(records, has_header, sample_size) is Ok,
{
    let data = data_rows(records, has_header);
    let names = column_names(records, has_header);
    let cs = candidates_for(names, data, sample_size);
    let types = column_types(finalized(cs));
    let n = sample_len(data.len(), sample_size);
    assert forall|r: int| 0 <= r < data.len() implies row_fits(#[trigger] data[r], types) by {
        assert forall|c: int| 0 <= c < types.len() implies (#[trigger] coerced(
            cell_at(data[r], c),
            types[c],
        )) is Some by {
            lemma_sampled_cell_fits(data, c, n, r);
        }
    }
}

/// For a fixed file, a larger sample never narrows the type that a column
/// settles to, nor loses its nulls. One case is left out, the only one in
/// which the type does narrow: a column without a value in the smaller
/// sample settles to `String`, and a larger sample that finds values in it
/// may settle it to a narrower type.
pub proof fn lemma_settled_type_monotonic(
    names: Seq<Seq<u8>>,
    rows: Seq<Seq<Seq<u8>>>,
    small: nat,
    large: nat,
    c: int,
)
    requires
        small <= large,
        0 <= c < names.len(),
        candidates_for(names, rows, small)[c].widest_type is Some || candidates_for(
            names,
            rows,
            large,
        )[c].widest_type is None || candidates_for(names, rows, large)[c].widest_type == Some(
            TypeTag::String,
        ),
    ensures
        finalized(candidates_for(names, rows, small))[c].column_type.le(
            finalized(candidates_for(names, rows, large))[c].column_type,
        ),
        finalized(candidates_for(names, rows, small))[c].nullable ==> finalized(
            candidates_for(names, rows, large),
        )[c].nullable,
{
    lemma_sampling_monotonic(names, rows, small, large, c);
}

} // verus!
