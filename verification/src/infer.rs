//! Column types from a sample of rows.

use vstd::prelude::*;
use crate::error::ConvertError;
use crate::lattice::{TypeTag, evidence_join, evidence_le, widen_evidence};
use crate::lexical::{
    append_decimal, boolean_of, decimal_digits, integer_of, is_float, is_float_text,
    parse_boolean, parse_integer,
};
use crate::record::{cell_at, copy_bytes, row_view, rows_view};

verus! {

/// What the sample has shown of one column.
#[derive(Debug, PartialEq, Eq)]
pub struct ColumnCandidate {
    /// The column's name: from the header, or made up from its position.
    pub name: Vec<u8>,
    /// Whether a sampled row had no value in this column.
    pub seen_null: bool,
    /// The narrowest type that holds every sampled value of the column, or
    /// `None` where the sample held no value.
    pub widest_type: Option<TypeTag>,
}

/// A `ColumnCandidate` with its name as a sequence of bytes.
pub struct CandidateModel {
    pub name: Seq<u8>,
    pub seen_null: bool,
    pub widest_type: Option<TypeTag>,
}

impl View for ColumnCandidate {
    type V = CandidateModel;

    open spec fn view(&self) -> CandidateModel {
        CandidateModel { name: self.name@, seen_null: self.seen_null, widest_type: self.widest_type }
    }
}

/// The candidates of a list, each as its model.
pub open spec fn candidates_view(cs: &Vec<ColumnCandidate>) -> Seq<CandidateModel> {
    Seq::new(cs.len() as nat, |i: int| cs[i]@)
}

/// The type that one cell speaks for: none where the cell is empty; else the
/// first of integer, float and boolean that the text spells; else string.
pub open spec fn classify_text(cell: Seq<u8>) -> Option<TypeTag> {
    if cell.len() == 0 {
        None
    } else if integer_of(cell) is Some {
        Some(TypeTag::Integer)
    } else if is_float_text(cell) {
        Some(TypeTag::Float)
    } else if boolean_of(cell) is Some {
        Some(TypeTag::Boolean)
    } else {
        Some(TypeTag::String)
    }
}

/// What the first `n` rows show of the type of column `c`.
pub open spec fn column_evidence(rows: Seq<Seq<Seq<u8>>>, c: int, n: int) -> Option<TypeTag>
    decreases n,
{
    if n <= 0 {
        None
    } else {
        evidence_join(column_evidence(rows, c, n - 1), classify_text(cell_at(rows[n - 1], c)))
    }
}

/// Whether one of the first `n` rows has no value in column `c`.
pub open spec fn column_has_null(rows: Seq<Seq<Seq<u8>>>, c: int, n: int) -> bool {
    exists|r: int| 0 <= r < n && (#[trigger] cell_at(rows[r], c)).len() == 0
}

/// The number of rows that a sample of at most `sample_size` rows takes from
/// `total` rows.
pub open spec fn sample_len(total: nat, sample_size: nat) -> int {
    if sample_size < total {
        sample_size as int
    } else {
        total as int
    }
}

/// The bytes of `column_`.
pub open spec fn name_stem() -> Seq<u8> {
    seq![99u8, 111u8, 108u8, 117u8, 109u8, 110u8, 95u8]
}

/// The name made up for column `i` of a file without header: `column_`
/// and the position in base ten.
pub open spec fn synthesized_name(i: nat) -> Seq<u8> {
    name_stem() + decimal_digits(i)
}

/// The names made up for `k` columns.
pub open spec fn synthesized_names(k: nat) -> Seq<Seq<u8>> {
    Seq::new(k, |i: int| synthesized_name(i as nat))
}

/// The candidates that a sample of at most `sample_size` of `rows` gives
/// the columns named `names`.
pub open spec fn candidates_for(
    names: Seq<Seq<u8>>,
    rows: Seq<Seq<Seq<u8>>>,
    sample_size: nat,
) -> Seq<CandidateModel> {
    let n = sample_len(rows.len(), sample_size);
    Seq::new(
        names.len(),
        |c: int|
            CandidateModel {
                name: names[c],
                seen_null: column_has_null(rows, c, n),
                widest_type: column_evidence(rows, c, n),
            },
    )
}

/// The rows of a file that hold data: all but the header, if there is one.
pub open spec fn data_rows(records: Seq<Seq<Seq<u8>>>, has_header: bool) -> Seq<Seq<Seq<u8>>> {
    if has_header && records.len() > 0 {
        records.skip(1)
    } else {
        records
    }
}

/// The column names of a file: its header, or names made up for as many
/// columns as its first row has.
pub open spec fn column_names(records: Seq<Seq<Seq<u8>>>, has_header: bool) -> Seq<Seq<u8>> {
    if records.len() == 0 {
        Seq::empty()
    } else if has_header {
        records[0]
    } else {
        synthesized_names(records[0].len())
    }
}

/// The candidates that sampling gives for a file, or `None` where the file
/// has no data row.
pub open spec fn inferred(
    records: Seq<Seq<Seq<u8>>>,
    has_header: bool,
    sample_size: nat,
) -> Option<Seq<CandidateModel>> {
    let rows = data_rows(records, has_header);
    if rows.len() == 0 {
        None
    } else {
        Some(candidates_for(column_names(records, has_header), rows, sample_size))
    }
}

/// What the first `n` rows show of a column does not depend on later rows.
pub proof fn lemma_evidence_of_prefix(
    rows: Seq<Seq<Seq<u8>>>,
    other: Seq<Seq<Seq<u8>>>,
    c: int,
    n: int,
)
    requires
        n <= rows.len(),
        n <= other.len(),
        forall|r: int| 0 <= r < n ==> rows[r] == other[r],
    ensures
        column_evidence(rows, c, n) == column_evidence(other, c, n),
        column_has_null(rows, c, n) == column_has_null(other, c, n),
    decreases n,
{
    if n > 0 {
        lemma_evidence_of_prefix(rows, other, c, n - 1);
    }
    if column_has_null(rows, c, n) {
        let r = choose|r: int| 0 <= r < n && (#[trigger] cell_at(rows[r], c)).len() == 0;
        assert(cell_at(other[r], c).len() == 0);
    }
    if column_has_null(other, c, n) {
        let r = choose|r: int| 0 <= r < n && (#[trigger] cell_at(other[r], c)).len() == 0;
        assert(cell_at(rows[r], c).len() == 0);
    }
}

/// One more row adds its cell to what is known of a column.
pub proof fn lemma_evidence_step(rows: Seq<Seq<Seq<u8>>>, c: int, n: int)
    requires
        0 <= n < rows.len(),
    ensures
        column_evidence(rows, c, n + 1) == evidence_join(
            column_evidence(rows, c, n),
            classify_text(cell_at(rows[n], c)),
        ),
        column_has_null(rows, c, n + 1) == (column_has_null(rows, c, n) || cell_at(
            rows[n],
            c,
        ).len() == 0),
{
    if column_has_null(rows, c, n + 1) {
        let r = choose|r: int| 0 <= r < n + 1 && (#[trigger] cell_at(rows[r], c)).len() == 0;
        if r < n {
            assert(cell_at(rows[r], c).len() == 0);
        }
    }
    if column_has_null(rows, c, n) {
        let r = choose|r: int| 0 <= r < n && (#[trigger] cell_at(rows[r], c)).len() == 0;
        assert(cell_at(rows[r], c).len() == 0);
    }
    if cell_at(rows[n], c).len() == 0 {
        assert(column_has_null(rows, c, n + 1));
    }
}

/// A longer prefix of the rows never shows a narrower type, and never loses
/// a null that a shorter one has seen.
pub proof fn lemma_evidence_grows(rows: Seq<Seq<Seq<u8>>>, c: int, m: int, n: int)
    requires
        0 <= m <= n <= rows.len(),
    ensures
        evidence_le(column_evidence(rows, c, m), column_evidence(rows, c, n)),
        column_has_null(rows, c, m) ==> column_has_null(rows, c, n),
    decreases n - m,
{
    if m < n {
        lemma_evidence_grows(rows, c, m, n - 1);
        lemma_evidence_step(rows, c, n - 1);
        crate::lattice::lemma_evidence_join_grows(
            column_evidence(rows, c, n - 1),
            classify_text(cell_at(rows[n - 1], c)),
            None,
        );
        crate::lattice::lemma_evidence_join_grows(
            column_evidence(rows, c, m),
            column_evidence(rows, c, n - 1),
            column_evidence(rows, c, n),
        );
    } else {
        crate::lattice::lemma_evidence_join_grows(column_evidence(rows, c, m), None, None);
    }
}

/// For a fixed file, a larger sample never narrows the type that a column
/// is given, and never loses a null: with `small <= large`, every column's
/// evidence under `small` lies at or below its evidence under `large`.
pub proof fn lemma_sampling_monotonic(
    names: Seq<Seq<u8>>,
    rows: Seq<Seq<Seq<u8>>>,
    small: nat,
    large: nat,
    c: int,
)
    requires
        small <= large,
        0 <= c < names.len(),
    ensures
        evidence_le(
            candidates_for(names, rows, small)[c].widest_type,
            candidates_for(names, rows, large)[c].widest_type,
        ),
        candidates_for(names, rows, small)[c].seen_null ==> candidates_for(
            names,
            rows,
            large,
        )[c].seen_null,
        candidates_for(names, rows, small)[c].name == candidates_for(names, rows, large)[c].name,
{
    lemma_evidence_grows(
        rows,
        c,
        sample_len(rows.len(), small),
        sample_len(rows.len(), large),
    );
}

/// The candidates reflect the sampled prefix only: rows after the sample
/// change nothing.
pub proof fn lemma_sample_ignores_later_rows(
    names: Seq<Seq<u8>>,
    rows: Seq<Seq<Seq<u8>>>,
    sample_size: nat,
    k: int,
)
    requires
        sample_len(rows.len(), sample_size) <= k <= rows.len(),
    ensures
        candidates_for(names, rows.take(k), sample_size) == candidates_for(names, rows, sample_size),
{
    let n = sample_len(rows.len(), sample_size);
    assert(sample_len(rows.take(k).len(), sample_size) == n);
    assert forall|c: int| 0 <= c < names.len() implies column_evidence(rows.take(k), c, n)
        == column_evidence(rows, c, n) && column_has_null(rows.take(k), c, n) == column_has_null(
        rows,
        c,
        n,
    ) by {
        lemma_evidence_of_prefix(rows.take(k), rows, c, n);
    }
    assert(candidates_for(names, rows.take(k), sample_size) =~= candidates_for(
        names,
        rows,
        sample_size,
    ));
}

/// Tells which type a cell speaks for.
pub fn classify(cell: &[u8]) -> (r: Option<TypeTag>)
    ensures
        r == classify_text(cell@),
{
    if cell.len() == 0 {
        None
    } else if parse_integer(cell).is_some() {
        Some(TypeTag::Integer)
    } else if is_float(cell) {
        Some(TypeTag::Float)
    } else if parse_boolean(cell).is_some() {
        Some(TypeTag::Boolean)
    } else {
        Some(TypeTag::String)
    }
}

/// Makes up the name of column `i` of a file without header.
pub fn make_name(i: usize) -> (r: Vec<u8>)
    ensures
        r@ == synthesized_name(i as nat),
{
    let mut name: Vec<u8> = Vec::new();
    name.push(99);
    name.push(111);
    name.push(108);
    name.push(117);
    name.push(109);
    name.push(110);
    name.push(95);
    assert(name@ =~= name_stem());
    append_decimal(&mut name, i);
    name
}

/// Rows after the sample is full do not change what sampling gives for a
/// file: the first `k` rows give the same, as soon as they fill the sample
/// and hold a data row.
pub proof fn lemma_inference_ignores_later_rows(
    records: Seq<Seq<Seq<u8>>>,
    has_header: bool,
    sample_size: nat,
    k: int,
)
    requires
        0 <= k <= records.len(),
        k == records.len() || {
            let seen = data_rows(records.take(k), has_header);
            seen.len() >= sample_size && seen.len() > 0
        },
    ensures
        inferred(records.take(k), has_header, sample_size) == inferred(
            records,
            has_header,
            sample_size,
        ),
{
    if k == records.len() {
        assert(records.take(k) =~= records);
    } else {
        let skipped: int = if has_header {
            1
        } else {
            0
        };
        let rows = data_rows(records, has_header);
        assert(data_rows(records.take(k), has_header) =~= rows.take(k - skipped));
        assert(column_names(records.take(k), has_header) == column_names(records, has_header));
        lemma_sample_ignores_later_rows(
            column_names(records, has_header),
            rows,
            sample_size,
            k - skipped,
        );
    }
}

/// The running state of the sampling pass over one file.
///
/// The rows of the file are offered one by one, from the first. With a
/// header, the first row names the columns. Without one, the columns, as
/// many as the first row has cells, get made-up names, and the first row is
/// a data row. Of the data rows, the first `limit` are sampled.
pub struct Sampler {
    has_header: bool,
    limit: usize,
    started: bool,
    names: Vec<Vec<u8>>,
    seen_null: Vec<bool>,
    widest: Vec<Option<TypeTag>>,
    sampled: usize,
    nonempty: bool,
    records: Ghost<Seq<Seq<Seq<u8>>>>,
}

impl Sampler {
    /// Whether the first row of the file is a header.
    pub closed spec fn has_header(&self) -> bool {
        self.has_header
    }

    /// The sample size.
    pub closed spec fn limit(&self) -> nat {
        self.limit as nat
    }

    /// The rows offered so far, in order, the header among them.
    pub closed spec fn records(&self) -> Seq<Seq<Seq<u8>>> {
        self.records@
    }

    /// The data rows offered so far.
    pub open spec fn rows(&self) -> Seq<Seq<Seq<u8>>> {
        data_rows(self.records(), self.has_header())
    }

    /// What is held of the columns is what a sample of `rows` shows.
    closed spec fn tracks(&self, rows: Seq<Seq<Seq<u8>>>) -> bool {
        let n = sample_len(rows.len(), self.limit as nat);
        &&& self.seen_null.len() == self.names.len()
        &&& self.widest.len() == self.names.len()
        &&& self.sampled == n
        &&& self.nonempty == (rows.len() > 0)
        &&& forall|c: int|
            0 <= c < self.names.len() ==> #[trigger] self.widest[c] == column_evidence(rows, c, n)
        &&& forall|c: int|
            0 <= c < self.names.len() ==> #[trigger] self.seen_null[c] == column_has_null(
                rows,
                c,
                n,
            )
    }

    /// The state agrees with the rows offered so far.
    pub closed spec fn wf(&self) -> bool {
        &&& self.started == (self.records@.len() > 0)
        &&& row_view(&self.names) == column_names(self.records@, self.has_header)
        &&& self.tracks(data_rows(self.records@, self.has_header))
    }

    /// Starts a sampling pass over a file.
    pub fn new(has_header: bool, sample_size: usize) -> (s: Sampler)
        ensures
            s.wf(),
            s.has_header() == has_header,
            s.limit() == sample_size,
            s.records() == Seq::<Seq<Seq<u8>>>::empty(),
    {
        let s = Sampler {
            has_header,
            limit: sample_size,
            started: false,
            names: Vec::new(),
            seen_null: Vec::new(),
            widest: Vec::new(),
            sampled: 0,
            nonempty: false,
            records: Ghost(Seq::empty()),
        };
        assert(row_view(&s.names) =~= column_names(s.records@, has_header));
        s
    }

    /// Whether the pass has use for another row: the sample is not full, or
    /// no data row has been offered yet.
    pub fn wants_more(&self) -> (r: bool)
        requires
            self.wf(),
        ensures
            r == (self.rows().len() < self.limit() || self.rows().len() == 0),
    {
        self.sampled < self.limit || !self.nonempty
    }

    /// Names the columns from the first row of the file.
    fn begin(&mut self, first: &Vec<Vec<u8>>)
        requires
            !old(self).started,
        ensures
            final(self).started,
            final(self).has_header == old(self).has_header,
            final(self).limit == old(self).limit,
            final(self).records == old(self).records,
            row_view(&final(self).names) == column_names(
                seq![row_view(first)],
                old(self).has_header,
            ),
            final(self).tracks(Seq::empty()),
    {
        let ghost wanted = column_names(seq![row_view(first)], self.has_header);
        let mut names: Vec<Vec<u8>> = Vec::new();
        let mut seen_null: Vec<bool> = Vec::new();
        let mut widest: Vec<Option<TypeTag>> = Vec::new();
        let mut c: usize = 0;
        while c < first.len()
            invariant
                c <= first.len(),
                names.len() == c,
                seen_null.len() == c,
                widest.len() == c,
                wanted == column_names(seq![row_view(first)], self.has_header),
                forall|k: int| 0 <= k < c ==> #[trigger] names[k]@ == wanted[k],
                forall|k: int| 0 <= k < c ==> #[trigger] widest[k] == None::<TypeTag>,
                forall|k: int| 0 <= k < c ==> !#[trigger] seen_null[k],
            decreases first.len() - c,
        {
            if self.has_header {
                names.push(copy_bytes(&first[c]));
            } else {
                names.push(make_name(c));
            }
            seen_null.push(false);
            widest.push(None);
            c += 1;
        }
        assert(row_view(&names) =~= wanted);
        self.names = names;
        self.seen_null = seen_null;
        self.widest = widest;
        self.sampled = 0;
        self.nonempty = false;
        self.started = true;
    }

    /// Takes one data row into what is held of the columns.
    fn observe(&mut self, row: &Vec<Vec<u8>>, Ghost(before): Ghost<Seq<Seq<Seq<u8>>>>)
        requires
            old(self).tracks(before),
        ensures
            final(self).tracks(before.push(row_view(row))),
            final(self).started == old(self).started,
            final(self).has_header == old(self).has_header,
            final(self).limit == old(self).limit,
            final(self).records == old(self).records,
            final(self).names == old(self).names,
    {
        let ghost after = before.push(row_view(row));
        let ghost n = sample_len(before.len(), self.limit as nat);
        let ghost names = self.names;
        if self.sampled < self.limit {
            let width: usize = self.names.len();
            let mut c: usize = 0;
            while c < width
                invariant
                    c <= width,
                    width == self.names.len(),
                    self.names == names,
                    self.seen_null.len() == width,
                    self.widest.len() == width,
                    self.records == old(self).records,
                    self.started == old(self).started,
                    self.has_header == old(self).has_header,
                    self.limit == old(self).limit,
                    self.sampled == old(self).sampled,
                    after == before.push(row_view(row)),
                    n == before.len(),
                    forall|k: int|
                        0 <= k < c ==> #[trigger] self.widest[k] == column_evidence(after, k, n + 1),
                    forall|k: int|
                        0 <= k < c ==> #[trigger] self.seen_null[k] == column_has_null(
                            after,
                            k,
                            n + 1,
                        ),
                    forall|k: int|
                        c <= k < width ==> #[trigger] self.widest[k] == column_evidence(before, k, n),
                    forall|k: int|
                        c <= k < width ==> #[trigger] self.seen_null[k] == column_has_null(
                            before,
                            k,
                            n,
                        ),
                decreases width - c,
            {
                proof {
                    lemma_evidence_of_prefix(before, after, c as int, n);
                    lemma_evidence_step(after, c as int, n);
                    assert(after[n] == row_view(row));
                }
                if c < row.len() && row[c].len() > 0 {
                    let evidence = classify(row[c].as_slice());
                    let wider = widen_evidence(self.widest[c], evidence);
                    self.widest.set(c, wider);
                } else {
                    self.seen_null.set(c, true);
                }
                c += 1;
            }
            self.sampled = self.sampled + 1;
        } else {
            proof {
                assert forall|k: int| 0 <= k < self.names.len() implies column_evidence(
                    after,
                    k,
                    n,
                ) == column_evidence(before, k, n) && column_has_null(after, k, n)
                    == column_has_null(before, k, n) by {
                    lemma_evidence_of_prefix(before, after, k, n);
                }
            }
        }
        self.nonempty = true;
    }

    /// Offers the next row of the file. The first row of a file with a
    /// header names the columns. Every other row is a data row: while the
    /// sample is not full, it is taken into it; after that, it changes
    /// nothing of what the columns are known to hold.
    pub fn offer(&mut self, record: &Vec<Vec<u8>>)
        requires
            old(self).wf(),
        ensures
            final(self).wf(),
            final(self).has_header() == old(self).has_header(),
            final(self).limit() == old(self).limit(),
            final(self).records() == old(self).records().push(row_view(record)),
    {
        let ghost before = self.records@;
        let ghost after = before.push(row_view(record));
        let ghost rows = data_rows(before, self.has_header);
        if !self.started {
            self.begin(record);
            proof {
                assert(before =~= Seq::<Seq<Seq<u8>>>::empty());
                assert(after =~= seq![row_view(record)]);
                assert(rows =~= Seq::<Seq<Seq<u8>>>::empty());
            }
            if self.has_header {
                self.records = Ghost(after);
                assert(data_rows(after, self.has_header) =~= Seq::<Seq<Seq<u8>>>::empty());
                return ;
            }
        }
        proof {
            assert(data_rows(after, self.has_header) =~= rows.push(row_view(record)));
            assert(column_names(after, self.has_header) == row_view(&self.names));
        }
        self.observe(record, Ghost(rows));
        self.records = Ghost(after);
    }

    /// Ends the pass and hands out one candidate per column. Fails with
    /// `EmptyFile` where no data row was offered.
    pub fn finish(self) -> (r: Result<Vec<ColumnCandidate>, ConvertError>)
        requires
            self.wf(),
        ensures
            match r {
                Ok(cs) => inferred(self.records(), self.has_header(), self.limit()) == Some(
                    candidates_view(&cs),
                ),
                Err(e) => inferred(self.records(), self.has_header(), self.limit()) is None && e
                    == ConvertError::EmptyFile,
            },
    {
        if !self.nonempty {
            return Err(ConvertError::EmptyFile);
        }
        let ghost wanted = candidates_for(
            column_names(self.records@, self.has_header),
            data_rows(self.records@, self.has_header),
            self.limit as nat,
        );
        let mut out: Vec<ColumnCandidate> = Vec::new();
        let mut c: usize = 0;
        while c < self.names.len()
            invariant
                self.wf(),
                c <= self.names.len(),
                out.len() == c,
                wanted == candidates_for(
                    column_names(self.records@, self.has_header),
                    data_rows(self.records@, self.has_header),
                    self.limit as nat,
                ),
                forall|k: int| 0 <= k < c ==> (#[trigger] out[k])@ == wanted[k],
            decreases self.names.len() - c,
        {
            assert(row_view(&self.names)[c as int] == self.names[c as int]@);
            out.push(
                ColumnCandidate {
                    name: copy_bytes(&self.names[c]),
                    seen_null: self.seen_null[c],
                    widest_type: self.widest[c],
                },
            );
            c += 1;
        }
        assert(candidates_view(&out) =~= wanted);
        Ok(out)
    }
}

/// Samples the rows of a file and hands out one candidate per column.
///
/// `records` are the rows of the file in order, the header first where
/// `has_header` says that there is one. Of the data rows, the first
/// `sample_size` are sampled, or all where there are fewer. Fails with
/// `EmptyFile` where there is no data row.
pub fn infer_candidates(records: &Vec<Vec<Vec<u8>>>, has_header: bool, sample_size: usize) -> (r:
    Result<Vec<ColumnCandidate>, ConvertError>)
    ensures
        match r {
            Ok(cs) => inferred(rows_view(records), has_header, sample_size as nat) == Some(
                candidates_view(&cs),
            ),
            Err(e) => inferred(rows_view(records), has_header, sample_size as nat) is None && e
                == ConvertError::EmptyFile,
        },
{
    let ghost all = rows_view(records);
    let mut sampler = Sampler::new(has_header, sample_size);
    let mut i: usize = 0;
    assert(sampler.records() =~= all.take(0));
    while i < records.len() && sampler.wants_more()
        invariant
            i <= records.len(),
            all == rows_view(records),
            sampler.wf(),
            sampler.has_header() == has_header,
            sampler.limit() == sample_size,
            sampler.records() == all.take(i as int),
        decreases records.len() - i,
    {
        sampler.offer(&records[i]);
        proof {
            assert(all.take(i + 1) =~= all.take(i as int).push(row_view(&records[i as int])));
        }
        i += 1;
    }
    proof {
        lemma_inference_ignores_later_rows(all, has_header, sample_size as nat, i as int);
    }
    sampler.finish()
}

} // verus!
