//! The columns of a file once their types are settled.

use vstd::prelude::*;
use vstd::seq_lib::seq_to_set_is_finite;
use vstd::set_lib::lemma_len_subset;
use crate::error::ConvertError;
use crate::infer::{CandidateModel, ColumnCandidate, candidates_view};
use crate::lattice::TypeTag;
use crate::lexical::{UNDERSCORE, append_decimal, decimal_digits, lemma_decimal_digits_injective};
use crate::record::copy_bytes;

verus! {

/// One column of a settled schema.
#[derive(Debug, PartialEq, Eq)]
pub struct ColumnDef {
    /// The column's name, unlike that of any other column of its schema.
    pub name: Vec<u8>,
    /// The type that every value of the column is read as.
    pub column_type: TypeTag,
    /// Whether the sample held a row without a value in this column. The
    /// flag records what was seen; a null is taken in every column.
    pub nullable: bool,
}

/// A `ColumnDef` with its name as a sequence of bytes.
pub struct ColumnModel {
    pub name: Seq<u8>,
    pub column_type: TypeTag,
    pub nullable: bool,
}

impl View for ColumnDef {
    type V = ColumnModel;

    open spec fn view(&self) -> ColumnModel {
        ColumnModel { name: self.name@, column_type: self.column_type, nullable: self.nullable }
    }
}

/// The columns of a list, each as its model.
pub open spec fn columns_view(columns: &Vec<ColumnDef>) -> Seq<ColumnModel> {
    Seq::new(columns.len() as nat, |i: int| columns[i]@)
}

/// The names of a list of columns, in order.
pub open spec fn names_of(columns: Seq<ColumnModel>) -> Seq<Seq<u8>> {
    Seq::new(columns.len(), |i: int| columns[i].name)
}

/// The names of a list of candidates, in order.
pub open spec fn candidate_names(cs: Seq<CandidateModel>) -> Seq<Seq<u8>> {
    Seq::new(cs.len(), |i: int| cs[i].name)
}

/// `name`, an underscore and `j` in base ten.
pub open spec fn with_suffix(name: Seq<u8>, j: nat) -> Seq<u8> {
    name + seq![UNDERSCORE] + decimal_digits(j)
}

/// The first number from `j` on whose suffix makes `name` unlike every name
/// in `taken`. The search ends after `taken.len()` at the latest: so many
/// names cannot hold one suffixed name more.
pub open spec fn first_free(taken: Seq<Seq<u8>>, name: Seq<u8>, j: nat) -> nat
    decreases taken.len() + 1 - j,
{
    if j <= taken.len() && taken.contains(with_suffix(name, j)) {
        first_free(taken, name, j + 1)
    } else {
        j
    }
}

/// The name that a column asking for `name` gets when the names in `taken`
/// are in use: `name` itself where it is free, else `name` with the first
/// free suffix, counted from 1.
pub open spec fn fresh_name(taken: Seq<Seq<u8>>, name: Seq<u8>) -> Seq<u8> {
    if !taken.contains(name) {
        name
    } else {
        with_suffix(name, first_free(taken, name, 1))
    }
}

/// The names that columns asking for `names` get, from the first column to
/// the last: each gets its fresh name with respect to those before it.
pub open spec fn unique_names(names: Seq<Seq<u8>>) -> Seq<Seq<u8>>
    decreases names.len(),
{
    if names.len() == 0 {
        Seq::empty()
    } else {
        let before = unique_names(names.drop_last());
        before.push(fresh_name(before, names.last()))
    }
}

/// The type that a column gets from what the sample has shown: the widest
/// type seen, or `String` where the sample held no value.
pub open spec fn settled_type(evidence: Option<TypeTag>) -> TypeTag {
    match evidence {
        Some(t) => t,
        None => TypeTag::String,
    }
}

/// The columns that a list of candidates settles to.
pub open spec fn finalized(cs: Seq<CandidateModel>) -> Seq<ColumnModel> {
    Seq::new(
        cs.len(),
        |i: int|
            ColumnModel {
                name: unique_names(candidate_names(cs))[i],
                column_type: settled_type(cs[i].widest_type),
                nullable: cs[i].seen_null,
            },
    )
}

/// Different suffixes give different names.
pub proof fn lemma_with_suffix_injective(name: Seq<u8>, i: nat, j: nat)
    requires
        with_suffix(name, i) == with_suffix(name, j),
    ensures
        i == j,
{
    let stem = name + seq![UNDERSCORE];
    assert(with_suffix(name, i).skip(stem.len() as int) =~= decimal_digits(i));
    assert(with_suffix(name, j).skip(stem.len() as int) =~= decimal_digits(j));
    lemma_decimal_digits_injective(i, j);
}

/// The search for a free suffix finds one, and the least: the suffix that
/// it returns is free, and every smaller one from 1 on is taken.
pub proof fn lemma_first_free(taken: Seq<Seq<u8>>, name: Seq<u8>, j: nat)
    requires
        1 <= j,
        forall|i: nat| 1 <= i < j ==> taken.contains(#[trigger] with_suffix(name, i)),
    ensures
        j <= first_free(taken, name, j),
        !taken.contains(with_suffix(name, first_free(taken, name, j))),
        forall|i: nat|
            1 <= i < first_free(taken, name, j) ==> taken.contains(#[trigger] with_suffix(name, i)),
    decreases taken.len() + 1 - j,
{
    if j <= taken.len() && taken.contains(with_suffix(name, j)) {
        lemma_first_free(taken, name, j + 1);
    } else if taken.contains(with_suffix(name, j)) {
        // More suffixed names than `taken` has room for.
        let s = Seq::new(j, |i: int| with_suffix(name, (i + 1) as nat));
        assert forall|a: int, b: int| 0 <= a < s.len() && 0 <= b < s.len() && a != b implies s[a]
            != s[b] by {
            if s[a] == s[b] {
                lemma_with_suffix_injective(name, (a + 1) as nat, (b + 1) as nat);
            }
        }
        s.unique_seq_to_set();
        seq_to_set_is_finite(taken);
        assert(s.to_set().subset_of(taken.to_set())) by {
            assert forall|x: Seq<u8>| s.to_set().contains(x) implies taken.to_set().contains(x) by {
                let a = choose|a: int| 0 <= a < s.len() && s[a] == x;
                assert(taken.contains(with_suffix(name, (a + 1) as nat)));
            }
        }
        lemma_len_subset(s.to_set(), taken.to_set());
        taken.lemma_cardinality_of_set();
        assert(false);
    }
}

/// Where `name` and its suffixed forms from 1 to `j` are all in use, more
/// than `j` names are in use.
pub proof fn lemma_taken_bound(taken: Seq<Seq<u8>>, name: Seq<u8>, j: nat)
    requires
        taken.contains(name),
        forall|i: nat| 1 <= i <= j ==> taken.contains(#[trigger] with_suffix(name, i)),
    ensures
        j + 1 <= taken.len(),
{
    let s = Seq::new(
        j + 1,
        |i: int|
            if i == 0 {
                name
            } else {
                with_suffix(name, i as nat)
            },
    );
    assert forall|a: int, b: int| 0 <= a < s.len() && 0 <= b < s.len() && a != b implies s[a]
        != s[b] by {
        if s[a] == s[b] {
            if a == 0 {
                assert(with_suffix(name, b as nat).len() > name.len());
            } else if b == 0 {
                assert(with_suffix(name, a as nat).len() > name.len());
            } else {
                lemma_with_suffix_injective(name, a as nat, b as nat);
            }
        }
    }
    s.unique_seq_to_set();
    seq_to_set_is_finite(taken);
    assert(s.to_set().subset_of(taken.to_set())) by {
        assert forall|x: Seq<u8>| s.to_set().contains(x) implies taken.to_set().contains(x) by {
            let a = choose|a: int| 0 <= a < s.len() && s[a] == x;
            if a > 0 {
                assert(taken.contains(with_suffix(name, a as nat)));
            }
        }
    }
    lemma_len_subset(s.to_set(), taken.to_set());
    taken.lemma_cardinality_of_set();
}

/// The fresh name is unlike every name in use.
pub proof fn lemma_fresh_name_is_free(taken: Seq<Seq<u8>>, name: Seq<u8>)
    ensures
        !taken.contains(fresh_name(taken, name)),
{
    if taken.contains(name) {
        lemma_first_free(taken, name, 1);
    }
}

/// Disambiguation keeps the number and the order of the columns, and gives
/// no two columns the same name. Each column keeps the name it asked for or
/// gets it back with an underscore and a number behind it.
pub proof fn lemma_unique_names(names: Seq<Seq<u8>>)
    ensures
        unique_names(names).len() == names.len(),
        unique_names(names).no_duplicates(),
        forall|i: int|
            0 <= i < names.len() ==> #[trigger] unique_names(names)[i] == names[i] || exists|j: nat|
                j >= 1 && unique_names(names)[i] == with_suffix(names[i], j),
    decreases names.len(),
{
    if names.len() > 0 {
        let before = unique_names(names.drop_last());
        lemma_unique_names(names.drop_last());
        lemma_fresh_name_is_free(before, names.last());
        let all = unique_names(names);
        assert forall|a: int, b: int| 0 <= a < all.len() && 0 <= b < all.len() && a != b implies all[a]
            != all[b] by {
            if a < before.len() && b < before.len() {
                assert(before[a] != before[b]);
            } else if a < before.len() {
                assert(before.contains(before[a]));
            } else {
                assert(before.contains(before[b]));
            }
        }
        assert forall|i: int| 0 <= i < names.len() implies #[trigger] all[i] == names[i] || exists|
            j: nat,
        |
            j >= 1 && all[i] == with_suffix(names[i], j) by {
            if i < before.len() {
                assert(all[i] == before[i]);
                assert(names.drop_last()[i] == names[i]);
            } else {
                if before.contains(names.last()) {
                    lemma_first_free(before, names.last(), 1);
                    let j = first_free(before, names.last(), 1);
                    assert(j >= 1 && all[i] == with_suffix(names[i], j));
                }
            }
        }
    }
}

/// The names of a longer list of columns begin with the names of a shorter
/// one: what a column is called does not depend on the columns after it.
pub proof fn lemma_unique_names_prefix(names: Seq<Seq<u8>>, k: int)
    requires
        0 <= k <= names.len(),
    ensures
        unique_names(names.take(k)) == unique_names(names).take(k),
    decreases names.len() - k,
{
    lemma_unique_names(names);
    if k == names.len() {
        assert(names.take(k) =~= names);
        assert(unique_names(names).take(k) =~= unique_names(names));
    } else {
        lemma_unique_names(names.drop_last());
        lemma_unique_names_prefix(names.drop_last(), k);
        assert(names.drop_last().take(k) =~= names.take(k));
        assert(unique_names(names.drop_last()).take(k) =~= unique_names(names).take(k));
    }
}

/// Names that are already unlike each other stay as they are.
pub proof fn lemma_distinct_names_unchanged(names: Seq<Seq<u8>>)
    requires
        names.no_duplicates(),
    ensures
        unique_names(names) == names,
    decreases names.len(),
{
    if names.len() > 0 {
        let shorter = names.drop_last();
        lemma_distinct_names_unchanged(shorter);
        if shorter.contains(names.last()) {
            let i = choose|i: int| 0 <= i < shorter.len() && shorter[i] == names.last();
            assert(names[i] == names[names.len() - 1]);
        }
        assert(unique_names(names) =~= names);
    }
}

/// Whether two names are the same.
pub fn same_bytes(a: &Vec<u8>, b: &Vec<u8>) -> (r: bool)
    ensures
        r == (a@ == b@),
{
    if a.len() != b.len() {
        return false;
    }
    let mut i: usize = 0;
    while i < a.len()
        invariant
            i <= a.len(),
            a.len() == b.len(),
            forall|k: int| 0 <= k < i ==> a@[k] == b@[k],
        decreases a.len() - i,
    {
        if a[i] != b[i] {
            return false;
        }
        i += 1;
    }
    assert(a@ =~= b@);
    true
}

/// Whether one of `columns` is called `name`.
pub fn name_taken(columns: &Vec<ColumnDef>, name: &Vec<u8>) -> (r: bool)
    ensures
        r == names_of(columns_view(columns)).contains(name@),
{
    let ghost taken = names_of(columns_view(columns));
    let mut i: usize = 0;
    while i < columns.len()
        invariant
            i <= columns.len(),
            taken == names_of(columns_view(columns)),
            forall|k: int| 0 <= k < i ==> taken[k] != name@,
        decreases columns.len() - i,
    {
        if same_bytes(&columns[i].name, name) {
            assert(taken[i as int] == name@);
            return true;
        }
        i += 1;
    }
    false
}

/// Gives a column that asks for `name` a name that none of `columns` has.
pub fn fresh(columns: &Vec<ColumnDef>, name: Vec<u8>) -> (r: Vec<u8>)
    ensures
        r@ == fresh_name(names_of(columns_view(columns)), name@),
{
    if !name_taken(columns, &name) {
        return name;
    }
    let ghost taken = names_of(columns_view(columns));
    proof {
        lemma_taken_bound(taken, name@, 0);
    }
    let mut j: usize = 1;
    loop
        invariant
            1 <= j <= columns.len(),
            taken == names_of(columns_view(columns)),
            taken.contains(name@),
            forall|i: nat| 1 <= i < j ==> taken.contains(#[trigger] with_suffix(name@, i)),
            first_free(taken, name@, 1) == first_free(taken, name@, j as nat),
        decreases columns.len() - j,
    {
        let mut candidate = copy_bytes(&name);
        candidate.push(UNDERSCORE);
        append_decimal(&mut candidate, j);
        assert(candidate@ =~= with_suffix(name@, j as nat));
        if !name_taken(columns, &candidate) {
            return candidate;
        }
        proof {
            lemma_taken_bound(taken, name@, j as nat);
        }
        j += 1;
    }
}

/// The settled columns of one file, in the order of the file. A schema is
/// made once, by `finalize`, and never changed.
#[derive(Debug, PartialEq, Eq)]
pub struct Schema {
    columns: Vec<ColumnDef>,
}

impl View for Schema {
    type V = Seq<ColumnModel>;

    closed spec fn view(&self) -> Seq<ColumnModel> {
        columns_view(&self.columns)
    }
}

impl Schema {
    /// A schema has at least one column, and no two of its columns have the
    /// same name.
    pub open spec fn wf(&self) -> bool {
        self@.len() > 0 && names_of(self@).no_duplicates()
    }

    /// The number of columns.
    pub fn len(&self) -> (n: usize)
        ensures
            n == self@.len(),
    {
        self.columns.len()
    }

    /// The columns, in order.
    pub fn columns(&self) -> (cs: &Vec<ColumnDef>)
        ensures
            columns_view(cs) == self@,
    {
        &self.columns
    }

    /// The type of column `c`.
    pub fn column_type(&self, c: usize) -> (t: TypeTag)
        requires
            c < self@.len(),
        ensures
            t == self@[c as int].column_type,
    {
        self.columns[c].column_type
    }
}

/// Settles the schema of a file from the candidates of its columns.
///
/// Each column gets the widest type that the sample showed, `String` where
/// it showed none, and is nullable where the sample held a row without a
/// value. A name that an earlier column already has is told apart by a
/// numeric suffix. Fails with `EmptySchema` where there is no column.
pub fn finalize(candidates: Vec<ColumnCandidate>) -> (r: Result<Schema, ConvertError>)
    ensures
        match r {
            Ok(schema) => candidates.len() > 0 && schema@ == finalized(candidates_view(&candidates))
                && schema.wf(),
            Err(e) => candidates.len() == 0 && e == ConvertError::EmptySchema,
        },
{
    if candidates.len() == 0 {
        return Err(ConvertError::EmptySchema);
    }
    let ghost cs = candidates_view(&candidates);
    let ghost asked = candidate_names(cs);
    let mut columns: Vec<ColumnDef> = Vec::new();
    let mut i: usize = 0;
    while i < candidates.len()
        invariant
            i <= candidates.len(),
            cs == candidates_view(&candidates),
            asked == candidate_names(cs),
            columns.len() == i,
            names_of(columns_view(&columns)) == unique_names(asked.take(i as int)),
            forall|k: int|
                0 <= k < i ==> (#[trigger] columns[k]).column_type == settled_type(
                    cs[k].widest_type,
                ) && columns[k].nullable == cs[k].seen_null,
        decreases candidates.len() - i,
    {
        let ghost before = names_of(columns_view(&columns));
        let name = fresh(&columns, copy_bytes(&candidates[i].name));
        let column_type = match candidates[i].widest_type {
            Some(t) => t,
            None => TypeTag::String,
        };
        columns.push(ColumnDef { name, column_type, nullable: candidates[i].seen_null });
        proof {
            assert(asked.take(i + 1).drop_last() =~= asked.take(i as int));
            assert(asked.take(i + 1).last() == candidates[i as int].name@);
            assert(names_of(columns_view(&columns)) =~= before.push(name@));
        }
        i += 1;
    }
    proof {
        assert(asked.take(i as int) =~= asked);
        lemma_unique_names(asked);
        assert(columns_view(&columns) =~= finalized(cs)) by {
            assert forall|k: int| 0 <= k < cs.len() implies columns_view(&columns)[k] == finalized(
                cs,
            )[k] by {
                assert(names_of(columns_view(&columns))[k] == unique_names(asked)[k]);
            }
        }
    }
    Ok(Schema { columns })
}

/// A settled schema has as many columns as there were candidates, in the
/// same order and with their types and nulls, and no two with one name.
pub proof fn lemma_finalized_schema(cs: Seq<CandidateModel>)
    ensures
        finalized(cs).len() == cs.len(),
        names_of(finalized(cs)) == unique_names(candidate_names(cs)),
        names_of(finalized(cs)).no_duplicates(),
        candidate_names(cs).no_duplicates() ==> names_of(finalized(cs)) == candidate_names(cs),
{
    lemma_unique_names(candidate_names(cs));
    assert(names_of(finalized(cs)) =~= unique_names(candidate_names(cs)));
    if candidate_names(cs).no_duplicates() {
        lemma_distinct_names_unchanged(candidate_names(cs));
    }
}

} // verus!
