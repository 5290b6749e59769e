use cc2p::convert::{coerce, coerce_row, convert_rows, CellValue, Converter, RowBatch, ROW_GROUP_ROWS};
use cc2p::error::ConvertError;
use cc2p::infer::ColumnCandidate;
use cc2p::lattice::TypeTag;
use cc2p::schema::{finalize, Schema};

fn row(cells: &[&str]) -> Vec<Vec<u8>> {
    cells.iter().map(|c| c.as_bytes().to_vec()).collect()
}

fn schema(types: &[TypeTag]) -> Schema {
    let candidates = types
        .iter()
        .enumerate()
        .map(|(i, t)| ColumnCandidate {
            name: format!("c{}", i).into_bytes(),
            seen_null: false,
            widest_type: Some(*t),
        })
        .collect();
    finalize(candidates).unwrap()
}

fn numbered(n: usize) -> Vec<Vec<Vec<u8>>> {
    (0..n).map(|i| row(&[&i.to_string()])).collect()
}

#[test]
fn empty_cell_is_null_under_every_type() {
    for t in [TypeTag::Integer, TypeTag::Float, TypeTag::Boolean, TypeTag::String] {
        assert_eq!(coerce(&vec![], t), Some(CellValue::Null));
    }
}

#[test]
fn cells_are_read_as_their_type() {
    assert_eq!(coerce(&b"42".to_vec(), TypeTag::Integer), Some(CellValue::Integer(42)));
    assert_eq!(coerce(&b"-7".to_vec(), TypeTag::Integer), Some(CellValue::Integer(-7)));
    assert_eq!(coerce(&b"3.5".to_vec(), TypeTag::Float), Some(CellValue::Float(b"3.5".to_vec())));
    assert_eq!(coerce(&b"7".to_vec(), TypeTag::Float), Some(CellValue::Float(b"7".to_vec())));
    assert_eq!(coerce(&b"TRUE".to_vec(), TypeTag::Boolean), Some(CellValue::Boolean(true)));
    assert_eq!(coerce(&b"false".to_vec(), TypeTag::Boolean), Some(CellValue::Boolean(false)));
    assert_eq!(coerce(&b"42".to_vec(), TypeTag::String), Some(CellValue::Text(b"42".to_vec())));
    assert_eq!(coerce(&b" x ".to_vec(), TypeTag::String), Some(CellValue::Text(b" x ".to_vec())));
}

#[test]
fn cells_of_another_type_are_refused() {
    assert_eq!(coerce(&b"3.5".to_vec(), TypeTag::Integer), None);
    assert_eq!(coerce(&b"x".to_vec(), TypeTag::Integer), None);
    assert_eq!(coerce(&b"9223372036854775808".to_vec(), TypeTag::Integer), None);
    assert_eq!(coerce(&b"x".to_vec(), TypeTag::Float), None);
    assert_eq!(coerce(&b"true".to_vec(), TypeTag::Float), None);
    assert_eq!(coerce(&b"1".to_vec(), TypeTag::Boolean), None);
    assert_eq!(coerce(&b"yes".to_vec(), TypeTag::Boolean), None);
}

#[test]
fn row_is_aligned_to_the_columns() {
    let types = vec![TypeTag::Integer, TypeTag::Float, TypeTag::String];
    assert_eq!(
        coerce_row(&types, &row(&["1", "2", "3"])),
        Ok(vec![CellValue::Integer(1), CellValue::Float(b"2".to_vec()), CellValue::Text(b"3".to_vec())])
    );
    assert_eq!(
        coerce_row(&types, &row(&["1"])),
        Ok(vec![CellValue::Integer(1), CellValue::Null, CellValue::Null])
    );
    assert_eq!(
        coerce_row(&types, &row(&["", "", "", "extra"])),
        Ok(vec![CellValue::Null, CellValue::Null, CellValue::Null])
    );
    assert_eq!(coerce_row(&vec![], &row(&["1"])), Ok(vec![]));
}

#[test]
fn first_bad_column_is_named() {
    let types = vec![TypeTag::Integer, TypeTag::Integer, TypeTag::Integer];
    assert_eq!(coerce_row(&types, &row(&["1", "x", "y"])), Err(1));
    assert_eq!(coerce_row(&types, &row(&["z", "x", "y"])), Err(0));
    assert_eq!(coerce_row(&types, &row(&["1", "", "y"])), Err(2));
}

#[test]
fn rows_are_converted_in_order() {
    let s = schema(&[TypeTag::Integer, TypeTag::Boolean]);
    let records = vec![row(&["h1", "h2"]), row(&["1", "true"]), row(&["2", ""]), row(&["", "false"])];
    assert_eq!(
        convert_rows(&s, &records, true),
        Ok(vec![RowBatch {
            rows: vec![
                vec![CellValue::Integer(1), CellValue::Boolean(true)],
                vec![CellValue::Integer(2), CellValue::Null],
                vec![CellValue::Null, CellValue::Boolean(false)],
            ]
        }])
    );
}

#[test]
fn without_header_the_first_row_is_data() {
    let s = schema(&[TypeTag::String]);
    let records = vec![row(&["h1"]), row(&["x"])];
    assert_eq!(
        convert_rows(&s, &records, false),
        Ok(vec![RowBatch {
            rows: vec![vec![CellValue::Text(b"h1".to_vec())], vec![CellValue::Text(b"x".to_vec())]]
        }])
    );
}

#[test]
fn no_rows_make_no_row_group() {
    let s = schema(&[TypeTag::Integer]);
    assert_eq!(convert_rows(&s, &vec![], false), Ok(vec![]));
    assert_eq!(convert_rows(&s, &vec![], true), Ok(vec![]));
    assert_eq!(convert_rows(&s, &vec![row(&["h"])], true), Ok(vec![]));
}

#[test]
fn first_misfit_ends_the_conversion() {
    let s = schema(&[TypeTag::Integer, TypeTag::Float]);
    let records = vec![
        row(&["a", "b"]),
        row(&["1", "1.5"]),
        row(&["2", "oops"]),
        row(&["bad", "bad"]),
    ];
    assert_eq!(convert_rows(&s, &records, true), Err(ConvertError::TypeCoercion { row: 1, column: 1 }));
    assert_eq!(convert_rows(&s, &records, false), Err(ConvertError::TypeCoercion { row: 0, column: 0 }));
}

#[test]
fn row_group_size_is_fixed() {
    assert_eq!(ROW_GROUP_ROWS, 8192);
}

#[test]
fn full_row_group_leaves_alone() {
    let s = schema(&[TypeTag::Integer]);
    let batches = convert_rows(&s, &numbered(ROW_GROUP_ROWS), false).unwrap();
    assert_eq!(batches.len(), 1);
    assert_eq!(batches[0].rows.len(), ROW_GROUP_ROWS);
}

#[test]
fn one_row_more_opens_a_second_row_group() {
    let s = schema(&[TypeTag::Integer]);
    let batches = convert_rows(&s, &numbered(ROW_GROUP_ROWS + 1), false).unwrap();
    assert_eq!(batches.len(), 2);
    assert_eq!(batches[0].rows.len(), ROW_GROUP_ROWS);
    assert_eq!(batches[1].rows.len(), 1);
    assert_eq!(batches[1].rows[0], vec![CellValue::Integer(ROW_GROUP_ROWS as i64)]);
}

#[test]
fn one_row_less_stays_in_one_row_group() {
    let s = schema(&[TypeTag::Integer]);
    let batches = convert_rows(&s, &numbered(ROW_GROUP_ROWS - 1), false).unwrap();
    assert_eq!(batches.len(), 1);
    assert_eq!(batches[0].rows.len(), ROW_GROUP_ROWS - 1);
}

#[test]
fn row_groups_keep_every_row_in_order() {
    let s = schema(&[TypeTag::Integer]);
    let total: usize = 2 * ROW_GROUP_ROWS + 100;
    let batches = convert_rows(&s, &numbered(total), false).unwrap();
    assert_eq!(batches.len(), 3);
    let sizes: Vec<usize> = batches.iter().map(|b| b.rows.len()).collect();
    assert_eq!(sizes, vec![ROW_GROUP_ROWS, ROW_GROUP_ROWS, 100]);
    let mut expected: i64 = 0;
    for batch in &batches {
        for r in &batch.rows {
            assert_eq!(r, &vec![CellValue::Integer(expected)]);
            expected += 1;
        }
    }
    assert_eq!(expected, total as i64);
}

#[test]
fn converter_hands_out_row_groups_as_they_fill() {
    let s = schema(&[TypeTag::Integer]);
    let mut converter = Converter::new(&s, false);
    assert_eq!(converter.row_count(), 0);
    for i in 0..ROW_GROUP_ROWS - 1 {
        assert_eq!(converter.push_row(&row(&[&i.to_string()])), Ok(None));
    }
    let flushed = converter.push_row(&row(&["-5"])).unwrap().unwrap();
    assert_eq!(flushed.rows.len(), ROW_GROUP_ROWS);
    assert_eq!(flushed.rows[0], vec![CellValue::Integer(0)]);
    assert_eq!(flushed.rows[ROW_GROUP_ROWS - 1], vec![CellValue::Integer(-5)]);
    assert_eq!(converter.row_count(), ROW_GROUP_ROWS);
    assert_eq!(converter.push_row(&row(&["1"])), Ok(None));
    assert_eq!(converter.finish(), Some(RowBatch { rows: vec![vec![CellValue::Integer(1)]] }));
}

#[test]
fn converter_without_waiting_rows_ends_with_nothing() {
    let s = schema(&[TypeTag::Integer]);
    assert_eq!(Converter::new(&s, false).finish(), None);
    let mut converter = Converter::new(&s, false);
    for i in 0..ROW_GROUP_ROWS {
        let flushed = converter.push_row(&row(&[&i.to_string()])).unwrap();
        assert_eq!(flushed.is_some(), i + 1 == ROW_GROUP_ROWS);
    }
    assert_eq!(converter.finish(), None);
}

#[test]
fn converter_refuses_a_misfit_and_goes_on() {
    let s = schema(&[TypeTag::Integer, TypeTag::Boolean]);
    let mut converter = Converter::new(&s, false);
    assert_eq!(converter.push_row(&row(&["1", "true"])), Ok(None));
    assert_eq!(
        converter.push_row(&row(&["2", "maybe"])),
        Err(ConvertError::TypeCoercion { row: 1, column: 1 })
    );
    assert_eq!(converter.row_count(), 1);
    assert_eq!(converter.push_row(&row(&["3", "false"])), Ok(None));
    assert_eq!(
        converter.finish(),
        Some(RowBatch {
            rows: vec![
                vec![CellValue::Integer(1), CellValue::Boolean(true)],
                vec![CellValue::Integer(3), CellValue::Boolean(false)],
            ]
        })
    );
}

#[test]
fn converter_passes_over_the_header() {
    let s = schema(&[TypeTag::Integer]);
    let mut converter = Converter::new(&s, true);
    assert_eq!(converter.push_row(&row(&["not a number"])), Ok(None));
    assert_eq!(converter.row_count(), 0);
    assert_eq!(
        converter.push_row(&row(&["not a number"])),
        Err(ConvertError::TypeCoercion { row: 0, column: 0 })
    );
    assert_eq!(converter.push_row(&row(&["5"])), Ok(None));
    assert_eq!(converter.row_count(), 1);
    assert_eq!(converter.finish(), Some(RowBatch { rows: vec![vec![CellValue::Integer(5)]] }));
    let mut converter = Converter::new(&s, true);
    assert_eq!(converter.push_row(&row(&["h"])), Ok(None));
    assert_eq!(converter.finish(), None);
}

#[test]
fn converter_agrees_with_the_whole_file() {
    let s = schema(&[TypeTag::Integer, TypeTag::String]);
    let mut records = vec![row(&["n", "label"])];
    for i in 0..(ROW_GROUP_ROWS + 5) {
        records.push(row(&[&i.to_string(), "x"]));
    }
    for has_header in [true, false] {
        let mut converter = Converter::new(&s, has_header);
        let mut batches: Vec<RowBatch> = Vec::new();
        let mut failure: Option<ConvertError> = None;
        for record in &records {
            match converter.push_row(record) {
                Ok(Some(batch)) => batches.push(batch),
                Ok(None) => {}
                Err(e) => {
                    failure = Some(e);
                    break;
                }
            }
        }
        let streamed = match failure {
            Some(e) => Err(e),
            None => {
                if let Some(batch) = converter.finish() {
                    batches.push(batch);
                }
                Ok(batches)
            }
        };
        assert_eq!(streamed, convert_rows(&s, &records, has_header));
        assert_eq!(streamed.is_ok(), has_header);
    }
}

