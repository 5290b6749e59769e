use cc2p::error::ConvertError;
use cc2p::infer::{classify, infer_candidates, make_name, ColumnCandidate, Sampler};
use cc2p::lattice::TypeTag;

fn row(cells: &[&str]) -> Vec<Vec<u8>> {
    cells.iter().map(|c| c.as_bytes().to_vec()).collect()
}

fn rows(lines: &[&[&str]]) -> Vec<Vec<Vec<u8>>> {
    lines.iter().map(|l| row(l)).collect()
}

fn candidate(name: &str, seen_null: bool, widest_type: Option<TypeTag>) -> ColumnCandidate {
    ColumnCandidate { name: name.as_bytes().to_vec(), seen_null, widest_type }
}

#[test]
fn cells_are_classified_in_order_of_preference() {
    assert_eq!(classify(b""), None);
    assert_eq!(classify(b"1"), Some(TypeTag::Integer));
    assert_eq!(classify(b"-12"), Some(TypeTag::Integer));
    assert_eq!(classify(b"3.5"), Some(TypeTag::Float));
    assert_eq!(classify(b"1e3"), Some(TypeTag::Float));
    assert_eq!(classify(b"9223372036854775808"), Some(TypeTag::Float));
    assert_eq!(classify(b"true"), Some(TypeTag::Boolean));
    assert_eq!(classify(b"False"), Some(TypeTag::Boolean));
    assert_eq!(classify(b"hello"), Some(TypeTag::String));
    assert_eq!(classify(b" "), Some(TypeTag::String));
    assert_eq!(classify(b"1,5"), Some(TypeTag::String));
    assert_eq!(classify(b"2024-01-01"), Some(TypeTag::String));
}

#[test]
fn names_are_made_up_from_positions() {
    assert_eq!(make_name(0), b"column_0".to_vec());
    assert_eq!(make_name(1), b"column_1".to_vec());
    assert_eq!(make_name(9), b"column_9".to_vec());
    assert_eq!(make_name(10), b"column_10".to_vec());
    assert_eq!(make_name(123), b"column_123".to_vec());
}

#[test]
fn header_names_the_columns() {
    let records = rows(&[&["id", "score"], &["1", "3.5"], &["2", ""], &["3", "7"]]);
    assert_eq!(
        infer_candidates(&records, true, 100),
        Ok(vec![
            candidate("id", false, Some(TypeTag::Integer)),
            candidate("score", true, Some(TypeTag::Float)),
        ])
    );
}

#[test]
fn columns_without_header_get_made_up_names() {
    let records = rows(&[&["1", "x", "true"], &["2", "y", "false"]]);
    assert_eq!(
        infer_candidates(&records, false, 100),
        Ok(vec![
            candidate("column_0", false, Some(TypeTag::Integer)),
            candidate("column_1", false, Some(TypeTag::String)),
            candidate("column_2", false, Some(TypeTag::Boolean)),
        ])
    );
}

#[test]
fn file_without_rows_is_empty() {
    assert_eq!(infer_candidates(&rows(&[]), true, 10), Err(ConvertError::EmptyFile));
    assert_eq!(infer_candidates(&rows(&[]), false, 10), Err(ConvertError::EmptyFile));
}

#[test]
fn file_with_header_only_is_empty() {
    assert_eq!(infer_candidates(&rows(&[&["a", "b"]]), true, 10), Err(ConvertError::EmptyFile));
}

#[test]
fn one_row_without_header_is_data() {
    assert_eq!(
        infer_candidates(&rows(&[&["a", "b"]]), false, 10),
        Ok(vec![
            candidate("column_0", false, Some(TypeTag::String)),
            candidate("column_1", false, Some(TypeTag::String)),
        ])
    );
}

#[test]
fn only_the_sampled_prefix_counts() {
    let records = rows(&[&["n", "m"], &["1", "1"], &["2", ""], &["x", "2.5"], &["", "true"]]);
    assert_eq!(
        infer_candidates(&records, true, 1),
        Ok(vec![
            candidate("n", false, Some(TypeTag::Integer)),
            candidate("m", false, Some(TypeTag::Integer)),
        ])
    );
    assert_eq!(
        infer_candidates(&records, true, 2),
        Ok(vec![
            candidate("n", false, Some(TypeTag::Integer)),
            candidate("m", true, Some(TypeTag::Integer)),
        ])
    );
    assert_eq!(
        infer_candidates(&records, true, 3),
        Ok(vec![
            candidate("n", false, Some(TypeTag::String)),
            candidate("m", true, Some(TypeTag::Float)),
        ])
    );
    let all = vec![
        candidate("n", true, Some(TypeTag::String)),
        candidate("m", true, Some(TypeTag::String)),
    ];
    assert_eq!(infer_candidates(&records, true, 4), Ok(all));
    let all = vec![
        candidate("n", true, Some(TypeTag::String)),
        candidate("m", true, Some(TypeTag::String)),
    ];
    assert_eq!(infer_candidates(&records, true, usize::MAX), Ok(all));
}

#[test]
fn larger_sample_never_narrows() {
    let records = rows(&[
        &["a", "b", "c", "d"],
        &["1", "true", "", "x"],
        &["2", "false", "1", "1"],
        &["2.5", "1", "2.5", "2"],
        &["x", "", "true", ""],
        &["3", "true", "4", "5"],
    ]);
    let mut previous: Option<Vec<ColumnCandidate>> = None;
    for size in 1..8 {
        let current = infer_candidates(&records, true, size).unwrap();
        if let Some(before) = &previous {
            for (small, large) in before.iter().zip(current.iter()) {
                assert_eq!(small.name, large.name);
                assert!(!small.seen_null || large.seen_null);
                match (small.widest_type, large.widest_type) {
                    (None, _) => {}
                    (Some(_), None) => panic!("evidence was lost"),
                    (Some(s), Some(l)) => assert!(s.widens_to(l)),
                }
            }
        }
        previous = Some(current);
    }
}

#[test]
fn sample_of_zero_rows_sees_nothing() {
    let records = rows(&[&["a"], &["1"], &["2"]]);
    assert_eq!(infer_candidates(&records, true, 0), Ok(vec![candidate("a", false, None)]));
}

#[test]
fn column_of_empty_cells_has_no_type() {
    let records = rows(&[&["a", "b"], &["", "1"], &["", "2"]]);
    assert_eq!(
        infer_candidates(&records, true, 10),
        Ok(vec![candidate("a", true, None), candidate("b", false, Some(TypeTag::Integer))])
    );
}

#[test]
fn short_row_leaves_nulls_and_long_row_is_cut() {
    let records = rows(&[&["a", "b"], &["1"], &["2", "3", "4"]]);
    assert_eq!(
        infer_candidates(&records, true, 10),
        Ok(vec![
            candidate("a", false, Some(TypeTag::Integer)),
            candidate("b", true, Some(TypeTag::Integer)),
        ])
    );
}

#[test]
fn header_without_columns_gives_no_candidates() {
    let records: Vec<Vec<Vec<u8>>> = vec![vec![], row(&["1"])];
    assert_eq!(infer_candidates(&records, true, 10), Ok(vec![]));
}

#[test]
fn sampler_takes_rows_one_by_one() {
    let mut sampler = Sampler::new(true, 2);
    assert!(sampler.wants_more());
    sampler.offer(&row(&["id", "score"]));
    assert!(sampler.wants_more());
    sampler.offer(&row(&["1", "3.5"]));
    assert!(sampler.wants_more());
    sampler.offer(&row(&["2", ""]));
    assert!(!sampler.wants_more());
    sampler.offer(&row(&["x", "y"]));
    assert!(!sampler.wants_more());
    assert_eq!(
        sampler.finish(),
        Ok(vec![
            candidate("id", false, Some(TypeTag::Integer)),
            candidate("score", true, Some(TypeTag::Float)),
        ])
    );
}

#[test]
fn sampler_without_rows_reports_empty_file() {
    assert_eq!(Sampler::new(true, 2).finish(), Err(ConvertError::EmptyFile));
    assert_eq!(Sampler::new(false, 2).finish(), Err(ConvertError::EmptyFile));
    let mut sampler = Sampler::new(true, 2);
    sampler.offer(&row(&["id", "score"]));
    assert!(sampler.wants_more());
    assert_eq!(sampler.finish(), Err(ConvertError::EmptyFile));
}

#[test]
fn sampler_without_header_counts_the_first_row() {
    let mut sampler = Sampler::new(false, 2);
    sampler.offer(&row(&["1", "b"]));
    assert!(sampler.wants_more());
    assert_eq!(
        sampler.finish(),
        Ok(vec![
            candidate("column_0", false, Some(TypeTag::Integer)),
            candidate("column_1", false, Some(TypeTag::String)),
        ])
    );
}

#[test]
fn sampler_with_empty_sample_still_asks_for_one_row() {
    let mut sampler = Sampler::new(true, 0);
    assert!(sampler.wants_more());
    sampler.offer(&row(&["a"]));
    assert!(sampler.wants_more());
    sampler.offer(&row(&["1"]));
    assert!(!sampler.wants_more());
    assert_eq!(sampler.finish(), Ok(vec![candidate("a", false, None)]));
}

#[test]
fn sampler_agrees_with_the_whole_file() {
    let records = rows(&[&["a", "b"], &["1", "x"], &["", "2"], &["2.5", "true"], &["z", ""]]);
    for has_header in [true, false] {
        for size in 0..6 {
            let mut sampler = Sampler::new(has_header, size);
            for record in &records {
                if !sampler.wants_more() {
                    break;
                }
                sampler.offer(record);
            }
            assert_eq!(sampler.finish(), infer_candidates(&records, has_header, size));
        }
    }
}
