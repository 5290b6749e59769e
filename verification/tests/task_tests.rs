use cc2p::task::{last_index, output_path, parquet_name, plan_tasks, ConversionTask};

#[test]
fn output_lies_beside_the_input_by_default() {
    assert_eq!(output_path("data/file.csv", None), "data/file.parquet");
    assert_eq!(output_path("file.csv", None), "file.parquet");
    assert_eq!(output_path("/abs/dir/file.csv", None), "/abs/dir/file.parquet");
}

#[test]
fn output_goes_to_the_output_directory() {
    assert_eq!(output_path("data/file.csv", Some("out")), "out/file.parquet");
    assert_eq!(output_path("data/file.csv", Some("out/")), "out/file.parquet");
    assert_eq!(output_path("file.csv", Some("/tmp/out")), "/tmp/out/file.parquet");
    assert_eq!(output_path("a/b/c/file.csv", Some("x/y")), "x/y/file.parquet");
    assert_eq!(output_path("data/file.csv", Some("")), "file.parquet");
    assert_eq!(output_path("data/file.csv", Some("/")), "/file.parquet");
}

#[test]
fn only_the_last_extension_is_replaced() {
    assert_eq!(parquet_name("archive.tar.gz"), "archive.tar.parquet");
    assert_eq!(parquet_name("file.CSV"), "file.parquet");
    assert_eq!(parquet_name("file."), "file.parquet");
}

#[test]
fn name_without_extension_gets_one() {
    assert_eq!(parquet_name("file"), "file.parquet");
    assert_eq!(parquet_name("dir/file"), "dir/file.parquet");
    assert_eq!(parquet_name(""), ".parquet");
}

#[test]
fn dot_in_a_directory_is_no_extension() {
    assert_eq!(parquet_name("a.b/file"), "a.b/file.parquet");
    assert_eq!(parquet_name("a.b/file.csv"), "a.b/file.parquet");
    assert_eq!(output_path("a.b/file", Some("out.d")), "out.d/file.parquet");
}

#[test]
fn leading_dot_is_part_of_the_name() {
    assert_eq!(parquet_name(".hidden"), ".hidden.parquet");
    assert_eq!(parquet_name("dir/.hidden"), "dir/.hidden.parquet");
    assert_eq!(parquet_name(".hidden.csv"), ".hidden.parquet");
}

#[test]
fn paths_are_read_by_characters() {
    assert_eq!(output_path("dönér/tëst.csv", Some("ziel")), "ziel/tëst.parquet");
    assert_eq!(output_path("dönér/tëst.csv", None), "dönér/tëst.parquet");
}

#[test]
fn output_path_agrees_with_the_standard_library() {
    for input in ["data/file.csv", "file", "a.b/c.d.e", ".hidden", "x/.hidden.txt", "dir/name."] {
        let expected = std::path::Path::new(input).with_extension("parquet");
        assert_eq!(output_path(input, None), expected.to_str().unwrap(), "{}", input);
        let mut joined = std::path::PathBuf::from("out");
        joined.push(std::path::Path::new(input).file_name().unwrap());
        joined.set_extension("parquet");
        assert_eq!(output_path(input, Some("out")), joined.to_str().unwrap(), "{}", input);
    }
}

#[test]
fn last_index_finds_the_last_occurrence() {
    assert_eq!(last_index("a/b/c", '/'), Some(3));
    assert_eq!(last_index("abc", '/'), None);
    assert_eq!(last_index("", '/'), None);
    assert_eq!(last_index("/", '/'), Some(0));
    assert_eq!(last_index("é.é.", '.'), Some(3));
}

#[test]
fn task_knows_its_input_and_output() {
    let task = ConversionTask::new("in/a.csv".to_string(), Some("out"));
    assert_eq!(task, ConversionTask { input: "in/a.csv".to_string(), output: "out/a.parquet".to_string() });
    let task = ConversionTask::new("in/a.csv".to_string(), None);
    assert_eq!(task.output, "in/a.parquet");
}

#[test]
fn one_task_per_file_in_order() {
    let files = vec!["b.csv".to_string(), "a.csv".to_string(), "dir/c.tsv".to_string()];
    let tasks = plan_tasks(files, Some("out"));
    assert_eq!(
        tasks,
        vec![
            ConversionTask { input: "b.csv".to_string(), output: "out/b.parquet".to_string() },
            ConversionTask { input: "a.csv".to_string(), output: "out/a.parquet".to_string() },
            ConversionTask { input: "dir/c.tsv".to_string(), output: "out/c.parquet".to_string() },
        ]
    );
    assert_eq!(plan_tasks(vec![], None), vec![]);
}
