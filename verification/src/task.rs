//! The unit of work: one input file and the place of its output.

use vstd::prelude::*;
use vstd::string::*;

verus! {

/// The greatest index below `end` at which `s` holds `ch`; -1 where it holds
/// none there.
pub open spec fn last_index_of(s: Seq<char>, ch: char, end: int) -> int
    decreases end,
{
    if end <= 0 {
        -1
    } else if s[end - 1] == ch {
        end - 1
    } else {
        last_index_of(s, ch, end - 1)
    }
}

/// Where the file name begins in a path whose parts are parted by `/`:
/// behind the last `/`, or at the start.
pub open spec fn file_name_start(path: Seq<char>) -> int {
    last_index_of(path, '/', path.len() as int) + 1
}

/// Where the extension of the file name is cut off: at the last `.` of
/// the file name, unless the name begins with it; at the end of the path
/// where the name has no extension.
pub open spec fn stem_end(path: Seq<char>) -> int {
    let dot = last_index_of(path, '.', path.len() as int);
    if dot > file_name_start(path) {
        dot
    } else {
        path.len() as int
    }
}

/// The path with the extension of its file name replaced by `parquet`, or
/// with `.parquet` added where the name has no extension.
pub open spec fn with_parquet_extension(path: Seq<char>) -> Seq<char> {
    path.take(stem_end(path)) + ".parquet"@
}

/// The place of the output for the input at `input`.
///
/// Without an output directory, the output lies beside the input. With one,
/// it lies in that directory, under the file name of the input. Either way
/// its extension is `parquet`.
pub open spec fn output_path_of(input: Seq<char>, output_dir: Option<Seq<char>>) -> Seq<char> {
    match output_dir {
        None => with_parquet_extension(input),
        Some(dir) => {
            let name = with_parquet_extension(input.skip(file_name_start(input)));
            if dir.len() == 0 {
                name
            } else if dir.last() == '/' {
                dir + name
            } else {
                dir + "/"@ + name
            }
        },
    }
}

/// An optional directory as plain values.
pub open spec fn dir_view(output_dir: Option<&str>) -> Option<Seq<char>> {
    match output_dir {
        Some(dir) => Some(dir@),
        None => None,
    }
}

/// The last index of `s` that holds `ch`.
pub fn last_index(s: &str, ch: char) -> (r: Option<usize>)
    ensures
        match r {
            Some(i) => i == last_index_of(s@, ch, s@.len() as int) && i < s@.len() && s@[i as int]
                == ch,
            None => last_index_of(s@, ch, s@.len() as int) == -1,
        },
{
    let mut end: usize = s.unicode_len();
    while end > 0
        invariant
            end <= s@.len(),
            last_index_of(s@, ch, s@.len() as int) == last_index_of(s@, ch, end as int),
        decreases end,
    {
        if s.get_char(end - 1) == ch {
            return Some(end - 1);
        }
        end -= 1;
    }
    None
}

/// Replaces the extension of the file name of `path` by `parquet`.
pub fn parquet_name(path: &str) -> (r: String)
    ensures
        r@ == with_parquet_extension(path@),
{
    let len: usize = path.unicode_len();
    proof {
        lemma_last_index_bound(path@, '/', path@.len() as int);
        lemma_last_index_bound(path@, '.', path@.len() as int);
    }
    let start: usize = match last_index(path, '/') {
        Some(i) => i + 1,
        None => 0,
    };
    let cut: usize = match last_index(path, '.') {
        Some(dot) => if dot > start {
            dot
        } else {
            len
        },
        None => len,
    };
    let stem = path.substring_char(0, cut);
    assert(stem@ =~= path@.take(cut as int));
    String::from_str(stem).concat(".parquet")
}

/// The last index lies below `end`.
pub proof fn lemma_last_index_bound(s: Seq<char>, ch: char, end: int)
    requires
        0 <= end <= s.len(),
    ensures
        -1 <= last_index_of(s, ch, end) < end || (end == 0 && last_index_of(s, ch, end) == -1),
        last_index_of(s, ch, end) >= 0 ==> s[last_index_of(s, ch, end)] == ch,
    decreases end,
{
    if end > 0 && s[end - 1] != ch {
        lemma_last_index_bound(s, ch, end - 1);
    }
}

/// Works out where the output for the input at `input` goes.
pub fn output_path(input: &str, output_dir: Option<&str>) -> (r: String)
    ensures
        r@ == output_path_of(input@, dir_view(output_dir)),
{
    match output_dir {
        None => parquet_name(input),
        Some(dir) => {
            let len: usize = input.unicode_len();
            let start: usize = match last_index(input, '/') {
                Some(i) => i + 1,
                None => 0,
            };
            proof {
                lemma_last_index_bound(input@, '/', input@.len() as int);
            }
            let file_name = input.substring_char(start, len);
            assert(file_name@ =~= input@.skip(start as int));
            let name = parquet_name(file_name);
            let dir_len: usize = dir.unicode_len();
            if dir_len == 0 {
                name
            } else if dir.get_char(dir_len - 1) == '/' {
                String::from_str(dir).concat(name.as_str())
            } else {
                String::from_str(dir).concat("/").concat(name.as_str())
            }
        },
    }
}

/// One input file and the place of its output.
#[derive(Debug, PartialEq, Eq)]
pub struct ConversionTask {
    pub input: String,
    pub output: String,
}

/// A `ConversionTask` as plain values.
pub struct TaskModel {
    pub input: Seq<char>,
    pub output: Seq<char>,
}

impl View for ConversionTask {
    type V = TaskModel;

    open spec fn view(&self) -> TaskModel {
        TaskModel { input: self.input@, output: self.output@ }
    }
}

/// The tasks of a list, each as its model.
pub open spec fn tasks_view(tasks: &Vec<ConversionTask>) -> Seq<TaskModel> {
    Seq::new(tasks.len() as nat, |i: int| tasks[i]@)
}

impl ConversionTask {
    /// The task that converts the file at `input`.
    pub fn new(input: String, output_dir: Option<&str>) -> (t: ConversionTask)
        ensures
            t@.input == input@,
            t@.output == output_path_of(input@, dir_view(output_dir)),
    {
        let output = output_path(input.as_str(), output_dir);
        ConversionTask { input, output }
    }
}

/// Makes one task for each input file, in the order of the files.
pub fn plan_tasks(files: Vec<String>, output_dir: Option<&str>) -> (tasks: Vec<ConversionTask>)
    ensures
        tasks.len() == files.len(),
        forall|i: int|
            0 <= i < files.len() ==> (#[trigger] tasks_view(&tasks)[i]) == (TaskModel {
                input: files[i]@,
                output: output_path_of(files[i]@, dir_view(output_dir)),
            }),
{
    let mut tasks: Vec<ConversionTask> = Vec::new();
    let mut i: usize = 0;
    while i < files.len()
        invariant
            i <= files.len(),
            tasks.len() == i,
            forall|k: int|
                0 <= k < i ==> (#[trigger] tasks[k])@ == (TaskModel {
                    input: files[k]@,
                    output: output_path_of(files[k]@, dir_view(output_dir)),
                }),
        decreases files.len() - i,
    {
        let input = files[i].clone();
        tasks.push(ConversionTask::new(input, output_dir));
        i += 1;
    }
    tasks
}

} // verus!
