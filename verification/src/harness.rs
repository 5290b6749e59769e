//! The run over many files: which task starts next, what has finished, and
//! what went wrong.

use vstd::prelude::*;
use vstd::seq_lib::seq_to_set_is_finite;
use vstd::set_lib::{lemma_int_range, lemma_len_subset, lemma_subset_equality, set_int_range};
use crate::error::{ConvertError, message_of};
use crate::task::{ConversionTask, TaskModel, tasks_view};

verus! {

/// The report of one file that could not be converted.
#[derive(Debug, PartialEq, Eq)]
pub struct ErrorRecord {
    pub file_path: String,
    pub error: String,
}

/// An `ErrorRecord` as plain values.
pub struct RecordModel {
    pub file_path: Seq<char>,
    pub error: Seq<char>,
}

impl View for ErrorRecord {
    type V = RecordModel;

    open spec fn view(&self) -> RecordModel {
        RecordModel { file_path: self.file_path@, error: self.error@ }
    }
}

/// The records of a list, each as its model.
pub open spec fn records_view(records: &Vec<ErrorRecord>) -> Seq<RecordModel> {
    Seq::new(records.len() as nat, |i: int| records[i]@)
}

/// How far a task has come.
#[derive(Clone, Copy, Debug, PartialEq, Eq, Structural)]
pub enum TaskState {
    Pending,
    Running,
    Done,
}

/// What the one who runs the tasks is to do next.
#[derive(Clone, Copy, Debug, PartialEq, Eq, Structural)]
pub enum Action {
    /// Start the task with this index; a slot is free for it.
    Launch(usize),
    /// Every slot is busy, or every task has started: wait for a running
    /// task to finish, and report it.
    Wait,
    /// Every task has finished.
    Finished,
}

/// One finished task: its index, and the message of its error where it
/// failed.
pub struct Completion {
    pub task: int,
    pub failure: Option<Seq<char>>,
}

/// What the outcome of a task leaves in the history.
pub open spec fn failure_of(result: Result<(), ConvertError>) -> Option<Seq<char>> {
    match result {
        Ok(_) => None,
        Err(e) => Some(message_of(e)),
    }
}

/// The error records that a history of completions leaves: one for each
/// failure, in the order in which the failures were reported.
pub open spec fn errors_of(tasks: Seq<TaskModel>, history: Seq<Completion>) -> Seq<RecordModel>
    decreases history.len(),
{
    if history.len() == 0 {
        Seq::empty()
    } else {
        let earlier = errors_of(tasks, history.drop_last());
        match history.last().failure {
            Some(message) => earlier.push(
                RecordModel { file_path: tasks[history.last().task].input, error: message },
            ),
            None => earlier,
        }
    }
}

/// The number of failures in a history of completions.
pub open spec fn failure_count(history: Seq<Completion>) -> nat
    decreases history.len(),
{
    if history.len() == 0 {
        0
    } else {
        failure_count(history.drop_last()) + if history.last().failure is Some {
            1nat
        } else {
            0nat
        }
    }
}

/// The indices of the tasks of a history, in order.
pub open spec fn finished_tasks(history: Seq<Completion>) -> Seq<int> {
    Seq::new(history.len(), |k: int| history[k].task)
}

/// The error records only grow: a success leaves them as they are, and a
/// failure adds one record behind those that are there.
pub proof fn lemma_errors_append_only(
    tasks: Seq<TaskModel>,
    history: Seq<Completion>,
    next: Completion,
)
    ensures
        errors_of(tasks, history.push(next)) == match next.failure {
            Some(message) => errors_of(tasks, history).push(
                RecordModel { file_path: tasks[next.task].input, error: message },
            ),
            None => errors_of(tasks, history),
        },
{
    assert(history.push(next).drop_last() =~= history);
}

/// There are exactly as many error records as failures.
pub proof fn lemma_one_record_per_failure(tasks: Seq<TaskModel>, history: Seq<Completion>)
    ensures
        errors_of(tasks, history).len() == failure_count(history),
        failure_count(history) <= history.len(),
    decreases history.len(),
{
    if history.len() > 0 {
        lemma_one_record_per_failure(tasks, history.drop_last());
    }
}

/// Indices below `n`, no two alike, are at most `n`; and where they are `n`,
/// each index below `n` is among them.
pub proof fn lemma_distinct_indices(s: Seq<int>, n: int)
    requires
        0 <= n,
        s.no_duplicates(),
        forall|k: int| 0 <= k < s.len() ==> 0 <= #[trigger] s[k] < n,
    ensures
        s.len() <= n,
        s.len() == n ==> forall|i: int| 0 <= i < n ==> s.contains(i),
{
    s.unique_seq_to_set();
    lemma_int_range(0, n);
    seq_to_set_is_finite(s);
    assert(s.to_set().subset_of(set_int_range(0, n))) by {
        assert forall|x: int| s.to_set().contains(x) implies set_int_range(0, n).contains(x) by {
            let k = choose|k: int| 0 <= k < s.len() && s[k] == x;
            assert(0 <= s[k] < n);
        }
    }
    lemma_len_subset(s.to_set(), set_int_range(0, n));
    if s.len() == n {
        lemma_subset_equality(s.to_set(), set_int_range(0, n));
        assert forall|i: int| 0 <= i < n implies s.contains(i) by {
            assert(set_int_range(0, n).contains(i));
            assert(s.to_set().contains(i));
        }
    }
}

/// The state of a run: the tasks, how many run at once, which have
/// started and finished, and the errors so far.
///
/// The one who runs the tasks asks `next_action` what to do, starts a task
/// when told to, and reports each finished task with `complete`.
pub struct Harness {
    tasks: Vec<ConversionTask>,
    states: Vec<TaskState>,
    workers: usize,
    launched: usize,
    completed: usize,
    errors: Vec<ErrorRecord>,
    history: Ghost<Seq<Completion>>,
}

impl Harness {
    /// The tasks of the run, in order.
    pub closed spec fn tasks(&self) -> Seq<TaskModel> {
        tasks_view(&self.tasks)
    }

    /// The number of tasks that may run at once.
    pub closed spec fn workers(&self) -> nat {
        self.workers as nat
    }

    /// The number of tasks started so far: those with the indices below it.
    pub closed spec fn launched(&self) -> nat {
        self.launched as nat
    }

    /// The completions reported so far, in the order of the reports.
    pub closed spec fn history(&self) -> Seq<Completion> {
        self.history@
    }

    /// The error records gathered so far.
    pub closed spec fn errors(&self) -> Seq<RecordModel> {
        records_view(&self.errors)
    }

    /// The fields agree with each other and with the history.
    pub closed spec fn consistent(&self) -> bool {
        &&& self.states.len() == self.tasks.len()
        &&& self.completed == self.history@.len()
        &&& forall|i: int|
            0 <= i < self.states.len() ==> (#[trigger] self.states[i] == TaskState::Pending <==> i
                >= self.launched)
        &&& forall|i: int|
            0 <= i < self.launched ==> (#[trigger] self.states[i] == TaskState::Done
                <==> finished_tasks(self.history@).contains(i))
    }

    /// Task `index` has started and has not finished.
    pub open spec fn is_running(&self, index: int) -> bool {
        0 <= index < self.launched() && !finished_tasks(self.history()).contains(index)
    }

    /// What holds of a run at every moment: no more tasks run than there
    /// are slots; only tasks that have started finish, and none finishes
    /// twice; the errors are those of the failures so far, in their order.
    pub open spec fn wf(&self) -> bool {
        &&& self.consistent()
        &&& self.workers() >= 1
        &&& self.history().len() <= self.launched() <= self.tasks().len()
        &&& self.launched() - self.history().len() <= self.workers()
        &&& finished_tasks(self.history()).no_duplicates()
        &&& forall|k: int|
            0 <= k < self.history().len() ==> 0 <= (#[trigger] self.history()[k]).task
                < self.launched()
        &&& self.errors() == errors_of(self.tasks(), self.history())
    }

    /// Sets up the run of `tasks` with `workers` slots.
    pub fn new(tasks: Vec<ConversionTask>, workers: usize) -> (h: Harness)
        requires
            workers >= 1,
        ensures
            h.wf(),
            h.tasks() == tasks_view(&tasks),
            h.workers() == workers,
            h.launched() == 0,
            h.history() == Seq::<Completion>::empty(),
    {
        let mut states: Vec<TaskState> = Vec::new();
        let mut i: usize = 0;
        while i < tasks.len()
            invariant
                i <= tasks.len(),
                states.len() == i,
                forall|k: int| 0 <= k < i ==> #[trigger] states[k] == TaskState::Pending,
            decreases tasks.len() - i,
        {
            states.push(TaskState::Pending);
            i += 1;
        }
        let h = Harness {
            tasks,
            states,
            workers,
            launched: 0,
            completed: 0,
            errors: Vec::new(),
            history: Ghost(Seq::empty()),
        };
        assert(h.errors() =~= errors_of(h.tasks(), h.history()));
        h
    }

    /// The number of tasks in the run.
    pub fn total(&self) -> (n: usize)
        ensures
            n == self.tasks().len(),
    {
        self.tasks.len()
    }

    /// The progress counter: the number of tasks that have finished,
    /// whether they succeeded or failed.
    pub fn completed(&self) -> (n: usize)
        requires
            self.wf(),
        ensures
            n == self.history().len(),
    {
        self.completed
    }

    /// Task `index`.
    pub fn task(&self, index: usize) -> (t: &ConversionTask)
        requires
            index < self.tasks().len(),
        ensures
            t@ == self.tasks()[index as int],
    {
        &self.tasks[index]
    }

    /// The error records gathered so far, in the order in which the
    /// failures were reported.
    pub fn error_records(&self) -> (records: &Vec<ErrorRecord>)
        ensures
            records_view(records) == self.errors(),
    {
        &self.errors
    }

    /// Ends the run and hands out the error records.
    pub fn into_errors(self) -> (records: Vec<ErrorRecord>)
        ensures
            records_view(&records) == self.errors(),
    {
        self.errors
    }

    /// Decides what to do next.
    ///
    /// `Finished` once every task has finished. Else `Launch` with the next
    /// task in order, where one is left and a slot is free; the task then
    /// counts as started. Else `Wait`: then some task is running.
    pub fn next_action(&mut self) -> (action: Action)
        requires
            old(self).wf(),
        ensures
            final(self).wf(),
            final(self).tasks() == old(self).tasks(),
            final(self).workers() == old(self).workers(),
            final(self).history() == old(self).history(),
            final(self).errors() == old(self).errors(),
            match action {
                Action::Finished => {
                    &&& old(self).history().len() == old(self).tasks().len()
                    &&& final(self).launched() == old(self).launched()
                },
                Action::Launch(index) => {
                    &&& old(self).history().len() < old(self).tasks().len()
                    &&& index == old(self).launched()
                    &&& index < old(self).tasks().len()
                    &&& old(self).launched() - old(self).history().len() < old(self).workers()
                    &&& final(self).launched() == old(self).launched() + 1
                },
                Action::Wait => {
                    &&& old(self).history().len() < old(self).tasks().len()
                    &&& old(self).launched() == old(self).tasks().len() || old(self).launched()
                        - old(self).history().len() == old(self).workers()
                    &&& old(self).history().len() < old(self).launched()
                    &&& final(self).launched() == old(self).launched()
                },
            },
    {
        if self.completed == self.tasks.len() {
            Action::Finished
        } else if self.launched < self.tasks.len() && self.launched - self.completed
            < self.workers {
            let index: usize = self.launched;
            self.states.set(index, TaskState::Running);
            self.launched = index + 1;
            proof {
                assert forall|i: int| 0 <= i < self.launched implies (#[trigger] self.states[i]
                    == TaskState::Done <==> finished_tasks(self.history@).contains(i)) by {
                    if i == index {
                        if finished_tasks(self.history@).contains(i) {
                            let k = choose|k: int|
                                0 <= k < self.history@.len() && finished_tasks(self.history@)[k]
                                    == i;
                            assert(self.history@[k].task < index);
                        }
                    }
                }
            }
            Action::Launch(index)
        } else {
            Action::Wait
        }
    }

    /// Reports that task `index` has finished, with its outcome.
    ///
    /// The report is taken where the task is running: the progress counter
    /// goes up by one, and a failure leaves one error record, with the path
    /// of the input and the message of the error. A report for a task that
    /// has not started, or has finished already, changes nothing.
    pub fn complete(&mut self, index: usize, result: Result<(), ConvertError>) -> (accepted: bool)
        requires
            old(self).wf(),
        ensures
            final(self).wf(),
            final(self).tasks() == old(self).tasks(),
            final(self).workers() == old(self).workers(),
            final(self).launched() == old(self).launched(),
            accepted == old(self).is_running(index as int),
            accepted ==> final(self).history() == old(self).history().push(
                Completion { task: index as int, failure: failure_of(result) },
            ),
            !accepted ==> final(self).history() == old(self).history(),
    {
        if index >= self.states.len() {
            return false;
        }
        match self.states[index] {
            TaskState::Running => {},
            _ => {
                return false;
            },
        }
        let ghost before = self.history@;
        let ghost after = before.push(Completion { task: index as int, failure: failure_of(result) });
        proof {
            assert(finished_tasks(after) =~= finished_tasks(before).push(index as int));
            assert(finished_tasks(after).no_duplicates()) by {
                assert forall|a: int, b: int|
                    0 <= a < after.len() && 0 <= b < after.len() && a != b implies finished_tasks(
                    after,
                )[a] != finished_tasks(after)[b] by {
                    if a < before.len() && b < before.len() {
                        assert(finished_tasks(before)[a] != finished_tasks(before)[b]);
                    } else if a < before.len() {
                        assert(finished_tasks(before).contains(finished_tasks(before)[a]));
                    } else {
                        assert(finished_tasks(before).contains(finished_tasks(before)[b]));
                    }
                }
            }
            assert forall|k: int| 0 <= k < after.len() implies 0 <= #[trigger] finished_tasks(
                after,
            )[k] < self.launched by {
                if k < before.len() {
                    assert(0 <= before[k].task < self.launched);
                }
            }
            lemma_distinct_indices(finished_tasks(after), self.launched as int);
            assert(after.drop_last() =~= before);
        }
        self.states.set(index, TaskState::Done);
        self.completed = self.completed + 1;
        match result {
            Ok(_) => {},
            Err(e) => {
                let file_path = self.tasks[index].input.clone();
                let error = e.message();
                let ghost held = records_view(&self.errors);
                self.errors.push(ErrorRecord { file_path, error });
                assert(records_view(&self.errors) =~= held.push(
                    RecordModel { file_path: self.tasks[index as int].input@, error: message_of(e) },
                ));
            },
        }
        self.history = Ghost(after);
        proof {
            assert forall|i: int| 0 <= i < self.launched implies (#[trigger] self.states[i]
                == TaskState::Done <==> finished_tasks(after).contains(i)) by {
                if i == index {
                    assert(finished_tasks(after)[before.len() as int] == i);
                } else {
                    if finished_tasks(before).contains(i) {
                        let k = choose|k: int|
                            0 <= k < before.len() && finished_tasks(before)[k] == i;
                        assert(finished_tasks(after)[k] == i);
                    }
                    if finished_tasks(after).contains(i) {
                        let k = choose|k: int| 0 <= k < after.len() && finished_tasks(after)[k] == i;
                        assert(finished_tasks(before)[k] == i);
                    }
                }
            }
            assert forall|k: int| 0 <= k < after.len() implies 0 <= (#[trigger] after[k]).task
                < self.launched by {
                if k < before.len() {
                    assert(after[k] == before[k]);
                }
            }
        }
        true
    }

    /// Once as many completions are in as there are tasks, the run is
    /// whole: every task has finished exactly once, whatever became of the
    /// others, and there is one error record for each failure and none
    /// besides.
    pub proof fn lemma_run_complete(&self)
        requires
            self.wf(),
            self.history().len() == self.tasks().len(),
        ensures
            self.launched() == self.tasks().len(),
            forall|i: int|
                0 <= i < self.tasks().len() ==> finished_tasks(self.history()).contains(i),
            finished_tasks(self.history()).no_duplicates(),
            self.errors().len() == failure_count(self.history()),
            self.errors().len() + (self.history().len() - failure_count(self.history()))
                == self.tasks().len(),
    {
        assert forall|k: int| 0 <= k < self.history().len() implies 0 <= #[trigger] finished_tasks(
            self.history(),
        )[k] < self.tasks().len() by {
            assert(0 <= self.history()[k].task < self.launched());
        }
        lemma_distinct_indices(finished_tasks(self.history()), self.tasks().len() as int);
        lemma_one_record_per_failure(self.tasks(), self.history());
    }
}

} // verus!
