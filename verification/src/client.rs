//! A simple agent that runs local commands: the tasks it registers and the
//! executions it starts.
use crate::protocol::ExecutionStatus;
use crate::text::same_text;
use vstd::prelude::*;

verus! {

/// A task that the agent can run: its id, unique for the agent, and the
/// factory of the command that runs it.
pub struct Task<C> {
    pub id: String,
    pub command: C,
}

/// An execution of a task, with the lines of output collected so far.
pub struct Execution {
    pub id: u128,
    pub task: String,
    pub status: ExecutionStatus,
    pub stdout: Vec<String>,
}

impl Execution {
    /// A new execution of the task `task_id`: `INITIATED`, with no output.
    pub fn new(id: u128, task_id: &str) -> (res: Self)
        ensures
            res.id == id,
            res.task@ == task_id@,
            res.status == ExecutionStatus::INITIATED,
            res.stdout@ == Seq::<String>::empty(),
    {
        Execution {
            id,
            task: task_id.to_string(),
            status: ExecutionStatus::INITIATED,
            stdout: Vec::new(),
        }
    }
}

/// The tasks an agent can run, by id, and the executions it started, by id.
pub struct Executions<C> {
    tasks: Vec<Task<C>>,
    executions: Vec<Execution>,
}

/// Whether `i` is the position of the task `id`.
pub open spec fn is_task_at<C>(tasks: Seq<Task<C>>, id: Seq<char>, i: int) -> bool {
    &&& 0 <= i < tasks.len()
    &&& tasks[i].id@ == id
    &&& forall|k: int| 0 <= k < i ==> tasks[k].id@ != id
}

/// The position of the task `id`, if it is registered.
pub open spec fn task_position<C>(tasks: Seq<Task<C>>, id: Seq<char>) -> Option<int> {
    if exists|i: int| is_task_at(tasks, id, i) {
        Some(choose|i: int| is_task_at(tasks, id, i))
    } else {
        None
    }
}

/// Whether `i` is the position of the execution `id`.
pub open spec fn is_execution_at(executions: Seq<Execution>, id: u128, i: int) -> bool {
    &&& 0 <= i < executions.len()
    &&& executions[i].id == id
    &&& forall|k: int| 0 <= k < i ==> executions[k].id != id
}

/// The position of the execution `id`, if there is one.
pub open spec fn execution_position(executions: Seq<Execution>, id: u128) -> Option<int> {
    if exists|i: int| is_execution_at(executions, id, i) {
        Some(choose|i: int| is_execution_at(executions, id, i))
    } else {
        None
    }
}

impl<C> Executions<C> {
    /// The registered tasks.
    pub closed spec fn tasks(self) -> Seq<Task<C>> {
        self.tasks@
    }

    /// The started executions.
    pub closed spec fn executions(self) -> Seq<Execution> {
        self.executions@
    }

    /// No tasks, no executions.
    pub fn new() -> (res: Self)
        ensures
            res.tasks() == Seq::<Task<C>>::empty(),
            res.executions() == Seq::<Execution>::empty(),
    {
        Executions { tasks: Vec::new(), executions: Vec::new() }
    }

    /// The position of the task `task_id`.
    fn find_task(&self, task_id: &str) -> (res: Option<usize>)
        ensures
            match task_position(self.tasks(), task_id@) {
                None => res is None,
                Some(i) => res is Some && res->0 as int == i,
            },
    {
        let mut i: usize = 0;
        while i < self.tasks.len()
            invariant
                i <= self.tasks.len(),
                forall|k: int| 0 <= k < i ==> self.tasks@[k].id@ != task_id@,
            decreases self.tasks.len() - i,
        {
            if same_text(self.tasks[i].id.as_str(), task_id) {
                assert(is_task_at(self.tasks@, task_id@, i as int));
                assert(forall|j: int| is_task_at(self.tasks@, task_id@, j) ==> j == i);
                return Some(i);
            }
            i = i + 1;
        }
        assert(!exists|j: int| is_task_at(self.tasks@, task_id@, j));
        None
    }

    /// Registers the command factory of the task `task_id`; it replaces a
    /// task registered under the same id.
    pub fn register_task(&mut self, task_id: &str, factory: C)
        ensures
            final(self).executions() == old(self).executions(),
            match task_position(old(self).tasks(), task_id@) {
                Some(i) => {
                    &&& final(self).tasks().len() == old(self).tasks().len()
                    &&& final(self).tasks()[i].id@ == task_id@
                    &&& final(self).tasks()[i].command == factory
                    &&& forall|k: int|
                        0 <= k < old(self).tasks().len() && k != i ==> final(self).tasks()[k]
                            == old(self).tasks()[k]
                },
                None => {
                    &&& final(self).tasks().len() == old(self).tasks().len() + 1
                    &&& final(self).tasks().last().id@ == task_id@
                    &&& final(self).tasks().last().command == factory
                    &&& final(self).tasks().drop_last() == old(self).tasks()
                },
            },
    {
        let task = Task { id: task_id.to_string(), command: factory };
        match self.find_task(task_id) {
            Some(i) => {
                self.tasks.set(i, task);
            },
            None => {
                self.tasks.push(task);
                assert(self.tasks@.drop_last() =~= old(self).tasks@);
            },
        }
    }

    /// The command factory of the task `task_id`, if it is registered.
    pub fn factory(&self, task_id: &str) -> (res: Option<&C>)
        ensures
            match task_position(self.tasks(), task_id@) {
                None => res is None,
                Some(i) => res == Some(&self.tasks()[i].command),
            },
    {
        match self.find_task(task_id) {
            Some(i) => Some(&self.tasks[i].command),
            None => None,
        }
    }

    /// Records that the task `task_id` started as execution `execution_id`;
    /// it replaces an execution with the same id.
    pub fn record_started(&mut self, execution_id: u128, task_id: &str)
        ensures
            final(self).tasks() == old(self).tasks(),
            ({
                let e = match execution_position(old(self).executions(), execution_id) {
                    Some(i) => final(self).executions()[i],
                    None => final(self).executions().last(),
                };
                &&& e.id == execution_id
                &&& e.task@ == task_id@
                &&& e.status == ExecutionStatus::INITIATED
                &&& e.stdout@ == Seq::<String>::empty()
                &&& match execution_position(old(self).executions(), execution_id) {
                    Some(i) => final(self).executions() == old(self).executions().update(i, e),
                    None => final(self).executions() == old(self).executions().push(e),
                }
            }),
    {
        let e = Execution::new(execution_id, task_id);
        match self.find_execution(execution_id) {
            Some(j) => {
                self.executions.set(j, e);
            },
            None => {
                self.executions.push(e);
            },
        }
    }

    /// The position of the execution `id`.
    fn find_execution(&self, id: u128) -> (res: Option<usize>)
        ensures
            match execution_position(self.executions(), id) {
                None => res is None,
                Some(i) => res is Some && res->0 as int == i,
            },
    {
        let mut i: usize = 0;
        while i < self.executions.len()
            invariant
                i <= self.executions.len(),
                forall|k: int| 0 <= k < i ==> self.executions@[k].id != id,
            decreases self.executions.len() - i,
        {
            if self.executions[i].id == id {
                assert(is_execution_at(self.executions@, id, i as int));
                assert(forall|j: int| is_execution_at(self.executions@, id, j) ==> j == i);
                return Some(i);
            }
            i = i + 1;
        }
        assert(!exists|j: int| is_execution_at(self.executions@, id, j));
        None
    }
}

} // verus!
