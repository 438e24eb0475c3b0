//! Messages between the server and its agents.
use super::{ExecutionStatus, Task};
use vstd::prelude::*;

verus! {

/// The name of the server-sent event that asks an agent to run a task.
pub const RUN_TASK_EVENT_NAME: &'static str = "run-task";

/// An agent and the tasks it offers.
#[derive(Debug, PartialEq, Clone)]
pub struct Agent {
    pub name: String,
    pub tasks: Vec<Task>,
}

impl Agent {
    /// An agent with the given name and tasks.
    pub fn new(name: &str, tasks: Vec<Task>) -> (res: Self)
        ensures
            res.name@ == name@,
            res.tasks == tasks,
    {
        Agent { name: name.to_string(), tasks }
    }
}

/// Asks an agent to run a task under the given execution id.
#[derive(Debug, PartialEq)]
pub struct RunTask {
    pub task_id: String,
    pub execution: u128,
}

/// Asks an agent to stop an execution.
#[derive(Debug, PartialEq, Eq, Structural)]
pub struct StopTask {
    pub execution: u128,
}

/// What an agent reports of an execution: its new status and output to
/// append.
#[derive(Debug, PartialEq)]
pub struct ExecutionReport {
    pub id: u128,
    pub status: ExecutionStatus,
    pub stdout_append: Option<String>,
}

} // verus!
