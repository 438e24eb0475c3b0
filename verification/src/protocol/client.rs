//! Messages between the server and its clients.
pub use super::agent::Agent;
use super::{ExecutionStatus, Task};
use std::time::{SystemTime, UNIX_EPOCH};
use vstd::prelude::*;

verus! {

/// A point in time: seconds and nanoseconds since the Unix epoch, UTC.
#[derive(Debug, PartialEq, Eq, Structural, Clone, Copy)]
pub struct UtcTime {
    pub secs: i64,
    pub nanos: u32,
}

#[verifier::external_type_specification]
#[verifier::external_body]
pub struct ExSystemTime(SystemTime);

/// Calls `std::time::SystemTime::now`. The clock decides the value, so
/// nothing is stated of it.
#[verifier::external_body]
fn system_now() -> (res: SystemTime) {
    SystemTime::now()
}

/// Calls `SystemTime::duration_since` with the Unix epoch and gives the
/// duration as whole seconds and the nanoseconds below a second, or `None`
/// where the time lies before the epoch. The nanoseconds are below one
/// second, as `Duration::subsec_nanos` documents.
#[verifier::external_body]
fn since_unix_epoch(t: &SystemTime) -> (res: Option<(u64, u32)>)
    ensures
        res matches Some(d) ==> d.1 < 1_000_000_000,
{
    match t.duration_since(UNIX_EPOCH) {
        Ok(d) => Some((d.as_secs(), d.subsec_nanos())),
        Err(_) => None,
    }
}

/// The point in time that lies `offset` (whole seconds, nanoseconds) after
/// the Unix epoch: `None` where there is no offset (a time before the epoch)
/// or its seconds do not fit in a `UtcTime`.
pub fn utc_from_epoch_offset(offset: Option<(u64, u32)>) -> (res: Option<UtcTime>)
    ensures
        match offset {
            None => res is None,
            Some(d) => if d.0 <= i64::MAX {
                res == Some(UtcTime { secs: d.0 as i64, nanos: d.1 })
            } else {
                res is None
            },
        },
{
    match offset {
        None => None,
        Some((secs, nanos)) => if secs <= i64::MAX as u64 {
            Some(UtcTime { secs: secs as i64, nanos })
        } else {
            None
        },
    }
}

/// The time now, from the system clock; `None` where the clock reads a time
/// before the Unix epoch or one too far after it. A time it gives lies at or
/// after the epoch, with its nanoseconds below one second.
pub fn utc_now() -> (res: Option<UtcTime>)
    ensures
        res matches Some(t) ==> 0 <= t.secs && t.nanos < 1_000_000_000,
{
    let now = system_now();
    utc_from_epoch_offset(since_unix_epoch(&now))
}

/// Refers to an execution by its id.
#[derive(Debug, PartialEq, Eq, Structural)]
pub struct ExecutionRef {
    pub execution_id: u128,
}

/// A client's request to run a task on an agent.
#[derive(Debug, PartialEq)]
pub struct RunTask {
    pub task_id: String,
    pub agent: String,
}

/// An execution as the server tracks it.
#[derive(Debug, PartialEq, Clone)]
pub struct Execution {
    pub id: u128,
    pub agent: String,
    pub output: String,
    pub task: Task,
    pub status: ExecutionStatus,
    pub started: UtcTime,
    pub finished: Option<UtcTime>,
    pub artifact_size: Option<usize>,
}

impl Execution {
    /// A new execution that started at the given time: `INITIATED`, with no
    /// output, not finished and without artifacts.
    pub fn started_at(id: u128, task: Task, agent: String, started: UtcTime) -> (res: Self)
        ensures
            res.id == id,
            res.task == task,
            res.agent == agent,
            res.output@ == Seq::<char>::empty(),
            res.status == ExecutionStatus::INITIATED,
            res.started == started,
            res.finished is None,
            res.artifact_size is None,
    {
        Execution {
            id,
            agent,
            task,
            output: String::new(),
            status: ExecutionStatus::INITIATED,
            started,
            finished: None,
            artifact_size: None,
        }
    }

    /// A new execution started now: `INITIATED`, with no output, not finished
    /// and without artifacts; `None` where the clock gives no time (see
    /// `utc_now`).
    pub fn new(id: u128, task: Task, agent: String) -> (res: Option<Self>)
        ensures
            res matches Some(e) ==> {
                &&& e.id == id
                &&& e.task == task
                &&& e.agent == agent
                &&& e.output@ == Seq::<char>::empty()
                &&& e.status == ExecutionStatus::INITIATED
                &&& e.finished is None
                &&& e.artifact_size is None
            },
    {
        match utc_now() {
            Some(now) => Some(Self::started_at(id, task, agent, now)),
            None => None,
        }
    }
}

} // verus!
