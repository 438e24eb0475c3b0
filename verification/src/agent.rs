//! The agent's side: the tasks it offers, what it announces to the server,
//! how it handles the events it receives and what it reports back.
use crate::protocol::agent::{self as wire, ExecutionReport, RUN_TASK_EVENT_NAME};
use crate::protocol::{format_uuid, uuid_text, ExecutionStatus, Task};
use crate::sse::SseEvent;
use crate::text::{copy_opt_string, copy_strings, opt_view, same_text};
use std::collections::BTreeSet;
use vstd::prelude::*;

verus! {

/// A task that an agent can run: a command run in a toolchain container that
/// shares the process namespace of a target container.
#[derive(Debug, Clone, PartialEq, Eq, Hash, Default)]
pub struct TaskDef {
    /// The id under which the task is addressed across all agents.
    pub id: String,
    /// The command run in the toolchain container: the absolute path of the
    /// executable, then its arguments.
    pub command: Vec<String>,
    /// The target container.
    pub container_id: String,
    /// The toolchain container image.
    pub toolchain: String,
    /// A description for people.
    pub description: Option<String>,
    pub tags: BTreeSet<String>,
}

/// All the tasks found in one round of discovery.
pub type TaskSet = Vec<TaskDef>;

/// Whether two task definitions agree in every field, the tags by their
/// contents.
pub open spec fn same_def(a: TaskDef, b: TaskDef) -> bool {
    &&& a.id == b.id
    &&& a.command@ == b.command@
    &&& a.container_id == b.container_id
    &&& a.toolchain == b.toolchain
    &&& a.description == b.description
    &&& a.tags@ == b.tags@
}

/// A copy of a task definition.
pub fn copy_task_def(t: &TaskDef) -> (res: TaskDef)
    ensures
        same_def(res, *t),
{
    TaskDef {
        id: t.id.clone(),
        command: copy_strings(&t.command),
        container_id: t.container_id.clone(),
        toolchain: t.toolchain.clone(),
        description: copy_opt_string(&t.description),
        tags: t.tags.clone(),
    }
}

/// The task that an agent announces for a task definition: its id,
/// description and tags.
pub fn announced_task(t: &TaskDef) -> (res: Task)
    ensures
        res.id == t.id,
        res.description == t.description,
        res.tags@ == t.tags@,
{
    Task { id: t.id.clone(), description: copy_opt_string(&t.description), tags: t.tags.clone() }
}

/// Whether `i` is the first position of a definition with id `id`.
pub open spec fn is_def_at(s: Seq<TaskDef>, id: Seq<char>, i: int) -> bool {
    &&& 0 <= i < s.len()
    &&& s[i].id@ == id
    &&& forall|k: int| 0 <= k < i ==> s[k].id@ != id
}

/// The position of the first definition with id `id`, if there is one.
pub open spec fn def_index(s: Seq<TaskDef>, id: Seq<char>) -> Option<int> {
    if exists|i: int| is_def_at(s, id, i) {
        Some(choose|i: int| is_def_at(s, id, i))
    } else {
        None
    }
}

/// The definitions after `t` is added: it replaces a definition with the
/// same id, or joins at the end.
pub open spec fn insert_def(s: Seq<TaskDef>, t: TaskDef) -> Seq<TaskDef> {
    match def_index(s, t.id@) {
        Some(i) => s.update(i, t),
        None => s.push(t),
    }
}

/// The definitions collected one after another, a later one replacing an
/// earlier one of the same id.
pub open spec fn collect_defs(s: Seq<TaskDef>) -> Seq<TaskDef>
    decreases s.len(),
{
    if s.len() == 0 {
        s
    } else {
        insert_def(collect_defs(s.drop_last()), s.last())
    }
}

/// Whether no two definitions share an id.
pub open spec fn distinct_def_ids(s: Seq<TaskDef>) -> bool {
    forall|i: int, j: int| 0 <= i < s.len() && 0 <= j < s.len() && i != j ==> s[i].id@ != s[j].id@
}

/// Whether some definition in `s` has id `id`.
pub open spec fn has_def_id(s: Seq<TaskDef>, id: Seq<char>) -> bool {
    exists|k: int| 0 <= k < s.len() && (#[trigger] s[k]).id@ == id
}

/// Whether `k` is the last position of a definition with id `id` in `s`.
pub open spec fn is_last_def(s: Seq<TaskDef>, id: Seq<char>, k: int) -> bool {
    &&& 0 <= k < s.len()
    &&& s[k].id@ == id
    &&& forall|m: int| k < m < s.len() ==> s[m].id@ != id
}

/// A definition with a given id has a first position.
pub proof fn lemma_first_def_exists(s: Seq<TaskDef>, id: Seq<char>, k: int)
    requires
        0 <= k < s.len(),
        s[k].id@ == id,
    ensures
        def_index(s, id) is Some,
    decreases k,
{
    if exists|m: int| 0 <= m < k && s[m].id@ == id {
        let m = choose|m: int| 0 <= m < k && s[m].id@ == id;
        lemma_first_def_exists(s, id, m);
    } else {
        assert(is_def_at(s, id, k));
    }
}

/// The first position of an id, where there is one, holds that id.
pub proof fn lemma_def_index_found(s: Seq<TaskDef>, id: Seq<char>)
    ensures
        def_index(s, id) matches Some(i) ==> is_def_at(s, id, i),
        def_index(s, id) is None ==> forall|k: int| 0 <= k < s.len() ==> s[k].id@ != id,
{
    if def_index(s, id) is None {
        assert forall|k: int| 0 <= k < s.len() implies s[k].id@ != id by {
            if s[k].id@ == id {
                lemma_first_def_exists(s, id, k);
            }
        }
    }
}

/// Collecting definitions by id keeps one definition per id, for exactly
/// the ids that occur, and it is the last definition given with that id.
pub proof fn lemma_collect_keeps_last(s: Seq<TaskDef>)
    ensures
        distinct_def_ids(collect_defs(s)),
        forall|id: Seq<char>|
            #![trigger has_def_id(s, id)]
            #![trigger has_def_id(collect_defs(s), id)]
            has_def_id(s, id) <==> has_def_id(collect_defs(s), id),
        forall|j: int|
            0 <= j < collect_defs(s).len() ==> exists|k: int|
                is_last_def(s, collect_defs(s)[j].id@, k) && s[k] == #[trigger] collect_defs(s)[j],
    decreases s.len(),
{
    if s.len() == 0 {
        return;
    }
    let init = s.drop_last();
    let t = s.last();
    let n = s.len() - 1;
    lemma_collect_keeps_last(init);
    let r = collect_defs(init);
    let res = collect_defs(s);
    lemma_def_index_found(r, t.id@);
    assert(res == insert_def(r, t));
    match def_index(r, t.id@) {
        Some(i) => {
            assert(res == r.update(i, t));
            assert forall|a: int, b: int|
                0 <= a < res.len() && 0 <= b < res.len() && a != b implies res[a].id@
                != res[b].id@ by {
                assert(r[i].id@ == t.id@);
            }
            assert forall|id: Seq<char>| has_def_id(s, id) <==> has_def_id(res, id) by {
                if has_def_id(s, id) {
                    let k = choose|k: int| 0 <= k < s.len() && (#[trigger] s[k]).id@ == id;
                    if k < n {
                        assert(init[k].id@ == id);
                        assert(has_def_id(init, id));
                        let j = choose|j: int| 0 <= j < r.len() && (#[trigger] r[j]).id@ == id;
                        if j == i {
                            assert(res[i].id@ == id);
                        } else {
                            assert(res[j].id@ == id);
                        }
                    } else {
                        assert(res[i].id@ == id);
                    }
                }
                if has_def_id(res, id) {
                    let j = choose|j: int| 0 <= j < res.len() && (#[trigger] res[j]).id@ == id;
                    if j == i {
                        assert(s[n].id@ == id);
                    } else {
                        assert(r[j].id@ == id);
                        assert(has_def_id(r, id));
                        let k = choose|k: int| 0 <= k < init.len() && (#[trigger] init[k]).id@ == id;
                        assert(s[k].id@ == id);
                    }
                }
            }
            assert forall|j: int| 0 <= j < res.len() implies exists|k: int|
                is_last_def(s, res[j].id@, k) && s[k] == #[trigger] res[j] by {
                if j == i {
                    assert(is_last_def(s, res[j].id@, n));
                } else {
                    assert(res[j] == r[j]);
                    let k = choose|k: int| is_last_def(init, r[j].id@, k) && init[k] == r[j];
                    assert(r[j].id@ != r[i].id@);
                    assert(s[k] == init[k]);
                    assert forall|m: int| k < m < s.len() implies s[m].id@ != res[j].id@ by {
                        if m < n {
                            assert(s[m] == init[m]);
                        } else {
                            assert(s[m] == t);
                        }
                    }
                    assert(is_last_def(s, res[j].id@, k));
                }
            }
        },
        None => {
            assert(res == r.push(t));
            assert forall|a: int, b: int|
                0 <= a < res.len() && 0 <= b < res.len() && a != b implies res[a].id@
                != res[b].id@ by {
                if a == r.len() {
                    assert(r[b].id@ != t.id@);
                } else if b == r.len() {
                    assert(r[a].id@ != t.id@);
                } else {
                    assert(res[a] == r[a] && res[b] == r[b]);
                }
            }
            assert forall|id: Seq<char>| has_def_id(s, id) <==> has_def_id(res, id) by {
                if has_def_id(s, id) {
                    let k = choose|k: int| 0 <= k < s.len() && (#[trigger] s[k]).id@ == id;
                    if k < n {
                        assert(init[k].id@ == id);
                        assert(has_def_id(init, id));
                        let j = choose|j: int| 0 <= j < r.len() && (#[trigger] r[j]).id@ == id;
                        assert(res[j].id@ == id);
                    } else {
                        assert(res[r.len() as int].id@ == id);
                    }
                }
                if has_def_id(res, id) {
                    let j = choose|j: int| 0 <= j < res.len() && (#[trigger] res[j]).id@ == id;
                    if j == r.len() {
                        assert(s[n].id@ == id);
                    } else {
                        assert(r[j].id@ == id);
                        assert(has_def_id(r, id));
                        let k = choose|k: int| 0 <= k < init.len() && (#[trigger] init[k]).id@ == id;
                        assert(s[k].id@ == id);
                    }
                }
            }
            assert forall|j: int| 0 <= j < res.len() implies exists|k: int|
                is_last_def(s, res[j].id@, k) && s[k] == #[trigger] res[j] by {
                if j == r.len() {
                    assert(is_last_def(s, res[j].id@, n));
                } else {
                    assert(res[j] == r[j]);
                    let k = choose|k: int| is_last_def(init, r[j].id@, k) && init[k] == r[j];
                    assert(r[j].id@ != t.id@);
                    assert(s[k] == init[k]);
                    assert forall|m: int| k < m < s.len() implies s[m].id@ != res[j].id@ by {
                        if m < n {
                            assert(s[m] == init[m]);
                        } else {
                            assert(s[m] == t);
                        }
                    }
                    assert(is_last_def(s, res[j].id@, k));
                }
            }
        },
    }
}

/// The position of the first definition with id `id`.
pub fn find_def(defs: &Vec<TaskDef>, id: &str) -> (res: Option<usize>)
    ensures
        match def_index(defs@, id@) {
            None => res is None,
            Some(i) => res is Some && res->0 as int == i,
        },
{
    let mut i: usize = 0;
    while i < defs.len()
        invariant
            i <= defs.len(),
            forall|k: int| 0 <= k < i ==> defs@[k].id@ != id@,
        decreases defs.len() - i,
    {
        if same_text(defs[i].id.as_str(), id) {
            assert(is_def_at(defs@, id@, i as int));
            assert(forall|j: int| is_def_at(defs@, id@, j) ==> j == i);
            return Some(i);
        }
        i = i + 1;
    }
    assert(!exists|j: int| is_def_at(defs@, id@, j));
    None
}

/// Collects task definitions by id; a later definition replaces an earlier
/// one with the same id.
pub fn collect_by_id(tasks: Vec<TaskDef>) -> (res: Vec<TaskDef>)
    ensures
        res@ == collect_defs(tasks@),
{
    let ghost all = tasks@;
    let mut rest = tasks;
    let mut res: Vec<TaskDef> = Vec::new();
    let n = rest.len();
    let mut i: usize = 0;
    while i < n
        invariant
            n == all.len(),
            i <= n,
            rest@ == all.skip(i as int),
            res@ == collect_defs(all.take(i as int)),
        decreases n - i,
    {
        let t = rest.remove(0);
        assert(rest@ =~= all.skip(i as int + 1));
        assert(all.take(i as int + 1).drop_last() =~= all.take(i as int));
        assert(all.take(i as int + 1).last() == t);
        match find_def(&res, t.id.as_str()) {
            Some(j) => {
                res.set(j, t);
            },
            None => {
                res.push(t);
            },
        }
        i = i + 1;
    }
    assert(all.take(n as int) =~= all);
    res
}

/// What an agent does with a task it is asked to run.
pub enum TaskPlan {
    /// Start the given task definition.
    Run(TaskDef),
    /// Report that the task could not start, for this reason.
    Reject(String),
}

/// The reason given for a task that the agent does not have.
pub open spec fn not_found_reason(task_id: Seq<char>) -> Seq<char> {
    "Task "@ + task_id + " not found"@
}

/// The kinds of event that an agent receives.
pub enum IncomingEvent {
    /// A request to run a task, with the event's data.
    RunTask(String),
    /// A request to stop a task. Stopping tasks is not supported: the agent
    /// answers such a request with a warning and keeps running.
    StopTask,
    /// Any other event, with the event's data.
    Invalid(String),
}

/// The name of the event that asks an agent to stop a task.
pub const STOP_TASK_EVENT_NAME: &'static str = "stop-task";

/// Sorts an incoming event by its name.
pub fn classify_event(event: &SseEvent) -> (res: IncomingEvent)
    ensures
        match opt_view(event.0) {
            Some(n) if n == RUN_TASK_EVENT_NAME@ => res matches IncomingEvent::RunTask(d) && d
                == event.1,
            Some(n) if n == STOP_TASK_EVENT_NAME@ => res is StopTask,
            _ => res matches IncomingEvent::Invalid(d) && d == event.1,
        },
{
    match &event.0 {
        Some(name) => {
            if same_text(name.as_str(), RUN_TASK_EVENT_NAME) {
                IncomingEvent::RunTask(event.1.clone())
            } else if same_text(name.as_str(), STOP_TASK_EVENT_NAME) {
                IncomingEvent::StopTask
            } else {
                IncomingEvent::Invalid(event.1.clone())
            }
        },
        None => IncomingEvent::Invalid(event.1.clone()),
    }
}

/// What happens while a task runs, as the agent reports it.
pub enum TaskProgress {
    /// Output of the task.
    Stdout(String),
    /// The task ended with this exit code.
    Finished(i32),
    /// The task could not start, for this reason.
    FailedToStart(String),
    /// The task's artifacts are in the archive at this path.
    ArtifactsReady(String),
}

/// What the agent sends to the server for a piece of progress.
pub enum ReportRequest {
    /// An execution report.
    Report(ExecutionReport),
    /// The artifact archive at this path, for the execution.
    AttachArtifacts(String),
}

/// The report for a piece of progress of execution `id`: output keeps it
/// `RUNNING`, an exit code makes it `COMPLETED` or `FAILED`, a failure to
/// start makes it `REJECTED` with the reason as output; artifacts are sent as
/// an archive.
pub fn progress_report(id: u128, progress: &TaskProgress) -> (res: ReportRequest)
    ensures
        progress matches TaskProgress::Finished(code) ==> res matches ReportRequest::Report(r) && (
        r.status == ExecutionStatus::COMPLETED <==> code == 0) && (code != 0 ==> r.status
            == ExecutionStatus::FAILED),
        match *progress {
            TaskProgress::Stdout(line) => res == ReportRequest::Report(
                ExecutionReport {
                    id,
                    status: ExecutionStatus::RUNNING,
                    stdout_append: Some(line),
                },
            ),
            TaskProgress::Finished(code) => res == ReportRequest::Report(
                ExecutionReport {
                    id,
                    status: ExecutionStatus::of_exit_code(code),
                    stdout_append: None,
                },
            ),
            TaskProgress::FailedToStart(reason) => res == ReportRequest::Report(
                ExecutionReport {
                    id,
                    status: ExecutionStatus::REJECTED,
                    stdout_append: Some(reason),
                },
            ),
            TaskProgress::ArtifactsReady(path) => res == ReportRequest::AttachArtifacts(path),
        },
{
    match progress {
        TaskProgress::Stdout(line) => ReportRequest::Report(
            ExecutionReport {
                id,
                status: ExecutionStatus::RUNNING,
                stdout_append: Some(line.clone()),
            },
        ),
        TaskProgress::Finished(code) => ReportRequest::Report(
            ExecutionReport {
                id,
                status: ExecutionStatus::from_unix_exit_code(*code),
                stdout_append: None,
            },
        ),
        TaskProgress::FailedToStart(reason) => ReportRequest::Report(
            ExecutionReport {
                id,
                status: ExecutionStatus::REJECTED,
                stdout_append: Some(reason.clone()),
            },
        ),
        TaskProgress::ArtifactsReady(path) => ReportRequest::AttachArtifacts(path.clone()),
    }
}

/// The progress for a chunk of a task's output: the output as text, or
/// `None` where it is not valid UTF-8.
pub fn output_progress(bytes: &[u8]) -> (res: Option<TaskProgress>)
    ensures
        res is Some <==> vstd::utf8::valid_utf8(bytes@),
        res matches Some(p) ==> p matches TaskProgress::Stdout(s) && s@
            == vstd::utf8::decode_utf8(bytes@),
{
    match crate::text::decode_utf8_bytes(bytes) {
        Some(s) => Some(TaskProgress::Stdout(s)),
        None => None,
    }
}

/// The address to which execution reports go, on the server at `uri`.
pub fn report_uri(uri: &str) -> (res: String)
    ensures
        res@ == uri@ + "/backend/execution/report"@,
{
    let mut res = uri.to_string();
    res.append("/backend/execution/report");
    res
}

/// The address to which the artifacts of execution `id` go, on the server
/// at `uri`.
pub fn attach_uri(uri: &str, id: u128) -> (res: String)
    ensures
        res@ == uri@ + "/backend/execution/attach?id="@ + uuid_text(id),
{
    let mut res = uri.to_string();
    res.append("/backend/execution/attach?id=");
    let id_text = format_uuid(id);
    res.append(id_text.as_str());
    res
}

/// The agent's own state: its name, the server's address and the tasks it
/// offers, at most one per id.
pub struct AgentSession {
    pub name: String,
    pub uri: String,
    pub tasks: Vec<TaskDef>,
}

impl AgentSession {
    /// The tasks the agent offers.
    pub open spec fn tasks(self) -> Seq<TaskDef> {
        self.tasks@
    }

    /// An agent named `name` that talks to the server at `host` and offers
    /// the given tasks; a later task replaces an earlier one with the same
    /// id.
    pub fn new(host: &str, name: &str, tasks: Vec<TaskDef>) -> (res: Self)
        ensures
            res.name@ == name@,
            res.uri@ == "http://"@ + host@,
            res.tasks() == collect_defs(tasks@),
    {
        let mut uri = "http://".to_string();
        uri.append(host);
        AgentSession { name: name.to_string(), uri, tasks: collect_by_id(tasks) }
    }

    /// What the agent announces to the server: its name and, for each task
    /// it offers, the task's id, description and tags.
    pub fn announcement(&self) -> (res: wire::Agent)
        ensures
            res.name == self.name,
            res.tasks.len() == self.tasks().len(),
            forall|j: int|
                0 <= j < res.tasks.len() ==> {
                    &&& (#[trigger] res.tasks@[j]).id == self.tasks()[j].id
                    &&& res.tasks@[j].description == self.tasks()[j].description
                    &&& res.tasks@[j].tags@ == self.tasks()[j].tags@
                },
    {
        let mut tasks: Vec<Task> = Vec::new();
        let mut i: usize = 0;
        while i < self.tasks.len()
            invariant
                i <= self.tasks.len(),
                tasks.len() == i,
                forall|j: int|
                    0 <= j < i ==> {
                        &&& (#[trigger] tasks@[j]).id == self.tasks()[j].id
                        &&& tasks@[j].description == self.tasks()[j].description
                        &&& tasks@[j].tags@ == self.tasks()[j].tags@
                    },
            decreases self.tasks.len() - i,
        {
            tasks.push(announced_task(&self.tasks[i]));
            i = i + 1;
        }
        wire::Agent { name: self.name.clone(), tasks }
    }

    /// The address of the server's event stream.
    pub fn events_uri(&self) -> (res: String)
        ensures
            res@ == self.uri@ + "/backend/events"@,
    {
        let mut res = self.uri.clone();
        res.append("/backend/events");
        res
    }

    /// The address to which heartbeats go.
    pub fn heartbeat_uri(&self) -> (res: String)
        ensures
            res@ == self.uri@ + "/backend/hb"@,
    {
        let mut res = self.uri.clone();
        res.append("/backend/hb");
        res
    }

    /// The task offered under `task_id`, if there is one.
    pub fn find_task(&self, task_id: &str) -> (res: Option<&TaskDef>)
        ensures
            match def_index(self.tasks(), task_id@) {
                None => res is None,
                Some(i) => res == Some(&self.tasks()[i]),
            },
    {
        match find_def(&self.tasks, task_id) {
            Some(i) => Some(&self.tasks[i]),
            None => None,
        }
    }

    /// What to do when asked to run the task `task_id`: run the task offered
    /// under that id, or reject the request when there is none.
    pub fn plan_task(&self, task_id: &str) -> (res: TaskPlan)
        ensures
            match def_index(self.tasks(), task_id@) {
                None => res matches TaskPlan::Reject(reason) && reason@ == not_found_reason(
                    task_id@,
                ),
                Some(i) => res matches TaskPlan::Run(t) && same_def(t, self.tasks()[i]),
            },
    {
        match self.find_task(task_id) {
            Some(t) => TaskPlan::Run(copy_task_def(t)),
            None => {
                let mut reason = "Task ".to_string();
                reason.append(task_id);
                reason.append(" not found");
                TaskPlan::Reject(reason)
            },
        }
    }
}

/// Whether the agent is to be restarted with a new task set, given the hash
/// of the task set it runs (none before the first) and the hash of the task
/// set just discovered; and the hash to remember from now on. It restarts
/// exactly when the hashes differ.
pub fn reload_step(last: Option<u64>, hash: u64) -> (res: (bool, Option<u64>))
    ensures
        res.0 == (last != Some(hash)),
        res.1 == Some(hash),
{
    let changed = match last {
        Some(h) => h != hash,
        None => true,
    };
    (changed, Some(hash))
}

/// Seconds to wait before connecting again after a failed attempt.
pub const CONNECT_RETRY_SECS: u64 = 5;

/// Seconds to wait before connecting again after the stream ended or a
/// heartbeat failed.
pub const RECONNECT_DELAY_SECS: u64 = 1;

/// Seconds without a message after which a heartbeat is sent.
pub const HEARTBEAT_INTERVAL_SECS: u64 = 2;

/// Where the agent's connection to the server stands.
#[derive(Debug, PartialEq, Eq, Structural, Clone, Copy)]
pub enum LoopState {
    /// Connecting to the server's event stream; whether a close was asked
    /// for meanwhile.
    Connecting { close_pending: bool },
    /// Listening on the event stream.
    Listening,
    /// Done.
    Closed,
}

/// What happens to the agent's connection.
#[derive(Debug, PartialEq, Eq, Structural, Clone, Copy)]
pub enum LoopEvent {
    /// The event stream was opened.
    Connected,
    /// The event stream could not be opened.
    ConnectFailed,
    /// An event arrived on the stream.
    Message,
    /// The stream ended.
    StreamEnded,
    /// Reading the stream failed.
    StreamFailed,
    /// No event arrived for `HEARTBEAT_INTERVAL_SECS` seconds.
    HeartbeatDue,
    /// A heartbeat reached the server.
    HeartbeatSent,
    /// A heartbeat did not reach the server.
    HeartbeatFailed,
    /// The agent was asked to close.
    CloseRequested,
}

/// What the agent does next.
#[derive(Debug, PartialEq, Eq, Structural, Clone, Copy)]
pub enum LoopAction {
    /// Open the event stream.
    Connect,
    /// Wait this many seconds, then open the event stream.
    WaitAndConnect(u64),
    /// Wait for the next event, heartbeat time or close request.
    Listen,
    /// Handle the event that arrived, then listen.
    Handle,
    /// Send a heartbeat.
    SendHeartbeat,
    /// Stop.
    Exit,
}

/// The agent's connection loop: from a state and what happened, the next
/// state and what to do.
pub open spec fn loop_transition(state: LoopState, event: LoopEvent) -> (LoopState, LoopAction) {
    match state {
        LoopState::Closed => (LoopState::Closed, LoopAction::Exit),
        LoopState::Connecting { close_pending } => match event {
            LoopEvent::Connected => if close_pending {
                (LoopState::Closed, LoopAction::Exit)
            } else {
                (LoopState::Listening, LoopAction::Listen)
            },
            LoopEvent::ConnectFailed => (
                LoopState::Connecting { close_pending },
                LoopAction::WaitAndConnect(CONNECT_RETRY_SECS),
            ),
            LoopEvent::CloseRequested => (
                LoopState::Connecting { close_pending: true },
                LoopAction::Connect,
            ),
            _ => (LoopState::Connecting { close_pending }, LoopAction::Connect),
        },
        LoopState::Listening => match event {
            LoopEvent::Message => (LoopState::Listening, LoopAction::Handle),
            LoopEvent::StreamEnded | LoopEvent::StreamFailed | LoopEvent::HeartbeatFailed => (
                LoopState::Connecting { close_pending: false },
                LoopAction::WaitAndConnect(RECONNECT_DELAY_SECS),
            ),
            LoopEvent::ConnectFailed => (
                LoopState::Connecting { close_pending: false },
                LoopAction::WaitAndConnect(CONNECT_RETRY_SECS),
            ),
            LoopEvent::HeartbeatDue => (LoopState::Listening, LoopAction::SendHeartbeat),
            LoopEvent::CloseRequested => (LoopState::Closed, LoopAction::Exit),
            _ => (LoopState::Listening, LoopAction::Listen),
        },
    }
}

/// The first state of the connection loop, and its first action.
pub fn loop_start() -> (res: (LoopState, LoopAction))
    ensures
        res == (LoopState::Connecting { close_pending: false }, LoopAction::Connect),
{
    (LoopState::Connecting { close_pending: false }, LoopAction::Connect)
}

/// One step of the agent's connection loop.
pub fn loop_step(state: LoopState, event: LoopEvent) -> (res: (LoopState, LoopAction))
    ensures
        res == loop_transition(state, event),
        state == LoopState::Listening && (event == LoopEvent::StreamEnded || event
            == LoopEvent::StreamFailed || event == LoopEvent::HeartbeatFailed) ==> res == (
            LoopState::Connecting { close_pending: false },
            LoopAction::WaitAndConnect(RECONNECT_DELAY_SECS),
        ),
        state == LoopState::Listening && event != LoopEvent::Message && event
            != LoopEvent::HeartbeatDue && event != LoopEvent::CloseRequested && event
            != LoopEvent::HeartbeatSent && event != LoopEvent::Connected ==> res.0
            != LoopState::Listening,
        state == LoopState::Closed ==> res == (LoopState::Closed, LoopAction::Exit),
{
    match state {
        LoopState::Closed => (LoopState::Closed, LoopAction::Exit),
        LoopState::Connecting { close_pending } => match event {
            LoopEvent::Connected => if close_pending {
                (LoopState::Closed, LoopAction::Exit)
            } else {
                (LoopState::Listening, LoopAction::Listen)
            },
            LoopEvent::ConnectFailed => (
                LoopState::Connecting { close_pending },
                LoopAction::WaitAndConnect(CONNECT_RETRY_SECS),
            ),
            LoopEvent::CloseRequested => (
                LoopState::Connecting { close_pending: true },
                LoopAction::Connect,
            ),
            _ => (LoopState::Connecting { close_pending }, LoopAction::Connect),
        },
        LoopState::Listening => match event {
            LoopEvent::Message => (LoopState::Listening, LoopAction::Handle),
            LoopEvent::StreamEnded | LoopEvent::StreamFailed | LoopEvent::HeartbeatFailed => (
                LoopState::Connecting { close_pending: false },
                LoopAction::WaitAndConnect(RECONNECT_DELAY_SECS),
            ),
            LoopEvent::ConnectFailed => (
                LoopState::Connecting { close_pending: false },
                LoopAction::WaitAndConnect(CONNECT_RETRY_SECS),
            ),
            LoopEvent::HeartbeatDue => (LoopState::Listening, LoopAction::SendHeartbeat),
            LoopEvent::CloseRequested => (LoopState::Closed, LoopAction::Exit),
            _ => (LoopState::Listening, LoopAction::Listen),
        },
    }
}

/// A listening agent whose event stream ended or failed, or whose heartbeat
/// did not reach the server, waits `RECONNECT_DELAY_SECS` seconds and
/// connects again; every event that says the connection is gone takes it out
/// of listening; a failed connection attempt is retried after
/// `CONNECT_RETRY_SECS` seconds, and a stream that opens is listened on.
pub proof fn lemma_loop_reconnects(event: LoopEvent, close_pending: bool)
    ensures
        (event == LoopEvent::StreamEnded || event == LoopEvent::StreamFailed || event
            == LoopEvent::HeartbeatFailed) ==> loop_transition(LoopState::Listening, event) == (
            LoopState::Connecting { close_pending: false },
            LoopAction::WaitAndConnect(1),
        ),
        event != LoopEvent::Message && event != LoopEvent::HeartbeatDue && event
            != LoopEvent::CloseRequested && event != LoopEvent::HeartbeatSent && event
            != LoopEvent::Connected ==> loop_transition(LoopState::Listening, event).0
            != LoopState::Listening,
        loop_transition(LoopState::Connecting { close_pending }, LoopEvent::ConnectFailed) == (
            LoopState::Connecting { close_pending },
            LoopAction::WaitAndConnect(5),
        ),
        loop_transition(LoopState::Connecting { close_pending: false }, LoopEvent::Connected) == (
            LoopState::Listening,
            LoopAction::Listen,
        ),
        loop_transition(LoopState::Listening, LoopEvent::Message) == (
            LoopState::Listening,
            LoopAction::Handle,
        ),
        loop_transition(LoopState::Listening, LoopEvent::HeartbeatDue) == (
            LoopState::Listening,
            LoopAction::SendHeartbeat,
        ),
{
}

/// The loop stops only on a close: it exits only once closed, on a close
/// request while listening, or on connecting after a close was asked for.
pub proof fn lemma_exit_only_on_close(state: LoopState, event: LoopEvent)
    ensures
        loop_transition(state, event).1 == LoopAction::Exit ==> {
            ||| state == LoopState::Closed
            ||| event == LoopEvent::CloseRequested
            ||| state == LoopState::Connecting { close_pending: true } && event
                == LoopEvent::Connected
        },
{
}

/// Once the loop is closed it stays closed; a close asked for while
/// listening, or while connecting once the connection stands, ends the loop.
pub proof fn lemma_close_is_final(state: LoopState, event: LoopEvent)
    ensures
        state == LoopState::Closed ==> loop_transition(state, event) == (
            LoopState::Closed,
            LoopAction::Exit,
        ),
        state == LoopState::Listening && event == LoopEvent::CloseRequested ==> loop_transition(
            state,
            event,
        ).1 == LoopAction::Exit,
        (state matches LoopState::Connecting { .. }) && event == LoopEvent::CloseRequested
            ==> loop_transition(loop_transition(state, event).0, LoopEvent::Connected).1
            == LoopAction::Exit,
{
}

} // verus!
