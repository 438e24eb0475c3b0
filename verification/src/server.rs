//! The server's state: the agents connected to it and the executions it
//! tracks, with the decisions that its HTTP handlers make on them.
use crate::protocol::agent::{self, ExecutionReport};
use crate::protocol::client::{self, ExecutionRef, UtcTime};
use crate::protocol::{copy_task, format_uuid, uuid_text, ExecutionStatus, Task};
use crate::sse::{delivery_flags, event_parts, frame_parts, handed_parts, SseEvent};
use crate::text::{opt_view, same_text};
use futures::channel::mpsc::{UnboundedReceiver, UnboundedSender};
use std::time::Instant;
use vstd::prelude::*;

verus! {

#[verifier::external_type_specification]
#[verifier::external_body]
#[verifier::reject_recursive_types(T)]
pub struct ExUnboundedSender<T>(UnboundedSender<T>);

#[verifier::external_type_specification]
#[verifier::external_body]
#[verifier::reject_recursive_types(T)]
pub struct ExUnboundedReceiver<T>(UnboundedReceiver<T>);

#[verifier::external_type_specification]
#[verifier::external_body]
pub struct ExBytes(bytes::Bytes);

#[verifier::external_type_specification]
#[verifier::external_body]
pub struct ExIoError(std::io::Error);

#[verifier::external_type_specification]
#[verifier::external_body]
pub struct ExInstant(Instant);

/// What flows to an agent's event stream.
pub type StreamItem = std::io::Result<bytes::Bytes>;

/// Agents that have not sent a heartbeat for this many seconds are dropped.
pub const HEARTBEAT_TIMEOUT_SEC: u64 = 6;

/// How often, in seconds, stale agents are looked for.
pub const CLEANUP_INTERVAL_SEC: u64 = 2;

/// Calls `futures::channel::mpsc::unbounded`, which opens a channel.
#[verifier::external_body]
fn open_channel() -> (res: (UnboundedSender<StreamItem>, UnboundedReceiver<StreamItem>)) {
    futures::channel::mpsc::unbounded()
}

/// Calls `UnboundedSender::unbounded_send` with the text's bytes, and gives
/// back with the outcome the text that was handed over. It fails when the
/// receiving end is gone, which the other side decides, so nothing is stated
/// of the outcome.
#[verifier::external_body]
fn send_text(tx: &UnboundedSender<StreamItem>, text: &String) -> (res: (bool, Ghost<Seq<char>>))
    ensures
        res.1@ == text@,
{
    (tx.unbounded_send(Ok(bytes::Bytes::from(text.clone()))).is_ok(), Ghost(text@))
}

/// Calls `std::time::Instant::now`.
#[verifier::external_body]
fn instant_now() -> (res: Instant) {
    Instant::now()
}

/// Calls `Instant::elapsed` and keeps whole seconds. The clock decides the
/// value, so nothing is stated of it.
#[verifier::external_body]
fn elapsed_secs(since: &Instant) -> (res: u64) {
    since.elapsed().as_secs()
}

/// The elements of `s` at the positions where `keep` holds, in order.
pub open spec fn keep_where<A>(s: Seq<A>, keep: Seq<bool>) -> Seq<A>
    decreases s.len(),
{
    if s.len() == 0 {
        s
    } else if keep[s.len() - 1] {
        keep_where(s.drop_last(), keep).push(s.last())
    } else {
        keep_where(s.drop_last(), keep)
    }
}

/// For each elapsed time since a heartbeat, whether it is recent enough.
pub open spec fn recent(elapsed: Seq<u64>) -> Seq<bool> {
    elapsed.map_values(|s: u64| s < HEARTBEAT_TIMEOUT_SEC)
}

/// Whether `i` is the first position of an agent named `name`.
pub open spec fn is_agent_at(agents: Seq<agent::Agent>, name: Seq<char>, i: int) -> bool {
    &&& 0 <= i < agents.len()
    &&& agents[i].name@ == name
    &&& forall|k: int| 0 <= k < i ==> agents[k].name@ != name
}

/// The position of the agent named `name`, if there is one.
pub open spec fn agent_index(agents: Seq<agent::Agent>, name: Seq<char>) -> Option<int> {
    if exists|i: int| is_agent_at(agents, name, i) {
        Some(choose|i: int| is_agent_at(agents, name, i))
    } else {
        None
    }
}

/// The agents after `info` connects: it takes the place of an agent of the
/// same name, or joins at the end.
pub open spec fn upsert_agent(agents: Seq<agent::Agent>, info: agent::Agent) -> Seq<
    agent::Agent,
> {
    match agent_index(agents, info.name@) {
        Some(i) => agents.update(i, info),
        None => agents.push(info),
    }
}

/// Whether `i` is the first position of a task with id `id`.
pub open spec fn is_task_at(tasks: Seq<Task>, id: Seq<char>, i: int) -> bool {
    &&& 0 <= i < tasks.len()
    &&& tasks[i].id@ == id
    &&& forall|k: int| 0 <= k < i ==> tasks[k].id@ != id
}

/// The position of the first task with id `id`, if there is one.
pub open spec fn task_index(tasks: Seq<Task>, id: Seq<char>) -> Option<int> {
    if exists|i: int| is_task_at(tasks, id, i) {
        Some(choose|i: int| is_task_at(tasks, id, i))
    } else {
        None
    }
}

/// Whether `i` is the first position of an execution with id `id`.
pub open spec fn is_execution_at(executions: Seq<client::Execution>, id: u128, i: int) -> bool {
    &&& 0 <= i < executions.len()
    &&& executions[i].id == id
    &&& forall|k: int| 0 <= k < i ==> executions[k].id != id
}

/// The position of the execution with id `id`, if there is one.
pub open spec fn execution_index(executions: Seq<client::Execution>, id: u128) -> Option<int> {
    if exists|i: int| is_execution_at(executions, id, i) {
        Some(choose|i: int| is_execution_at(executions, id, i))
    } else {
        None
    }
}

/// The executions after `e` is recorded: it takes the place of an execution
/// with the same id, or joins at the end.
pub open spec fn upsert_execution(executions: Seq<client::Execution>, e: client::Execution) -> Seq<
    client::Execution,
> {
    match execution_index(executions, e.id) {
        Some(i) => executions.update(i, e),
        None => executions.push(e),
    }
}

/// Whether no two agents share a name.
pub open spec fn distinct_agent_names(agents: Seq<agent::Agent>) -> bool {
    forall|i: int, j: int|
        0 <= i < agents.len() && 0 <= j < agents.len() && i != j ==> agents[i].name@
            != agents[j].name@
}

/// Whether no two executions share an id.
pub open spec fn distinct_execution_ids(executions: Seq<client::Execution>) -> bool {
    forall|i: int, j: int|
        0 <= i < executions.len() && 0 <= j < executions.len() && i != j ==> executions[i].id
            != executions[j].id
}

/// Whether every execution in a terminal state has a finishing time.
pub open spec fn terminal_ones_finished(executions: Seq<client::Execution>) -> bool {
    forall|i: int|
        0 <= i < executions.len() && (#[trigger] executions[i]).status.terminal()
            ==> executions[i].finished is Some
}

/// The text a report appends to an execution's output.
pub open spec fn appended_text(append: Option<String>) -> Seq<char> {
    match append {
        Some(text) => text@,
        None => Seq::empty(),
    }
}

/// Whether `n` is execution `o` after `report` arrived at time `now`: it
/// appends the reported output; an execution in a terminal state keeps its
/// status and finishing time, any other takes the reported status and gets
/// `now` as its finishing time when that status is terminal.
pub open spec fn report_applied(
    o: client::Execution,
    n: client::Execution,
    report: ExecutionReport,
    now: UtcTime,
) -> bool {
    &&& n.id == o.id
    &&& n.agent == o.agent
    &&& n.task == o.task
    &&& n.started == o.started
    &&& n.artifact_size == o.artifact_size
    &&& n.output@ == o.output@ + appended_text(report.stdout_append)
    &&& if o.status.terminal() {
        n.status == o.status && n.finished == o.finished
    } else {
        &&& n.status == report.status
        &&& n.finished == if report.status.terminal() {
            Some(now)
        } else {
            o.finished
        }
    }
}

/// Whether applying `report` to execution `o` gives it a finishing time: it
/// enters a terminal state from one that is not.
pub open spec fn needs_finish_time(o: client::Execution, report: ExecutionReport) -> bool {
    !o.status.terminal() && report.status.terminal()
}

/// A terminal state is final: a report leaves an execution in a terminal
/// state with its status and finishing time.
pub proof fn lemma_terminal_is_final(
    o: client::Execution,
    n: client::Execution,
    report: ExecutionReport,
    now: UtcTime,
)
    requires
        report_applied(o, n, report, now),
        o.status.terminal(),
    ensures
        n.status == o.status,
        n.finished == o.finished,
{
}

/// Whether two tasks have the same id, description and tags.
pub open spec fn same_task(a: Task, b: Task) -> bool {
    &&& a.id == b.id
    &&& a.description == b.description
    &&& a.tags@ == b.tags@
}

/// Whether two agents have the same name and the same tasks.
pub open spec fn same_agent(a: agent::Agent, b: agent::Agent) -> bool {
    &&& a.name == b.name
    &&& a.tasks.len() == b.tasks.len()
    &&& forall|j: int| 0 <= j < a.tasks.len() ==> same_task(#[trigger] a.tasks@[j], b.tasks@[j])
}

/// Whether two executions agree in every field, the task's tags by their
/// contents.
pub open spec fn same_execution(a: client::Execution, b: client::Execution) -> bool {
    &&& a.id == b.id
    &&& a.agent == b.agent
    &&& a.output == b.output
    &&& same_task(a.task, b.task)
    &&& a.status == b.status
    &&& a.started == b.started
    &&& a.finished == b.finished
    &&& a.artifact_size == b.artifact_size
}

/// Whether `e` is a newly started execution with the given id, task and
/// agent.
pub open spec fn fresh_execution(
    e: client::Execution,
    id: u128,
    task: Task,
    agent: Seq<char>,
) -> bool {
    &&& e.id == id
    &&& same_task(e.task, task)
    &&& e.agent@ == agent
    &&& e.output@ == Seq::<char>::empty()
    &&& e.status == ExecutionStatus::INITIATED
    &&& e.finished is None
    &&& e.artifact_size is None
}

/// The only content type accepted for artifacts.
pub const ARTIFACT_CONTENT_TYPE: &'static str = "application/x-tgz";

/// Errors that the server answers with.
#[derive(Debug, PartialEq, Eq, Structural, Clone, Copy)]
pub enum ServerError {
    /// The request's payload could not be read.
    Payload,
    /// The artifact file could not be written.
    UnableToCreateArtifact,
    /// No execution has this id.
    ExecutionNotFound(u128),
    /// An artifact of another content type than `application/x-tgz`.
    InvalidArtifactType,
}

impl ServerError {
    /// The HTTP status code of the answer.
    pub fn status_code(&self) -> (res: u16)
        ensures
            res == match *self {
                ServerError::Payload => 500u16,
                ServerError::UnableToCreateArtifact => 500u16,
                ServerError::ExecutionNotFound(_) => 409u16,
                ServerError::InvalidArtifactType => 406u16,
            },
    {
        match self {
            ServerError::Payload => 500,
            ServerError::UnableToCreateArtifact => 500,
            ServerError::ExecutionNotFound(_) => 409,
            ServerError::InvalidArtifactType => 406,
        }
    }

    /// The text of the answer.
    pub fn message(&self) -> (res: String)
        ensures
            res@ == match *self {
                ServerError::Payload => "Can't read payload from HTTP request"@,
                ServerError::UnableToCreateArtifact => "Unable to create artifact file"@,
                ServerError::ExecutionNotFound(id) => "Execution not found: "@ + uuid_text(id),
                ServerError::InvalidArtifactType =>
                    "Invalid artifact type. Only application/x-tgz is supported"@,
            },
    {
        match self {
            ServerError::Payload => "Can't read payload from HTTP request".to_string(),
            ServerError::UnableToCreateArtifact => "Unable to create artifact file".to_string(),
            ServerError::ExecutionNotFound(id) => {
                let mut text = "Execution not found: ".to_string();
                let id_text = format_uuid(*id);
                text.append(id_text.as_str());
                text
            },
            ServerError::InvalidArtifactType => {
                "Invalid artifact type. Only application/x-tgz is supported".to_string()
            },
        }
    }
}

/// The file in which the artifacts of an execution are kept.
pub fn artifact_file_name(id: u128) -> (res: String)
    ensures
        res@ == "./"@ + uuid_text(id) + ".tar.gz"@,
{
    let mut name = "./".to_string();
    let id_text = format_uuid(id);
    name.append(id_text.as_str());
    name.append(".tar.gz");
    name
}

/// A copy of a list of tasks.
pub fn copy_tasks(tasks: &Vec<Task>) -> (res: Vec<Task>)
    ensures
        res.len() == tasks.len(),
        forall|j: int| 0 <= j < tasks.len() ==> same_task(#[trigger] res@[j], tasks@[j]),
{
    let mut res: Vec<Task> = Vec::new();
    let mut i: usize = 0;
    while i < tasks.len()
        invariant
            i <= tasks.len(),
            res.len() == i,
            forall|j: int| 0 <= j < i ==> same_task(#[trigger] res@[j], tasks@[j]),
        decreases tasks.len() - i,
    {
        res.push(copy_task(&tasks[i]));
        i = i + 1;
    }
    res
}

/// A copy of an agent.
pub fn copy_agent(a: &agent::Agent) -> (res: agent::Agent)
    ensures
        same_agent(res, *a),
{
    agent::Agent { name: a.name.clone(), tasks: copy_tasks(&a.tasks) }
}

/// A copy of an execution.
pub fn copy_execution(e: &client::Execution) -> (res: client::Execution)
    ensures
        same_execution(res, *e),
{
    client::Execution {
        id: e.id,
        agent: e.agent.clone(),
        output: e.output.clone(),
        task: copy_task(&e.task),
        status: e.status,
        started: e.started,
        finished: e.finished,
        artifact_size: e.artifact_size,
    }
}

/// The position of the first task with id `id`.
pub fn find_task(tasks: &Vec<Task>, id: &str) -> (res: Option<usize>)
    ensures
        match task_index(tasks@, id@) {
            None => res is None,
            Some(i) => res is Some && res->0 as int == i,
        },
{
    let mut i: usize = 0;
    while i < tasks.len()
        invariant
            i <= tasks.len(),
            forall|k: int| 0 <= k < i ==> tasks@[k].id@ != id@,
        decreases tasks.len() - i,
    {
        if same_text(tasks[i].id.as_str(), id) {
            assert(is_task_at(tasks@, id@, i as int));
            assert(forall|j: int| is_task_at(tasks@, id@, j) ==> j == i);
            return Some(i);
        }
        i = i + 1;
    }
    assert(!exists|j: int| is_task_at(tasks@, id@, j));
    None
}

/// A connected agent: what it announced, the channel to its event stream and
/// the time of its last heartbeat.
pub struct AgentEntry {
    info: agent::Agent,
    tx: UnboundedSender<StreamItem>,
    hb: Instant,
}

impl AgentEntry {
    /// What the agent announced.
    pub closed spec fn announced(self) -> agent::Agent {
        self.info
    }

    /// What the agent announced.
    pub fn info(&self) -> (res: &agent::Agent)
        ensures
            *res == self.announced(),
    {
        &self.info
    }

    /// A newly connected agent, its heartbeat taken now, and the receiving end
    /// of its event stream.
    pub fn new(info: agent::Agent) -> (res: (Self, UnboundedReceiver<StreamItem>))
        ensures
            res.0.announced() == info,
    {
        let (tx, rx) = open_channel();
        (AgentEntry { info, tx, hb: instant_now() }, rx)
    }

    /// The time of the agent's last heartbeat.
    pub closed spec fn last_heartbeat(self) -> Instant {
        self.hb
    }

    /// The sending end of the agent's event stream.
    pub closed spec fn channel(self) -> UnboundedSender<StreamItem> {
        self.tx
    }

    /// Notes a heartbeat from the agent, taken at `at`.
    pub fn heartbeat_at(&mut self, at: Instant)
        ensures
            final(self).announced() == old(self).announced(),
            final(self).channel() == old(self).channel(),
            final(self).last_heartbeat() == at,
    {
        self.hb = at;
    }

    /// Notes a heartbeat from the agent, now; what it announced and its
    /// stream stay.
    pub fn heartbeat_received(&mut self)
        ensures
            final(self).announced() == old(self).announced(),
            final(self).channel() == old(self).channel(),
    {
        let now = instant_now();
        self.heartbeat_at(now);
    }

    /// Writes an event to the agent's stream, part by part, and stops at the
    /// first part that cannot be delivered. Returns whether every part was,
    /// and the texts handed over with whether each was accepted.
    pub fn send_event(&self, event: &SseEvent) -> (res: (bool, Ghost<Seq<(Seq<char>, bool)>>))
        ensures
            handed_parts(res.1@, event_parts(opt_view(event.0), event.1@), res.0),
    {
        let parts = frame_parts(event);
        let ghost expected = event_parts(opt_view(event.0), event.1@);
        let ghost mut trace: Seq<(Seq<char>, bool)> = Seq::empty();
        let mut i: usize = 0;
        while i < parts.len()
            invariant
                i <= parts.len(),
                crate::text::views(parts@) == expected,
                expected == event_parts(opt_view(event.0), event.1@),
                trace.len() == i,
                forall|k: int| 0 <= k < i ==> (#[trigger] trace[k]).0 == expected[k] && trace[k].1,
            decreases parts.len() - i,
        {
            let (ok, Ghost(text)) = send_text(&self.tx, &parts[i]);
            proof {
                let before = trace;
                trace = trace.push((text, ok));
                assert forall|k: int| 0 <= k < i implies (#[trigger] trace[k]).0 == expected[k]
                    && trace[k].1 by {
                    assert(trace[k] == before[k]);
                }
                assert(trace[i as int] == (text, ok));
            }
            if !ok {
                return (false, Ghost(trace));
            }
            i = i + 1;
        }
        (true, Ghost(trace))
    }
}

/// The server's state: connected agents, at most one per name, and the
/// executions it tracks, at most one per id.
pub struct CuratorState {
    agents: Vec<AgentEntry>,
    executions: Vec<client::Execution>,
}

/// The outcome of a request to run a task.
#[derive(Debug, PartialEq, Eq, Structural)]
pub enum RunTaskOutcome {
    /// The agent was asked to run the task; the execution is tracked under
    /// this reference.
    Started(ExecutionRef),
    /// No agent of that name, or it offers no task of that id.
    UnknownAgentOrTask,
    /// The agent could not be reached; it has been dropped.
    AgentUnreachable,
    /// The clock gave no time to start the execution at; nothing was sent
    /// and nothing changed.
    ClockUnavailable,
}

impl RunTaskOutcome {
    /// The HTTP status code of the answer.
    pub fn status_code(&self) -> (res: u16)
        ensures
            res == match *self {
                RunTaskOutcome::Started(_) => 200u16,
                RunTaskOutcome::UnknownAgentOrTask => 406u16,
                RunTaskOutcome::AgentUnreachable => 500u16,
                RunTaskOutcome::ClockUnavailable => 500u16,
            },
    {
        match self {
            RunTaskOutcome::Started(_) => 200,
            RunTaskOutcome::UnknownAgentOrTask => 406,
            RunTaskOutcome::AgentUnreachable => 500,
            RunTaskOutcome::ClockUnavailable => 500,
        }
    }
}

impl CuratorState {
    /// What the connected agents announced, in order.
    pub closed spec fn agents(self) -> Seq<agent::Agent> {
        self.agents@.map_values(|e: AgentEntry| e.info)
    }

    /// The times of the connected agents' last heartbeats, in the order of
    /// `agents`.
    pub closed spec fn heartbeats(self) -> Seq<Instant> {
        self.agents@.map_values(|e: AgentEntry| e.hb)
    }

    /// The sending ends of the connected agents' event streams, in the order
    /// of `agents`.
    pub closed spec fn channels(self) -> Seq<UnboundedSender<StreamItem>> {
        self.agents@.map_values(|e: AgentEntry| e.tx)
    }

    /// The executions, in order.
    pub closed spec fn executions(self) -> Seq<client::Execution> {
        self.executions@
    }

    /// Agents have distinct names, executions distinct ids, and every
    /// execution in a terminal state has a finishing time.
    pub open spec fn wf(self) -> bool {
        &&& distinct_agent_names(self.agents())
        &&& distinct_execution_ids(self.executions())
        &&& terminal_ones_finished(self.executions())
    }

    /// A state with no agents and no executions.
    pub fn new() -> (res: Self)
        ensures
            res.wf(),
            res.agents() == Seq::<agent::Agent>::empty(),
            res.executions() == Seq::<client::Execution>::empty(),
    {
        let res = CuratorState { agents: Vec::new(), executions: Vec::new() };
        assert(res.agents() =~= Seq::<agent::Agent>::empty());
        res
    }

    /// The position of the agent named `name`.
    fn find_agent(&self, name: &str) -> (res: Option<usize>)
        ensures
            match agent_index(self.agents(), name@) {
                None => res is None,
                Some(i) => res is Some && res->0 as int == i,
            },
            res is None ==> forall|k: int|
                0 <= k < self.agents().len() ==> #[trigger] self.agents()[k].name@ != name@,
    {
        let mut i: usize = 0;
        while i < self.agents.len()
            invariant
                i <= self.agents.len(),
                forall|k: int| 0 <= k < i ==> self.agents()[k].name@ != name@,
            decreases self.agents.len() - i,
        {
            if same_text(self.agents[i].info.name.as_str(), name) {
                assert(is_agent_at(self.agents(), name@, i as int));
                assert(forall|j: int| is_agent_at(self.agents(), name@, j) ==> j == i);
                return Some(i);
            }
            i = i + 1;
        }
        assert(!exists|j: int| is_agent_at(self.agents(), name@, j));
        None
    }

    /// Registers a connected agent: it replaces an agent of the same name.
    /// Returns the receiving end of the agent's event stream.
    pub fn agent_connected(&mut self, info: agent::Agent) -> (res: UnboundedReceiver<StreamItem>)
        requires
            old(self).wf(),
        ensures
            final(self).wf(),
            final(self).agents() == upsert_agent(old(self).agents(), info),
            final(self).executions() == old(self).executions(),
    {
        let ghost name = info.name@;
        let (entry, rx) = AgentEntry::new(info);
        match self.find_agent(entry.info.name.as_str()) {
            Some(i) => {
                self.agents.set(i, entry);
                assert(self.agents() =~= upsert_agent(old(self).agents(), info));
            },
            None => {
                self.agents.push(entry);
                assert(self.agents() =~= upsert_agent(old(self).agents(), info));
                assert(forall|k: int|
                    0 <= k < old(self).agents().len() ==> #[trigger] old(self).agents()[k].name@
                        != name);
                assert forall|a: int, b: int|
                    0 <= a < self.agents().len() && 0 <= b < self.agents().len() && a != b
                    implies self.agents()[a].name@ != self.agents()[b].name@ by {
                    if a == old(self).agents().len() as int {
                        assert(self.agents()[b] == old(self).agents()[b]);
                    } else if b == old(self).agents().len() as int {
                        assert(self.agents()[a] == old(self).agents()[a]);
                    }
                }
            },
        }
        rx
    }

    /// Notes a heartbeat, taken at `at`, from the agent named `name`, if it is
    /// connected; the other agents keep theirs.
    pub fn heartbeat_at(&mut self, name: &str, at: Instant)
        requires
            old(self).wf(),
        ensures
            final(self).wf(),
            final(self).agents() == old(self).agents(),
            final(self).executions() == old(self).executions(),
            final(self).channels() == old(self).channels(),
            final(self).heartbeats() == match agent_index(old(self).agents(), name@) {
                Some(i) => old(self).heartbeats().update(i, at),
                None => old(self).heartbeats(),
            },
    {
        if let Some(i) = self.find_agent(name) {
            let mut entry = self.agents.remove(i);
            entry.heartbeat_at(at);
            self.agents.insert(i, entry);
            assert(self.agents() =~= old(self).agents());
            assert(self.channels() =~= old(self).channels());
            assert(self.heartbeats() =~= old(self).heartbeats().update(i as int, at));
        }
    }

    /// Notes a heartbeat from the agent named `name`, if it is connected,
    /// with the time taken now; the other agents keep theirs.
    pub fn agent_heartbeat(&mut self, name: &str)
        requires
            old(self).wf(),
        ensures
            final(self).wf(),
            final(self).agents() == old(self).agents(),
            final(self).executions() == old(self).executions(),
            final(self).channels() == old(self).channels(),
            match agent_index(old(self).agents(), name@) {
                Some(i) => exists|at: Instant|
                    final(self).heartbeats() == #[trigger] old(self).heartbeats().update(i, at),
                None => final(self).heartbeats() == old(self).heartbeats(),
            },
    {
        let now = instant_now();
        self.heartbeat_at(name, now);
    }

    /// Keeps the agents at the positions where `keep` holds, in order.
    pub fn retain_agents(&mut self, keep: &Vec<bool>)
        requires
            old(self).wf(),
            keep.len() == old(self).agents().len(),
        ensures
            final(self).wf(),
            final(self).agents() == keep_where(old(self).agents(), keep@),
            final(self).channels() == keep_where(old(self).channels(), keep@),
            final(self).executions() == old(self).executions(),
    {
        let ghost original = self.agents@;
        let mut rest: Vec<AgentEntry> = Vec::new();
        std::mem::swap(&mut rest, &mut self.agents);
        let mut i: usize = 0;
        let n = rest.len();
        while i < n
            invariant
                n == original.len() == keep.len(),
                i <= n,
                rest@ == original.skip(i as int),
                self.agents@ == keep_where(original.take(i as int), keep@),
                self.executions@ == old(self).executions@,
            decreases n - i,
        {
            let entry = rest.remove(0);
            assert(rest@ =~= original.skip(i as int + 1));
            assert(original.take(i as int + 1).drop_last() =~= original.take(i as int));
            if keep[i] {
                self.agents.push(entry);
            }
            i = i + 1;
        }
        assert(original.take(n as int) =~= original);
        proof {
            lemma_keep_where_map_values(original, keep@, |e: AgentEntry| e.info);
            lemma_keep_where_map_values(original, keep@, |e: AgentEntry| e.tx);
            lemma_keep_where_distinct(old(self).agents(), keep@);
        }
    }

    /// Writes the event to every agent's stream and drops the agents that
    /// could not be reached. Gives back, for each agent, whether the event
    /// was delivered and the texts handed to its stream.
    pub fn notify_all(&mut self, event: &SseEvent) -> (res: Ghost<Seq<(bool, Seq<(Seq<char>, bool)>)>>)
        requires
            old(self).wf(),
        ensures
            final(self).wf(),
            res@.len() == old(self).agents().len(),
            forall|j: int|
                0 <= j < res@.len() ==> handed_parts(
                    (#[trigger] res@[j]).1,
                    event_parts(opt_view(event.0), event.1@),
                    res@[j].0,
                ),
            final(self).agents() == keep_where(old(self).agents(), delivery_flags(res@)),
            final(self).channels() == keep_where(old(self).channels(), delivery_flags(res@)),
            final(self).executions() == old(self).executions(),
    {
        let ghost mut outcomes: Seq<(bool, Seq<(Seq<char>, bool)>)> = Seq::empty();
        let mut delivered: Vec<bool> = Vec::new();
        let mut i: usize = 0;
        while i < self.agents.len()
            invariant
                i <= self.agents.len(),
                delivered.len() == i,
                outcomes.len() == i,
                delivered@ == delivery_flags(outcomes),
                forall|j: int|
                    0 <= j < i ==> handed_parts(
                        (#[trigger] outcomes[j]).1,
                        event_parts(opt_view(event.0), event.1@),
                        outcomes[j].0,
                    ),
            decreases self.agents.len() - i,
        {
            let (ok, Ghost(trace)) = self.agents[i].send_event(event);
            delivered.push(ok);
            proof {
                outcomes = outcomes.push((ok, trace));
                assert(delivered@ =~= delivery_flags(outcomes));
            }
            i = i + 1;
        }
        self.retain_agents(&delivered);
        Ghost(outcomes)
    }

    /// Keeps the agents whose last heartbeat is fewer than
    /// `HEARTBEAT_TIMEOUT_SEC` seconds old, given the seconds elapsed since
    /// each agent's heartbeat.
    pub fn retain_recent_agents(&mut self, elapsed: &Vec<u64>)
        requires
            old(self).wf(),
            elapsed.len() == old(self).agents().len(),
        ensures
            final(self).wf(),
            final(self).agents() == keep_where(old(self).agents(), recent(elapsed@)),
            final(self).channels() == keep_where(old(self).channels(), recent(elapsed@)),
            final(self).executions() == old(self).executions(),
    {
        let mut keep: Vec<bool> = Vec::new();
        let mut i: usize = 0;
        while i < elapsed.len()
            invariant
                i <= elapsed.len(),
                keep@ == elapsed@.take(i as int).map_values(|s: u64| s < HEARTBEAT_TIMEOUT_SEC),
            decreases elapsed.len() - i,
        {
            keep.push(elapsed[i] < HEARTBEAT_TIMEOUT_SEC);
            assert(keep@ =~= elapsed@.take(i as int + 1).map_values(
                |s: u64| s < HEARTBEAT_TIMEOUT_SEC,
            ));
            i = i + 1;
        }
        assert(elapsed@.take(elapsed.len() as int) =~= elapsed@);
        assert(keep@ =~= recent(elapsed@));
        self.retain_agents(&keep);
    }

    /// Drops the agents whose last heartbeat is `HEARTBEAT_TIMEOUT_SEC`
    /// seconds old or older, by the clock now.
    pub fn remove_stale_agents(&mut self)
        requires
            old(self).wf(),
        ensures
            final(self).wf(),
            exists|elapsed: Seq<u64>|
                elapsed.len() == old(self).agents().len() && final(self).agents()
                    == #[trigger] keep_where(old(self).agents(), recent(elapsed))
                    && final(self).channels() == keep_where(old(self).channels(), recent(elapsed)),
            final(self).executions() == old(self).executions(),
    {
        let mut elapsed: Vec<u64> = Vec::new();
        let mut i: usize = 0;
        while i < self.agents.len()
            invariant
                i <= self.agents.len(),
                elapsed.len() == i,
            decreases self.agents.len() - i,
        {
            elapsed.push(elapsed_secs(&self.agents[i].hb));
            i = i + 1;
        }
        self.retain_recent_agents(&elapsed);
    }

    /// The position of the execution with id `id`.
    fn find_execution(&self, id: u128) -> (res: Option<usize>)
        ensures
            match execution_index(self.executions(), id) {
                None => res is None,
                Some(i) => res is Some && res->0 as int == i,
            },
            res is None ==> forall|k: int|
                0 <= k < self.executions().len() ==> #[trigger] self.executions()[k].id != id,
    {
        let mut i: usize = 0;
        while i < self.executions.len()
            invariant
                i <= self.executions.len(),
                forall|k: int| 0 <= k < i ==> self.executions()[k].id != id,
            decreases self.executions.len() - i,
        {
            if self.executions[i].id == id {
                assert(is_execution_at(self.executions(), id, i as int));
                assert(forall|j: int| is_execution_at(self.executions(), id, j) ==> j == i);
                return Some(i);
            }
            i = i + 1;
        }
        assert(!exists|j: int| is_execution_at(self.executions(), id, j));
        None
    }

    /// Records an execution: it replaces an execution with the same id.
    fn upsert_execution(&mut self, e: client::Execution)
        requires
            old(self).wf(),
            e.status.terminal() ==> e.finished is Some,
        ensures
            final(self).wf(),
            final(self).agents() == old(self).agents(),
            final(self).executions() == upsert_execution(old(self).executions(), e),
    {
        let ghost id = e.id;
        let ghost new_e = e;
        match self.find_execution(e.id) {
            Some(i) => {
                self.executions.set(i, e);
                assert(self.executions() =~= upsert_execution(old(self).executions(), new_e));
                assert forall|a: int, b: int|
                    0 <= a < self.executions().len() && 0 <= b < self.executions().len() && a
                        != b implies self.executions()[a].id != self.executions()[b].id by {
                    assert(self.executions()[a].id == old(self).executions()[a].id);
                    assert(self.executions()[b].id == old(self).executions()[b].id);
                }
                assert forall|k: int|
                    0 <= k < self.executions().len() && (#[trigger] self.executions()[k]).status.terminal()
                    implies self.executions()[k].finished is Some by {
                    if k != i as int {
                        assert(self.executions()[k] == old(self).executions()[k]);
                    }
                }
            },
            None => {
                self.executions.push(e);
                assert(self.executions() =~= upsert_execution(old(self).executions(), new_e));
                assert forall|k: int|
                    0 <= k < self.executions().len() && (#[trigger] self.executions()[k]).status.terminal()
                    implies self.executions()[k].finished is Some by {
                    if k < old(self).executions().len() {
                        assert(self.executions()[k] == old(self).executions()[k]);
                    }
                }
                assert forall|a: int, b: int|
                    0 <= a < self.executions().len() && 0 <= b < self.executions().len() && a
                        != b implies self.executions()[a].id != self.executions()[b].id by {
                    if a == old(self).executions().len() as int {
                        assert(old(self).executions()[b].id != id);
                    } else if b == old(self).executions().len() as int {
                        assert(old(self).executions()[a].id != id);
                    }
                }
            },
        }
    }

    /// Applies an execution report that arrived at time `now`: the execution
    /// with the report's id appends the reported output; unless it is already
    /// in a terminal state, which is final, it takes the reported status and
    /// gets `now` as its finishing time when that status is terminal. A report
    /// for an unknown execution changes nothing.
    pub fn apply_report(&mut self, report: ExecutionReport, now: UtcTime)
        requires
            old(self).wf(),
        ensures
            final(self).wf(),
            final(self).agents() == old(self).agents(),
            match execution_index(old(self).executions(), report.id) {
                None => final(self).executions() == old(self).executions(),
                Some(j) => {
                    &&& final(self).executions() == old(self).executions().update(
                        j,
                        final(self).executions()[j],
                    )
                    &&& report_applied(
                        old(self).executions()[j],
                        final(self).executions()[j],
                        report,
                        now,
                    )
                },
            },
    {
        match self.find_execution(report.id) {
            None => {},
            Some(j) => {
                let mut e = self.executions.remove(j);
                let ghost before = e;
                if !e.status.is_terminal() {
                    if report.status.is_terminal() {
                        e.finished = Some(now);
                    }
                    e.status = report.status;
                }
                if let Some(lines) = &report.stdout_append {
                    e.output.append(lines.as_str());
                }
                assert(before == old(self).executions()[j as int]);
                assert(report_applied(before, e, report, now));
                let ghost after = e;
                self.executions.insert(j, e);
                assert(self.executions() =~= old(self).executions().update(j as int, after));
                assert(self.executions()[j as int] == after);
                assert(self.executions() =~= old(self).executions().update(
                    j as int,
                    self.executions()[j as int],
                ));
                assert forall|a: int, b: int|
                    0 <= a < self.executions().len() && 0 <= b < self.executions().len() && a
                        != b implies self.executions()[a].id != self.executions()[b].id by {
                    assert(old(self).executions()[a].id == self.executions()[a].id);
                    assert(old(self).executions()[b].id == self.executions()[b].id);
                }
                assert forall|i: int|
                    0 <= i < self.executions().len() && (#[trigger] self.executions()[i]).status.terminal()
                    implies self.executions()[i].finished is Some by {
                    if i != j as int {
                        assert(self.executions()[i] == old(self).executions()[i]);
                    }
                }
            },
        }
    }

    /// Applies an execution report, with the time taken now where the
    /// execution needs a finishing time. Returns whether it was applied: a
    /// report that needs a finishing time when the clock gives none changes
    /// nothing; any other is applied.
    pub fn report_task(&mut self, report: ExecutionReport) -> (applied: bool)
        requires
            old(self).wf(),
        ensures
            final(self).wf(),
            final(self).agents() == old(self).agents(),
            match execution_index(old(self).executions(), report.id) {
                None => applied && final(self).executions() == old(self).executions(),
                Some(j) => {
                    &&& !needs_finish_time(old(self).executions()[j], report) ==> applied
                    &&& applied ==> {
                        &&& final(self).executions() == old(self).executions().update(
                            j,
                            final(self).executions()[j],
                        )
                        &&& exists|now: UtcTime|
                            report_applied(
                                old(self).executions()[j],
                                #[trigger] final(self).executions()[j],
                                report,
                                now,
                            )
                    }
                    &&& !applied ==> final(self).executions() == old(self).executions()
                },
            },
    {
        let needs = match self.find_execution(report.id) {
            Some(j) => !self.executions[j].status.is_terminal() && report.status.is_terminal(),
            None => false,
        };
        if needs {
            match client::utc_now() {
                Some(now) => {
                    self.apply_report(report, now);
                    true
                },
                None => false,
            }
        } else {
            // No finishing time is set, so the time handed over is not used.
            self.apply_report(report, UtcTime { secs: 0, nanos: 0 });
            true
        }
    }

    /// Checks an artifact upload before its payload is read: it must have the
    /// content type `application/x-tgz` and name a known execution.
    pub fn check_artifact_upload(&self, content_type: Option<&str>, id: u128) -> (res: Result<
        (),
        ServerError,
    >)
        ensures
            match content_type {
                Some(t) if t@ == ARTIFACT_CONTENT_TYPE@ => match execution_index(
                    self.executions(),
                    id,
                ) {
                    Some(_) => res is Ok,
                    None => res == Err::<(), ServerError>(ServerError::ExecutionNotFound(id)),
                },
                _ => res == Err::<(), ServerError>(ServerError::InvalidArtifactType),
            },
    {
        match content_type {
            Some(t) => {
                if same_text(t, ARTIFACT_CONTENT_TYPE) {
                    match self.find_execution(id) {
                        Some(_) => Ok(()),
                        None => Err(ServerError::ExecutionNotFound(id)),
                    }
                } else {
                    Err(ServerError::InvalidArtifactType)
                }
            },
            None => Err(ServerError::InvalidArtifactType),
        }
    }

    /// Records the size of the artifacts stored for an execution. An unknown
    /// id changes nothing.
    pub fn record_artifact(&mut self, id: u128, size: usize)
        requires
            old(self).wf(),
        ensures
            final(self).wf(),
            final(self).agents() == old(self).agents(),
            match execution_index(old(self).executions(), id) {
                None => final(self).executions() == old(self).executions(),
                Some(j) => {
                    let o = old(self).executions()[j];
                    let n = final(self).executions()[j];
                    &&& final(self).executions() == old(self).executions().update(j, n)
                    &&& n == client::Execution { artifact_size: Some(size), ..o }
                },
            },
    {
        match self.find_execution(id) {
            None => {},
            Some(j) => {
                let mut e = self.executions.remove(j);
                e.artifact_size = Some(size);
                self.executions.insert(j, e);
                assert(self.executions() =~= old(self).executions().update(j as int, e));
                assert forall|a: int, b: int|
                    0 <= a < self.executions().len() && 0 <= b < self.executions().len() && a
                        != b implies self.executions()[a].id != self.executions()[b].id by {
                    assert(old(self).executions()[a].id == self.executions()[a].id);
                    assert(old(self).executions()[b].id == self.executions()[b].id);
                }
                assert forall|i: int|
                    0 <= i < self.executions().len() && (#[trigger] self.executions()[i]).status.terminal()
                    implies self.executions()[i].finished is Some by {
                    assert(old(self).executions()[i].status == self.executions()[i].status);
                    assert(old(self).executions()[i].finished == self.executions()[i].finished);
                }
            },
        }
    }

    /// Concludes a request to run a task on the agent at `position`, once the
    /// run-task event was or was not delivered at time `now`. Undelivered:
    /// the agent is dropped. Delivered: a new execution of the task on that
    /// agent is recorded under `execution_id`.
    pub fn conclude_run_task(
        &mut self,
        position: usize,
        task: Task,
        execution_id: u128,
        delivered: bool,
        now: UtcTime,
    ) -> (res: RunTaskOutcome)
        requires
            old(self).wf(),
            position < old(self).agents().len(),
        ensures
            final(self).wf(),
            delivered ==> {
                &&& res == RunTaskOutcome::Started(ExecutionRef { execution_id })
                &&& final(self).agents() == old(self).agents()
                &&& exists|e: client::Execution|
                    fresh_execution(e, execution_id, task, old(self).agents()[position as int].name@)
                        && e.task == task && e.started == now && final(self).executions()
                        == #[trigger] upsert_execution(old(self).executions(), e)
            },
            !delivered ==> {
                &&& res == RunTaskOutcome::AgentUnreachable
                &&& final(self).agents() == old(self).agents().remove(position as int)
                &&& final(self).executions() == old(self).executions()
            },
    {
        if delivered {
            let agent_name = self.agents[position].info.name.clone();
            let e = client::Execution::started_at(execution_id, task, agent_name, now);
            self.upsert_execution(e);
            RunTaskOutcome::Started(ExecutionRef { execution_id })
        } else {
            self.agents.remove(position);
            assert(self.agents() =~= old(self).agents().remove(position as int));
            assert forall|a: int, b: int|
                0 <= a < self.agents().len() && 0 <= b < self.agents().len() && a != b
                implies self.agents()[a].name@ != self.agents()[b].name@ by {
                let oa = if a < position { a } else { a + 1 };
                let ob = if b < position { b } else { b + 1 };
                assert(self.agents()[a] == old(self).agents()[oa]);
                assert(self.agents()[b] == old(self).agents()[ob]);
            }
            RunTaskOutcome::AgentUnreachable
        }
    }

    /// Handles a request to run a task on an agent: where the agent is
    /// connected and offers the task, writes it a `run-task` event with the
    /// given data and concludes as `conclude_run_task` does with the outcome
    /// of the delivery; otherwise answers `UnknownAgentOrTask` and changes
    /// nothing. Where the clock gives no time to start the execution at, it
    /// answers `ClockUnavailable` before sending anything and changes nothing.
    /// Gives back with the outcome the texts handed to the agent's stream,
    /// with whether each was accepted.
    pub fn run_task(
        &mut self,
        request: &client::RunTask,
        execution_id: u128,
        event_data: String,
    ) -> (res: (RunTaskOutcome, Ghost<Seq<(Seq<char>, bool)>>))
        requires
            old(self).wf(),
        ensures
            final(self).wf(),
            match agent_index(old(self).agents(), request.agent@) {
                None => {
                    &&& res.0 == RunTaskOutcome::UnknownAgentOrTask
                    &&& res.1@.len() == 0
                    &&& final(self).agents() == old(self).agents()
                    &&& final(self).executions() == old(self).executions()
                },
                Some(i) => match task_index(old(self).agents()[i].tasks@, request.task_id@) {
                    None => {
                        &&& res.0 == RunTaskOutcome::UnknownAgentOrTask
                        &&& res.1@.len() == 0
                        &&& final(self).agents() == old(self).agents()
                        &&& final(self).executions() == old(self).executions()
                    },
                    Some(t) => {
                        ||| {
                            &&& res.0 == RunTaskOutcome::ClockUnavailable
                            &&& res.1@.len() == 0
                            &&& final(self).agents() == old(self).agents()
                            &&& final(self).executions() == old(self).executions()
                        }
                        ||| {
                            &&& handed_parts(
                                res.1@,
                                event_parts(Some(agent::RUN_TASK_EVENT_NAME@), event_data@),
                                res.0 is Started,
                            )
                            &&& {
                                ||| {
                                    &&& res.0 == RunTaskOutcome::Started(
                                        ExecutionRef { execution_id },
                                    )
                                    &&& final(self).agents() == old(self).agents()
                                    &&& exists|e: client::Execution|
                                        fresh_execution(
                                            e,
                                            execution_id,
                                            old(self).agents()[i].tasks@[t],
                                            request.agent@,
                                        ) && final(self).executions()
                                            == #[trigger] upsert_execution(
                                            old(self).executions(),
                                            e,
                                        )
                                }
                                ||| {
                                    &&& res.0 == RunTaskOutcome::AgentUnreachable
                                    &&& final(self).agents() == old(self).agents().remove(i)
                                    &&& final(self).executions() == old(self).executions()
                                }
                            }
                        }
                    },
                },
            },
    {
        let position = match self.find_agent(request.agent.as_str()) {
            None => return (RunTaskOutcome::UnknownAgentOrTask, Ghost(Seq::empty())),
            Some(p) => p,
        };
        let t = match find_task(&self.agents[position].info.tasks, request.task_id.as_str()) {
            None => return (RunTaskOutcome::UnknownAgentOrTask, Ghost(Seq::empty())),
            Some(t) => t,
        };
        let task = copy_task(&self.agents[position].info.tasks[t]);
        let event: SseEvent = (Some(agent::RUN_TASK_EVENT_NAME.to_string()), event_data);
        let now = match client::utc_now() {
            Some(now) => now,
            None => return (RunTaskOutcome::ClockUnavailable, Ghost(Seq::empty())),
        };
        let (delivered, handed) = self.agents[position].send_event(&event);
        let outcome = self.conclude_run_task(position, task, execution_id, delivered, now);
        (outcome, handed)
    }

    /// What the connected agents announced, copied.
    pub fn list_agents(&self) -> (res: Vec<agent::Agent>)
        ensures
            res.len() == self.agents().len(),
            forall|j: int| 0 <= j < res.len() ==> same_agent(#[trigger] res@[j], self.agents()[j]),
    {
        let mut res: Vec<agent::Agent> = Vec::new();
        let mut i: usize = 0;
        while i < self.agents.len()
            invariant
                i <= self.agents.len(),
                res.len() == i,
                forall|j: int| 0 <= j < i ==> same_agent(#[trigger] res@[j], self.agents()[j]),
            decreases self.agents.len() - i,
        {
            res.push(copy_agent(&self.agents[i].info));
            i = i + 1;
        }
        res
    }

    /// The executions, copied.
    pub fn list_executions(&self) -> (res: Vec<client::Execution>)
        ensures
            res.len() == self.executions().len(),
            forall|j: int|
                0 <= j < res.len() ==> same_execution(#[trigger] res@[j], self.executions()[j]),
    {
        let mut res: Vec<client::Execution> = Vec::new();
        let mut i: usize = 0;
        while i < self.executions.len()
            invariant
                i <= self.executions.len(),
                res.len() == i,
                forall|j: int|
                    0 <= j < i ==> same_execution(#[trigger] res@[j], self.executions()[j]),
            decreases self.executions.len() - i,
        {
            res.push(copy_execution(&self.executions[i]));
            i = i + 1;
        }
        res
    }
}

/// Registering an agent and then looking it up by name finds what was
/// registered; every other name is found where it was, on the same agent.
pub proof fn lemma_upsert_agent_then_find(agents: Seq<agent::Agent>, info: agent::Agent)
    ensures
        ({
            let after = upsert_agent(agents, info);
            &&& agent_index(after, info.name@) matches Some(i) && after[i] == info
            &&& forall|name: Seq<char>|
                name != info.name@ ==> {
                    &&& (#[trigger] agent_index(after, name)) == agent_index(agents, name)
                    &&& agent_index(agents, name) matches Some(j) ==> after[j] == agents[j]
                }
        }),
{
    let name0 = info.name@;
    let after = upsert_agent(agents, info);
    let i = match agent_index(agents, name0) {
        Some(i) => {
            assert(is_agent_at(agents, name0, i));
            i
        },
        None => {
            assert forall|k: int| 0 <= k < agents.len() implies agents[k].name@ != name0 by {
                if agents[k].name@ == name0 {
                    lemma_agent_index_exists(agents, name0, k);
                }
            }
            agents.len() as int
        },
    };
    assert(after[i] == info);
    assert(is_agent_at(after, name0, i));
    assert(forall|j: int| is_agent_at(after, name0, j) ==> j == i);
    assert forall|name: Seq<char>| name != name0 implies {
        &&& (#[trigger] agent_index(after, name)) == agent_index(agents, name)
        &&& agent_index(agents, name) matches Some(j) ==> after[j] == agents[j]
    } by {
        assert forall|j: int| is_agent_at(after, name, j) <==> is_agent_at(agents, name, j) by {
            if 0 <= j < after.len() && after[j].name@ == name {
                assert(j != i);
                assert(after[j] == agents[j]);
            }
            if 0 <= j < agents.len() && agents[j].name@ == name {
                assert(j != i);
                assert(after[j] == agents[j]);
            }
            assert forall|k: int| 0 <= k < j && k < agents.len() implies after[k].name@ == name
                <==> agents[k].name@ == name by {
                if k != i {
                    assert(after[k] == agents[k]);
                }
            }
        }
    }
}

/// An agent named `name` at position `k` means there is a first one.
proof fn lemma_agent_index_exists(agents: Seq<agent::Agent>, name: Seq<char>, k: int)
    requires
        0 <= k < agents.len(),
        agents[k].name@ == name,
    ensures
        agent_index(agents, name) is Some,
    decreases k,
{
    if exists|m: int| 0 <= m < k && agents[m].name@ == name {
        let m = choose|m: int| 0 <= m < k && agents[m].name@ == name;
        lemma_agent_index_exists(agents, name, m);
    } else {
        assert(is_agent_at(agents, name, k));
    }
}

/// Recording an execution and then looking it up by id finds what was
/// recorded; every other id is found where it was, on the same execution.
pub proof fn lemma_upsert_execution_then_find(
    executions: Seq<client::Execution>,
    e: client::Execution,
)
    ensures
        ({
            let after = upsert_execution(executions, e);
            &&& execution_index(after, e.id) matches Some(i) && after[i] == e
            &&& forall|id: u128|
                id != e.id ==> {
                    &&& (#[trigger] execution_index(after, id)) == execution_index(executions, id)
                    &&& execution_index(executions, id) matches Some(j) ==> after[j]
                        == executions[j]
                }
        }),
{
    let id0 = e.id;
    let after = upsert_execution(executions, e);
    let i = match execution_index(executions, id0) {
        Some(i) => {
            assert(is_execution_at(executions, id0, i));
            i
        },
        None => {
            assert forall|k: int| 0 <= k < executions.len() implies executions[k].id != id0 by {
                if executions[k].id == id0 {
                    lemma_execution_index_exists(executions, id0, k);
                }
            }
            executions.len() as int
        },
    };
    assert(after[i] == e);
    assert(is_execution_at(after, id0, i));
    assert(forall|j: int| is_execution_at(after, id0, j) ==> j == i);
    assert forall|id: u128| id != id0 implies {
        &&& (#[trigger] execution_index(after, id)) == execution_index(executions, id)
        &&& execution_index(executions, id) matches Some(j) ==> after[j] == executions[j]
    } by {
        assert forall|j: int| is_execution_at(after, id, j) <==> is_execution_at(executions, id, j) by {
            if 0 <= j < after.len() && after[j].id == id {
                assert(j != i);
                assert(after[j] == executions[j]);
            }
            if 0 <= j < executions.len() && executions[j].id == id {
                assert(j != i);
                assert(after[j] == executions[j]);
            }
            assert forall|k: int| 0 <= k < j && k < executions.len() implies after[k].id == id
                <==> executions[k].id == id by {
                if k != i {
                    assert(after[k] == executions[k]);
                }
            }
        }
    }
}

/// An execution with id `id` at position `k` means there is a first one.
proof fn lemma_execution_index_exists(executions: Seq<client::Execution>, id: u128, k: int)
    requires
        0 <= k < executions.len(),
        executions[k].id == id,
    ensures
        execution_index(executions, id) is Some,
    decreases k,
{
    if exists|m: int| 0 <= m < k && executions[m].id == id {
        let m = choose|m: int| 0 <= m < k && executions[m].id == id;
        lemma_execution_index_exists(executions, id, m);
    } else {
        assert(is_execution_at(executions, id, k));
    }
}

/// Keeping some elements and then mapping them is mapping them and then
/// keeping some.
pub proof fn lemma_keep_where_map_values<A, B>(s: Seq<A>, keep: Seq<bool>, f: spec_fn(A) -> B)
    ensures
        keep_where(s, keep).map_values(f) == keep_where(s.map_values(f), keep),
    decreases s.len(),
{
    if s.len() > 0 {
        lemma_keep_where_map_values(s.drop_last(), keep, f);
        assert(s.map_values(f).drop_last() =~= s.drop_last().map_values(f));
        if keep[s.len() - 1] {
            assert(keep_where(s.drop_last(), keep).push(s.last()).map_values(f) =~= keep_where(
                s.drop_last(),
                keep,
            ).map_values(f).push(f(s.last())));
        }
    } else {
        assert(keep_where(s, keep).map_values(f) =~= keep_where(s.map_values(f), keep));
    }
}

/// Keeping some agents keeps their names distinct.
pub proof fn lemma_keep_where_distinct(agents: Seq<agent::Agent>, keep: Seq<bool>)
    requires
        distinct_agent_names(agents),
    ensures
        distinct_agent_names(keep_where(agents, keep)),
    decreases agents.len(),
{
    if agents.len() > 0 {
        let init = agents.drop_last();
        assert(distinct_agent_names(init));
        lemma_keep_where_distinct(init, keep);
        lemma_keep_where_subset(init, keep);
        let r = keep_where(init, keep);
        if keep[agents.len() - 1] {
            let res = keep_where(agents, keep);
            assert(res == r.push(agents.last()));
            assert forall|a: int, b: int|
                0 <= a < res.len() && 0 <= b < res.len() && a != b implies res[a].name@
                != res[b].name@ by {
                if a == r.len() as int {
                    assert(init.contains(r[b]));
                    let k = choose|k: int| 0 <= k < init.len() && init[k] == r[b];
                    assert(agents[k] == res[b]);
                } else if b == r.len() as int {
                    assert(init.contains(r[a]));
                    let k = choose|k: int| 0 <= k < init.len() && init[k] == r[a];
                    assert(agents[k] == res[a]);
                } else {
                    assert(res[a] == r[a] && res[b] == r[b]);
                }
            }
        }
    }
}

/// Keeping some elements only ever keeps elements of the original.
pub proof fn lemma_keep_where_subset<A>(s: Seq<A>, keep: Seq<bool>)
    ensures
        keep_where(s, keep).len() <= s.len(),
        forall|j: int|
            0 <= j < keep_where(s, keep).len() ==> s.contains(#[trigger] keep_where(s, keep)[j]),
    decreases s.len(),
{
    if s.len() == 0 {
        assert(keep_where(s, keep).len() == 0);
    } else {
        let init = s.drop_last();
        lemma_keep_where_subset(init, keep);
        let r = keep_where(init, keep);
        let res = keep_where(s, keep);
        assert forall|j: int| 0 <= j < res.len() implies s.contains(#[trigger] res[j]) by {
            if j < r.len() {
                assert(init.contains(r[j]));
                let k = choose|k: int| 0 <= k < init.len() && init[k] == r[j];
                assert(s[k] == res[j]);
            } else {
                assert(s[s.len() - 1] == res[j]);
            }
        }
    }
}

} // verus!
