use curator::protocol::agent::{Agent, ExecutionReport};
use curator::protocol::client::{self, ExecutionRef, UtcTime};
use curator::protocol::{ExecutionStatus, Task};
use curator::server::{artifact_file_name, CuratorState, RunTaskOutcome, ServerError};

const ID: &str = "596cf5b4-70ba-11ea-bc55-0242ac130003";

fn id() -> u128 {
    uuid::Uuid::parse_str(ID).unwrap().as_u128()
}

fn task(id: &str) -> Task {
    Task { id: id.into(), ..Default::default() }
}

fn run(agent: &str, task_id: &str) -> client::RunTask {
    client::RunTask { task_id: task_id.into(), agent: agent.into() }
}

#[test]
fn run_task_on_connected_agent() {
    let mut state = CuratorState::new();
    let _rx = state.agent_connected(Agent::new("app", vec![task("clean")]));
    let outcome = state.run_task(&run("app", "clean"), id(), "{}".into()).0;
    assert_eq!(outcome, RunTaskOutcome::Started(ExecutionRef { execution_id: id() }));
    assert_eq!(outcome.status_code(), 200);
    let executions = state.list_executions();
    assert_eq!(executions.len(), 1);
    assert_eq!(executions[0].id, id());
    assert_eq!(executions[0].agent, "app");
    assert_eq!(executions[0].task, task("clean"));
    assert_eq!(executions[0].status, ExecutionStatus::INITIATED);
}

#[test]
fn run_task_unknown_agent_or_task() {
    let mut state = CuratorState::new();
    let _rx = state.agent_connected(Agent::new("app", vec![task("clean")]));
    let outcome = state.run_task(&run("other", "clean"), id(), "{}".into()).0;
    assert_eq!(outcome, RunTaskOutcome::UnknownAgentOrTask);
    assert_eq!(outcome.status_code(), 406);
    assert_eq!(state.run_task(&run("app", "build"), id(), "{}".into()).0, RunTaskOutcome::UnknownAgentOrTask);
    assert!(state.list_executions().is_empty());
    assert_eq!(state.list_agents().len(), 1);
}

#[test]
fn run_task_on_gone_agent_drops_it() {
    let mut state = CuratorState::new();
    let rx = state.agent_connected(Agent::new("app", vec![task("clean")]));
    drop(rx);
    let outcome = state.run_task(&run("app", "clean"), id(), "{}".into()).0;
    assert_eq!(outcome, RunTaskOutcome::AgentUnreachable);
    assert_eq!(outcome.status_code(), 500);
    assert!(state.list_agents().is_empty());
    assert!(state.list_executions().is_empty());
}

#[test]
fn run_task_sends_run_task_event() {
    let mut state = CuratorState::new();
    let mut rx = state.agent_connected(Agent::new("app", vec![task("clean")]));
    let _ = state.run_task(&run("app", "clean"), id(), "payload".into());
    let mut text = String::new();
    while let Ok(Some(Ok(bytes))) = rx.try_next() {
        text.push_str(std::str::from_utf8(&bytes).unwrap());
    }
    assert_eq!(text, "event:run-task\ndata:payload\n\n");
}

#[test]
fn reconnect_replaces_agent() {
    let mut state = CuratorState::new();
    let _a = state.agent_connected(Agent::new("app", vec![task("one")]));
    let _b = state.agent_connected(Agent::new("app", vec![task("two")]));
    let _c = state.agent_connected(Agent::new("db", vec![]));
    let agents = state.list_agents();
    assert_eq!(agents.len(), 2);
    assert_eq!(agents[0].tasks, vec![task("two")]);
    assert_eq!(agents[1].name, "db");
}

#[test]
fn reports_update_execution() {
    let mut state = CuratorState::new();
    let _rx = state.agent_connected(Agent::new("app", vec![task("clean")]));
    let _ = state.run_task(&run("app", "clean"), id(), "{}".into());
    let t1 = UtcTime { secs: 100, nanos: 0 };
    let t2 = UtcTime { secs: 200, nanos: 0 };
    state.apply_report(ExecutionReport { id: id(), status: ExecutionStatus::RUNNING, stdout_append: Some("a".into()) }, t1);
    let e = &state.list_executions()[0];
    assert_eq!(e.status, ExecutionStatus::RUNNING);
    assert_eq!(e.output, "a");
    assert_eq!(e.finished, None);
    state.apply_report(ExecutionReport { id: id(), status: ExecutionStatus::COMPLETED, stdout_append: Some("b".into()) }, t1);
    state.apply_report(ExecutionReport { id: id(), status: ExecutionStatus::FAILED, stdout_append: None }, t2);
    let e = &state.list_executions()[0];
    // A terminal state is final: the status and finishing time stay.
    assert_eq!(e.status, ExecutionStatus::COMPLETED);
    assert_eq!(e.output, "ab");
    assert_eq!(e.finished, Some(t1));
    state.apply_report(ExecutionReport { id: id(), status: ExecutionStatus::RUNNING, stdout_append: Some("c".into()) }, t2);
    let e = &state.list_executions()[0];
    assert_eq!(e.status, ExecutionStatus::COMPLETED);
    assert_eq!(e.output, "abc");
    assert_eq!(e.finished, Some(t1));
}

#[test]
fn report_for_unknown_execution_changes_nothing() {
    let mut state = CuratorState::new();
    assert!(state.report_task(ExecutionReport { id: id(), status: ExecutionStatus::RUNNING, stdout_append: None }));
    assert!(state.list_executions().is_empty());
}

#[test]
fn artifact_upload_checks() {
    let mut state = CuratorState::new();
    assert_eq!(state.check_artifact_upload(Some("text/plain"), id()), Err(ServerError::InvalidArtifactType));
    assert_eq!(state.check_artifact_upload(None, id()), Err(ServerError::InvalidArtifactType));
    assert_eq!(state.check_artifact_upload(Some("application/x-tgz"), id()), Err(ServerError::ExecutionNotFound(id())));
    let _rx = state.agent_connected(Agent::new("app", vec![task("clean")]));
    let _ = state.run_task(&run("app", "clean"), id(), "{}".into());
    assert_eq!(state.check_artifact_upload(Some("application/x-tgz"), id()), Ok(()));
    state.record_artifact(id(), 3315);
    assert_eq!(state.list_executions()[0].artifact_size, Some(3315));
}

#[test]
fn server_errors() {
    assert_eq!(ServerError::Payload.status_code(), 500);
    assert_eq!(ServerError::UnableToCreateArtifact.status_code(), 500);
    assert_eq!(ServerError::ExecutionNotFound(id()).status_code(), 409);
    assert_eq!(ServerError::InvalidArtifactType.status_code(), 406);
    assert_eq!(ServerError::ExecutionNotFound(id()).message(), format!("Execution not found: {}", ID));
    assert_eq!(ServerError::InvalidArtifactType.message(), "Invalid artifact type. Only application/x-tgz is supported");
    assert_eq!(ServerError::Payload.message(), "Can't read payload from HTTP request");
    assert_eq!(ServerError::UnableToCreateArtifact.message(), "Unable to create artifact file");
}

#[test]
fn artifact_file_names() {
    assert_eq!(artifact_file_name(id()), format!("./{}.tar.gz", ID));
}

#[test]
fn notify_all_drops_unreachable_agents() {
    let mut state = CuratorState::new();
    let _a = state.agent_connected(Agent::new("a", vec![]));
    let b = state.agent_connected(Agent::new("b", vec![]));
    let _c = state.agent_connected(Agent::new("c", vec![]));
    drop(b);
    state.notify_all(&(None, "x".into()));
    let names: Vec<String> = state.list_agents().into_iter().map(|a| a.name).collect();
    assert_eq!(names, vec!["a", "c"]);
}

#[test]
fn stale_agents_are_dropped() {
    let mut state = CuratorState::new();
    let _a = state.agent_connected(Agent::new("a", vec![]));
    let _b = state.agent_connected(Agent::new("b", vec![]));
    state.retain_recent_agents(&vec![5, 6]);
    let names: Vec<String> = state.list_agents().into_iter().map(|a| a.name).collect();
    assert_eq!(names, vec!["a"]);
    state.agent_heartbeat("a");
    state.remove_stale_agents();
    assert_eq!(state.list_agents().len(), 1);
}

#[test]
fn old_heartbeat_makes_an_agent_stale() {
    let mut state = CuratorState::new();
    let _a = state.agent_connected(Agent::new("a", vec![]));
    let _b = state.agent_connected(Agent::new("b", vec![]));
    let long_ago = std::time::Instant::now().checked_sub(std::time::Duration::from_secs(60));
    if let Some(at) = long_ago {
        state.heartbeat_at("a", at);
        state.heartbeat_at("nobody", at);
        state.remove_stale_agents();
        let names: Vec<String> = state.list_agents().into_iter().map(|a| a.name).collect();
        assert_eq!(names, vec!["b"]);
    }
}

#[test]
fn report_task_applies_and_stamps_finish() {
    let mut state = CuratorState::new();
    let _rx = state.agent_connected(Agent::new("app", vec![task("clean")]));
    let _ = state.run_task(&run("app", "clean"), id(), "{}".into());
    assert!(state.report_task(ExecutionReport { id: id(), status: ExecutionStatus::RUNNING, stdout_append: Some("x".into()) }));
    assert!(state.report_task(ExecutionReport { id: id(), status: ExecutionStatus::COMPLETED, stdout_append: None }));
    let e = &state.list_executions()[0];
    assert_eq!(e.status, ExecutionStatus::COMPLETED);
    assert!(e.finished.unwrap().secs > 0);
}
