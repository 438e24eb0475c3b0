use curator::protocol::agent::{self, RUN_TASK_EVENT_NAME};
use curator::protocol::client::{self, utc_from_epoch_offset, utc_now};
use curator::protocol::{copy_task, Execution, ExecutionStatus, Task};
use curator::server::artifact_file_name;
use std::collections::BTreeSet;

const ID: &str = "596cf5b4-70ba-11ea-bc55-0242ac130003";

fn id() -> u128 {
    uuid::Uuid::parse_str(ID).unwrap().as_u128()
}

#[test]
fn terminal_statuses() {
    assert!(!ExecutionStatus::INITIATED.is_terminal());
    assert!(!ExecutionStatus::RUNNING.is_terminal());
    assert!(ExecutionStatus::REJECTED.is_terminal());
    assert!(ExecutionStatus::FAILED.is_terminal());
    assert!(ExecutionStatus::COMPLETED.is_terminal());
}

#[test]
fn exit_codes() {
    assert_eq!(ExecutionStatus::from_unix_exit_code(0), ExecutionStatus::COMPLETED);
    assert_eq!(ExecutionStatus::from_unix_exit_code(1), ExecutionStatus::FAILED);
    assert_eq!(ExecutionStatus::from_unix_exit_code(-1), ExecutionStatus::FAILED);
    assert!(ExecutionStatus::from_unix_exit_code(127).is_terminal());
}

#[test]
fn new_agent() {
    let task = Task { id: "my-task".into(), description: Some("d".into()), ..Default::default() };
    let a = agent::Agent::new("my-app", vec![task.clone()]);
    assert_eq!(a.name, "my-app");
    assert_eq!(a.tasks, vec![task]);
}

#[test]
fn new_agent_execution() {
    let e = Execution::new(id());
    assert_eq!(e.id, id());
    assert_eq!(e.status, ExecutionStatus::INITIATED);
    assert_eq!(e.stdout, "");
}

#[test]
fn new_client_execution() {
    let task = Task { id: "clean".into(), ..Default::default() };
    let e = client::Execution::new(id(), task.clone(), "app".into()).expect("the clock reads a time after the epoch");
    assert_eq!(e.id, id());
    assert_eq!(e.task, task);
    assert_eq!(e.agent, "app");
    assert_eq!(e.output, "");
    assert_eq!(e.status, ExecutionStatus::INITIATED);
    assert_eq!(e.finished, None);
    assert_eq!(e.artifact_size, None);
    assert!(e.started.secs > 1_500_000_000);
}

#[test]
fn client_execution_started_at() {
    let when = client::UtcTime { secs: 1_509_700_211, nanos: 0 };
    let task = Task { id: "clean".into(), ..Default::default() };
    let e = client::Execution::started_at(id(), task, "app".into(), when);
    assert_eq!(e.started, when);
}

#[test]
fn uuid_is_formatted_hyphenated_lowercase() {
    assert_eq!(artifact_file_name(id()), format!("./{}.tar.gz", ID));
    assert_eq!(artifact_file_name(0), "./00000000-0000-0000-0000-000000000000.tar.gz");
    assert_eq!(artifact_file_name(u128::MAX), "./ffffffff-ffff-ffff-ffff-ffffffffffff.tar.gz");
    assert_eq!(artifact_file_name(0x0123456789abcdef0123456789abcdef), "./01234567-89ab-cdef-0123-456789abcdef.tar.gz");
}

#[test]
fn task_copy_keeps_fields() {
    let mut tags = BTreeSet::new();
    tags.insert("shell".to_string());
    tags.insert("unix".to_string());
    let task = Task { id: "my-id".into(), description: Some("some description".into()), tags };
    assert_eq!(copy_task(&task), task);
}

#[test]
fn run_task_event_name() {
    assert_eq!(RUN_TASK_EVENT_NAME, "run-task");
}

#[test]
fn epoch_offsets_become_times() {
    assert_eq!(utc_from_epoch_offset(None), None);
    assert_eq!(utc_from_epoch_offset(Some((1509700211, 5))), Some(client::UtcTime { secs: 1509700211, nanos: 5 }));
    assert_eq!(utc_from_epoch_offset(Some((u64::MAX, 0))), None);
    assert!(utc_now().unwrap().secs > 0);
}
