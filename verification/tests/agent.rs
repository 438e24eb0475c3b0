use curator::agent::{
    attach_uri, classify_event, loop_start, loop_step, output_progress, progress_report, report_uri,
    AgentSession, IncomingEvent, LoopAction, LoopEvent, LoopState, ReportRequest, TaskDef, TaskPlan,
    TaskProgress,
};
use curator::protocol::agent::ExecutionReport;
use curator::protocol::ExecutionStatus;
use std::collections::BTreeSet;

const ID: &str = "596cf5b4-70ba-11ea-bc55-0242ac130003";

fn id() -> u128 {
    uuid::Uuid::parse_str(ID).unwrap().as_u128()
}

fn def(id: &str, container: &str) -> TaskDef {
    let mut tags = BTreeSet::new();
    tags.insert("unix".to_string());
    TaskDef {
        id: id.into(),
        command: vec!["who".into(), "-a".into()],
        container_id: container.into(),
        toolchain: "toolchain:dev".into(),
        description: Some("Calling who command".into()),
        tags,
    }
}

#[test]
fn session_keeps_last_task_of_each_id() {
    let s = AgentSession::new("localhost:8080", "agent", vec![def("a", "1"), def("b", "1"), def("a", "2")]);
    assert_eq!(s.uri, "http://localhost:8080");
    assert_eq!(s.name, "agent");
    assert_eq!(s.tasks.len(), 2);
    assert_eq!(s.find_task("a").unwrap().container_id, "2");
    assert_eq!(s.find_task("b").unwrap().container_id, "1");
    assert!(s.find_task("c").is_none());
}

#[test]
fn announcement_lists_tasks() {
    let s = AgentSession::new("h", "agent", vec![def("a", "1")]);
    let a = s.announcement();
    assert_eq!(a.name, "agent");
    assert_eq!(a.tasks.len(), 1);
    assert_eq!(a.tasks[0].id, "a");
    assert_eq!(a.tasks[0].description.as_deref(), Some("Calling who command"));
    assert!(a.tasks[0].tags.contains("unix"));
}

#[test]
fn uris() {
    let s = AgentSession::new("h:1", "agent", vec![]);
    assert_eq!(s.events_uri(), "http://h:1/backend/events");
    assert_eq!(s.heartbeat_uri(), "http://h:1/backend/hb");
    assert_eq!(report_uri("http://h:1"), "http://h:1/backend/execution/report");
    assert_eq!(attach_uri("http://h:1", id()), format!("http://h:1/backend/execution/attach?id={}", ID));
}

#[test]
fn plan_unknown_task_is_rejected() {
    let s = AgentSession::new("h", "agent", vec![def("a", "1")]);
    match s.plan_task("x") {
        TaskPlan::Reject(reason) => assert_eq!(reason, "Task x not found"),
        TaskPlan::Run(_) => panic!("unknown task planned"),
    }
    match s.plan_task("a") {
        TaskPlan::Run(t) => assert_eq!(t, def("a", "1")),
        TaskPlan::Reject(_) => panic!("known task rejected"),
    }
}

#[test]
fn events_are_classified() {
    assert!(matches!(classify_event(&(Some("run-task".into()), "d".into())), IncomingEvent::RunTask(d) if d == "d"));
    assert!(matches!(classify_event(&(Some("stop-task".into()), "d".into())), IncomingEvent::StopTask));
    assert!(matches!(classify_event(&(Some("other".into()), "d".into())), IncomingEvent::Invalid(d) if d == "d"));
    assert!(matches!(classify_event(&(None, "d".into())), IncomingEvent::Invalid(_)));
}

fn report_of(r: ReportRequest) -> ExecutionReport {
    match r {
        ReportRequest::Report(r) => r,
        ReportRequest::AttachArtifacts(_) => panic!("not a report"),
    }
}

#[test]
fn progress_reports() {
    let r = report_of(progress_report(id(), &TaskProgress::Stdout("line".into())));
    assert_eq!(r, ExecutionReport { id: id(), status: ExecutionStatus::RUNNING, stdout_append: Some("line".into()) });
    let r = report_of(progress_report(id(), &TaskProgress::Finished(0)));
    assert_eq!(r, ExecutionReport { id: id(), status: ExecutionStatus::COMPLETED, stdout_append: None });
    let r = report_of(progress_report(id(), &TaskProgress::Finished(2)));
    assert_eq!(r.status, ExecutionStatus::FAILED);
    let r = report_of(progress_report(id(), &TaskProgress::FailedToStart("Task x not found".into())));
    assert_eq!(r, ExecutionReport { id: id(), status: ExecutionStatus::REJECTED, stdout_append: Some("Task x not found".into()) });
    match progress_report(id(), &TaskProgress::ArtifactsReady("/tmp/a.tar".into())) {
        ReportRequest::AttachArtifacts(p) => assert_eq!(p, "/tmp/a.tar"),
        ReportRequest::Report(_) => panic!("not an attachment"),
    }
}

#[test]
fn output_is_decoded() {
    assert!(matches!(output_progress(b"Hello\n"), Some(TaskProgress::Stdout(s)) if s == "Hello\n"));
    assert!(output_progress(b"\xc3").is_none());
}

#[test]
fn connection_loop() {
    let (state, action) = loop_start();
    assert_eq!(action, LoopAction::Connect);
    let (state, action) = loop_step(state, LoopEvent::ConnectFailed);
    assert_eq!(action, LoopAction::WaitAndConnect(5));
    let (state, action) = loop_step(state, LoopEvent::Connected);
    assert_eq!((state, action), (LoopState::Listening, LoopAction::Listen));
    let (state, action) = loop_step(state, LoopEvent::Message);
    assert_eq!(action, LoopAction::Handle);
    let (state, action) = loop_step(state, LoopEvent::HeartbeatDue);
    assert_eq!(action, LoopAction::SendHeartbeat);
    let (state, action) = loop_step(state, LoopEvent::HeartbeatFailed);
    assert_eq!(action, LoopAction::WaitAndConnect(1));
    let (state, _) = loop_step(state, LoopEvent::Connected);
    let (state, action) = loop_step(state, LoopEvent::CloseRequested);
    assert_eq!((state, action), (LoopState::Closed, LoopAction::Exit));
    assert_eq!(loop_step(state, LoopEvent::Connected), (LoopState::Closed, LoopAction::Exit));
}

#[test]
fn close_while_connecting_ends_once_connected() {
    let (state, _) = loop_start();
    let (state, action) = loop_step(state, LoopEvent::CloseRequested);
    assert_eq!(action, LoopAction::Connect);
    assert_eq!(loop_step(state, LoopEvent::Connected), (LoopState::Closed, LoopAction::Exit));
}

#[test]
fn reload_only_when_the_task_set_changes() {
    assert_eq!(curator::agent::reload_step(None, 7), (true, Some(7)));
    assert_eq!(curator::agent::reload_step(Some(7), 7), (false, Some(7)));
    assert_eq!(curator::agent::reload_step(Some(7), 8), (true, Some(8)));
}
