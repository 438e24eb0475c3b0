use curator::agent::TaskDef;
use curator::docker::{
    build_task_def, check_exit_status, discovery_container, discovery_jobs, exit_code_of,
    is_image_not_found, missing_images, task_container, DiscoveredTask, DiscoveryState, Errors,
};
use std::collections::BTreeSet;

fn strings(v: &[&str]) -> Vec<String> {
    v.iter().map(|s| s.to_string()).collect()
}

fn def(id: &str, container: &str) -> TaskDef {
    TaskDef { id: id.into(), container_id: container.into(), ..Default::default() }
}

#[test]
fn discovery_container_spec() {
    let spec = discovery_container("e2adfa57360d", "toolchain:dev").unwrap();
    assert_eq!(spec.image, "toolchain:dev");
    assert_eq!(spec.cmd, Some(strings(&["/discover"])));
    assert_eq!(spec.pid_mode.as_deref(), Some("container:e2adfa57360d"));
    assert_eq!(spec.working_dir, "/var/run/curator");
    assert!(matches!(discovery_container("", "t"), Err(Errors::InvalidContainerId(id)) if id.is_empty()));
}

#[test]
fn task_container_spec() {
    let task = TaskDef {
        id: "foo".into(),
        command: strings(&["who", "-a"]),
        container_id: "c1".into(),
        toolchain: "toolchain:dev".into(),
        ..Default::default()
    };
    let spec = task_container(&task).unwrap();
    assert_eq!(spec.cmd, Some(strings(&["who", "-a"])));
    assert_eq!(spec.pid_mode.as_deref(), Some("container:c1"));
    assert_eq!(spec.image, "toolchain:dev");
    let empty = TaskDef::default();
    assert_eq!(task_container(&empty).err(), Some(Errors::InvalidContainerId(String::new())));
}

#[test]
fn exit_status() {
    assert_eq!(check_exit_status(0), Ok(0));
    assert_eq!(check_exit_status(2), Err(Errors::ContainerNonZeroExitCode(2)));
    assert_eq!(exit_code_of(0), Some(0));
    assert_eq!(exit_code_of(i64::from(i32::MIN)), Some(i32::MIN));
    assert_eq!(exit_code_of(1 << 40), None);
}

#[test]
fn error_messages() {
    assert_eq!(Errors::ImageNotFound.message(), "Docker image not found");
    assert_eq!(Errors::InvalidContainerId("x".into()).message(), "Invalid container id given: x");
    assert_eq!(Errors::DiscoveryFailed("c".into()).message(), "Discovery failed on container: c");
    assert_eq!(Errors::UnableToRemoveContainer("c".into()).message(), "Unable to remove container: c");
    assert_eq!(Errors::InvalidTaskDefJson.message(), "Incorrect TaskDef json-payload");
    assert_eq!(Errors::ContainerNonZeroExitCode(1).message(), "Container exit code code is non zero");
}

#[test]
fn image_not_found_detection() {
    assert!(is_image_not_found("No such image: intentionally-not-existent-toolchain:latest"));
    assert!(!is_image_not_found("No such container: abc"));
    assert!(!is_image_not_found(""));
}

#[test]
fn discovered_task_gets_container_and_toolchain() {
    let mut tags = BTreeSet::new();
    tags.insert("who".to_string());
    let found = DiscoveredTask {
        id: "foo".into(),
        command: strings(&["who", "-a"]),
        description: Some("Calling who command".into()),
        tags: tags.clone(),
    };
    let t = build_task_def(found, "e2adfa57360d", "toolchain:dev");
    assert_eq!(
        t,
        TaskDef {
            id: "foo".into(),
            command: strings(&["who", "-a"]),
            container_id: "e2adfa57360d".into(),
            toolchain: "toolchain:dev".into(),
            description: Some("Calling who command".into()),
            tags,
        }
    );
}

#[test]
fn missing_images_are_distinct() {
    let missing = missing_images(&strings(&["a", "b", "a", "c"]), &strings(&["b"]));
    assert_eq!(missing, strings(&["a", "c"]));
}

#[test]
fn jobs_go_container_by_container() {
    let jobs = discovery_jobs(&strings(&["c1", "c2"]), &strings(&["t1", "t2"]));
    let expected: Vec<(String, String)> = vec![
        ("c1".into(), "t1".into()),
        ("c1".into(), "t2".into()),
        ("c2".into(), "t1".into()),
        ("c2".into(), "t2".into()),
    ];
    assert_eq!(jobs, expected);
}

#[test]
fn discovery_rounds() {
    let mut state = DiscoveryState::new();
    let alive = strings(&["c1", "c2"]);
    assert_eq!(state.newborn(&alive), alive);
    state.finish_round(alive.clone(), vec![def("a", "c1"), def("b", "c2")]);
    let alive = strings(&["c2", "c3"]);
    assert_eq!(state.newborn(&alive), strings(&["c3"]));
    state.finish_round(alive.clone(), vec![def("c", "c3")]);
    assert_eq!(state.tasks, vec![def("b", "c2"), def("c", "c3")]);
    assert_eq!(state.containers, alive);
}
