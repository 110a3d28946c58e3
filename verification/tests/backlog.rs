use taskai::{
    backlog_from_yaml, backlog_to_yaml, get_ready_tasks, parse_and_validate_yaml, Backlog,
    BacklogError, Task, TaskState,
};

fn task(id: &str, title: &str, depends: Vec<&str>, state: TaskState) -> Task {
    Task {
        id: id.to_string(),
        title: title.to_string(),
        depends: depends.into_iter().map(|d| d.to_string()).collect(),
        state,
        description: None,
        deliverable: None,
        done_when: vec![],
    }
}

fn backlog(tasks: Vec<Task>) -> Backlog {
    Backlog {
        project: "test".to_string(),
        rust_version: Some("1.77".to_string()),
        success_criteria: vec![],
        environment: vec![],
        epics: vec![],
        tasks,
    }
}

#[test]
fn ready_simple() {
    let backlog = Backlog {
        project: "test".to_string(),
        rust_version: Some("1.77".to_string()),
        success_criteria: vec![],
        environment: vec![],
        epics: vec![],
        tasks: vec![
            task("T-1", "Task 1", vec![], TaskState::Done),
            task("T-2", "Task 2", vec!["T-1"], TaskState::Todo),
            task("T-3", "Task 3", vec!["T-1", "T-2"], TaskState::Todo),
        ],
    };

    let ready_tasks = get_ready_tasks(&backlog);

    assert_eq!(ready_tasks.len(), 1);
    assert_eq!(ready_tasks[0].id, "T-2");
}

#[test]
fn retry_invalid_json() {
    let invalid_yaml = r#"
        project: test-project
        tasks:
          - id: T-1
            title: Test task
            depends: []
            deliverable: src/main.rs
            invalid_key without_colon
        "#;

    assert!(backlog_from_yaml(invalid_yaml).is_err());

    let valid_yaml = r#"
        project: test-project
        tasks:
          - id: T-1
            title: Test task
            depends: []
            deliverable: src/main.rs
        "#;

    let result = parse_and_validate_yaml(valid_yaml);
    assert!(result.is_ok());
}

#[test]
fn roundtrip() {
    let yaml = r#"
        project: test-project
        rust_version: "1.77"
        tasks:
          - id: T-1
            title: "Test task"
            depends: []
            deliverable: "src/main.rs"
            done_when:
              - "cargo test passes"
        "#;

    let backlog: Backlog = backlog_from_yaml(yaml).unwrap();
    let serialized = backlog_to_yaml(&backlog).unwrap();
    let deserialized: Backlog = backlog_from_yaml(&serialized).unwrap();

    assert_eq!(backlog.project, deserialized.project);
    assert_eq!(backlog.tasks[0].id, deserialized.tasks[0].id);
}

#[test]
fn state_roundtrip() {
    let yaml = r#"
        project: test-project
        tasks:
          - id: T-1
            title: "Test task"
            state: Done
            depends: []
          - id: T-2
            title: "Another task"
            state: Todo
            depends: ["T-1"]
        "#;

    let backlog: Backlog = backlog_from_yaml(yaml).unwrap();

    match backlog.tasks[0].state {
        TaskState::Done => {},
        _ => panic!("Expected task T-1 to be Done"),
    }

    match backlog.tasks[1].state {
        TaskState::Todo => {},
        _ => panic!("Expected task T-2 to be Todo"),
    }

    let serialized = backlog_to_yaml(&backlog).unwrap();
    let deserialized: Backlog = backlog_from_yaml(&serialized).unwrap();

    match deserialized.tasks[0].state {
        TaskState::Done => {},
        _ => panic!("Expected task T-1 to be Done after roundtrip"),
    }

    match deserialized.tasks[1].state {
        TaskState::Todo => {},
        _ => panic!("Expected task T-2 to be Todo after roundtrip"),
    }
}

#[test]
fn cycle_reported_with_both_ids() {
    let b = backlog(vec![
        task("X", "x", vec!["Y"], TaskState::Todo),
        task("Y", "y", vec!["X"], TaskState::Todo),
    ]);
    match b.validate() {
        Err(BacklogError::CycleDetected(path)) => {
            assert!(path.iter().any(|p| p == "X"));
            assert!(path.iter().any(|p| p == "Y"));
            let e = BacklogError::CycleDetected(path);
            assert_eq!(e.message(), "Dependency cycle detected: X -> Y -> X");
        },
        other => panic!("expected a cycle, got {:?}", other.is_ok()),
    }
}

#[test]
fn dangling_reported_with_task_and_missing() {
    let b = backlog(vec![task("A", "a", vec!["Z"], TaskState::Todo)]);
    match b.validate() {
        Err(BacklogError::DanglingDependency { task_id, missing }) => {
            assert_eq!(task_id, "A");
            assert_eq!(missing, "Z");
            let e = BacklogError::DanglingDependency { task_id, missing };
            assert_eq!(e.message(), "Task A depends on non-existent task Z");
        },
        _ => panic!("expected a dangling dependency"),
    }
}

#[test]
fn dangling_precedes_cycle() {
    let b = backlog(vec![
        task("A", "a", vec!["Z"], TaskState::Todo),
        task("X", "x", vec!["Y"], TaskState::Todo),
        task("Y", "y", vec!["X"], TaskState::Todo),
    ]);
    match b.validate() {
        Err(BacklogError::DanglingDependency { task_id, missing }) => {
            assert_eq!(task_id, "A");
            assert_eq!(missing, "Z");
        },
        _ => panic!("expected the dangling dependency to be reported first"),
    }
}

#[test]
fn validate_accepts_dag() {
    let b = backlog(vec![
        task("T-1", "one", vec![], TaskState::Done),
        task("T-2", "two", vec!["T-1"], TaskState::Todo),
        task("T-3", "three", vec!["T-1", "T-2"], TaskState::Todo),
    ]);
    assert!(b.validate().is_ok());
}

#[test]
fn repeated_queries_agree() {
    let b = backlog(vec![
        task("T-1", "one", vec![], TaskState::Done),
        task("T-2", "two", vec!["T-1"], TaskState::Todo),
    ]);
    let r1: Vec<String> = get_ready_tasks(&b).iter().map(|t| t.id.clone()).collect();
    let r2: Vec<String> = get_ready_tasks(&b).iter().map(|t| t.id.clone()).collect();
    assert_eq!(r1, r2);
    assert_eq!(b.validate().is_ok(), b.validate().is_ok());
}

#[test]
fn mark_done_changes_only_that_task() {
    let yaml = "project: test-project\ntasks:\n  - id: TEST-1\n    title: Test Task\n    depends: []\n    state: Todo\n  - id: TEST-2\n    title: Other\n    depends: []\n    state: Todo\n";
    let mut b = backlog_from_yaml(yaml).unwrap();
    b.mark_task_done("TEST-1").unwrap();
    let serialized = backlog_to_yaml(&b).unwrap();
    let again = backlog_from_yaml(&serialized).unwrap();
    assert_eq!(again.tasks.len(), 2);
    assert_eq!(again.tasks[0].id, "TEST-1");
    assert!(matches!(again.tasks[0].state, TaskState::Done));
    assert_eq!(again.tasks[1].id, "TEST-2");
    assert!(matches!(again.tasks[1].state, TaskState::Todo));
    assert_eq!(again.tasks[0].title, "Test Task");
    assert_eq!(again.project, "test-project");
}

#[test]
fn mark_done_missing_task() {
    let mut b = backlog(vec![task("T-1", "one", vec![], TaskState::Todo)]);
    match b.mark_task_done("NOPE") {
        Err(BacklogError::TaskNotFound(id)) => {
            assert_eq!(id, "NOPE");
        },
        _ => panic!("expected TaskNotFound"),
    }
    assert!(matches!(b.tasks[0].state, TaskState::Todo));
}

#[test]
fn mark_done_inside_epic() {
    let yaml = "project: p\nepics:\n  - id: E-1\n    title: Epic\n    tasks:\n      - id: N-1\n        title: Nested\n";
    let mut b = backlog_from_yaml(yaml).unwrap();
    b.mark_task_done("N-1").unwrap();
    assert!(matches!(b.epics[0].tasks[0].state, TaskState::Done));
}

#[test]
fn ready_includes_epic_tasks_in_order() {
    let yaml = "project: p\nepics:\n  - id: E-1\n    title: Epic\n    tasks:\n      - id: N-1\n        title: Nested\ntasks:\n  - id: T-1\n    title: Top\n";
    let b = backlog_from_yaml(yaml).unwrap();
    let ready = get_ready_tasks(&b);
    assert_eq!(ready.len(), 2);
    assert_eq!(ready[0].id, "T-1");
    assert_eq!(ready[1].id, "N-1");
}

#[test]
fn unresolved_dependency_counts_as_satisfied_for_readiness() {
    let b = backlog(vec![task("T-1", "one", vec!["GHOST"], TaskState::Todo)]);
    let ready = get_ready_tasks(&b);
    assert_eq!(ready.len(), 1);
    assert_eq!(ready[0].id, "T-1");
}

#[test]
fn empty_input_is_rejected() {
    match parse_and_validate_yaml("   \n\t  ") {
        Err(BacklogError::EmptyInput) => {},
        _ => panic!("expected EmptyInput"),
    }
    assert_eq!(BacklogError::EmptyInput.message(), "Empty response from LLM");
}

#[test]
fn unparseable_input_is_a_parse_error() {
    match parse_and_validate_yaml(": : :\n- ] [") {
        Err(BacklogError::ParseError(_)) => {},
        _ => panic!("expected ParseError"),
    }
}
