use flame_core::{
    Application, Executor, FlameError, Storage, TaskState, WaitForSsnFuture, WatchTaskFuture,
};

fn executor(id: &str) -> Executor {
    let app = Application {
        name: "matmul".to_string(),
        command: String::new(),
        arguments: vec![],
        environments: vec![],
        working_directory: String::new(),
    };
    Executor::new(id.to_string(), app, 1, 0)
}

#[test]
fn watch_wakes_on_change() {
    let mut s = Storage::new();
    s.create_session("matmul".to_string(), 4, None).unwrap();
    s.register_executor(executor("e1")).unwrap();
    s.bind_session("e1".to_string(), 1).unwrap();
    s.bind_session_completed("e1".to_string()).unwrap();
    s.create_task(1, Some(b"hello".to_vec())).unwrap();
    let w = WatchTaskFuture::new(&s, 1, 1).unwrap();
    assert_eq!(w.current_state, TaskState::Pending);
    assert!(w.poll(&s).unwrap().is_none());
    s.launch_task("e1".to_string()).unwrap();
    let t = w.poll(&s).unwrap().unwrap();
    assert_eq!(t.id, 1);
    assert_eq!(t.state, TaskState::Running);
}

#[test]
fn watch_on_completed_task_is_ready_at_once() {
    let mut s = Storage::new();
    s.create_session("matmul".to_string(), 4, None).unwrap();
    s.create_task(1, None).unwrap();
    s.update_task_state(1, 1, TaskState::Running).unwrap();
    s.update_task_state(1, 1, TaskState::Failed).unwrap();
    let w = WatchTaskFuture::new(&s, 1, 1).unwrap();
    assert_eq!(w.poll(&s).unwrap().unwrap().state, TaskState::Failed);
}

#[test]
fn watch_ends_with_not_found_when_session_goes() {
    let mut s = Storage::new();
    s.create_session("matmul".to_string(), 4, None).unwrap();
    s.create_task(1, None).unwrap();
    let w = WatchTaskFuture::new(&s, 1, 1).unwrap();
    s.delete_session(1).unwrap();
    assert!(matches!(w.poll(&s), Err(FlameError::NotFound(_))));
    assert!(matches!(WatchTaskFuture::new(&s, 1, 1), Err(FlameError::NotFound(_))));
}

#[test]
fn wait_for_session_cancellation() {
    let mut s = Storage::new();
    s.create_session("matmul".to_string(), 4, None).unwrap();
    let e = executor("e1");
    s.register_executor(e.clone()).unwrap();
    let first = WaitForSsnFuture::new(&e);
    assert_eq!(first.poll(&s).unwrap(), None);
    drop(first);
    assert_eq!(s.get_executor(&"e1".to_string()).unwrap().ssn_id, None);
    s.bind_session("e1".to_string(), 1).unwrap();
    let second = WaitForSsnFuture::new(&e);
    assert_eq!(second.poll(&s).unwrap(), Some(1));
}

#[test]
fn wait_for_unregistered_executor_is_not_found() {
    let s = Storage::new();
    let w = WaitForSsnFuture::new(&executor("ghost"));
    assert!(matches!(w.poll(&s), Err(FlameError::NotFound(_))));
}
