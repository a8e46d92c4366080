use flame_core::{
    Application, Executor, ExecutorState, ExecutorVerb, FlameError, Policy, Storage, TaskState,
};

fn app(name: &str) -> Application {
    Application {
        name: name.to_string(),
        command: "/bin/run".to_string(),
        arguments: vec![],
        environments: vec![],
        working_directory: "/tmp".to_string(),
    }
}

fn executor(id: &str, name: &str) -> Executor {
    Executor::new(id.to_string(), app(name), 1, 0)
}

fn store_with_bound_executor() -> Storage {
    let mut s = Storage::new();
    s.create_session("matmul".to_string(), 4, None).unwrap();
    s.register_executor(executor("e1", "matmul")).unwrap();
    s.bind_session("e1".to_string(), 1).unwrap();
    s.bind_session_completed("e1".to_string()).unwrap();
    s
}

#[test]
fn task_dispatch() {
    let mut s = Storage::new();
    s.create_session("matmul".to_string(), 4, None).unwrap();
    s.register_executor(executor("e1", "matmul")).unwrap();
    let (_, d) = flame_core::schedule_once(&mut s, &Policy::Priority);
    assert_eq!(d.bindings.len(), 1);
    assert_eq!(d.bindings[0], (1, "e1".to_string()));
    let e = s.get_executor(&"e1".to_string()).unwrap();
    assert_eq!(e.state, ExecutorState::Binding);
    assert_eq!(e.ssn_id, Some(1));
    s.bind_session_completed("e1".to_string()).unwrap();
    let t = s.create_task(1, Some(b"hello".to_vec())).unwrap();
    assert_eq!(t.id, 1);
    assert_eq!(t.state, TaskState::Pending);
    let launched = s.launch_task("e1".to_string()).unwrap().unwrap();
    assert_eq!(launched.id, 1);
    assert_eq!(launched.state, TaskState::Running);
    assert_eq!(s.get_task(1, 1).unwrap().state, TaskState::Running);
    assert_eq!(s.get_executor(&"e1".to_string()).unwrap().task_id, Some(1));
    s.complete_task("e1".to_string(), Some(b"world".to_vec())).unwrap();
    let done = s.get_task(1, 1).unwrap();
    assert_eq!(done.state, TaskState::Succeed);
    assert_eq!(done.output, Some(b"world".to_vec()));
    assert!(done.completion_time.is_some());
}

#[test]
fn bind_unbind_round_trip() {
    let mut s = store_with_bound_executor();
    s.create_task(1, None).unwrap();
    s.launch_task("e1".to_string()).unwrap();
    s.unbind_executor("e1".to_string()).unwrap();
    assert_eq!(s.get_executor(&"e1".to_string()).unwrap().state, ExecutorState::Unbinding);
    s.unbind_executor_completed("e1".to_string()).unwrap();
    let e = s.get_executor(&"e1".to_string()).unwrap();
    assert_eq!(e.state, ExecutorState::Idle);
    assert_eq!(e.ssn_id, None);
    assert_eq!(e.task_id, None);
}

#[test]
fn bind_unbind_round_trip_from_binding() {
    let mut s = Storage::new();
    s.create_session("matmul".to_string(), 4, None).unwrap();
    s.register_executor(executor("e1", "matmul")).unwrap();
    s.bind_session("e1".to_string(), 1).unwrap();
    s.unbind_executor("e1".to_string()).unwrap();
    s.unbind_executor_completed("e1".to_string()).unwrap();
    let e = s.get_executor(&"e1".to_string()).unwrap();
    assert_eq!((e.state, e.ssn_id, e.task_id), (ExecutorState::Idle, None, None));
}

#[test]
fn complete_task_only_once() {
    let mut s = store_with_bound_executor();
    s.create_task(1, None).unwrap();
    s.launch_task("e1".to_string()).unwrap();
    s.complete_task("e1".to_string(), Some(b"out".to_vec())).unwrap();
    let r = s.complete_task("e1".to_string(), Some(b"again".to_vec()));
    assert!(matches!(r, Err(FlameError::InvalidState(_))));
    let t = s.get_task(1, 1).unwrap();
    assert_eq!(t.output, Some(b"out".to_vec()));
    assert_eq!(t.state, TaskState::Succeed);
    assert_eq!(s.get_executor(&"e1".to_string()).unwrap().task_id, None);
}

#[test]
fn complete_task_while_unbinding() {
    let mut s = store_with_bound_executor();
    s.create_task(1, None).unwrap();
    s.launch_task("e1".to_string()).unwrap();
    s.unbind_executor("e1".to_string()).unwrap();
    s.complete_task("e1".to_string(), None).unwrap();
    assert_eq!(s.get_task(1, 1).unwrap().state, TaskState::Succeed);
    assert!(matches!(s.launch_task("e1".to_string()), Err(FlameError::InvalidState(_))));
}

#[test]
fn launch_without_pending_task_gives_none() {
    let mut s = store_with_bound_executor();
    assert!(s.launch_task("e1".to_string()).unwrap().is_none());
    assert_eq!(s.get_executor(&"e1".to_string()).unwrap().state, ExecutorState::Bound);
}

#[test]
fn launch_again_returns_the_held_task() {
    let mut s = store_with_bound_executor();
    s.create_task(1, None).unwrap();
    s.create_task(1, None).unwrap();
    let a = s.launch_task("e1".to_string()).unwrap().unwrap();
    let b = s.launch_task("e1".to_string()).unwrap().unwrap();
    assert_eq!((a.id, b.id), (1, 1));
    assert_eq!(s.get_task(1, 2).unwrap().state, TaskState::Pending);
}

#[test]
fn verbs_out_of_order_are_refused() {
    let mut s = Storage::new();
    s.create_session("matmul".to_string(), 4, None).unwrap();
    s.register_executor(executor("e1", "matmul")).unwrap();
    let id = || "e1".to_string();
    assert!(matches!(s.bind_session_completed(id()), Err(FlameError::InvalidState(_))));
    assert!(matches!(s.launch_task(id()), Err(FlameError::InvalidState(_))));
    assert!(matches!(s.complete_task(id(), None), Err(FlameError::InvalidState(_))));
    assert!(matches!(s.unbind_executor(id()), Err(FlameError::InvalidState(_))));
    assert!(matches!(s.unbind_executor_completed(id()), Err(FlameError::InvalidState(_))));
    s.bind_session(id(), 1).unwrap();
    assert!(matches!(s.bind_session(id(), 1), Err(FlameError::InvalidState(_))));
    assert!(matches!(s.launch_task(id()), Err(FlameError::InvalidState(_))));
    let e = s.get_executor(&id()).unwrap();
    assert_eq!(e.state, ExecutorState::Binding);
}

#[test]
fn unknown_executor_is_not_found() {
    let mut s = Storage::new();
    s.create_session("matmul".to_string(), 4, None).unwrap();
    let id = || "nobody".to_string();
    assert!(matches!(s.get_executor(&id()), Err(FlameError::NotFound(_))));
    assert!(matches!(s.bind_session(id(), 1), Err(FlameError::NotFound(_))));
    assert!(matches!(s.bind_session_completed(id()), Err(FlameError::NotFound(_))));
    assert!(matches!(s.launch_task(id()), Err(FlameError::NotFound(_))));
    assert!(matches!(s.complete_task(id(), None), Err(FlameError::NotFound(_))));
    assert!(matches!(s.unbind_executor(id()), Err(FlameError::NotFound(_))));
    assert!(matches!(s.unbind_executor_completed(id()), Err(FlameError::NotFound(_))));
}

#[test]
fn bind_to_missing_session_is_not_found() {
    let mut s = Storage::new();
    s.register_executor(executor("e1", "matmul")).unwrap();
    assert!(matches!(s.bind_session("e1".to_string(), 3), Err(FlameError::NotFound(_))));
}

#[test]
fn mismatched_application_is_never_bound() {
    let mut s = Storage::new();
    s.create_session("matmul".to_string(), 4, None).unwrap();
    s.register_executor(executor("e2", "fft")).unwrap();
    for _ in 0..3 {
        let (_, d) = flame_core::schedule_once(&mut s, &Policy::Priority);
        assert!(d.bindings.is_empty());
    }
    let e = s.get_executor(&"e2".to_string()).unwrap();
    assert_eq!((e.state, e.ssn_id), (ExecutorState::Idle, None));
}

#[test]
fn bind_leaves_matching_to_the_policy() {
    let mut s = Storage::new();
    s.create_session("matmul".to_string(), 4, None).unwrap();
    s.register_executor(executor("e2", "fft")).unwrap();
    s.bind_session("e2".to_string(), 1).unwrap();
    let e = s.get_executor(&"e2".to_string()).unwrap();
    assert_eq!((e.state, e.ssn_id), (ExecutorState::Binding, Some(1)));
}

#[test]
fn unknown_state_rejects_every_verb() {
    let mut s = Storage::new();
    s.create_session("matmul".to_string(), 4, None).unwrap();
    let mut e = executor("e1", "matmul");
    e.state = ExecutorState::Unknown;
    s.register_executor(e).unwrap();
    let id = || "e1".to_string();
    assert!(matches!(s.bind_session(id(), 1), Err(FlameError::InvalidState(_))));
    assert!(matches!(s.bind_session_completed(id()), Err(FlameError::InvalidState(_))));
    assert!(matches!(s.launch_task(id()), Err(FlameError::InvalidState(_))));
    assert!(matches!(s.complete_task(id(), None), Err(FlameError::InvalidState(_))));
    assert!(matches!(s.unbind_executor(id()), Err(FlameError::InvalidState(_))));
    assert!(matches!(s.unbind_executor_completed(id()), Err(FlameError::InvalidState(_))));
}

#[test]
fn inconsistent_executor_is_refused() {
    let mut s = Storage::new();
    let mut e = executor("e1", "matmul");
    e.state = ExecutorState::Bound;
    assert!(matches!(s.register_executor(e), Err(FlameError::InvalidState(_))));
    let mut e = executor("e1", "matmul");
    e.ssn_id = Some(1);
    assert!(matches!(s.register_executor(e), Err(FlameError::InvalidState(_))));
    assert!(matches!(s.get_executor(&"e1".to_string()), Err(FlameError::NotFound(_))));
}

#[test]
fn register_again_replaces_the_record() {
    let mut s = Storage::new();
    s.register_executor(executor("e1", "matmul")).unwrap();
    s.register_executor(executor("e1", "fft")).unwrap();
    assert_eq!(s.get_executor(&"e1".to_string()).unwrap().application.name, "fft");
    assert_eq!(s.snapshot().executors.len(), 1);
}

#[test]
fn bound_exactly_when_holding_a_session() {
    let mut s = Storage::new();
    s.create_session("matmul".to_string(), 4, None).unwrap();
    s.register_executor(executor("e1", "matmul")).unwrap();
    let check = |s: &Storage| {
        let e = s.get_executor(&"e1".to_string()).unwrap();
        if e.state == ExecutorState::Bound {
            assert!(e.ssn_id.is_some());
        }
        if e.state != ExecutorState::Binding && e.state != ExecutorState::Unbinding {
            assert_eq!(e.state == ExecutorState::Bound, e.ssn_id.is_some());
        }
    };
    check(&s);
    s.bind_session("e1".to_string(), 1).unwrap();
    check(&s);
    s.bind_session_completed("e1".to_string()).unwrap();
    check(&s);
    s.unbind_executor("e1".to_string()).unwrap();
    check(&s);
    s.unbind_executor_completed("e1".to_string()).unwrap();
    check(&s);
}

#[test]
fn verb_sequence_decides_the_state() {
    let verbs = vec![
        ExecutorVerb::BindSession,
        ExecutorVerb::BindSessionCompleted,
        ExecutorVerb::LaunchTask,
        ExecutorVerb::UnbindExecutor,
    ];
    let mut a = Storage::new();
    a.create_session("matmul".to_string(), 4, None).unwrap();
    a.register_executor(executor("e1", "matmul")).unwrap();
    let mut b = Storage::new();
    b.create_session("matmul".to_string(), 4, None).unwrap();
    b.create_task(1, None).unwrap();
    b.register_executor(executor("e1", "matmul")).unwrap();
    a.apply_verbs("e1".to_string(), &verbs, 1).unwrap();
    b.apply_verbs("e1".to_string(), &verbs, 1).unwrap();
    let ea = a.get_executor(&"e1".to_string()).unwrap();
    let eb = b.get_executor(&"e1".to_string()).unwrap();
    assert_eq!(ea.state, ExecutorState::Unbinding);
    assert_eq!(ea.state, eb.state);
    assert_eq!(flame_core::replay(ExecutorState::Idle, &verbs), Some(ExecutorState::Unbinding));
    let bad = vec![ExecutorVerb::BindSession, ExecutorVerb::LaunchTask];
    assert_eq!(flame_core::replay(ExecutorState::Idle, &bad), None);
    let mut c = Storage::new();
    c.create_session("matmul".to_string(), 4, None).unwrap();
    c.register_executor(executor("e1", "matmul")).unwrap();
    // The launch is refused while Binding and changes nothing.
    assert_eq!(c.apply_verbs("e1".to_string(), &bad, 1).unwrap(), 1);
    assert_eq!(c.get_executor(&"e1".to_string()).unwrap().state, ExecutorState::Binding);
    assert!(matches!(c.apply_verbs("nobody".to_string(), &bad, 1), Err(FlameError::NotFound(_))));
}

#[test]
fn lifecycle_sequence_succeeds_when_the_table_allows() {
    let verbs = vec![
        ExecutorVerb::BindSession,
        ExecutorVerb::BindSessionCompleted,
        ExecutorVerb::UnbindExecutor,
        ExecutorVerb::UnbindExecutorCompleted,
        ExecutorVerb::BindSession,
    ];
    let mut s = Storage::new();
    s.create_session("matmul".to_string(), 4, None).unwrap();
    s.register_executor(executor("e1", "matmul")).unwrap();
    assert_eq!(s.apply_verbs("e1".to_string(), &verbs, 1).unwrap(), 0);
    let e = s.get_executor(&"e1".to_string()).unwrap();
    assert_eq!((e.state, e.ssn_id), (ExecutorState::Binding, Some(1)));
    assert!(matches!(
        s.apply_verb("e1".to_string(), ExecutorVerb::UnbindExecutorCompleted, 1),
        Err(FlameError::InvalidState(_))
    ));
}
