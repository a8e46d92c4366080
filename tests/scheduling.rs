use flame_core::{
    allocate, schedule_once, Application, Executor, ExecutorInfo, ExecutorState, Policy, SessionInfo,
    SessionState, SnapShot, Storage,
};

fn app(name: &str) -> Application {
    Application {
        name: name.to_string(),
        command: String::new(),
        arguments: vec![],
        environments: vec![],
        working_directory: String::new(),
    }
}

fn ssn_info(id: u64, application: &str, slots: i32, pending: usize) -> SessionInfo {
    SessionInfo {
        id,
        application: application.to_string(),
        slots,
        state: SessionState::Open,
        pending,
    }
}

fn idle(id: &str, application: &str) -> ExecutorInfo {
    ExecutorInfo {
        id: id.to_string(),
        application: application.to_string(),
        state: ExecutorState::Idle,
        ssn_id: None,
        task_id: None,
    }
}

#[test]
fn mismatched_application_gets_no_allocation() {
    let mut s = Storage::new();
    s.create_session("matmul".to_string(), 4, None).unwrap();
    s.register_executor(Executor::new("e1".to_string(), app("fft"), 1, 0)).unwrap();
    let (_, d) = schedule_once(&mut s, &Policy::Priority);
    assert!(d.bindings.is_empty());
    let e = s.get_executor(&"e1".to_string()).unwrap();
    assert_eq!(e.state, ExecutorState::Idle);
    assert_eq!(e.ssn_id, None);
}

#[test]
fn slots_bound_the_bindings() {
    let snap = SnapShot {
        sessions: vec![ssn_info(1, "matmul", 1, 0)],
        executors: vec![idle("e1", "matmul"), idle("e2", "matmul")],
    };
    let d = allocate(&snap);
    assert_eq!(d.bindings, vec![(1, "e1".to_string())]);
}

#[test]
fn bound_executors_count_against_slots() {
    let mut busy = idle("e0", "matmul");
    busy.state = ExecutorState::Bound;
    busy.ssn_id = Some(1);
    let snap = SnapShot {
        sessions: vec![ssn_info(1, "matmul", 2, 0)],
        executors: vec![busy, idle("e1", "matmul"), idle("e2", "matmul")],
    };
    let d = allocate(&snap);
    assert_eq!(d.bindings, vec![(1, "e1".to_string())]);
}

#[test]
fn session_with_most_room_goes_first() {
    let snap = SnapShot {
        sessions: vec![ssn_info(1, "matmul", 1, 0), ssn_info(2, "matmul", 3, 0)],
        executors: vec![idle("e1", "matmul"), idle("e2", "matmul"), idle("e3", "matmul")],
    };
    let d = allocate(&snap);
    assert_eq!(
        d.bindings,
        vec![(2, "e1".to_string()), (2, "e2".to_string()), (1, "e3".to_string())]
    );
}

#[test]
fn closed_session_gets_no_executor() {
    let mut closed = ssn_info(1, "matmul", 4, 0);
    closed.state = SessionState::Closed;
    let snap = SnapShot { sessions: vec![closed], executors: vec![idle("e1", "matmul")] };
    assert!(allocate(&snap).bindings.is_empty());
}

#[test]
fn bound_executor_without_task_is_launched() {
    let mut bound = idle("e1", "matmul");
    bound.state = ExecutorState::Bound;
    bound.ssn_id = Some(1);
    let mut busy = idle("e2", "matmul");
    busy.state = ExecutorState::Bound;
    busy.ssn_id = Some(1);
    busy.task_id = Some(1);
    let snap = SnapShot {
        sessions: vec![ssn_info(1, "matmul", 0, 2)],
        executors: vec![bound, busy],
    };
    let d = allocate(&snap);
    assert!(d.bindings.is_empty());
    assert_eq!(d.launches, vec![(1, "e1".to_string())]);
}

#[test]
fn scheduler_tick_launches_pending_work() {
    let mut s = Storage::new();
    s.create_session("matmul".to_string(), 4, None).unwrap();
    s.register_executor(Executor::new("e1".to_string(), app("matmul"), 1, 0)).unwrap();
    schedule_once(&mut s, &Policy::Priority);
    s.bind_session_completed("e1".to_string()).unwrap();
    s.create_task(1, None).unwrap();
    let (_, d) = schedule_once(&mut s, &Policy::Priority);
    assert_eq!(d.launches, vec![(1, "e1".to_string())]);
    assert_eq!(s.get_executor(&"e1".to_string()).unwrap().task_id, Some(1));
}

#[test]
fn snapshot_pictures_the_store() {
    let mut s = Storage::new();
    s.create_session("matmul".to_string(), 4, None).unwrap();
    s.create_session("fft".to_string(), 2, None).unwrap();
    s.create_task(2, None).unwrap();
    s.register_executor(Executor::new("e1".to_string(), app("fft"), 1, 0)).unwrap();
    let snap = s.snapshot();
    assert_eq!(snap.sessions.len(), 2);
    assert_eq!(snap.sessions[1].id, 2);
    assert_eq!(snap.sessions[1].application, "fft");
    assert_eq!(snap.sessions[1].pending, 1);
    assert_eq!(snap.sessions[0].pending, 0);
    assert_eq!(snap.executors.len(), 1);
    assert_eq!(snap.executors[0].application, "fft");
}

#[test]
fn policy_by_name() {
    assert_eq!(Policy::from_name(&"priority".to_string()).unwrap(), Policy::Priority);
    assert!(matches!(
        Policy::from_name(&"fair-share".to_string()),
        Err(flame_core::FlameError::InvalidConfig(_))
    ));
}

#[test]
fn snapshot_indexes_by_state() {
    let mut s = Storage::new();
    s.create_session("matmul".to_string(), 4, None).unwrap();
    s.create_session("matmul".to_string(), 4, None).unwrap();
    s.close_session(1).unwrap();
    s.register_executor(Executor::new("e1".to_string(), app("matmul"), 1, 0)).unwrap();
    s.register_executor(Executor::new("e2".to_string(), app("matmul"), 1, 0)).unwrap();
    s.bind_session("e2".to_string(), 2).unwrap();
    let snap = s.snapshot();
    assert_eq!(snap.session_ids_in(SessionState::Open), vec![2]);
    assert_eq!(snap.session_ids_in(SessionState::Closed), vec![1]);
    assert_eq!(snap.executor_ids_in(ExecutorState::Idle), vec!["e1".to_string()]);
    assert_eq!(snap.executor_ids_in(ExecutorState::Binding), vec!["e2".to_string()]);
    assert!(snap.executor_ids_in(ExecutorState::Bound).is_empty());
}

#[test]
fn unnamed_executors_keep_their_records() {
    let mut s = Storage::new();
    s.create_session("matmul".to_string(), 1, None).unwrap();
    s.register_executor(Executor::new("e1".to_string(), app("matmul"), 1, 0)).unwrap();
    s.register_executor(Executor::new("e2".to_string(), app("matmul"), 1, 0)).unwrap();
    s.register_executor(Executor::new("e3".to_string(), app("fft"), 1, 0)).unwrap();
    let (_, d) = schedule_once(&mut s, &Policy::Priority);
    assert_eq!(d.bindings, vec![(1, "e1".to_string())]);
    for id in ["e2", "e3"] {
        let e = s.get_executor(&id.to_string()).unwrap();
        assert_eq!((e.state, e.ssn_id, e.task_id), (ExecutorState::Idle, None, None));
    }
}

#[test]
fn launches_beyond_pending_work_find_nothing() {
    let mut s = Storage::new();
    s.create_session("matmul".to_string(), 4, None).unwrap();
    for id in ["e1", "e2"] {
        s.register_executor(Executor::new(id.to_string(), app("matmul"), 1, 0)).unwrap();
        s.bind_session(id.to_string(), 1).unwrap();
        s.bind_session_completed(id.to_string()).unwrap();
    }
    s.create_task(1, None).unwrap();
    let (_, d) = schedule_once(&mut s, &Policy::Priority);
    assert_eq!(d.launches.len(), 2);
    let a = s.get_executor(&"e1".to_string()).unwrap();
    let b = s.get_executor(&"e2".to_string()).unwrap();
    assert_eq!((a.task_id, b.task_id), (Some(1), None));
    assert_eq!(b.state, ExecutorState::Bound);
}
