use flame_core::{FlameError, SessionState, Storage, TaskState, N_TASK_STATES};

#[test]
fn create_and_get_session() {
    let mut s = Storage::new();
    let ssn = s.create_session("matmul".to_string(), 4, None).unwrap();
    assert_eq!(ssn.id, 1);
    let got = s.get_session(1).unwrap();
    assert_eq!(got.id, 1);
    assert_eq!(got.application, "matmul");
    assert_eq!(got.slots, 4);
    assert_eq!(got.state, SessionState::Open);
    assert!(got.tasks.is_empty());
    assert_eq!(got.creation_time, ssn.creation_time);
    // Milliseconds since the Unix epoch: well past 2020-01-01.
    assert!(got.creation_time > 1_577_836_800_000);
    assert!(got.completion_time.is_none());
}

#[test]
fn session_ids_start_at_one_and_increase() {
    let mut s = Storage::new();
    let a = s.create_session("a".to_string(), 1, None).unwrap();
    let b = s.create_session("b".to_string(), 2, Some(vec![1, 2])).unwrap();
    let c = s.create_session("c".to_string(), 3, None).unwrap();
    assert_eq!((a.id, b.id, c.id), (1, 2, 3));
    assert_eq!(s.get_session(2).unwrap().common_data, Some(vec![1, 2]));
    assert_eq!(s.get_session(3).unwrap().application, "c");
}

#[test]
fn ids_are_not_reused_after_delete() {
    let mut s = Storage::new();
    s.create_session("a".to_string(), 1, None).unwrap();
    s.delete_session(1).unwrap();
    let b = s.create_session("b".to_string(), 1, None).unwrap();
    assert_eq!(b.id, 2);
}

#[test]
fn missing_session_is_not_found() {
    let mut s = Storage::new();
    assert!(matches!(s.get_session(7), Err(FlameError::NotFound(_))));
    assert!(matches!(s.close_session(7), Err(FlameError::NotFound(_))));
    assert!(matches!(s.delete_session(7), Err(FlameError::NotFound(_))));
    assert!(matches!(s.create_task(7, None), Err(FlameError::NotFound(_))));
    assert!(matches!(s.get_task(7, 1), Err(FlameError::NotFound(_))));
}

#[test]
fn delete_session_removes_it_and_its_tasks() {
    let mut s = Storage::new();
    s.create_session("a".to_string(), 1, None).unwrap();
    s.create_task(1, None).unwrap();
    s.delete_session(1).unwrap();
    assert!(matches!(s.get_session(1), Err(FlameError::NotFound(_))));
    assert!(matches!(s.get_task(1, 1), Err(FlameError::NotFound(_))));
    assert!(matches!(s.delete_session(1), Err(FlameError::NotFound(_))));
}

#[test]
fn list_session_in_id_order() {
    let mut s = Storage::new();
    assert!(s.list_session().is_empty());
    for app in ["x", "y", "z"] {
        s.create_session(app.to_string(), 1, None).unwrap();
    }
    s.delete_session(2).unwrap();
    let l = s.list_session();
    let ids: Vec<u64> = l.iter().map(|x| x.id).collect();
    assert_eq!(ids, vec![1, 3]);
    assert_eq!(l[1].application, "z");
}

#[test]
fn tasks_are_numbered_per_session() {
    let mut s = Storage::new();
    s.create_session("a".to_string(), 1, None).unwrap();
    s.create_session("b".to_string(), 1, None).unwrap();
    let t1 = s.create_task(1, Some(b"hello".to_vec())).unwrap();
    let t2 = s.create_task(1, None).unwrap();
    let u1 = s.create_task(2, None).unwrap();
    assert_eq!((t1.id, t2.id, u1.id), (1, 2, 1));
    assert_eq!((t1.ssn_id, u1.ssn_id), (1, 2));
    assert_eq!(t1.state, TaskState::Pending);
    assert_eq!(t1.input, Some(b"hello".to_vec()));
    assert!(t1.output.is_none());
    let got = s.get_task(1, 1).unwrap();
    assert_eq!(got.input, Some(b"hello".to_vec()));
    assert!(matches!(s.get_task(1, 3), Err(FlameError::NotFound(_))));
    assert!(matches!(s.get_task(1, 0), Err(FlameError::NotFound(_))));
}

#[test]
fn close_blocks_new_tasks() {
    let mut s = Storage::new();
    s.create_session("matmul".to_string(), 4, None).unwrap();
    s.create_task(1, Some(b"a".to_vec())).unwrap();
    s.update_task_state(1, 1, TaskState::Running).unwrap();
    s.close_session(1).unwrap();
    assert_eq!(s.get_session(1).unwrap().state, SessionState::Closed);
    assert!(matches!(s.create_task(1, Some(b"b".to_vec())), Err(FlameError::InvalidState(_))));
    assert_eq!(s.get_session(1).unwrap().tasks.len(), 1);
    // The running task may still complete.
    s.update_task_state(1, 1, TaskState::Succeed).unwrap();
    assert_eq!(s.get_task(1, 1).unwrap().state, TaskState::Succeed);
}

#[test]
fn task_moves_follow_the_lifecycle() {
    let mut s = Storage::new();
    s.create_session("a".to_string(), 1, None).unwrap();
    s.create_task(1, None).unwrap();
    assert!(matches!(s.update_task_state(1, 1, TaskState::Succeed), Err(FlameError::InvalidState(_))));
    assert!(matches!(s.update_task_state(1, 9, TaskState::Running), Err(FlameError::NotFound(_))));
    s.update_task_state(1, 1, TaskState::Running).unwrap();
    assert!(s.get_task(1, 1).unwrap().completion_time.is_none());
    s.update_task_state(1, 1, TaskState::Aborting).unwrap();
    assert!(matches!(s.update_task_state(1, 1, TaskState::Running), Err(FlameError::InvalidState(_))));
    s.update_task_state(1, 1, TaskState::Aborted).unwrap();
    let t = s.get_task(1, 1).unwrap();
    assert_eq!(t.state, TaskState::Aborted);
    assert!(t.completion_time.is_some());
    assert!(t.is_completed());
    // A completed task moves no more.
    assert!(matches!(s.update_task_state(1, 1, TaskState::Failed), Err(FlameError::InvalidState(_))));
}

#[test]
fn each_task_is_in_exactly_one_bucket() {
    let mut s = Storage::new();
    s.create_session("a".to_string(), 1, None).unwrap();
    for _ in 0..5 {
        s.create_task(1, None).unwrap();
    }
    s.update_task_state(1, 2, TaskState::Running).unwrap();
    s.update_task_state(1, 3, TaskState::Running).unwrap();
    s.update_task_state(1, 3, TaskState::Failed).unwrap();
    s.update_task_state(1, 4, TaskState::Running).unwrap();
    s.update_task_state(1, 4, TaskState::Aborting).unwrap();
    let ssn = s.get_session(1).unwrap();
    assert_eq!(ssn.tasks_by_state.len(), N_TASK_STATES);
    for t in &ssn.tasks {
        let holding: Vec<usize> = (0..N_TASK_STATES)
            .filter(|b| ssn.tasks_by_state[*b].contains(&t.id))
            .collect();
        assert_eq!(holding, vec![t.state.bucket()]);
    }
    assert_eq!(ssn.tasks_by_state[TaskState::Pending.bucket()], vec![1, 5]);
    assert_eq!(ssn.tasks_by_state[TaskState::Failed.bucket()], vec![3]);
}

#[test]
fn session_ids_increase_across_other_calls() {
    let mut s = Storage::new();
    let a = s.create_session("a".to_string(), 1, None).unwrap();
    s.create_task(a.id, None).unwrap();
    s.close_session(a.id).unwrap();
    s.delete_session(a.id).unwrap();
    let b = s.create_session("b".to_string(), 1, None).unwrap();
    assert!(b.id > a.id);
}
