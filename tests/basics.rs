use flame_core::{
    status_of, transition, Application, ExecutorState, ExecutorVerb, FlameContext, FlameError,
    StatusCode, TaskState,
};

#[test]
fn status_codes_of_errors() {
    let s = |e: FlameError| status_of(&e);
    assert_eq!(s(FlameError::NotFound("x".to_string())), StatusCode::NotFound);
    assert_eq!(s(FlameError::InvalidState("x".to_string())), StatusCode::FailedPrecondition);
    assert_eq!(s(FlameError::InvalidConfig("x".to_string())), StatusCode::InvalidArgument);
    assert_eq!(s(FlameError::Internal("x".to_string())), StatusCode::Internal);
    assert_eq!(s(FlameError::Network("x".to_string())), StatusCode::Unavailable);
    assert_eq!(s(FlameError::Storage("x".to_string())), StatusCode::Internal);
    assert_eq!(s(FlameError::Uninitialized), StatusCode::Internal);
}

#[test]
fn transitions_of_the_lifecycle() {
    assert_eq!(transition(ExecutorState::Idle, ExecutorVerb::BindSession), Some(ExecutorState::Binding));
    assert_eq!(transition(ExecutorState::Binding, ExecutorVerb::BindSessionCompleted), Some(ExecutorState::Bound));
    assert_eq!(transition(ExecutorState::Binding, ExecutorVerb::UnbindExecutor), Some(ExecutorState::Unbinding));
    assert_eq!(transition(ExecutorState::Bound, ExecutorVerb::LaunchTask), Some(ExecutorState::Bound));
    assert_eq!(transition(ExecutorState::Bound, ExecutorVerb::CompleteTask), Some(ExecutorState::Bound));
    assert_eq!(transition(ExecutorState::Bound, ExecutorVerb::UnbindExecutor), Some(ExecutorState::Unbinding));
    assert_eq!(transition(ExecutorState::Unbinding, ExecutorVerb::CompleteTask), Some(ExecutorState::Unbinding));
    assert_eq!(transition(ExecutorState::Unbinding, ExecutorVerb::UnbindExecutorCompleted), Some(ExecutorState::Idle));
    assert_eq!(transition(ExecutorState::Idle, ExecutorVerb::LaunchTask), None);
    assert_eq!(transition(ExecutorState::Unbinding, ExecutorVerb::LaunchTask), None);
    assert_eq!(transition(ExecutorState::Unknown, ExecutorVerb::BindSession), None);
}

#[test]
fn completed_states() {
    assert!(TaskState::Succeed.is_completed());
    assert!(TaskState::Failed.is_completed());
    assert!(TaskState::Aborted.is_completed());
    assert!(!TaskState::Pending.is_completed());
    assert!(!TaskState::Running.is_completed());
    assert!(!TaskState::Aborting.is_completed());
    assert!(TaskState::Pending.can_move_to(TaskState::Running));
    assert!(!TaskState::Pending.can_move_to(TaskState::Succeed));
}

fn named(n: &str) -> Application {
    let mut a = Application::default();
    a.name = n.to_string();
    a.command = format!("/bin/{}", n);
    a
}

#[test]
fn context_defaults() {
    let c = FlameContext::default();
    assert_eq!(c.name, "flame");
    assert_eq!(c.endpoint, "http://127.0.0.1:8080");
    assert_eq!(c.slot, "cpu=1,mem=1g");
    assert_eq!(c.policy, "priority");
    assert_eq!(c.storage, "mem");
    assert_eq!(c.applications.len(), 1);
}

#[test]
fn context_finds_first_application_by_name() {
    let mut c = FlameContext::default();
    let mut second = named("matmul");
    second.command = "/other".to_string();
    c.applications = vec![named("fft"), named("matmul"), second];
    let a = c.get_application(&"matmul".to_string()).unwrap();
    assert_eq!(a.command, "/bin/matmul");
    assert!(c.get_application(&"nope".to_string()).is_none());
}

#[test]
fn context_without_application_is_invalid() {
    let mut c = FlameContext::default();
    c.applications.clear();
    match c.validate() {
        Err(FlameError::InvalidConfig(m)) => assert_eq!(m, "no application"),
        _ => panic!("expected InvalidConfig"),
    }
    let ok = FlameContext::default().validate().unwrap();
    assert_eq!(ok.applications.len(), 1);
}
