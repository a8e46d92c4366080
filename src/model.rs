use vstd::prelude::*;

verus! {

pub type SessionID = u64;

pub type TaskID = u64;

#[derive(Clone, Copy, Debug, PartialEq, Eq, Structural)]
pub enum SessionState {
    Open,
    Closed,
}

#[derive(Clone, Copy, Debug, PartialEq, Eq, Structural)]
pub enum TaskState {
    Pending,
    Running,
    Succeed,
    Failed,
    Aborting,
    Aborted,
}

#[derive(Clone, Copy, Debug, PartialEq, Eq, Structural)]
pub enum ExecutorState {
    Idle,
    Binding,
    Bound,
    Unbinding,
    Unknown,
}

/// The number of task states, and so of buckets in a session's state index.
pub const N_TASK_STATES: usize = 6;

/// The position of a state's bucket in a session's state index.
pub open spec fn spec_bucket(s: TaskState) -> int {
    match s {
        TaskState::Pending => 0,
        TaskState::Running => 1,
        TaskState::Succeed => 2,
        TaskState::Failed => 3,
        TaskState::Aborting => 4,
        TaskState::Aborted => 5,
    }
}

pub open spec fn spec_is_completed(s: TaskState) -> bool {
    s == TaskState::Succeed || s == TaskState::Failed || s == TaskState::Aborted
}

/// The moves a task may make: Pending to Running, Running to Succeed, Failed
/// or Aborting, Aborting to Aborted.
pub open spec fn spec_can_move(from: TaskState, to: TaskState) -> bool {
    match (from, to) {
        (TaskState::Pending, TaskState::Running) => true,
        (TaskState::Running, TaskState::Succeed) => true,
        (TaskState::Running, TaskState::Failed) => true,
        (TaskState::Running, TaskState::Aborting) => true,
        (TaskState::Aborting, TaskState::Aborted) => true,
        _ => false,
    }
}

impl TaskState {
    pub fn bucket(self) -> (r: usize)
        ensures
            r as int == spec_bucket(self),
            r < N_TASK_STATES,
    {
        match self {
            TaskState::Pending => 0,
            TaskState::Running => 1,
            TaskState::Succeed => 2,
            TaskState::Failed => 3,
            TaskState::Aborting => 4,
            TaskState::Aborted => 5,
        }
    }

    pub fn is_completed(self) -> (r: bool)
        ensures
            r == spec_is_completed(self),
    {
        match self {
            TaskState::Succeed | TaskState::Failed | TaskState::Aborted => true,
            _ => false,
        }
    }

    pub fn can_move_to(self, to: TaskState) -> (r: bool)
        ensures
            r == spec_can_move(self, to),
    {
        match (self, to) {
            (TaskState::Pending, TaskState::Running) => true,
            (TaskState::Running, TaskState::Succeed) => true,
            (TaskState::Running, TaskState::Failed) => true,
            (TaskState::Running, TaskState::Aborting) => true,
            (TaskState::Aborting, TaskState::Aborted) => true,
            _ => false,
        }
    }
}


/// What a task holds, as plain values.
pub struct TaskView {
    pub id: TaskID,
    pub ssn_id: SessionID,
    pub input: Option<Seq<u8>>,
    pub output: Option<Seq<u8>>,
    pub creation_time: i64,
    pub completion_time: Option<i64>,
    pub state: TaskState,
}

pub open spec fn bytes_view(b: Option<Vec<u8>>) -> Option<Seq<u8>> {
    match b {
        Some(v) => Some(v@),
        None => None,
    }
}

/// Copies an optional byte buffer.
pub fn copy_bytes(b: &Option<Vec<u8>>) -> (r: Option<Vec<u8>>)
    ensures
        bytes_view(r) == bytes_view(*b),
{
    match b {
        Some(v) => {
            let c = v.clone();
            assert(c@ =~= v@);
            Some(c)
        },
        None => None,
    }
}

/// A unit of work in a session. Its `(ssn_id, id)` pair is unique.
#[derive(Clone, Debug)]
pub struct Task {
    pub id: TaskID,
    pub ssn_id: SessionID,
    pub input: Option<Vec<u8>>,
    pub output: Option<Vec<u8>>,
    pub creation_time: i64,
    pub completion_time: Option<i64>,
    pub state: TaskState,
}

impl View for Task {
    type V = TaskView;

    open spec fn view(&self) -> TaskView {
        TaskView {
            id: self.id,
            ssn_id: self.ssn_id,
            input: bytes_view(self.input),
            output: bytes_view(self.output),
            creation_time: self.creation_time,
            completion_time: self.completion_time,
            state: self.state,
        }
    }
}

impl Task {
    /// A copy of the task with the same contents.
    pub fn copied(&self) -> (r: Task)
        ensures
            r@ == self@,
    {
        Task {
            id: self.id,
            ssn_id: self.ssn_id,
            input: copy_bytes(&self.input),
            output: copy_bytes(&self.output),
            creation_time: self.creation_time,
            completion_time: self.completion_time,
            state: self.state,
        }
    }

    pub fn is_completed(&self) -> (r: bool)
        ensures
            r == spec_is_completed(self.state),
    {
        self.state.is_completed()
    }
}

/// The runtime descriptor that executors hand to their shims.
pub struct ApplicationView {
    pub name: Seq<char>,
    pub command: Seq<char>,
    pub arguments: Seq<String>,
    pub environments: Seq<String>,
    pub working_directory: Seq<char>,
}

#[derive(Clone, Debug)]
pub struct Application {
    pub name: String,
    pub command: String,
    pub arguments: Vec<String>,
    pub environments: Vec<String>,
    pub working_directory: String,
}

impl View for Application {
    type V = ApplicationView;

    open spec fn view(&self) -> ApplicationView {
        ApplicationView {
            name: self.name@,
            command: self.command@,
            arguments: self.arguments@,
            environments: self.environments@,
            working_directory: self.working_directory@,
        }
    }
}

pub fn copy_strings(v: &Vec<String>) -> (r: Vec<String>)
    ensures
        r@ == v@,
{
    let r = v.clone();
    assert(r@ =~= v@);
    r
}

impl Application {
    pub fn copied(&self) -> (r: Application)
        ensures
            r@ == self@,
    {
        Application {
            name: self.name.clone(),
            command: self.command.clone(),
            arguments: copy_strings(&self.arguments),
            environments: copy_strings(&self.environments),
            working_directory: self.working_directory.clone(),
        }
    }
}

impl Default for Application {
    fn default() -> (r: Application)
        ensures
            r.name@ == Seq::<char>::empty(),
            r.command@ == Seq::<char>::empty(),
            r.arguments@ == Seq::<String>::empty(),
            r.environments@ == Seq::<String>::empty(),
            r.working_directory@ == Seq::<char>::empty(),
    {
        Application {
            name: String::new(),
            command: String::new(),
            arguments: Vec::new(),
            environments: Vec::new(),
            working_directory: String::new(),
        }
    }
}

pub type ExecutorID = String;

/// What an executor record holds, as plain values.
pub struct ExecutorView {
    pub id: Seq<char>,
    pub application: ApplicationView,
    pub slots: i32,
    pub task_id: Option<TaskID>,
    pub ssn_id: Option<SessionID>,
    pub creation_time: i64,
    pub state: ExecutorState,
}

impl ExecutorView {
    /// An Idle or Unknown executor is bound to nothing; a Binding, Bound or
    /// Unbinding one holds its session; a task is held only while Bound or
    /// Unbinding.
    pub open spec fn wf(self) -> bool {
        &&& (self.state == ExecutorState::Idle || self.state == ExecutorState::Unknown) ==> (
        self.ssn_id is None && self.task_id is None)
        &&& (self.state == ExecutorState::Binding || self.state == ExecutorState::Bound
            || self.state == ExecutorState::Unbinding) ==> self.ssn_id is Some
        &&& self.task_id is Some ==> (self.state == ExecutorState::Bound || self.state
            == ExecutorState::Unbinding)
    }
}

/// A worker registered with the manager; it hosts a shim and runs tasks.
#[derive(Clone, Debug)]
pub struct Executor {
    pub id: ExecutorID,
    pub application: Application,
    pub slots: i32,
    pub task_id: Option<TaskID>,
    pub ssn_id: Option<SessionID>,
    pub creation_time: i64,
    pub state: ExecutorState,
}

impl View for Executor {
    type V = ExecutorView;

    open spec fn view(&self) -> ExecutorView {
        ExecutorView {
            id: self.id@,
            application: self.application@,
            slots: self.slots,
            task_id: self.task_id,
            ssn_id: self.ssn_id,
            creation_time: self.creation_time,
            state: self.state,
        }
    }
}

impl Executor {
    /// A new Idle executor bound to nothing.
    pub fn new(id: ExecutorID, application: Application, slots: i32, creation_time: i64) -> (r:
        Executor)
        ensures
            r@ == (ExecutorView {
                id: id@,
                application: application@,
                slots,
                task_id: None,
                ssn_id: None,
                creation_time,
                state: ExecutorState::Idle,
            }),
            r@.wf(),
    {
        Executor {
            id,
            application,
            slots,
            task_id: None,
            ssn_id: None,
            creation_time,
            state: ExecutorState::Idle,
        }
    }

    pub fn copied(&self) -> (r: Executor)
        ensures
            r@ == self@,
    {
        Executor {
            id: self.id.clone(),
            application: self.application.copied(),
            slots: self.slots,
            task_id: self.task_id,
            ssn_id: self.ssn_id,
            creation_time: self.creation_time,
            state: self.state,
        }
    }

    /// Whether the record is consistent (see `ExecutorView::wf`).
    pub fn is_consistent(&self) -> (r: bool)
        ensures
            r == self@.wf(),
    {
        match self.state {
            ExecutorState::Idle | ExecutorState::Unknown => self.ssn_id.is_none()
                && self.task_id.is_none(),
            ExecutorState::Binding => self.ssn_id.is_some() && self.task_id.is_none(),
            ExecutorState::Bound | ExecutorState::Unbinding => self.ssn_id.is_some(),
        }
    }
}

} // verus!
