//! Session and executor coordination core: an in-memory store of sessions,
//! tasks and executors, the executor lifecycle, the wait conditions that
//! executors and clients park on, and the dispatch policy.

mod ctx;
mod error;
mod model;
mod scheduler;
mod session;
mod states;
mod storage;
mod wait;

pub use ctx::FlameContext;
pub use error::{status_of, FlameError, StatusCode};
pub use model::{
    Application, Executor, ExecutorID, ExecutorState, SessionID, SessionState, Task, TaskID,
    TaskState, N_TASK_STATES,
};
pub use scheduler::{
    allocate, schedule_once, Decisions, ExecutorInfo, Policy, SessionInfo, SnapShot,
};
pub use session::Session;
pub use states::{replay, transition, ExecutorVerb};
pub use storage::Storage;
pub use wait::{WaitForSsnFuture, WatchTaskFuture};
