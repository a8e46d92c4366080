use vstd::prelude::*;

use crate::error::FlameError;
use crate::model::{spec_is_completed, Executor, ExecutorID, SessionID, Task, TaskID, TaskState};
use crate::storage::Storage;

verus! {

/// An executor's wait for a session: it is ready once the executor is bound.
pub struct WaitForSsnFuture {
    pub executor_id: ExecutorID,
}

impl WaitForSsnFuture {
    pub fn new(exe: &Executor) -> (r: Self)
        ensures
            r.executor_id@ == exe.id@,
    {
        WaitForSsnFuture { executor_id: exe.id.clone() }
    }

    /// One look at the store: the executor's session if it has one, `None`
    /// while it has none, `NotFound` once the executor is gone.
    pub fn poll(&self, storage: &Storage) -> (r: Result<Option<SessionID>, FlameError>)
        requires
            storage.wf(),
        ensures
            storage@.executors.contains_key(self.executor_id@) <==> r is Ok,
            r is Err ==> r->Err_0 is NotFound,
            r is Ok ==> r->Ok_0 == storage@.executors[self.executor_id@].ssn_id,
    {
        match storage.get_executor(&self.executor_id) {
            Err(e) => Err(e),
            Ok(exe) => Ok(exe.ssn_id),
        }
    }
}

/// A client's watch on a task: it is ready once the task's state differs
/// from the state seen when the watch began, or the task is completed.
pub struct WatchTaskFuture {
    pub ssn_id: SessionID,
    pub task_id: TaskID,
    pub current_state: TaskState,
}

impl WatchTaskFuture {
    /// Starts a watch on task `task_id` of session `ssn_id`, noting its state.
    pub fn new(storage: &Storage, ssn_id: SessionID, task_id: TaskID) -> (r: Result<Self, FlameError>)
        requires
            storage.wf(),
        ensures
            (storage@.sessions.contains_key(ssn_id) && storage@.sessions[ssn_id].has_task(task_id))
                <==> r is Ok,
            r is Err ==> r->Err_0 is NotFound,
            r is Ok ==> r->Ok_0.ssn_id == ssn_id && r->Ok_0.task_id == task_id
                && r->Ok_0.current_state == storage@.sessions[ssn_id].task(task_id).state,
    {
        match storage.get_task(ssn_id, task_id) {
            Err(e) => Err(e),
            Ok(t) => Ok(WatchTaskFuture { ssn_id, task_id, current_state: t.state }),
        }
    }

    /// One look at the store: the task once it is ready, `None` while it is
    /// not, `NotFound` once the task or its session is gone.
    pub fn poll(&self, storage: &Storage) -> (r: Result<Option<Task>, FlameError>)
        requires
            storage.wf(),
        ensures
            (storage@.sessions.contains_key(self.ssn_id) && storage@.sessions[self.ssn_id].has_task(
                self.task_id,
            )) <==> r is Ok,
            r is Err ==> r->Err_0 is NotFound,
            r is Ok ==> {
                let t = storage@.sessions[self.ssn_id].task(self.task_id);
                &&& (r->Ok_0 is Some <==> (t.state != self.current_state || spec_is_completed(t.state)))
                &&& r->Ok_0 is Some ==> r->Ok_0->Some_0@ == t
            },
    {
        match storage.get_task(self.ssn_id, self.task_id) {
            Err(e) => Err(e),
            Ok(t) => {
                if t.state != self.current_state || t.is_completed() {
                    Ok(Some(t))
                } else {
                    Ok(None)
                }
            },
        }
    }
}

} // verus!
