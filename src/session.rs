use vstd::prelude::*;

use crate::error::FlameError;
use crate::model::{
    bytes_view, copy_bytes, spec_bucket, spec_can_move, spec_is_completed, SessionID, SessionState, Task, TaskID,
    TaskState, TaskView, N_TASK_STATES,
};

verus! {

/// What a session holds, as plain values.
pub struct SessionView {
    pub id: SessionID,
    pub application: Seq<char>,
    pub slots: i32,
    pub state: SessionState,
    pub creation_time: i64,
    pub completion_time: Option<i64>,
    pub common_data: Option<Seq<u8>>,
    pub tasks: Seq<TaskView>,
    pub tasks_by_state: Seq<Seq<TaskID>>,
}

impl SessionView {
    /// Whether the session holds a task of this id. Task ids run from 1 in
    /// the order of creation.
    pub open spec fn has_task(self, id: TaskID) -> bool {
        1 <= id <= self.tasks.len()
    }

    pub open spec fn task(self, id: TaskID) -> TaskView {
        self.tasks[id - 1]
    }

    /// Whether task `id` is listed in the bucket of index `b`.
    pub open spec fn in_bucket(self, b: int, id: TaskID) -> bool {
        self.tasks_by_state[b].contains(id)
    }

    /// The tasks are numbered from 1 and belong to this session; each task is
    /// listed in the bucket of its state, and every listed id names a task
    /// whose state is that bucket's, listed once.
    pub open spec fn wf(self) -> bool {
        &&& self.tasks_by_state.len() == N_TASK_STATES
        &&& self.tasks.len() < u64::MAX
        &&& forall|i: int|
            0 <= i < self.tasks.len() ==> (#[trigger] self.tasks[i]).id == i + 1
                && self.tasks[i].ssn_id == self.id
        &&& forall|i: int|
            0 <= i < self.tasks.len() ==> self.in_bucket(
                spec_bucket(#[trigger] self.tasks[i].state),
                (i + 1) as TaskID,
            )
        &&& forall|b: int, j: int|
            0 <= b < N_TASK_STATES && 0 <= j < self.tasks_by_state[b].len() ==> {
                let id = #[trigger] self.tasks_by_state[b][j];
                &&& 1 <= id <= self.tasks.len()
                &&& spec_bucket(self.tasks[id - 1].state) == b
            }
        &&& forall|b: int|
            0 <= b < N_TASK_STATES ==> (#[trigger] self.tasks_by_state[b]).no_duplicates()
    }

    /// The same session with one task replaced.
    pub open spec fn with_task(self, t: TaskView) -> SessionView {
        SessionView { tasks: self.tasks.update(t.id - 1, t), ..self }
    }
}

/// A state's bucket holds exactly the tasks in that state, so each task
/// is listed in one bucket: the bucket of its own state.
pub proof fn lemma_task_in_one_bucket(s: SessionView, id: TaskID, b: int)
    requires
        s.wf(),
        s.has_task(id),
        0 <= b < N_TASK_STATES,
    ensures
        s.in_bucket(b, id) <==> b == spec_bucket(s.task(id).state),
{
    let i = id - 1;
    assert(s.tasks[i].id == i + 1);
    if s.in_bucket(b, id) {
        let j = choose|j: int| 0 <= j < s.tasks_by_state[b].len() && s.tasks_by_state[b][j] == id;
        assert(s.tasks_by_state[b][j] == id);
    }
}

/// A batch of tasks pinned to an application.
#[derive(Clone, Debug)]
pub struct Session {
    pub id: SessionID,
    pub application: String,
    pub slots: i32,
    pub state: SessionState,
    pub creation_time: i64,
    pub completion_time: Option<i64>,
    pub common_data: Option<Vec<u8>>,
    pub tasks: Vec<Task>,
    pub tasks_by_state: Vec<Vec<TaskID>>,
}

impl View for Session {
    type V = SessionView;

    open spec fn view(&self) -> SessionView {
        SessionView {
            id: self.id,
            application: self.application@,
            slots: self.slots,
            state: self.state,
            creation_time: self.creation_time,
            completion_time: self.completion_time,
            common_data: bytes_view(self.common_data),
            tasks: self.tasks@.map_values(|t: Task| t@),
            tasks_by_state: self.tasks_by_state@.map_values(|b: Vec<TaskID>| b@),
        }
    }
}

/// Removes a listed id from a bucket that lists each id once.
fn remove_id(v: &mut Vec<TaskID>, id: TaskID)
    requires
        old(v)@.contains(id),
        old(v)@.no_duplicates(),
    ensures
        final(v)@.no_duplicates(),
        forall|x: TaskID| final(v)@.contains(x) <==> (old(v)@.contains(x) && x != id),
        forall|j: int| 0 <= j < final(v)@.len() ==> old(v)@.contains(#[trigger] final(v)@[j]),
{
    let ghost w = v@;
    let mut k: usize = 0;
    while k < v.len() && v[k] != id
        invariant
            v@ == w,
            w.contains(id),
            0 <= k <= v.len(),
            forall|j: int| 0 <= j < k ==> w[j] != id,
        decreases v.len() - k,
    {
        k = k + 1;
    }
    assert(k < v.len() && w[k as int] == id) by {
        if k == v.len() {
            let j = choose|j: int| 0 <= j < w.len() && w[j] == id;
            assert(w[j] == id);
        }
    }
    v.remove(k);
    let ghost r = v@;
    assert(r =~= w.subrange(0, k as int) + w.subrange(k + 1, w.len() as int));
    assert forall|x: TaskID| r.contains(x) <==> (w.contains(x) && x != id) by {
        if r.contains(x) {
            let j = choose|j: int| 0 <= j < r.len() && r[j] == x;
            if j < k {
                assert(w[j] == x);
            } else {
                assert(w[j + 1] == x);
                assert(w[j + 1] != w[k as int]);
            }
        }
        if w.contains(x) && x != id {
            let j = choose|j: int| 0 <= j < w.len() && w[j] == x;
            if j < k {
                assert(r[j] == x);
            } else {
                assert(j != k);
                assert(r[j - 1] == x);
            }
        }
    }
    assert forall|a: int, b: int| 0 <= a < r.len() && 0 <= b < r.len() && a != b implies r[a]
        != r[b] by {
        let wa = if a < k { a } else { a + 1 };
        let wb = if b < k { b } else { b + 1 };
        assert(r[a] == w[wa] && r[b] == w[wb]);
    }
    assert forall|j: int| 0 <= j < r.len() implies w.contains(#[trigger] r[j]) by {
        if j < k {
            assert(w[j] == r[j]);
        } else {
            assert(w[j + 1] == r[j]);
        }
    }
}


/// Copies the tasks of a session.
fn copy_tasks(v: &Vec<Task>) -> (r: Vec<Task>)
    ensures
        r@.map_values(|t: Task| t@) == v@.map_values(|t: Task| t@),
{
    let mut r: Vec<Task> = Vec::new();
    let mut i: usize = 0;
    while i < v.len()
        invariant
            0 <= i <= v.len(),
            r@.len() == i,
            forall|j: int| 0 <= j < i ==> (#[trigger] r@[j])@ == v@[j]@,
        decreases v.len() - i,
    {
        r.push(v[i].copied());
        i = i + 1;
    }
    assert(r@.map_values(|t: Task| t@) =~= v@.map_values(|t: Task| t@));
    r
}

/// Copies the state index of a session.
fn copy_buckets(v: &Vec<Vec<TaskID>>) -> (r: Vec<Vec<TaskID>>)
    ensures
        r@.map_values(|b: Vec<TaskID>| b@) == v@.map_values(|b: Vec<TaskID>| b@),
{
    let mut r: Vec<Vec<TaskID>> = Vec::new();
    let mut i: usize = 0;
    while i < v.len()
        invariant
            0 <= i <= v.len(),
            r@.len() == i,
            forall|j: int| 0 <= j < i ==> (#[trigger] r@[j])@ == v@[j]@,
        decreases v.len() - i,
    {
        let b = v[i].clone();
        assert(b@ =~= v@[i as int]@);
        r.push(b);
        i = i + 1;
    }
    assert(r@.map_values(|b: Vec<TaskID>| b@) =~= v@.map_values(|b: Vec<TaskID>| b@));
    r
}

impl Session {
    /// An open session with no tasks.
    pub fn new(
        id: SessionID,
        application: String,
        slots: i32,
        common_data: Option<Vec<u8>>,
        creation_time: i64,
    ) -> (r: Session)
        ensures
            r@.wf(),
            r@.id == id,
            r@.application == application@,
            r@.slots == slots,
            r@.state == SessionState::Open,
            r@.creation_time == creation_time,
            r@.completion_time == None::<i64>,
            r@.common_data == bytes_view(common_data),
            r@.tasks == Seq::<TaskView>::empty(),
    {
        let tasks_by_state: Vec<Vec<TaskID>> = vec![
            Vec::new(),
            Vec::new(),
            Vec::new(),
            Vec::new(),
            Vec::new(),
            Vec::new(),
        ];
        let r = Session {
            id,
            application,
            slots,
            state: SessionState::Open,
            creation_time,
            completion_time: None,
            common_data,
            tasks: Vec::new(),
            tasks_by_state,
        };
        assert(r@.tasks =~= Seq::<TaskView>::empty());
        assert forall|b: int| 0 <= b < N_TASK_STATES implies (#[trigger] r@.tasks_by_state[b])
            =~= Seq::<TaskID>::empty() by {}
        r
    }

    /// A copy of the session with the same contents.
    pub fn copied(&self) -> (r: Session)
        ensures
            r@ == self@,
    {
        Session {
            id: self.id,
            application: self.application.clone(),
            slots: self.slots,
            state: self.state,
            creation_time: self.creation_time,
            completion_time: self.completion_time,
            common_data: copy_bytes(&self.common_data),
            tasks: copy_tasks(&self.tasks),
            tasks_by_state: copy_buckets(&self.tasks_by_state),
        }
    }

    /// Looks a task up by id.
    pub fn get_task(&self, id: TaskID) -> (r: Option<Task>)
        requires
            self@.wf(),
        ensures
            match r {
                Some(t) => self@.has_task(id) && t@ == self@.task(id),
                None => !self@.has_task(id),
            },
    {
        if 1 <= id && id <= self.tasks.len() as u64 {
            let t = self.tasks[(id - 1) as usize].copied();
            Some(t)
        } else {
            None
        }
    }

    /// Adds a Pending task with the next id; the task is listed in the
    /// Pending bucket.
    pub fn add_task(&mut self, input: Option<Vec<u8>>, creation_time: i64) -> (r: Task)
        requires
            old(self)@.wf(),
            old(self)@.tasks.len() + 1 < u64::MAX,
        ensures
            final(self)@.wf(),
            r@ == (TaskView {
                id: (old(self)@.tasks.len() + 1) as TaskID,
                ssn_id: old(self)@.id,
                input: bytes_view(input),
                output: None,
                creation_time,
                completion_time: None,
                state: TaskState::Pending,
            }),
            final(self)@ == (SessionView {
                tasks: old(self)@.tasks.push(r@),
                tasks_by_state: final(self)@.tasks_by_state,
                ..old(self)@
            }),
    {
        let ghost s0 = self@;
        let id = self.tasks.len() as u64 + 1;
        let t = Task {
            id,
            ssn_id: self.id,
            input,
            output: None,
            creation_time,
            completion_time: None,
            state: TaskState::Pending,
        };
        let r = t.copied();
        self.tasks.push(t);
        self.tasks_by_state[0].push(id);
        let ghost s1 = self@;
        assert(s1.tasks =~= s0.tasks.push(r@));
        assert(s1.tasks_by_state[0] =~= s0.tasks_by_state[0].push(id));
        assert forall|b: int| 1 <= b < N_TASK_STATES implies #[trigger] s1.tasks_by_state[b]
            == s0.tasks_by_state[b] by {}
        assert forall|i: int| 0 <= i < s1.tasks.len() implies s1.in_bucket(
            spec_bucket(#[trigger] s1.tasks[i].state),
            (i + 1) as TaskID,
        ) by {
            if i < s0.tasks.len() {
                assert(s0.in_bucket(spec_bucket(s0.tasks[i].state), (i + 1) as TaskID));
                if spec_bucket(s0.tasks[i].state) == 0 {
                    let j = choose|j: int|
                        0 <= j < s0.tasks_by_state[0].len() && s0.tasks_by_state[0][j] == (i
                            + 1) as TaskID;
                    assert(s1.tasks_by_state[0][j] == (i + 1) as TaskID);
                }
            } else {
                assert(s1.tasks_by_state[0][s0.tasks_by_state[0].len() as int] == id);
            }
        }
        assert forall|b: int, j: int|
            0 <= b < N_TASK_STATES && 0 <= j < s1.tasks_by_state[b].len() implies {
            let x = #[trigger] s1.tasks_by_state[b][j];
            &&& 1 <= x <= s1.tasks.len()
            &&& spec_bucket(s1.tasks[x - 1].state) == b
        } by {
            if b != 0 || j < s0.tasks_by_state[0].len() {
                assert(s1.tasks_by_state[b][j] == s0.tasks_by_state[b][j]);
            }
        }
        assert(s1.tasks_by_state[0].no_duplicates()) by {
            assert forall|a: int, c: int|
                0 <= a < s1.tasks_by_state[0].len() && 0 <= c < s1.tasks_by_state[0].len() && a
                    != c implies s1.tasks_by_state[0][a] != s1.tasks_by_state[0][c] by {
                let n = s0.tasks_by_state[0].len() as int;
                if a < n {
                    assert(s0.tasks_by_state[0][a] <= s0.tasks.len());
                }
                if c < n {
                    assert(s0.tasks_by_state[0][c] <= s0.tasks.len());
                }
            }
        }
        r
    }

    /// Moves task `id` to state `to`, and its id from its old bucket to the
    /// bucket of `to`.
    fn move_task(&mut self, id: TaskID, to: TaskState)
        requires
            old(self)@.wf(),
            old(self)@.has_task(id),
        ensures
            final(self)@.wf(),
            final(self)@ == (SessionView {
                tasks_by_state: final(self)@.tasks_by_state,
                ..old(self)@.with_task(TaskView { state: to, ..old(self)@.task(id) })
            }),
    {
        let ghost s0 = self@;
        let n = self.tasks.len();
        assert(n == s0.tasks.len());
        let i = (id - 1) as usize;
        assert(i as int == id - 1);
        let from = self.tasks[i].state;
        let fb = from.bucket();
        let tb = to.bucket();
        assert(s0.tasks[i as int].id == id);
        assert(s0.tasks[i as int].state == from);
        assert(s0.in_bucket(spec_bucket(s0.tasks[i as int].state), (i + 1) as TaskID));
        assert(s0.in_bucket(fb as int, id));
        remove_id(&mut self.tasks_by_state[fb], id);
        let ghost mid = self.tasks_by_state@[fb as int]@;
        self.tasks_by_state[tb].push(id);
        self.tasks[i].state = to;
        let ghost s1 = self@;
        let ghost nt = TaskView { state: to, ..s0.task(id) };
        assert(s1.tasks =~= s0.tasks.update(i as int, nt));
        assert forall|b: int| 0 <= b < N_TASK_STATES && b != fb && b != tb implies #[trigger] s1.tasks_by_state[b]
            == s0.tasks_by_state[b] by {}
        assert(s1.tasks_by_state[fb as int] == mid || fb == tb);
        assert(s1.tasks_by_state[tb as int] =~= (if fb == tb { mid } else { s0.tasks_by_state[tb as int] }).push(id));
        // Each task is listed in the bucket of its state.
        assert forall|k: int| 0 <= k < s1.tasks.len() implies s1.in_bucket(
            spec_bucket(#[trigger] s1.tasks[k].state),
            (k + 1) as TaskID,
        ) by {
            let kb = spec_bucket(s1.tasks[k].state);
            if k == i {
                assert(s1.tasks_by_state[tb as int].last() == id);
            } else {
                assert(s0.tasks[k].id == k + 1);
                assert(s0.in_bucket(kb, (k + 1) as TaskID));
                let x = (k + 1) as TaskID;
                if kb == fb {
                    assert(mid.contains(x));
                }
                if kb == tb {
                    let pre = if fb == tb { mid } else { s0.tasks_by_state[tb as int] };
                    assert(pre.contains(x));
                    let j = choose|j: int| 0 <= j < pre.len() && pre[j] == x;
                    assert(s1.tasks_by_state[tb as int][j] == x);
                }
            }
        }
        // Each listed id names a task in that bucket's state.
        assert forall|b: int, j: int|
            0 <= b < N_TASK_STATES && 0 <= j < s1.tasks_by_state[b].len() implies {
            let x = #[trigger] s1.tasks_by_state[b][j];
            &&& 1 <= x <= s1.tasks.len()
            &&& spec_bucket(s1.tasks[x - 1].state) == b
        } by {
            let x = s1.tasks_by_state[b][j];
            if b == tb && j == s1.tasks_by_state[b].len() - 1 {
                assert(x == id);
            } else if b == fb || b == tb {
                let pre = if b == fb { mid } else { s0.tasks_by_state[tb as int] };
                assert(pre[j] == x);
                assert(pre.contains(x));
                if b == fb {
                    assert(s0.tasks_by_state[b].contains(x) && x != id);
                    let j0 = choose|j0: int| 0 <= j0 < s0.tasks_by_state[b].len() && s0.tasks_by_state[b][j0] == x;
                    assert(s0.tasks_by_state[b][j0] == x);
                } else {
                    assert(s0.tasks_by_state[b][j] == x);
                    assert(x != id);
                }
            } else {
                assert(s0.tasks_by_state[b][j] == x);
                assert(x != id);
            }
        }
        // The bucket of `to` still lists each id once.
        assert(s1.tasks_by_state[tb as int].no_duplicates()) by {
            let pre = if fb == tb { mid } else { s0.tasks_by_state[tb as int] };
            assert(!pre.contains(id)) by {
                if fb != tb && pre.contains(id) {
                    let j = choose|j: int| 0 <= j < pre.len() && pre[j] == id;
                    assert(s0.tasks_by_state[tb as int][j] == id);
                }
            }
            assert forall|a: int, c: int|
                0 <= a < s1.tasks_by_state[tb as int].len() && 0 <= c < s1.tasks_by_state[tb as int].len() && a
                    != c implies s1.tasks_by_state[tb as int][a] != s1.tasks_by_state[tb as int][c] by {
                let n = pre.len() as int;
                if a < n && c == n {
                    assert(pre[a] != id);
                }
                if c < n && a == n {
                    assert(pre[c] != id);
                }
            }
        }
        assert(s1 == (SessionView { tasks_by_state: s1.tasks_by_state, ..s0.with_task(nt) }));
    }

    /// Moves task `id` to state `to`, if the task exists and may make that
    /// move. A task that completes gets `completion_time` set to `now`.
    pub fn update_task_state(&mut self, id: TaskID, to: TaskState, now: i64) -> (r: Result<
        (),
        FlameError,
    >)
        requires
            old(self)@.wf(),
        ensures
            final(self)@.wf(),
            !old(self)@.has_task(id) ==> r is Err && r->Err_0 is NotFound,
            old(self)@.has_task(id) && !spec_can_move(old(self)@.task(id).state, to) ==> r is Err
                && r->Err_0 is InvalidState,
            r is Err ==> final(self)@ == old(self)@,
            old(self)@.has_task(id) && spec_can_move(old(self)@.task(id).state, to) ==> r is Ok,
            r is Ok ==> final(self)@ == (SessionView {
                tasks_by_state: final(self)@.tasks_by_state,
                ..old(self)@.with_task(
                    TaskView {
                        state: to,
                        completion_time: if spec_is_completed(to) {
                            Some(now)
                        } else {
                            old(self)@.task(id).completion_time
                        },
                        ..old(self)@.task(id)
                    },
                )
            }),
    {
        if id < 1 || id > self.tasks.len() as u64 {
            return Err(FlameError::NotFound(String::from_str("task")));
        }
        let i = (id - 1) as usize;
        if !self.tasks[i].state.can_move_to(to) {
            return Err(FlameError::InvalidState(String::from_str("task state")));
        }
        self.move_task(id, to);
        let ghost sm = self@;
        if to.is_completed() {
            self.tasks[i].completion_time = Some(now);
        }
        proof {
            let s1 = self@;
            let t = TaskView { completion_time: s1.tasks[i as int].completion_time, ..sm.tasks[i as int] };
            assert(s1.tasks =~= sm.tasks.update(i as int, t));
            assert forall|k: int| 0 <= k < s1.tasks.len() implies (#[trigger] s1.tasks[k]).id == sm.tasks[k].id
                && s1.tasks[k].ssn_id == sm.tasks[k].ssn_id && s1.tasks[k].state == sm.tasks[k].state by {}
            assert(s1.wf());
            let s0 = old(self)@;
            let nt = TaskView {
                state: to,
                completion_time: if spec_is_completed(to) { Some(now) } else { s0.task(id).completion_time },
                ..s0.task(id)
            };
            assert(s1.tasks =~= s0.with_task(nt).tasks);
        }
        Ok(())
    }

    /// Sets the output of task `id`.
    pub fn set_task_output(&mut self, id: TaskID, output: Option<Vec<u8>>)
        requires
            old(self)@.wf(),
            old(self)@.has_task(id),
        ensures
            final(self)@.wf(),
            final(self)@ == old(self)@.with_task(
                TaskView { output: bytes_view(output), ..old(self)@.task(id) },
            ),
    {
        let ghost s0 = self@;
        let n = self.tasks.len();
        let i = (id - 1) as usize;
        self.tasks[i].output = output;
        proof {
            let s1 = self@;
            assert(s1.tasks =~= s0.with_task(TaskView { output: bytes_view(output), ..s0.task(id) }).tasks);
            assert forall|k: int| 0 <= k < s1.tasks.len() implies (#[trigger] s1.tasks[k]).id == s0.tasks[k].id
                && s1.tasks[k].ssn_id == s0.tasks[k].ssn_id && s1.tasks[k].state == s0.tasks[k].state by {}
            assert(s1.wf());
        }
    }

    /// Takes the first task listed in the Pending bucket, if any, and marks
    /// it Running.
    pub fn pop_pending_task(&mut self) -> (r: Option<TaskID>)
        requires
            old(self)@.wf(),
        ensures
            final(self)@.wf(),
            old(self)@.tasks_by_state[0].len() == 0 ==> r is None && final(self)@ == old(self)@,
            old(self)@.tasks_by_state[0].len() > 0 ==> {
                let id = old(self)@.tasks_by_state[0][0];
                &&& r == Some(id)
                &&& old(self)@.has_task(id)
                &&& old(self)@.task(id).state == TaskState::Pending
                &&& final(self)@ == (SessionView {
                    tasks_by_state: final(self)@.tasks_by_state,
                    ..old(self)@.with_task(TaskView { state: TaskState::Running, ..old(self)@.task(id) })
                })
            },
    {
        if self.tasks_by_state[0].len() == 0 {
            return None;
        }
        let id = self.tasks_by_state[0][0];
        assert(self@.tasks_by_state[0][0] == id);
        self.move_task(id, TaskState::Running);
        Some(id)
    }
}

} // verus!
