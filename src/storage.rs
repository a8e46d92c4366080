use vstd::prelude::*;

use crate::error::FlameError;
use crate::model::{
    bytes_view, spec_bucket, spec_can_move, spec_is_completed, Executor, ExecutorID, ExecutorState,
    N_TASK_STATES,
    ExecutorView, SessionID, SessionState, Task, TaskID, TaskState, TaskView,
};
use crate::scheduler::{ExecutorInfo, SessionInfo, SnapShot};
use crate::session::{lemma_task_in_one_bucket, Session, SessionView};
use crate::states::{
    lemma_run_verbs_push, lemma_settle_verbs_push, next_state, run_verbs, settle_verbs, ExecutorVerb,
};

verus! {

/// Session ids strictly increase along the sequence.
pub open spec fn sorted_ids(s: Seq<Session>) -> bool {
    forall|i: int, j: int| 0 <= i < j < s.len() ==> s[i].id < s[j].id
}

/// The sessions of a sequence, by id.
pub open spec fn ssn_map(s: Seq<Session>) -> Map<SessionID, SessionView> {
    Map::new(
        |id: SessionID| exists|i: int| 0 <= i < s.len() && s[i].id == id,
        |id: SessionID| s[choose|i: int| 0 <= i < s.len() && s[i].id == id]@,
    )
}

/// No two executors of the sequence share an id.
pub open spec fn unique_ids(s: Seq<Executor>) -> bool {
    forall|i: int, j: int| 0 <= i < s.len() && 0 <= j < s.len() && i != j ==> s[i].id@ != s[j].id@
}

/// The executors of a sequence, by id.
pub open spec fn exec_map(s: Seq<Executor>) -> Map<Seq<char>, ExecutorView> {
    Map::new(
        |id: Seq<char>| exists|i: int| 0 <= i < s.len() && s[i].id@ == id,
        |id: Seq<char>| s[choose|i: int| 0 <= i < s.len() && s[i].id@ == id]@,
    )
}

proof fn lemma_ssn_map_at(s: Seq<Session>, i: int)
    requires
        sorted_ids(s),
        0 <= i < s.len(),
    ensures
        ssn_map(s).contains_key(s[i].id),
        ssn_map(s)[s[i].id] == s[i]@,
{
    let id = s[i].id;
    assert(0 <= i < s.len() && s[i].id == id);
    let j = choose|j: int| 0 <= j < s.len() && s[j].id == id;
    if j < i {
        assert(s[j].id < s[i].id);
    }
    if i < j {
        assert(s[i].id < s[j].id);
    }
}

proof fn lemma_ssn_map_update(s: Seq<Session>, i: int, x: Session)
    requires
        sorted_ids(s),
        0 <= i < s.len(),
        x.id == s[i].id,
    ensures
        sorted_ids(s.update(i, x)),
        ssn_map(s.update(i, x)) == ssn_map(s).insert(x.id, x@),
{
    let s2 = s.update(i, x);
    assert forall|a: int, b: int| 0 <= a < b < s2.len() implies s2[a].id < s2[b].id by {
        assert(s[a].id < s[b].id);
    }
    let m = ssn_map(s).insert(x.id, x@);
    assert forall|k: SessionID| #[trigger] ssn_map(s2).contains_key(k) <==> m.contains_key(k) by {
        if ssn_map(s2).contains_key(k) {
            let j = choose|j: int| 0 <= j < s2.len() && s2[j].id == k;
            assert(s[j].id == k);
        }
        if ssn_map(s).contains_key(k) {
            let j = choose|j: int| 0 <= j < s.len() && s[j].id == k;
            assert(s2[j].id == k);
        }
        if k == x.id {
            assert(s2[i].id == k);
        }
    }
    assert forall|k: SessionID| #[trigger] ssn_map(s2).contains_key(k) implies ssn_map(s2)[k]
        == m[k] by {
        let j = choose|j: int| 0 <= j < s2.len() && s2[j].id == k;
        assert(s2[j].id == k);
        lemma_ssn_map_at(s2, j);
        if j != i {
            lemma_ssn_map_at(s, j);
        }
    }
    assert(ssn_map(s2) =~= m);
}

proof fn lemma_ssn_map_push(s: Seq<Session>, x: Session)
    requires
        sorted_ids(s),
        forall|i: int| 0 <= i < s.len() ==> s[i].id < x.id,
    ensures
        sorted_ids(s.push(x)),
        ssn_map(s.push(x)) == ssn_map(s).insert(x.id, x@),
{
    let s2 = s.push(x);
    assert forall|a: int, b: int| 0 <= a < b < s2.len() implies s2[a].id < s2[b].id by {
        if b < s.len() {
            assert(s[a].id < s[b].id);
        } else {
            assert(s[a].id < x.id);
        }
    }
    let m = ssn_map(s).insert(x.id, x@);
    assert forall|k: SessionID| #[trigger] ssn_map(s2).contains_key(k) <==> m.contains_key(k) by {
        if ssn_map(s2).contains_key(k) {
            let j = choose|j: int| 0 <= j < s2.len() && s2[j].id == k;
            if j < s.len() {
                assert(s[j].id == k);
            }
        }
        if ssn_map(s).contains_key(k) {
            let j = choose|j: int| 0 <= j < s.len() && s[j].id == k;
            assert(s2[j].id == k);
        }
        if k == x.id {
            assert(s2[s.len() as int].id == k);
        }
    }
    assert forall|k: SessionID| #[trigger] ssn_map(s2).contains_key(k) implies ssn_map(s2)[k]
        == m[k] by {
        let j = choose|j: int| 0 <= j < s2.len() && s2[j].id == k;
        assert(s2[j].id == k);
        lemma_ssn_map_at(s2, j);
        if j < s.len() {
            lemma_ssn_map_at(s, j);
        }
    }
    assert(ssn_map(s2) =~= m);
}

proof fn lemma_ssn_map_remove(s: Seq<Session>, i: int)
    requires
        sorted_ids(s),
        0 <= i < s.len(),
    ensures
        sorted_ids(s.remove(i)),
        ssn_map(s.remove(i)) == ssn_map(s).remove(s[i].id),
{
    let s2 = s.remove(i);
    assert forall|a: int, b: int| 0 <= a < b < s2.len() implies s2[a].id < s2[b].id by {
        let a0 = if a < i { a } else { a + 1 };
        let b0 = if b < i { b } else { b + 1 };
        assert(s2[a] == s[a0] && s2[b] == s[b0]);
        assert(s[a0].id < s[b0].id);
    }
    let m = ssn_map(s).remove(s[i].id);
    assert forall|k: SessionID| #[trigger] ssn_map(s2).contains_key(k) <==> m.contains_key(k) by {
        if ssn_map(s2).contains_key(k) {
            let j = choose|j: int| 0 <= j < s2.len() && s2[j].id == k;
            let j0 = if j < i { j } else { j + 1 };
            assert(s[j0].id == k);
            assert(j0 != i);
            if j0 < i {
                assert(s[j0].id < s[i].id);
            } else {
                assert(s[i].id < s[j0].id);
            }
        }
        if m.contains_key(k) {
            let j = choose|j: int| 0 <= j < s.len() && s[j].id == k;
            assert(j != i);
            let j2 = if j < i { j } else { j - 1 };
            assert(s2[j2].id == k);
        }
    }
    assert forall|k: SessionID| #[trigger] ssn_map(s2).contains_key(k) implies ssn_map(s2)[k]
        == m[k] by {
        let j = choose|j: int| 0 <= j < s2.len() && s2[j].id == k;
        let j0 = if j < i { j } else { j + 1 };
        assert(s2[j] == s[j0]);
        lemma_ssn_map_at(s2, j);
        lemma_ssn_map_at(s, j0);
    }
    assert(ssn_map(s2) =~= m);
}

proof fn lemma_exec_map_at(s: Seq<Executor>, i: int)
    requires
        unique_ids(s),
        0 <= i < s.len(),
    ensures
        exec_map(s).contains_key(s[i].id@),
        exec_map(s)[s[i].id@] == s[i]@,
{
    let id = s[i].id@;
    assert(0 <= i < s.len() && s[i].id@ == id);
    let j = choose|j: int| 0 <= j < s.len() && s[j].id@ == id;
    assert(j == i);
}

proof fn lemma_exec_map_update(s: Seq<Executor>, i: int, x: Executor)
    requires
        unique_ids(s),
        0 <= i < s.len(),
        x.id@ == s[i].id@,
    ensures
        unique_ids(s.update(i, x)),
        exec_map(s.update(i, x)) == exec_map(s).insert(x.id@, x@),
{
    let s2 = s.update(i, x);
    assert forall|a: int, b: int|
        0 <= a < s2.len() && 0 <= b < s2.len() && a != b implies s2[a].id@ != s2[b].id@ by {
        assert(s[a].id@ != s[b].id@);
    }
    let m = exec_map(s).insert(x.id@, x@);
    assert forall|k: Seq<char>| #[trigger] exec_map(s2).contains_key(k) <==> m.contains_key(k) by {
        if exec_map(s2).contains_key(k) {
            let j = choose|j: int| 0 <= j < s2.len() && s2[j].id@ == k;
            assert(s[j].id@ == k);
        }
        if exec_map(s).contains_key(k) {
            let j = choose|j: int| 0 <= j < s.len() && s[j].id@ == k;
            assert(s2[j].id@ == k);
        }
        if k == x.id@ {
            assert(s2[i].id@ == k);
        }
    }
    assert forall|k: Seq<char>| #[trigger] exec_map(s2).contains_key(k) implies exec_map(s2)[k]
        == m[k] by {
        let j = choose|j: int| 0 <= j < s2.len() && s2[j].id@ == k;
        assert(s2[j].id@ == k);
        lemma_exec_map_at(s2, j);
        if j != i {
            lemma_exec_map_at(s, j);
        }
    }
    assert(exec_map(s2) =~= m);
}

proof fn lemma_exec_map_push(s: Seq<Executor>, x: Executor)
    requires
        unique_ids(s),
        !exec_map(s).contains_key(x.id@),
    ensures
        unique_ids(s.push(x)),
        exec_map(s.push(x)) == exec_map(s).insert(x.id@, x@),
{
    let s2 = s.push(x);
    assert forall|a: int, b: int|
        0 <= a < s2.len() && 0 <= b < s2.len() && a != b implies s2[a].id@ != s2[b].id@ by {
        if a < s.len() && b < s.len() {
            assert(s[a].id@ != s[b].id@);
        } else if a < s.len() {
            assert(0 <= a < s.len() && s[a].id@ == s[a].id@);
        } else if b < s.len() {
            assert(0 <= b < s.len() && s[b].id@ == s[b].id@);
        }
    }
    let m = exec_map(s).insert(x.id@, x@);
    assert forall|k: Seq<char>| #[trigger] exec_map(s2).contains_key(k) <==> m.contains_key(k) by {
        if exec_map(s2).contains_key(k) {
            let j = choose|j: int| 0 <= j < s2.len() && s2[j].id@ == k;
            if j < s.len() {
                assert(s[j].id@ == k);
            }
        }
        if exec_map(s).contains_key(k) {
            let j = choose|j: int| 0 <= j < s.len() && s[j].id@ == k;
            assert(s2[j].id@ == k);
        }
        if k == x.id@ {
            assert(s2[s.len() as int].id@ == k);
        }
    }
    assert forall|k: Seq<char>| #[trigger] exec_map(s2).contains_key(k) implies exec_map(s2)[k]
        == m[k] by {
        let j = choose|j: int| 0 <= j < s2.len() && s2[j].id@ == k;
        assert(s2[j].id@ == k);
        lemma_exec_map_at(s2, j);
        if j < s.len() {
            lemma_exec_map_at(s, j);
        }
    }
    assert(exec_map(s2) =~= m);
}

/// Relies on chrono's `From<SystemTime> for DateTime<Utc>` and
/// `DateTime::timestamp_millis`: the current time in milliseconds since the
/// Unix epoch, negative for a clock set before it. Nothing is promised of
/// the value: it is the time.
#[verifier::external_body]
fn now_millis() -> (r: i64) {
    chrono::DateTime::<chrono::Utc>::from(std::time::SystemTime::now()).timestamp_millis()
}

/// What the store holds: sessions by id, executors by id, and the id that
/// the next session gets.
pub struct StorageView {
    pub sessions: Map<SessionID, SessionView>,
    pub executors: Map<Seq<char>, ExecutorView>,
    pub next_ssn_id: SessionID,
}

/// The store of sessions, their tasks, and executors. Every change of
/// state goes through it.
pub struct Storage {
    sessions: Vec<Session>,
    executors: Vec<Executor>,
    next_ssn_id: SessionID,
}

impl View for Storage {
    type V = StorageView;

    closed spec fn view(&self) -> StorageView {
        StorageView {
            sessions: ssn_map(self.sessions@),
            executors: exec_map(self.executors@),
            next_ssn_id: self.next_ssn_id,
        }
    }
}

impl StorageView {
    /// Every session is well formed and filed under its own id, below the
    /// next id; every executor record is consistent and filed under its own
    /// id.
    pub open spec fn wf(self) -> bool {
        &&& self.next_ssn_id >= 1
        &&& forall|id: SessionID| #[trigger]
            self.sessions.contains_key(id) ==> self.sessions[id].wf() && self.sessions[id].id == id
                && 1 <= id < self.next_ssn_id
        &&& forall|id: Seq<char>| #[trigger]
            self.executors.contains_key(id) ==> self.executors[id].wf() && self.executors[id].id
                == id
    }
}

impl Storage {
    pub closed spec fn wf(&self) -> bool {
        &&& sorted_ids(self.sessions@)
        &&& unique_ids(self.executors@)
        &&& self.next_ssn_id >= 1
        &&& forall|i: int|
            0 <= i < self.sessions@.len() ==> (#[trigger] self.sessions@[i])@.wf() && 1
                <= self.sessions@[i].id < self.next_ssn_id
        &&& forall|i: int| 0 <= i < self.executors@.len() ==> (#[trigger] self.executors@[i])@.wf()
    }

    /// What the invariant says of the view.
    pub proof fn lemma_wf_view(&self)
        requires
            self.wf(),
        ensures
            self@.wf(),
    {
        assert forall|id: SessionID| #[trigger] self@.sessions.contains_key(id) implies self@.sessions[id].wf()
            && self@.sessions[id].id == id && 1 <= id < self@.next_ssn_id by {
            let i = choose|i: int| 0 <= i < self.sessions@.len() && self.sessions@[i].id == id;
            lemma_ssn_map_at(self.sessions@, i);
        }
        assert forall|id: Seq<char>| #[trigger] self@.executors.contains_key(id) implies self@.executors[id].wf()
            && self@.executors[id].id == id by {
            let i = choose|i: int| 0 <= i < self.executors@.len() && self.executors@[i].id@ == id;
            lemma_exec_map_at(self.executors@, i);
        }
    }

    /// An empty store; the first session gets id 1.
    pub fn new() -> (r: Storage)
        ensures
            r.wf(),
            r@.sessions == Map::<SessionID, SessionView>::empty(),
            r@.executors == Map::<Seq<char>, ExecutorView>::empty(),
            r@.next_ssn_id == 1,
    {
        let r = Storage { sessions: Vec::new(), executors: Vec::new(), next_ssn_id: 1 };
        assert(r@.sessions =~= Map::<SessionID, SessionView>::empty());
        assert(r@.executors =~= Map::<Seq<char>, ExecutorView>::empty());
        r
    }

    /// The position of session `id`.
    fn find_session(&self, id: SessionID) -> (r: Option<usize>)
        requires
            self.wf(),
        ensures
            match r {
                Some(i) => i < self.sessions@.len() && self.sessions@[i as int].id == id
                    && self@.sessions.contains_key(id) && self@.sessions[id]
                    == self.sessions@[i as int]@,
                None => !self@.sessions.contains_key(id),
            },
    {
        let mut i: usize = 0;
        while i < self.sessions.len()
            invariant
                self.wf(),
                0 <= i <= self.sessions@.len(),
                forall|j: int| 0 <= j < i ==> self.sessions@[j].id != id,
            decreases self.sessions.len() - i,
        {
            if self.sessions[i].id == id {
                proof {
                    lemma_ssn_map_at(self.sessions@, i as int);
                }
                return Some(i);
            }
            i = i + 1;
        }
        None
    }

    /// The position of executor `id`.
    fn find_executor(&self, id: &ExecutorID) -> (r: Option<usize>)
        requires
            self.wf(),
        ensures
            match r {
                Some(i) => i < self.executors@.len() && self.executors@[i as int].id@ == id@
                    && self@.executors.contains_key(id@) && self@.executors[id@]
                    == self.executors@[i as int]@,
                None => !self@.executors.contains_key(id@),
            },
    {
        let mut i: usize = 0;
        while i < self.executors.len()
            invariant
                self.wf(),
                0 <= i <= self.executors@.len(),
                forall|j: int| 0 <= j < i ==> self.executors@[j].id@ != id@,
            decreases self.executors.len() - i,
        {
            if self.executors[i].id == *id {
                proof {
                    lemma_exec_map_at(self.executors@, i as int);
                }
                return Some(i);
            }
            i = i + 1;
        }
        None
    }

    /// Creates an open session with the next id and no tasks.
    pub fn create_session(&mut self, app: String, slots: i32, common_data: Option<Vec<u8>>) -> (r:
        Result<Session, FlameError>)
        requires
            old(self).wf(),
        ensures
            final(self).wf(),
            final(self)@.next_ssn_id >= old(self)@.next_ssn_id,
            old(self)@.next_ssn_id < u64::MAX <==> r is Ok,
            r is Err ==> r->Err_0 is Internal && final(self)@ == old(self)@,
            r is Ok ==> {
                let s = r->Ok_0@;
                &&& s.wf()
                &&& s.id == old(self)@.next_ssn_id
                &&& s.application == app@
                &&& s.slots == slots
                &&& s.state == SessionState::Open
                &&& s.completion_time is None
                &&& s.common_data == bytes_view(common_data)
                &&& s.tasks.len() == 0
                &&& final(self)@ == old(self)@.created(s)
            },
    {
        if self.next_ssn_id == u64::MAX {
            return Err(FlameError::Internal(String::from_str("session ids are exhausted")));
        }
        let id = self.next_ssn_id;
        let ssn = Session::new(id, app, slots, common_data, now_millis());
        let r = ssn.copied();
        proof {
            lemma_ssn_map_push(self.sessions@, ssn);
        }
        self.sessions.push(ssn);
        self.next_ssn_id = id + 1;
        Ok(r)
    }

    /// Marks session `id` Closed: it admits no more tasks.
    pub fn close_session(&mut self, id: SessionID) -> (r: Result<(), FlameError>)
        requires
            old(self).wf(),
        ensures
            final(self).wf(),
            final(self)@.next_ssn_id >= old(self)@.next_ssn_id,
            old(self)@.sessions.contains_key(id) <==> r is Ok,
            r is Err ==> r->Err_0 is NotFound && final(self)@ == old(self)@,
            r is Ok ==> final(self)@ == old(self)@.closed(id),
    {
        match self.find_session(id) {
            None => Err(FlameError::NotFound(String::from_str("session"))),
            Some(i) => {
                let ghost s0 = self.sessions@;
                self.sessions[i].state = SessionState::Closed;
                proof {
                    lemma_ssn_map_update(s0, i as int, self.sessions@[i as int]);
                    assert(self.sessions@ == s0.update(i as int, self.sessions@[i as int]));
                }
                Ok(())
            },
        }
    }

    /// A copy of session `id`.
    pub fn get_session(&self, id: SessionID) -> (r: Result<Session, FlameError>)
        requires
            self.wf(),
        ensures
            self@.sessions.contains_key(id) <==> r is Ok,
            r is Err ==> r->Err_0 is NotFound,
            r is Ok ==> r->Ok_0@ == self@.sessions[id],
    {
        match self.find_session(id) {
            None => Err(FlameError::NotFound(String::from_str("session"))),
            Some(i) => Ok(self.sessions[i].copied()),
        }
    }

    /// Removes session `id` with all its tasks.
    pub fn delete_session(&mut self, id: SessionID) -> (r: Result<(), FlameError>)
        requires
            old(self).wf(),
        ensures
            final(self).wf(),
            final(self)@.next_ssn_id >= old(self)@.next_ssn_id,
            old(self)@.sessions.contains_key(id) <==> r is Ok,
            r is Err ==> r->Err_0 is NotFound && final(self)@ == old(self)@,
            r is Ok ==> final(self)@ == (StorageView {
                sessions: old(self)@.sessions.remove(id),
                ..old(self)@
            }),
    {
        match self.find_session(id) {
            None => Err(FlameError::NotFound(String::from_str("session"))),
            Some(i) => {
                let ghost s0 = self.sessions@;
                self.sessions.remove(i);
                proof {
                    lemma_ssn_map_remove(s0, i as int);
                    assert forall|j: int| 0 <= j < self.sessions@.len() implies (#[trigger] self.sessions@[j])@.wf()
                        && 1 <= self.sessions@[j].id < self.next_ssn_id by {
                        let j0 = if j < i { j } else { j + 1 };
                        assert(self.sessions@[j] == s0[j0]);
                    }
                }
                Ok(())
            },
        }
    }

    /// Copies of all sessions, in increasing order of id.
    pub fn list_session(&self) -> (r: Vec<Session>)
        requires
            self.wf(),
        ensures
            r@.len() == self@.sessions.len(),
            forall|i: int, j: int| 0 <= i < j < r@.len() ==> r@[i].id < r@[j].id,
            forall|i: int|
                0 <= i < r@.len() ==> self@.sessions.contains_key(#[trigger] r@[i].id)
                    && r@[i]@ == self@.sessions[r@[i].id],
    {
        let mut r: Vec<Session> = Vec::new();
        let mut i: usize = 0;
        while i < self.sessions.len()
            invariant
                self.wf(),
                0 <= i <= self.sessions@.len(),
                r@.len() == i,
                forall|j: int| 0 <= j < i ==> (#[trigger] r@[j])@ == self.sessions@[j]@ && r@[j].id == self.sessions@[j].id,
            decreases self.sessions.len() - i,
        {
            r.push(self.sessions[i].copied());
            i = i + 1;
        }
        proof {
            assert forall|a: int| 0 <= a < r@.len() implies self@.sessions.contains_key(#[trigger] r@[a].id)
                && r@[a]@ == self@.sessions[r@[a].id] by {
                lemma_ssn_map_at(self.sessions@, a);
            }
            assert forall|a: int, b: int| 0 <= a < b < r@.len() implies r@[a].id < r@[b].id by {
                assert(self.sessions@[a].id < self.sessions@[b].id);
            }
            lemma_ssn_map_len(self.sessions@);
        }
        r
    }
}

/// The map of a sequence with distinct ids has one key per element.
proof fn lemma_ssn_map_len(s: Seq<Session>)
    requires
        sorted_ids(s),
    ensures
        ssn_map(s).len() == s.len(),
        ssn_map(s).dom().finite(),
    decreases s.len(),
{
    if s.len() == 0 {
        assert(ssn_map(s).dom() =~= Set::<SessionID>::empty());
    } else {
        let p = s.drop_last();
        assert(sorted_ids(p));
        lemma_ssn_map_len(p);
        assert(s =~= p.push(s.last()));
        lemma_ssn_map_push(p, s.last());
        assert(!ssn_map(p).contains_key(s.last().id)) by {
            if ssn_map(p).contains_key(s.last().id) {
                let j = choose|j: int| 0 <= j < p.len() && p[j].id == s.last().id;
                assert(s[j].id < s[s.len() - 1].id);
            }
        }
    }
}

/// Replacing a session by a well-formed one with the same id keeps the
/// store's invariant and files the new one under that id.
proof fn lemma_replace_session(s: Seq<Session>, i: int, x: Session, next: SessionID)
    requires
        sorted_ids(s),
        forall|k: int| 0 <= k < s.len() ==> (#[trigger] s[k])@.wf() && 1 <= s[k].id < next,
        0 <= i < s.len(),
        x.id == s[i].id,
        x@.wf(),
    ensures
        sorted_ids(s.update(i, x)),
        forall|k: int| 0 <= k < s.len() ==> (#[trigger] s.update(i, x)[k])@.wf() && 1 <= s.update(i, x)[k].id < next,
        ssn_map(s.update(i, x)) == ssn_map(s).insert(x.id, x@),
{
    lemma_ssn_map_update(s, i, x);
    assert forall|k: int| 0 <= k < s.len() implies (#[trigger] s.update(i, x)[k])@.wf() && 1 <= s.update(i, x)[k].id < next by {
        if k != i {
            assert(s.update(i, x)[k] == s[k]);
        }
    }
}

impl Storage {
    /// Adds a Pending task to session `ssn_id`, with the next task id of
    /// that session.
    pub fn create_task(&mut self, ssn_id: SessionID, input: Option<Vec<u8>>) -> (r: Result<
        Task,
        FlameError,
    >)
        requires
            old(self).wf(),
        ensures
            final(self).wf(),
            final(self)@.next_ssn_id >= old(self)@.next_ssn_id,
            !old(self)@.sessions.contains_key(ssn_id) ==> r is Err && r->Err_0 is NotFound,
            old(self)@.sessions.contains_key(ssn_id) && old(self)@.sessions[ssn_id].state
                == SessionState::Closed ==> r is Err && r->Err_0 is InvalidState,
            old(self)@.sessions.contains_key(ssn_id) && old(self)@.sessions[ssn_id].state
                == SessionState::Open && old(self)@.sessions[ssn_id].tasks.len() + 1 >= u64::MAX
                ==> r is Err && r->Err_0 is Internal,
            old(self)@.sessions.contains_key(ssn_id) && old(self)@.sessions[ssn_id].state
                == SessionState::Open && old(self)@.sessions[ssn_id].tasks.len() + 1 < u64::MAX
                ==> r is Ok,
            r is Err ==> final(self)@ == old(self)@,
            r is Ok ==> {
                let old_ssn = old(self)@.sessions[ssn_id];
                let t = r->Ok_0@;
                &&& t == TaskView {
                    id: (old_ssn.tasks.len() + 1) as TaskID,
                    ssn_id,
                    input: bytes_view(input),
                    output: None,
                    creation_time: t.creation_time,
                    completion_time: None,
                    state: TaskState::Pending,
                }
                &&& final(self)@ == StorageView {
                    sessions: old(self)@.sessions.insert(
                        ssn_id,
                        SessionView {
                            tasks: old_ssn.tasks.push(t),
                            tasks_by_state: final(self)@.sessions[ssn_id].tasks_by_state,
                            ..old_ssn
                        },
                    ),
                    ..old(self)@
                }
            },
    {
        let i = match self.find_session(ssn_id) {
            None => { return Err(FlameError::NotFound(String::from_str("session"))); },
            Some(i) => i,
        };
        if self.sessions[i].state == SessionState::Closed {
            return Err(FlameError::InvalidState(String::from_str("session is closed")));
        }
        if self.sessions[i].tasks.len() as u64 >= u64::MAX - 1 {
            return Err(FlameError::Internal(String::from_str("task ids are exhausted")));
        }
        let ghost s0 = self.sessions@;
        let now = now_millis();
        let t = self.sessions[i].add_task(input, now);
        proof {
            lemma_replace_session(s0, i as int, self.sessions@[i as int], self.next_ssn_id);
            assert(self.sessions@ == s0.update(i as int, self.sessions@[i as int]));
        }
        Ok(t)
    }

    /// A copy of task `id` of session `ssn_id`.
    pub fn get_task(&self, ssn_id: SessionID, id: TaskID) -> (r: Result<Task, FlameError>)
        requires
            self.wf(),
        ensures
            (self@.sessions.contains_key(ssn_id) && self@.sessions[ssn_id].has_task(id)) <==> r is Ok,
            r is Err ==> r->Err_0 is NotFound,
            r is Ok ==> r->Ok_0@ == self@.sessions[ssn_id].task(id),
    {
        match self.find_session(ssn_id) {
            None => Err(FlameError::NotFound(String::from_str("session"))),
            Some(i) => match self.sessions[i].get_task(id) {
                None => Err(FlameError::NotFound(String::from_str("task"))),
                Some(t) => Ok(t),
            },
        }
    }

    /// Moves task `task_id` of session `ssn_id` to `state`, where the task may
    /// make that move.
    pub fn update_task_state(&mut self, ssn_id: SessionID, task_id: TaskID, state: TaskState) -> (r:
        Result<(), FlameError>)
        requires
            old(self).wf(),
        ensures
            final(self).wf(),
            final(self)@.next_ssn_id >= old(self)@.next_ssn_id,
            !(old(self)@.sessions.contains_key(ssn_id) && old(self)@.sessions[ssn_id].has_task(task_id))
                ==> r is Err && r->Err_0 is NotFound,
            old(self)@.sessions.contains_key(ssn_id) && old(self)@.sessions[ssn_id].has_task(task_id)
                ==> (r is Ok <==> spec_can_move(old(self)@.sessions[ssn_id].task(task_id).state, state)),
            r is Err ==> final(self)@ == old(self)@,
            r is Err && old(self)@.sessions.contains_key(ssn_id) && old(self)@.sessions[ssn_id].has_task(task_id)
                ==> r->Err_0 is InvalidState,
            r is Ok ==> {
                let old_ssn = old(self)@.sessions[ssn_id];
                let new_ssn = final(self)@.sessions[ssn_id];
                &&& final(self)@ == StorageView {
                    sessions: old(self)@.sessions.insert(ssn_id, new_ssn),
                    ..old(self)@
                }
                &&& new_ssn == SessionView {
                    tasks_by_state: new_ssn.tasks_by_state,
                    ..old_ssn.with_task(TaskView {
                        state,
                        completion_time: if spec_is_completed(state) {
                            new_ssn.task(task_id).completion_time
                        } else {
                            old_ssn.task(task_id).completion_time
                        },
                        ..old_ssn.task(task_id)
                    })
                }
                &&& spec_is_completed(state) ==> new_ssn.task(task_id).completion_time is Some
            },
    {
        let i = match self.find_session(ssn_id) {
            None => { return Err(FlameError::NotFound(String::from_str("session"))); },
            Some(i) => i,
        };
        let ghost s0 = self.sessions@;
        let now = now_millis();
        let r = self.sessions[i].update_task_state(task_id, state, now);
        proof {
            lemma_replace_session(s0, i as int, self.sessions@[i as int], self.next_ssn_id);
            assert(self.sessions@ == s0.update(i as int, self.sessions@[i as int]));
            if r is Err {
                lemma_ssn_map_at(s0, i as int);
                assert(ssn_map(s0).insert(ssn_id, self.sessions@[i as int]@) =~= ssn_map(s0));
            }
        }
        r
    }
}

/// Replacing an executor by a consistent one with the same id keeps the
/// store's invariant and files the new one under that id.
proof fn lemma_replace_executor(s: Seq<Executor>, i: int, x: Executor)
    requires
        unique_ids(s),
        forall|k: int| 0 <= k < s.len() ==> (#[trigger] s[k])@.wf(),
        0 <= i < s.len(),
        x.id@ == s[i].id@,
        x@.wf(),
    ensures
        unique_ids(s.update(i, x)),
        forall|k: int| 0 <= k < s.len() ==> (#[trigger] s.update(i, x)[k])@.wf(),
        exec_map(s.update(i, x)) == exec_map(s).insert(x.id@, x@),
{
    lemma_exec_map_update(s, i, x);
    assert forall|k: int| 0 <= k < s.len() implies (#[trigger] s.update(i, x)[k])@.wf() by {
        if k != i {
            assert(s.update(i, x)[k] == s[k]);
        }
    }
}

impl StorageView {
    /// The same store with the record of executor `e.id` replaced by `e`.
    pub open spec fn with_executor(self, e: ExecutorView) -> StorageView {
        StorageView { executors: self.executors.insert(e.id, e), ..self }
    }

    /// The same store with session `s.id` replaced by `s`.
    pub open spec fn with_session(self, s: SessionView) -> StorageView {
        StorageView { sessions: self.sessions.insert(s.id, s), ..self }
    }

    /// Whether `bind_session(id, sid)` succeeds on this store.
    pub open spec fn bind_ok(self, id: Seq<char>, sid: SessionID) -> bool {
        &&& next_state(self.executors[id].state, ExecutorVerb::BindSession) is Some
        &&& self.sessions.contains_key(sid)
    }

    /// Whether `launch_task(id)` succeeds on this store: the executor is
    /// Bound, its session is there, and so is the task it holds, if any.
    pub open spec fn launch_ok(self, id: Seq<char>) -> bool {
        let e = self.executors[id];
        &&& next_state(e.state, ExecutorVerb::LaunchTask) is Some
        &&& self.sessions.contains_key(e.ssn_id->Some_0)
        &&& e.task_id is Some ==> self.sessions[e.ssn_id->Some_0].has_task(e.task_id->Some_0)
    }

    /// Whether `complete_task(id, _)` succeeds on this store: the executor
    /// may complete, holds a task, and that task is there and Running.
    pub open spec fn complete_ok(self, id: Seq<char>) -> bool {
        let e = self.executors[id];
        let s = self.sessions[e.ssn_id->Some_0];
        &&& next_state(e.state, ExecutorVerb::CompleteTask) is Some
        &&& e.task_id is Some
        &&& self.sessions.contains_key(e.ssn_id->Some_0)
        &&& s.has_task(e.task_id->Some_0)
        &&& s.task(e.task_id->Some_0).state == TaskState::Running
    }

    /// Whether a verb of the lifecycle succeeds on executor `id`; `sid` is
    /// the session that a bind names.
    pub open spec fn verb_ok(self, id: Seq<char>, verb: ExecutorVerb, sid: SessionID) -> bool {
        match verb {
            ExecutorVerb::BindSession => self.bind_ok(id, sid),
            ExecutorVerb::LaunchTask => self.launch_ok(id),
            ExecutorVerb::CompleteTask => self.complete_ok(id),
            _ => next_state(self.executors[id].state, verb) is Some,
        }
    }

    /// The store after a verb that touches the executor's record alone.
    pub open spec fn after_verb(self, id: Seq<char>, verb: ExecutorVerb, sid: SessionID) -> StorageView {
        match verb {
            ExecutorVerb::BindSession => self.binding(id, sid),
            ExecutorVerb::BindSessionCompleted => self.moved(id, ExecutorState::Bound),
            ExecutorVerb::UnbindExecutor => self.moved(id, ExecutorState::Unbinding),
            _ => self.released(id),
        }
    }

    /// The store once session `s` is created under the next id.
    pub open spec fn created(self, s: SessionView) -> StorageView {
        StorageView {
            sessions: self.sessions.insert(s.id, s),
            next_ssn_id: (self.next_ssn_id + 1) as SessionID,
            ..self
        }
    }

    /// The store once session `id` is closed.
    pub open spec fn closed(self, id: SessionID) -> StorageView {
        self.with_session(SessionView { state: SessionState::Closed, ..self.sessions[id] })
    }

    /// The store once executor `id` is bound to session `sid`.
    pub open spec fn binding(self, id: Seq<char>, sid: SessionID) -> StorageView {
        self.with_executor(
            ExecutorView { state: ExecutorState::Binding, ssn_id: Some(sid), ..self.executors[id] },
        )
    }

    /// The store once executor `id` has moved to state `s`.
    pub open spec fn moved(self, id: Seq<char>, s: ExecutorState) -> StorageView {
        self.with_executor(ExecutorView { state: s, ..self.executors[id] })
    }

    /// The store once executor `id` has let go of its session and task.
    pub open spec fn released(self, id: Seq<char>) -> StorageView {
        self.with_executor(
            ExecutorView {
                state: ExecutorState::Idle,
                ssn_id: None,
                task_id: None,
                ..self.executors[id]
            },
        )
    }
}

impl Storage {
    /// Files an executor record under its id, replacing any record of that
    /// id. An inconsistent record is refused.
    pub fn register_executor(&mut self, e: Executor) -> (r: Result<(), FlameError>)
        requires
            old(self).wf(),
        ensures
            final(self).wf(),
            final(self)@.next_ssn_id >= old(self)@.next_ssn_id,
            r is Ok <==> e@.wf(),
            r is Err ==> r->Err_0 is InvalidState && final(self)@ == old(self)@,
            r is Ok ==> final(self)@ == old(self)@.with_executor(e@),
    {
        if !e.is_consistent() {
            return Err(FlameError::InvalidState(String::from_str("inconsistent executor")));
        }
        let ghost s0 = self.executors@;
        match self.find_executor(&e.id) {
            Some(i) => {
                proof {
                    lemma_replace_executor(s0, i as int, e);
                }
                self.executors.set(i, e);
            },
            None => {
                proof {
                    lemma_exec_map_push(s0, e);
                    assert forall|k: int| 0 <= k < s0.len() + 1 implies (#[trigger] s0.push(e)[k])@.wf() by {
                        if k < s0.len() {
                            assert(s0.push(e)[k] == s0[k]);
                        }
                    }
                }
                self.executors.push(e);
            },
        }
        Ok(())
    }

    /// A copy of executor `id`.
    pub fn get_executor(&self, id: &ExecutorID) -> (r: Result<Executor, FlameError>)
        requires
            self.wf(),
        ensures
            self@.executors.contains_key(id@) <==> r is Ok,
            r is Err ==> r->Err_0 is NotFound,
            r is Ok ==> r->Ok_0@ == self@.executors[id@],
    {
        match self.find_executor(id) {
            None => Err(FlameError::NotFound(String::from_str("executor"))),
            Some(i) => Ok(self.executors[i].copied()),
        }
    }

    /// Idle to Binding: binds executor `id` to session `ssn_id`. Which
    /// executor suits which session is the policy's choice, not checked here.
    pub fn bind_session(&mut self, id: ExecutorID, ssn_id: SessionID) -> (r: Result<(), FlameError>)
        requires
            old(self).wf(),
        ensures
            final(self).wf(),
            final(self)@.next_ssn_id >= old(self)@.next_ssn_id,
            r is Err ==> final(self)@ == old(self)@,
            !old(self)@.executors.contains_key(id@) ==> r is Err && r->Err_0 is NotFound,
            old(self)@.executors.contains_key(id@) && !old(self)@.sessions.contains_key(ssn_id)
                ==> r is Err && r->Err_0 is NotFound,
            old(self)@.executors.contains_key(id@) && old(self)@.sessions.contains_key(ssn_id) ==> {
                let e = old(self)@.executors[id@];
                &&& (r is Ok <==> next_state(e.state, ExecutorVerb::BindSession) is Some)
                &&& r is Err ==> r->Err_0 is InvalidState
                &&& r is Ok ==> next_state(e.state, ExecutorVerb::BindSession) == Some(ExecutorState::Binding)
                    && final(self)@ == old(self)@.binding(id@, ssn_id)
            },
    {
        let i = match self.find_executor(&id) {
            None => { return Err(FlameError::NotFound(String::from_str("executor"))); },
            Some(i) => i,
        };
        let k = match self.find_session(ssn_id) {
            None => { return Err(FlameError::NotFound(String::from_str("session"))); },
            Some(k) => k,
        };
        if self.executors[i].state != ExecutorState::Idle {
            return Err(FlameError::InvalidState(String::from_str("executor is not idle")));
        }
        let ghost s0 = self.executors@;
        self.executors[i].state = ExecutorState::Binding;
        self.executors[i].ssn_id = Some(ssn_id);
        proof {
            lemma_replace_executor(s0, i as int, self.executors@[i as int]);
            assert(self.executors@ == s0.update(i as int, self.executors@[i as int]));
        }
        Ok(())
    }

    /// Binding to Bound.
    pub fn bind_session_completed(&mut self, id: ExecutorID) -> (r: Result<(), FlameError>)
        requires
            old(self).wf(),
        ensures
            final(self).wf(),
            final(self)@.next_ssn_id >= old(self)@.next_ssn_id,
            r is Err ==> final(self)@ == old(self)@,
            !old(self)@.executors.contains_key(id@) ==> r is Err && r->Err_0 is NotFound,
            old(self)@.executors.contains_key(id@) ==> {
                let e = old(self)@.executors[id@];
                &&& (r is Ok <==> next_state(e.state, ExecutorVerb::BindSessionCompleted) is Some)
                &&& r is Err ==> r->Err_0 is InvalidState
                &&& r is Ok ==> next_state(e.state, ExecutorVerb::BindSessionCompleted) == Some(ExecutorState::Bound)
                    && final(self)@ == old(self)@.moved(id@, ExecutorState::Bound)
            },
    {
        let i = match self.find_executor(&id) {
            None => { return Err(FlameError::NotFound(String::from_str("executor"))); },
            Some(i) => i,
        };
        if self.executors[i].state != ExecutorState::Binding {
            return Err(FlameError::InvalidState(String::from_str("executor is not binding")));
        }
        let ghost s0 = self.executors@;
        self.executors[i].state = ExecutorState::Bound;
        proof {
            lemma_replace_executor(s0, i as int, self.executors@[i as int]);
            assert(self.executors@ == s0.update(i as int, self.executors@[i as int]));
        }
        Ok(())
    }

    /// Binding or Bound to Unbinding.
    pub fn unbind_executor(&mut self, id: ExecutorID) -> (r: Result<(), FlameError>)
        requires
            old(self).wf(),
        ensures
            final(self).wf(),
            final(self)@.next_ssn_id >= old(self)@.next_ssn_id,
            r is Err ==> final(self)@ == old(self)@,
            !old(self)@.executors.contains_key(id@) ==> r is Err && r->Err_0 is NotFound,
            old(self)@.executors.contains_key(id@) ==> {
                let e = old(self)@.executors[id@];
                &&& (r is Ok <==> next_state(e.state, ExecutorVerb::UnbindExecutor) is Some)
                &&& r is Err ==> r->Err_0 is InvalidState
                &&& r is Ok ==> next_state(e.state, ExecutorVerb::UnbindExecutor) == Some(ExecutorState::Unbinding)
                    && final(self)@ == old(self)@.moved(id@, ExecutorState::Unbinding)
            },
    {
        let i = match self.find_executor(&id) {
            None => { return Err(FlameError::NotFound(String::from_str("executor"))); },
            Some(i) => i,
        };
        if self.executors[i].state != ExecutorState::Binding && self.executors[i].state != ExecutorState::Bound {
            return Err(FlameError::InvalidState(String::from_str("executor is not bound")));
        }
        let ghost s0 = self.executors@;
        self.executors[i].state = ExecutorState::Unbinding;
        proof {
            lemma_replace_executor(s0, i as int, self.executors@[i as int]);
            assert(self.executors@ == s0.update(i as int, self.executors@[i as int]));
        }
        Ok(())
    }

    /// Unbinding to Idle: the executor lets go of its session and task.
    pub fn unbind_executor_completed(&mut self, id: ExecutorID) -> (r: Result<(), FlameError>)
        requires
            old(self).wf(),
        ensures
            final(self).wf(),
            final(self)@.next_ssn_id >= old(self)@.next_ssn_id,
            r is Err ==> final(self)@ == old(self)@,
            !old(self)@.executors.contains_key(id@) ==> r is Err && r->Err_0 is NotFound,
            old(self)@.executors.contains_key(id@) ==> {
                let e = old(self)@.executors[id@];
                &&& (r is Ok <==> next_state(e.state, ExecutorVerb::UnbindExecutorCompleted) is Some)
                &&& r is Err ==> r->Err_0 is InvalidState
                &&& r is Ok ==> next_state(e.state, ExecutorVerb::UnbindExecutorCompleted) == Some(ExecutorState::Idle)
                    && final(self)@ == old(self)@.released(id@)
            },
    {
        let i = match self.find_executor(&id) {
            None => { return Err(FlameError::NotFound(String::from_str("executor"))); },
            Some(i) => i,
        };
        if self.executors[i].state != ExecutorState::Unbinding {
            return Err(FlameError::InvalidState(String::from_str("executor is not unbinding")));
        }
        let ghost s0 = self.executors@;
        self.executors[i].state = ExecutorState::Idle;
        self.executors[i].ssn_id = None;
        self.executors[i].task_id = None;
        proof {
            lemma_replace_executor(s0, i as int, self.executors@[i as int]);
            assert(self.executors@ == s0.update(i as int, self.executors@[i as int]));
        }
        Ok(())
    }
}

impl Storage {
    /// Hands a Bound executor a task of its session: the task it already
    /// holds, else the first Pending one, which becomes Running and the
    /// executor's task. With neither, nothing changes and the result is `None`.
    pub fn launch_task(&mut self, id: ExecutorID) -> (r: Result<Option<Task>, FlameError>)
        requires
            old(self).wf(),
        ensures
            final(self).wf(),
            final(self)@.next_ssn_id >= old(self)@.next_ssn_id,
            r is Err ==> final(self)@ == old(self)@,
            !old(self)@.executors.contains_key(id@) ==> r is Err && r->Err_0 is NotFound,
            old(self)@.executors.contains_key(id@) ==> {
                let e = old(self)@.executors[id@];
                let ssn_id = e.ssn_id->Some_0;
                let s = old(self)@.sessions[ssn_id];
                &&& next_state(e.state, ExecutorVerb::LaunchTask) is None ==> r is Err
                    && r->Err_0 is InvalidState
                &&& r is Ok ==> next_state(e.state, ExecutorVerb::LaunchTask) == Some(
                    final(self)@.executors[id@].state,
                )
                &&& next_state(e.state, ExecutorVerb::LaunchTask) is Some ==> {
                    &&& !old(self)@.sessions.contains_key(ssn_id) ==> r is Err && r->Err_0 is NotFound
                    &&& old(self)@.sessions.contains_key(ssn_id) && e.task_id is Some ==> {
                        let tid = e.task_id->Some_0;
                        &&& s.has_task(tid) <==> r is Ok
                        &&& r is Err ==> r->Err_0 is NotFound
                        &&& r is Ok ==> r->Ok_0 is Some && r->Ok_0->Some_0@ == s.task(tid)
                            && final(self)@ == old(self)@
                    }
                    &&& old(self)@.sessions.contains_key(ssn_id) && e.task_id is None
                        && s.tasks_by_state[0].len() == 0 ==> r is Ok && r->Ok_0 is None
                        && final(self)@ == old(self)@
                    &&& old(self)@.sessions.contains_key(ssn_id) && e.task_id is None
                        && s.tasks_by_state[0].len() > 0 ==> {
                        let tid = s.tasks_by_state[0][0];
                        let t = TaskView { state: TaskState::Running, ..s.task(tid) };
                        &&& s.has_task(tid)
                        &&& s.task(tid).state == TaskState::Pending
                        &&& r is Ok && r->Ok_0 is Some && r->Ok_0->Some_0@ == t
                        &&& final(self)@ == old(self)@.with_session(
                            SessionView {
                                tasks_by_state: final(self)@.sessions[ssn_id].tasks_by_state,
                                ..s.with_task(t)
                            },
                        ).with_executor(ExecutorView { task_id: Some(tid), ..e })
                    }
                }
            },
    {
        let i = match self.find_executor(&id) {
            None => { return Err(FlameError::NotFound(String::from_str("executor"))); },
            Some(i) => i,
        };
        if self.executors[i].state != ExecutorState::Bound {
            return Err(FlameError::InvalidState(String::from_str("executor is not bound")));
        }
        let ssn_id = match self.executors[i].ssn_id {
            None => { return Err(FlameError::InvalidState(String::from_str("no session in bound executor"))); },
            Some(s) => s,
        };
        let k = match self.find_session(ssn_id) {
            None => { return Err(FlameError::NotFound(String::from_str("session"))); },
            Some(k) => k,
        };
        if let Some(tid) = self.executors[i].task_id {
            return match self.sessions[k].get_task(tid) {
                None => Err(FlameError::NotFound(String::from_str("task"))),
                Some(t) => Ok(Some(t)),
            };
        }
        let ghost s0 = self.sessions@;
        let ghost e0 = self.executors@;
        let popped = self.sessions[k].pop_pending_task();
        proof {
            lemma_replace_session(s0, k as int, self.sessions@[k as int], self.next_ssn_id);
            assert(self.sessions@ == s0.update(k as int, self.sessions@[k as int]));
            lemma_ssn_map_at(s0, k as int);
        }
        match popped {
            None => {
                proof {
                    assert(ssn_map(s0).insert(ssn_id, self.sessions@[k as int]@) =~= ssn_map(s0));
                }
                Ok(None)
            },
            Some(tid) => {
                self.executors[i].task_id = Some(tid);
                proof {
                    lemma_replace_executor(e0, i as int, self.executors@[i as int]);
                    assert(self.executors@ == e0.update(i as int, self.executors@[i as int]));
                }
                let t = self.sessions[k].get_task(tid);
                match t {
                    Some(t) => Ok(Some(t)),
                    None => Ok(None),
                }
            },
        }
    }

    /// Finishes the task that executor `id` holds: the task gets `output`
    /// and becomes Succeed, and the executor holds no task any more. Legal
    /// while Bound or Unbinding, on a Running task.
    pub fn complete_task(&mut self, id: ExecutorID, output: Option<Vec<u8>>) -> (r: Result<(), FlameError>)
        requires
            old(self).wf(),
        ensures
            final(self).wf(),
            final(self)@.next_ssn_id >= old(self)@.next_ssn_id,
            r is Err ==> final(self)@ == old(self)@,
            !old(self)@.executors.contains_key(id@) ==> r is Err && r->Err_0 is NotFound,
            old(self)@.executors.contains_key(id@) ==> {
                let e = old(self)@.executors[id@];
                let ssn_id = e.ssn_id->Some_0;
                let tid = e.task_id->Some_0;
                let s = old(self)@.sessions[ssn_id];
                &&& next_state(e.state, ExecutorVerb::CompleteTask) is None ==> r is Err
                    && r->Err_0 is InvalidState
                &&& r is Ok ==> next_state(e.state, ExecutorVerb::CompleteTask) == Some(
                    final(self)@.executors[id@].state,
                )
                &&& next_state(e.state, ExecutorVerb::CompleteTask) is Some ==> {
                    &&& e.task_id is None ==> r is Err && r->Err_0 is InvalidState
                    &&& e.task_id is Some && !(old(self)@.sessions.contains_key(ssn_id)
                        && s.has_task(tid)) ==> r is Err && r->Err_0 is NotFound
                    &&& e.task_id is Some && old(self)@.sessions.contains_key(ssn_id)
                        && s.has_task(tid) ==> {
                        &&& (r is Ok <==> s.task(tid).state == TaskState::Running)
                        &&& r is Err ==> r->Err_0 is InvalidState
                        &&& r is Ok ==> {
                            let ns = final(self)@.sessions[ssn_id];
                            &&& ns.task(tid).completion_time is Some
                            &&& final(self)@ == old(self)@.with_session(
                                SessionView {
                                    tasks_by_state: ns.tasks_by_state,
                                    ..s.with_task(
                                        TaskView {
                                            output: bytes_view(output),
                                            state: TaskState::Succeed,
                                            completion_time: ns.task(tid).completion_time,
                                            ..s.task(tid)
                                        },
                                    )
                                },
                            ).with_executor(ExecutorView { task_id: None, ..e })
                        }
                    }
                }
            },
    {
        let i = match self.find_executor(&id) {
            None => { return Err(FlameError::NotFound(String::from_str("executor"))); },
            Some(i) => i,
        };
        if self.executors[i].state != ExecutorState::Bound && self.executors[i].state != ExecutorState::Unbinding {
            return Err(FlameError::InvalidState(String::from_str("executor is not bound")));
        }
        let ssn_id = match self.executors[i].ssn_id {
            None => { return Err(FlameError::InvalidState(String::from_str("no session in executor"))); },
            Some(s) => s,
        };
        let tid = match self.executors[i].task_id {
            None => { return Err(FlameError::InvalidState(String::from_str("no task in executor"))); },
            Some(t) => t,
        };
        let k = match self.find_session(ssn_id) {
            None => { return Err(FlameError::NotFound(String::from_str("session"))); },
            Some(k) => k,
        };
        if tid < 1 || tid > self.sessions[k].tasks.len() as u64 {
            return Err(FlameError::NotFound(String::from_str("task")));
        }
        if self.sessions[k].tasks[(tid - 1) as usize].state != TaskState::Running {
            return Err(FlameError::InvalidState(String::from_str("task is not running")));
        }
        let ghost s0 = self.sessions@;
        let ghost e0 = self.executors@;
        let ghost v0 = self.sessions@[k as int]@;
        self.sessions[k].set_task_output(tid, output);
        let ghost v1 = self.sessions@[k as int]@;
        let now = now_millis();
        let done = self.sessions[k].update_task_state(tid, TaskState::Succeed, now);
        proof {
            let v2 = self.sessions@[k as int]@;
            assert(done is Ok);
            lemma_replace_session(s0, k as int, self.sessions@[k as int], self.next_ssn_id);
            assert(self.sessions@ == s0.update(k as int, self.sessions@[k as int]));
            lemma_ssn_map_at(s0, k as int);
            assert(v2.tasks =~= v0.with_task(TaskView {
                output: bytes_view(output),
                state: TaskState::Succeed,
                completion_time: v2.task(tid).completion_time,
                ..v0.task(tid)
            }).tasks);
        }
        self.executors[i].task_id = None;
        proof {
            lemma_replace_executor(e0, i as int, self.executors@[i as int]);
            assert(self.executors@ == e0.update(i as int, self.executors@[i as int]));
        }
        Ok(())
    }
}

/// The map of a sequence with distinct ids has one key per element.
proof fn lemma_exec_map_len(s: Seq<Executor>)
    requires
        unique_ids(s),
    ensures
        exec_map(s).len() == s.len(),
        exec_map(s).dom().finite(),
    decreases s.len(),
{
    if s.len() == 0 {
        assert(exec_map(s).dom() =~= Set::<Seq<char>>::empty());
    } else {
        let p = s.drop_last();
        assert(unique_ids(p)) by {
            assert forall|a: int, b: int| 0 <= a < p.len() && 0 <= b < p.len() && a != b implies p[a].id@ != p[b].id@ by {
                assert(s[a].id@ != s[b].id@);
            }
        }
        lemma_exec_map_len(p);
        assert(s =~= p.push(s.last()));
        assert(!exec_map(p).contains_key(s.last().id@)) by {
            if exec_map(p).contains_key(s.last().id@) {
                let j = choose|j: int| 0 <= j < p.len() && p[j].id@ == s.last().id@;
                assert(s[j].id@ != s[s.len() - 1].id@);
            }
        }
        lemma_exec_map_push(p, s.last());
    }
}

/// The info matches the session.
pub open spec fn session_info_of(i: SessionInfo, v: SessionView) -> bool {
    &&& i.id == v.id
    &&& i.application@ == v.application
    &&& i.slots == v.slots
    &&& i.state == v.state
    &&& i.pending == v.tasks_by_state[0].len()
}

/// The info matches the executor.
pub open spec fn executor_info_of(i: ExecutorInfo, v: ExecutorView) -> bool {
    &&& i.id@ == v.id
    &&& i.application@ == v.application.name
    &&& i.state == v.state
    &&& i.ssn_id == v.ssn_id
    &&& i.task_id == v.task_id
}

/// The snapshot pictures the store: one info for each session, in
/// increasing order of id, and one for each executor, each matching its
/// record.
pub open spec fn pictures(snap: SnapShot, st: StorageView) -> bool {
    &&& snap.wf()
    &&& snap.sessions@.len() == st.sessions.len()
    &&& forall|i: int|
        0 <= i < snap.sessions@.len() ==> st.sessions.contains_key(#[trigger] snap.sessions@[i].id)
            && session_info_of(snap.sessions@[i], st.sessions[snap.sessions@[i].id])
    &&& forall|i: int, j: int|
        0 <= i < j < snap.sessions@.len() ==> snap.sessions@[i].id < snap.sessions@[j].id
    &&& snap.executors@.len() == st.executors.len()
    &&& forall|i: int|
        0 <= i < snap.executors@.len() ==> st.executors.contains_key(#[trigger] snap.executors@[i].id@)
            && executor_info_of(snap.executors@[i], st.executors[snap.executors@[i].id@])
    &&& forall|id: SessionID| #[trigger] st.sessions.contains_key(id) ==> exists|i: int|
        0 <= i < snap.sessions@.len() && snap.sessions@[i].id == id
    &&& forall|id: Seq<char>| #[trigger] st.executors.contains_key(id) ==> exists|i: int|
        0 <= i < snap.executors@.len() && snap.executors@[i].id@ == id
}

impl Storage {
    /// A picture of every session, in increasing order of id, and of every
    /// executor.
    pub fn snapshot(&self) -> (r: SnapShot)
        requires
            self.wf(),
        ensures
            pictures(r, self@),
    {
        let mut sessions: Vec<SessionInfo> = Vec::new();
        let mut i: usize = 0;
        while i < self.sessions.len()
            invariant
                self.wf(),
                0 <= i <= self.sessions@.len(),
                sessions@.len() == i,
                forall|j: int| 0 <= j < i ==> session_info_of(#[trigger] sessions@[j], self.sessions@[j]@),
            decreases self.sessions.len() - i,
        {
            let s = &self.sessions[i];
            sessions.push(SessionInfo {
                id: s.id,
                application: s.application.clone(),
                slots: s.slots,
                state: s.state,
                pending: s.tasks_by_state[0].len(),
            });
            i = i + 1;
        }
        let mut executors: Vec<ExecutorInfo> = Vec::new();
        let mut i: usize = 0;
        while i < self.executors.len()
            invariant
                self.wf(),
                0 <= i <= self.executors@.len(),
                executors@.len() == i,
                forall|j: int| 0 <= j < i ==> executor_info_of(#[trigger] executors@[j], self.executors@[j]@),
            decreases self.executors.len() - i,
        {
            let e = &self.executors[i];
            executors.push(ExecutorInfo {
                id: e.id.clone(),
                application: e.application.name.clone(),
                state: e.state,
                ssn_id: e.ssn_id,
                task_id: e.task_id,
            });
            i = i + 1;
        }
        let r = SnapShot { sessions, executors };
        proof {
            lemma_ssn_map_len(self.sessions@);
            lemma_exec_map_len(self.executors@);
            assert forall|a: int| 0 <= a < r.sessions@.len() implies self@.sessions.contains_key(#[trigger] r.sessions@[a].id)
                && session_info_of(r.sessions@[a], self@.sessions[r.sessions@[a].id]) by {
                lemma_ssn_map_at(self.sessions@, a);
            }
            assert forall|a: int| 0 <= a < r.executors@.len() implies self@.executors.contains_key(#[trigger] r.executors@[a].id@)
                && executor_info_of(r.executors@[a], self@.executors[r.executors@[a].id@]) by {
                lemma_exec_map_at(self.executors@, a);
            }
            assert forall|id: SessionID| #[trigger] self@.sessions.contains_key(id) implies exists|a: int|
                0 <= a < r.sessions@.len() && r.sessions@[a].id == id by {
                let a = choose|a: int| 0 <= a < self.sessions@.len() && self.sessions@[a].id == id;
                assert(session_info_of(r.sessions@[a], self.sessions@[a]@));
            }
            assert forall|id: Seq<char>| #[trigger] self@.executors.contains_key(id) implies exists|a: int|
                0 <= a < r.executors@.len() && r.executors@[a].id@ == id by {
                let a = choose|a: int| 0 <= a < self.executors@.len() && self.executors@[a].id@ == id;
                assert(executor_info_of(r.executors@[a], self.executors@[a]@));
            }
            assert forall|a: int, b: int| 0 <= a < b < r.sessions@.len() implies r.sessions@[a].id < r.sessions@[b].id by {
                assert(self.sessions@[a].id < self.sessions@[b].id);
            }
            assert forall|a: int, b: int|
                0 <= a < r.sessions@.len() && 0 <= b < r.sessions@.len() && a != b implies r.sessions@[a].id != r.sessions@[b].id by {
                if a < b {
                    assert(self.sessions@[a].id < self.sessions@[b].id);
                } else {
                    assert(self.sessions@[b].id < self.sessions@[a].id);
                }
            }
            assert forall|a: int, b: int|
                0 <= a < r.executors@.len() && 0 <= b < r.executors@.len() && a != b implies r.executors@[a].id@ != r.executors@[b].id@ by {
                assert(self.executors@[a].id@ != self.executors@[b].id@);
            }
        }
        r
    }
}

/// A verb that changes the executor's record alone: neither launching nor
/// completing a task.
pub open spec fn is_lifecycle_verb(v: ExecutorVerb) -> bool {
    v != ExecutorVerb::LaunchTask && v != ExecutorVerb::CompleteTask
}

/// Every verb of the sequence touches the executor's record alone.
pub open spec fn lifecycle_only(vs: Seq<ExecutorVerb>) -> bool {
    forall|i: int| 0 <= i < vs.len() ==> is_lifecycle_verb(#[trigger] vs[i])
}

/// A Bound executor holds a session; an executor that holds a session is
/// Bound, unless it is on its way in (Binding) or out (Unbinding).
pub proof fn lemma_bound_iff_session(st: StorageView, id: Seq<char>)
    requires
        st.wf(),
        st.executors.contains_key(id),
    ensures
        st.executors[id].state == ExecutorState::Bound ==> st.executors[id].ssn_id is Some,
        st.executors[id].state != ExecutorState::Binding && st.executors[id].state
            != ExecutorState::Unbinding ==> (st.executors[id].state == ExecutorState::Bound
            <==> st.executors[id].ssn_id is Some),
{
}

/// Every task of a stored session is listed in exactly one bucket of that
/// session's state index: the bucket of its own state.
pub proof fn lemma_stored_task_in_one_bucket(st: StorageView, ssn_id: SessionID, task_id: TaskID, b: int)
    requires
        st.wf(),
        st.sessions.contains_key(ssn_id),
        st.sessions[ssn_id].has_task(task_id),
        0 <= b < N_TASK_STATES,
    ensures
        st.sessions[ssn_id].in_bucket(b, task_id) <==> b == spec_bucket(
            st.sessions[ssn_id].task(task_id).state,
        ),
{
    lemma_task_in_one_bucket(st.sessions[ssn_id], task_id, b);
}

impl Storage {
    /// Applies one verb of the lifecycle to executor `id`: `ssn_id` is the
    /// session that a bind names; a completion carries no output.
    pub fn apply_verb(&mut self, id: ExecutorID, verb: ExecutorVerb, ssn_id: SessionID) -> (r: Result<(), FlameError>)
        requires
            old(self).wf(),
        ensures
            final(self).wf(),
            final(self)@.next_ssn_id >= old(self)@.next_ssn_id,
            r is Err ==> final(self)@ == old(self)@,
            !old(self)@.executors.contains_key(id@) ==> r is Err && r->Err_0 is NotFound,
            old(self)@.executors.contains_key(id@) ==> (r is Ok <==> old(self)@.verb_ok(id@, verb, ssn_id)),
            r is Ok ==> old(self)@.executors.contains_key(id@) && final(self)@.executors.contains_key(id@)
                && next_state(old(self)@.executors[id@].state, verb) == Some(final(self)@.executors[id@].state),
            r is Ok && is_lifecycle_verb(verb) ==> final(self)@ == old(self)@.after_verb(id@, verb, ssn_id),
    {
        proof {
            self.lemma_wf_view();
        }
        match verb {
            ExecutorVerb::BindSession => self.bind_session(id, ssn_id),
            ExecutorVerb::BindSessionCompleted => self.bind_session_completed(id),
            ExecutorVerb::LaunchTask => match self.launch_task(id) {
                Ok(_) => Ok(()),
                Err(e) => Err(e),
            },
            ExecutorVerb::CompleteTask => self.complete_task(id, None),
            ExecutorVerb::UnbindExecutor => self.unbind_executor(id),
            ExecutorVerb::UnbindExecutorCompleted => self.unbind_executor_completed(id),
        }
    }

    /// Applies a sequence of verbs to executor `id`, each in turn; a verb
    /// that the store refuses changes nothing. The result is the number of
    /// refused verbs: none exactly when the lifecycle allows the whole
    /// sequence, and then the executor's state is the one it leads to.
    pub fn apply_verbs(&mut self, id: ExecutorID, verbs: &Vec<ExecutorVerb>, ssn_id: SessionID) -> (r: Result<usize, FlameError>)
        requires
            old(self).wf(),
        ensures
            final(self).wf(),
            final(self)@.next_ssn_id >= old(self)@.next_ssn_id,
            !old(self)@.executors.contains_key(id@) <==> r is Err,
            r is Err ==> r->Err_0 is NotFound && final(self)@ == old(self)@,
            r is Ok ==> final(self)@.executors.contains_key(id@) && r->Ok_0 <= verbs@.len(),
            (r is Ok && r->Ok_0 == 0) ==> run_verbs(old(self)@.executors[id@].state, verbs@) == Some(
                final(self)@.executors[id@].state,
            ),
            // For verbs that touch the executor's record alone, with the named
            // session there where a bind occurs, the executor ends in the
            // state that the sequence settles in, and nothing is refused
            // exactly when the lifecycle allows the whole sequence.
            old(self)@.executors.contains_key(id@) && lifecycle_only(verbs@) && (verbs@.contains(
                ExecutorVerb::BindSession,
            ) ==> old(self)@.sessions.contains_key(ssn_id)) ==> {
                &&& final(self)@.executors[id@].state == settle_verbs(
                    old(self)@.executors[id@].state,
                    verbs@,
                )
                &&& ((r is Ok && r->Ok_0 == 0) <==> run_verbs(old(self)@.executors[id@].state, verbs@) is Some)
            },
    {
        if self.find_executor(&id).is_none() {
            return Err(FlameError::NotFound(String::from_str("executor")));
        }
        let ghost st0 = self@;
        let ghost s0 = self@.executors[id@].state;
        let ghost simple = lifecycle_only(verbs@) && (verbs@.contains(ExecutorVerb::BindSession)
            ==> st0.sessions.contains_key(ssn_id));
        let mut refused: usize = 0;
        let mut i: usize = 0;
        while i < verbs.len()
            invariant
                self.wf(),
                0 <= i <= verbs@.len(),
                refused <= i,
                self@.executors.contains_key(id@),
                old(self)@.executors.contains_key(id@),
                st0 == old(self)@,
                s0 == st0.executors[id@].state,
                simple == (lifecycle_only(verbs@) && (verbs@.contains(ExecutorVerb::BindSession)
                    ==> st0.sessions.contains_key(ssn_id))),
                simple ==> self@.sessions == st0.sessions,
                self@.next_ssn_id >= st0.next_ssn_id,
                refused == 0 ==> run_verbs(s0, verbs@.subrange(0, i as int)) == Some(self@.executors[id@].state),
                simple ==> self@.executors[id@].state == settle_verbs(s0, verbs@.subrange(0, i as int)),
                simple ==> (refused == 0 <==> run_verbs(s0, verbs@.subrange(0, i as int)) is Some),
            decreases verbs.len() - i,
        {
            proof {
                self.lemma_wf_view();
            }
            let ghost before = self@;
            let r = self.apply_verb(id.clone(), verbs[i], ssn_id);
            proof {
                let pre = verbs@.subrange(0, i as int);
                let v = verbs@[i as int];
                lemma_run_verbs_push(s0, pre, v);
                lemma_settle_verbs_push(s0, pre, v);
                assert(pre.push(v) =~= verbs@.subrange(0, i as int + 1));
                if simple {
                    assert(is_lifecycle_verb(v));
                    if v == ExecutorVerb::BindSession {
                        assert(verbs@.contains(ExecutorVerb::BindSession));
                    }
                    assert(r is Ok <==> next_state(before.executors[id@].state, v) is Some);
                }
            }
            if r.is_err() {
                refused = refused + 1;
            }
            i = i + 1;
        }
        assert(verbs@.subrange(0, verbs@.len() as int) =~= verbs@);
        Ok(refused)
    }
}

/// A created session reads back as it was created: it is filed under its
/// id, which is at least 1 and above every id handed out before, and the
/// next session gets a higher id still.
pub proof fn lemma_created_session_reads_back(st: StorageView, s: SessionView)
    requires
        st.wf(),
        s.wf(),
        s.id == st.next_ssn_id,
        st.next_ssn_id < u64::MAX,
    ensures
        st.created(s).wf(),
        st.created(s).sessions.contains_key(s.id),
        st.created(s).sessions[s.id] == s,
        s.id >= 1,
        forall|id: SessionID| #[trigger] st.sessions.contains_key(id) ==> id < s.id,
        st.created(s).next_ssn_id > s.id,
{
}

/// Closing a session keeps it and its tasks, and marks it Closed (the state
/// on which `create_task` refuses, by its own contract).
pub proof fn lemma_closed_session_admits_no_task(st: StorageView, id: SessionID)
    requires
        st.wf(),
        st.sessions.contains_key(id),
    ensures
        st.closed(id).wf(),
        st.closed(id).sessions.contains_key(id),
        st.closed(id).sessions[id].state == SessionState::Closed,
        st.closed(id).sessions[id].tasks == st.sessions[id].tasks,
{
}

/// Binding an Idle executor to a session, unbinding it, and completing the
/// unbind gives back the store it started from: the executor is Idle again,
/// with no session and no task.
pub proof fn lemma_bind_unbind_restores(st: StorageView, id: Seq<char>, sid: SessionID)
    requires
        st.wf(),
        st.executors.contains_key(id),
        st.executors[id].state == ExecutorState::Idle,
    ensures
        next_state(ExecutorState::Idle, ExecutorVerb::BindSession) == Some(ExecutorState::Binding),
        next_state(ExecutorState::Binding, ExecutorVerb::UnbindExecutor) == Some(ExecutorState::Unbinding),
        next_state(ExecutorState::Unbinding, ExecutorVerb::UnbindExecutorCompleted) == Some(
            ExecutorState::Idle,
        ),
        st.binding(id, sid).moved(id, ExecutorState::Unbinding).released(id) == st,
        st.binding(id, sid).moved(id, ExecutorState::Unbinding).released(id).executors[id].ssn_id is None,
        st.binding(id, sid).moved(id, ExecutorState::Unbinding).released(id).executors[id].task_id is None,
{
    let e = st.executors[id];
    let after = st.binding(id, sid).moved(id, ExecutorState::Unbinding).released(id);
    assert(after.executors[id] == e);
    assert(after.executors =~= st.executors);
}

/// Completing the task that an executor holds leaves it holding none (the
/// case in which `complete_task` refuses, by its own contract).
pub proof fn lemma_completion_clears_task(st: StorageView, id: Seq<char>, ns: SessionView)
    requires
        st.wf(),
        st.executors.contains_key(id),
    ensures
        st.with_session(ns).with_executor(ExecutorView { task_id: None, ..st.executors[id] }).executors.contains_key(id),
        st.with_session(ns).with_executor(ExecutorView { task_id: None, ..st.executors[id] }).executors[id].task_id is None,
{
}

/// The outcome of a lifecycle verb is a function of the executor's record
/// (and, for a bind, of whether the named session is there): two stores that
/// agree on those give the same success and the same new record, whose state
/// the lifecycle's table gives.
pub proof fn lemma_verb_outcome_is_determined(
    st1: StorageView,
    st2: StorageView,
    id: Seq<char>,
    verb: ExecutorVerb,
    sid: SessionID,
)
    requires
        st1.wf(),
        st2.wf(),
        is_lifecycle_verb(verb),
        st1.executors.contains_key(id),
        st2.executors.contains_key(id),
        st1.executors[id] == st2.executors[id],
        st1.sessions.contains_key(sid) == st2.sessions.contains_key(sid),
    ensures
        st1.verb_ok(id, verb, sid) == st2.verb_ok(id, verb, sid),
        st1.verb_ok(id, verb, sid) ==> st1.after_verb(id, verb, sid).executors[id] == st2.after_verb(
            id,
            verb,
            sid,
        ).executors[id] && next_state(st1.executors[id].state, verb) == Some(
            st1.after_verb(id, verb, sid).executors[id].state,
        ),
{
}

/// Session ids strictly increase: a session created when the next id was
/// `first.next_ssn_id` has that id, and as no operation lowers the next id,
/// a session created on any later store has a higher one.
pub proof fn lemma_later_sessions_get_higher_ids(
    first: StorageView,
    s0: SessionView,
    later: StorageView,
    s: SessionView,
)
    requires
        first.next_ssn_id < u64::MAX,
        s0.id == first.next_ssn_id,
        later.next_ssn_id >= first.created(s0).next_ssn_id,
        s.id == later.next_ssn_id,
    ensures
        s.id > s0.id,
{
}

} // verus!
