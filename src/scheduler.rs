use vstd::prelude::*;

use crate::error::FlameError;
use crate::model::{ExecutorID, ExecutorState, SessionID, SessionState, TaskID};
use crate::storage::{executor_info_of, pictures, session_info_of, Storage, StorageView};

verus! {

/// What the policy sees of a session.
pub struct SessionInfo {
    pub id: SessionID,
    pub application: String,
    pub slots: i32,
    pub state: SessionState,
    pub pending: usize,
}

/// What the policy sees of an executor.
pub struct ExecutorInfo {
    pub id: ExecutorID,
    pub application: String,
    pub state: ExecutorState,
    pub ssn_id: Option<SessionID>,
    pub task_id: Option<TaskID>,
}

/// An immutable picture of the store, handed to the policy.
pub struct SnapShot {
    pub sessions: Vec<SessionInfo>,
    pub executors: Vec<ExecutorInfo>,
}

/// What the policy decides: executors to bind to sessions, and bound
/// executors that should be handed a task.
pub struct Decisions {
    pub bindings: Vec<(SessionID, ExecutorID)>,
    pub launches: Vec<(SessionID, ExecutorID)>,
}

impl SnapShot {
    /// No two sessions and no two executors share an id.
    pub open spec fn wf(&self) -> bool {
        &&& forall|a: int, b: int|
            0 <= a < self.sessions@.len() && 0 <= b < self.sessions@.len() && a != b
                ==> self.sessions@[a].id != self.sessions@[b].id
        &&& forall|a: int, b: int|
            0 <= a < self.executors@.len() && 0 <= b < self.executors@.len() && a != b
                ==> self.executors@[a].id@ != self.executors@[b].id@
    }
}

impl SnapShot {
    /// The index of sessions by state: the ids of the sessions in state `st`,
    /// in snapshot order. As session ids are distinct, each id is listed
    /// under its own state and no other.
    pub fn session_ids_in(&self, st: SessionState) -> (r: Vec<SessionID>)
        ensures
            forall|id: SessionID| r@.contains(id) <==> exists|i: int|
                0 <= i < self.sessions@.len() && (#[trigger] self.sessions@[i]).id == id
                    && self.sessions@[i].state == st,
    {
        let mut r: Vec<SessionID> = Vec::new();
        let mut i: usize = 0;
        while i < self.sessions.len()
            invariant
                0 <= i <= self.sessions@.len(),
                forall|id: SessionID| r@.contains(id) <==> exists|k: int|
                    0 <= k < i && (#[trigger] self.sessions@[k]).id == id && self.sessions@[k].state == st,
            decreases self.sessions.len() - i,
        {
            let ghost r0 = r@;
            if self.sessions[i].state == st {
                r.push(self.sessions[i].id);
            }
            proof {
                assert forall|id: SessionID| r@.contains(id) <==> exists|k: int|
                    0 <= k < i + 1 && (#[trigger] self.sessions@[k]).id == id && self.sessions@[k].state == st by {
                    if r@.contains(id) && !r0.contains(id) {
                        let j = choose|j: int| 0 <= j < r@.len() && r@[j] == id;
                        if j < r0.len() {
                            assert(r0[j] == id);
                        }
                        assert(self.sessions@[i as int].id == id);
                    }
                    if r0.contains(id) {
                        let j = choose|j: int| 0 <= j < r0.len() && r0[j] == id;
                        assert(r@[j] == id);
                    }
                    if self.sessions@[i as int].id == id && self.sessions@[i as int].state == st {
                        assert(r@[r0.len() as int] == id);
                    }
                }
            }
            i = i + 1;
        }
        r
    }

    /// The index of executors by state: the ids of the executors in state
    /// `st`, in snapshot order.
    pub fn executor_ids_in(&self, st: ExecutorState) -> (r: Vec<ExecutorID>)
        ensures
            forall|id: Seq<char>| #[trigger] lists_id(r@, id) <==> has_executor_in(*self, id, st),
    {
        let mut r: Vec<ExecutorID> = Vec::new();
        let mut i: usize = 0;
        while i < self.executors.len()
            invariant
                0 <= i <= self.executors@.len(),
                forall|id: Seq<char>| #[trigger] lists_id(r@, id) <==> exists|k: int|
                    0 <= k < i && (#[trigger] self.executors@[k]).id@ == id && self.executors@[k].state == st,
            decreases self.executors.len() - i,
        {
            let ghost r0 = r@;
            if self.executors[i].state == st {
                r.push(self.executors[i].id.clone());
            }
            proof {
                assert forall|id: Seq<char>| #[trigger] lists_id(r@, id) <==> exists|k: int|
                    0 <= k < i + 1 && (#[trigger] self.executors@[k]).id@ == id && self.executors@[k].state == st by {
                    if lists_id(r@, id) {
                        let j = choose|j: int| 0 <= j < r@.len() && (#[trigger] r@[j])@ == id;
                        if j < r0.len() {
                            assert(r0[j]@ == id);
                        } else {
                            assert(self.executors@[i as int].id@ == id);
                        }
                    }
                    if lists_id(r0, id) {
                        let j = choose|j: int| 0 <= j < r0.len() && (#[trigger] r0[j])@ == id;
                        assert(r@[j]@ == id);
                    }
                    if self.executors@[i as int].id@ == id && self.executors@[i as int].state == st {
                        assert(r@[r0.len() as int]@ == id);
                    }
                }
            }
            i = i + 1;
        }
        proof {
            assert forall|id: Seq<char>| #[trigger] lists_id(r@, id) <==> has_executor_in(*self, id, st) by {}
        }
        r
    }
}

/// Whether some id of the list reads `id`.
pub open spec fn lists_id(r: Seq<ExecutorID>, id: Seq<char>) -> bool {
    exists|p: int| 0 <= p < r.len() && (#[trigger] r[p])@ == id
}

/// Whether the snapshot holds executor `id` in state `st`.
pub open spec fn has_executor_in(snap: SnapShot, id: Seq<char>, st: ExecutorState) -> bool {
    exists|i: int|
        0 <= i < snap.executors@.len() && (#[trigger] snap.executors@[i]).id@ == id
            && snap.executors@[i].state == st
}

/// The number of executors bound to session `sid`.
pub open spec fn allocated(execs: Seq<ExecutorInfo>, sid: SessionID) -> int
    decreases execs.len(),
{
    if execs.len() == 0 {
        0
    } else {
        allocated(execs.drop_last(), sid) + if execs.last().ssn_id == Some(sid) {
            1int
        } else {
            0int
        }
    }
}

/// The number of decisions that name session `sid`.
pub open spec fn assigned(pairs: Seq<(SessionID, ExecutorID)>, sid: SessionID) -> int
    decreases pairs.len(),
{
    if pairs.len() == 0 {
        0
    } else {
        assigned(pairs.drop_last(), sid) + if pairs.last().0 == sid {
            1int
        } else {
            0int
        }
    }
}

/// How many more executors a session may take: its slots less the
/// executors already bound to it.
pub open spec fn budget(snap: SnapShot, k: int) -> int {
    snap.sessions@[k].slots - allocated(snap.executors@, snap.sessions@[k].id)
}

/// An open session running the executor's application.
pub open spec fn eligible(s: SessionInfo, e: ExecutorInfo) -> bool {
    s.state == SessionState::Open && s.application@ == e.application@
}

/// Whether some decision names executor `id`.
pub open spec fn names_executor(pairs: Seq<(SessionID, ExecutorID)>, id: Seq<char>) -> bool {
    exists|p: int| 0 <= p < pairs.len() && pairs[p].1@ == id
}

/// The pair names an Idle executor of the snapshot and an open session of
/// its application.
pub open spec fn is_binding_in(snap: SnapShot, pair: (SessionID, ExecutorID)) -> bool {
    exists|k: int, j: int|
        0 <= k < snap.sessions@.len() && 0 <= j < snap.executors@.len()
            && (#[trigger] snap.sessions@[k]).id == pair.0
            && (#[trigger] snap.executors@[j]).id@ == pair.1@
            && snap.executors@[j].state == ExecutorState::Idle
            && eligible(snap.sessions@[k], snap.executors@[j])
}

/// Executor `j` of the snapshot is Bound, holds no task, and its session
/// has Pending tasks.
pub open spec fn wants_task(snap: SnapShot, j: int) -> bool {
    let e = snap.executors@[j];
    &&& e.state == ExecutorState::Bound
    &&& e.task_id is None
    &&& e.ssn_id is Some
    &&& exists|k: int|
        0 <= k < snap.sessions@.len() && (#[trigger] snap.sessions@[k]).id == e.ssn_id->Some_0
            && snap.sessions@[k].pending > 0
}

/// The pair names a Bound executor of the snapshot that holds no task, and
/// its session.
pub open spec fn is_launch_in(snap: SnapShot, pair: (SessionID, ExecutorID)) -> bool {
    exists|j: int|
        0 <= j < snap.executors@.len() && (#[trigger] snap.executors@[j]).id@ == pair.1@
            && snap.executors@[j].state == ExecutorState::Bound
            && snap.executors@[j].task_id is None
            && snap.executors@[j].ssn_id == Some(pair.0)
}

/// The room that session `k` has left once the first `p` decisions are made.
pub open spec fn room_at(snap: SnapShot, pairs: Seq<(SessionID, ExecutorID)>, p: int, k: int) -> int {
    budget(snap, k) - assigned(pairs.subrange(0, p), snap.sessions@[k].id)
}

/// Decision `p` binds its executor (of index `j`) to its session (of index
/// `k`), which had at least as much room left then as every other open
/// session of the executor's application.
pub open spec fn most_room_at(snap: SnapShot, pairs: Seq<(SessionID, ExecutorID)>, p: int, k: int, j: int) -> bool {
    &&& 0 <= k < snap.sessions@.len()
    &&& 0 <= j < snap.executors@.len()
    &&& snap.sessions@[k].id == pairs[p].0
    &&& snap.executors@[j].id@ == pairs[p].1@
    &&& forall|k2: int| 0 <= k2 < snap.sessions@.len() && eligible(#[trigger] snap.sessions@[k2], snap.executors@[j])
        ==> room_at(snap, pairs, p, k2) <= room_at(snap, pairs, p, k)
}

/// Decision `p` went to a session with the most room left at that point.
pub open spec fn went_to_most_room(snap: SnapShot, pairs: Seq<(SessionID, ExecutorID)>, p: int) -> bool {
    exists|k: int, j: int| #[trigger] most_room_at(snap, pairs, p, k, j)
}

proof fn lemma_allocated_bounds(execs: Seq<ExecutorInfo>, sid: SessionID)
    ensures
        0 <= allocated(execs, sid) <= execs.len(),
    decreases execs.len(),
{
    if execs.len() > 0 {
        lemma_allocated_bounds(execs.drop_last(), sid);
    }
}

/// Counts the executors bound to session `sid`.
fn count_allocated(execs: &Vec<ExecutorInfo>, sid: SessionID) -> (r: usize)
    ensures
        r == allocated(execs@, sid),
{
    let mut n: usize = 0;
    let mut i: usize = 0;
    while i < execs.len()
        invariant
            0 <= i <= execs@.len(),
            n == allocated(execs@.subrange(0, i as int), sid),
        decreases execs.len() - i,
    {
        proof {
            let pre = execs@.subrange(0, i as int + 1);
            assert(pre.drop_last() =~= execs@.subrange(0, i as int));
            lemma_allocated_bounds(execs@.subrange(0, i as int), sid);
        }
        if execs[i].ssn_id == Some(sid) {
            n = n + 1;
        }
        i = i + 1;
    }
    assert(execs@.subrange(0, execs@.len() as int) =~= execs@);
    n
}

/// The decisions of the priority policy on a snapshot.
pub open spec fn priority_decisions(snap: SnapShot, d: Decisions) -> bool {
    // Every binding names an Idle executor and an open session of its
    // application; every launch names a Bound executor without a task.
    &&& forall|p: int| 0 <= p < d.bindings@.len() ==> is_binding_in(snap, #[trigger] d.bindings@[p])
    &&& forall|p: int| 0 <= p < d.launches@.len() ==> is_launch_in(snap, #[trigger] d.launches@[p])
    // Every Bound executor without a task whose session has Pending tasks
    // is named for a launch.
    &&& forall|j: int|
        0 <= j < snap.executors@.len() && #[trigger] wants_task(snap, j) ==> names_executor(
            d.launches@,
            snap.executors@[j].id@,
        )
    // No executor is bound twice, nor named for two launches.
    &&& forall|p: int, q: int|
        0 <= p < d.bindings@.len() && 0 <= q < d.bindings@.len() && p != q ==> d.bindings@[p].1@
            != d.bindings@[q].1@
    &&& forall|p: int, q: int|
        0 <= p < d.launches@.len() && 0 <= q < d.launches@.len() && p != q ==> d.launches@[p].1@
            != d.launches@[q].1@
    // Each executor goes to a session with the most room left.
    &&& forall|p: int| 0 <= p < d.bindings@.len() ==> #[trigger] went_to_most_room(snap, d.bindings@, p)
    // No session gets more than its room.
    &&& forall|k: int|
        0 <= k < snap.sessions@.len() ==> assigned(d.bindings@, #[trigger] snap.sessions@[k].id)
            <= if budget(snap, k) > 0 {
            budget(snap, k)
        } else {
            0
        }
    // An Idle executor is left unbound only where no open session of its
    // application has room left.
    &&& forall|j: int, k: int|
        0 <= j < snap.executors@.len() && 0 <= k < snap.sessions@.len()
            && snap.executors@[j].state == ExecutorState::Idle && !names_executor(
            d.bindings@,
            snap.executors@[j].id@,
        ) && eligible(#[trigger] snap.sessions@[k], #[trigger] snap.executors@[j])
            ==> assigned(d.bindings@, snap.sessions@[k].id) >= budget(snap, k)
}

/// The open session with the most room left that runs the executor's
/// application, if any has room left; the first such one on a tie.
fn pick_session(snap: &SnapShot, remaining: &Vec<i128>, j: usize) -> (r: Option<usize>)
    requires
        j < snap.executors@.len(),
        remaining@.len() == snap.sessions@.len(),
    ensures
        match r {
            Some(k) => k < snap.sessions@.len() && eligible(snap.sessions@[k as int], snap.executors@[j as int])
                && remaining@[k as int] > 0
                && forall|k2: int| 0 <= k2 < snap.sessions@.len() && eligible(snap.sessions@[k2], snap.executors@[j as int])
                    ==> remaining@[k2] <= remaining@[k as int],
            None => forall|k: int| 0 <= k < snap.sessions@.len() && eligible(snap.sessions@[k], snap.executors@[j as int])
                ==> remaining@[k] <= 0,
        },
{
    let mut best: Option<usize> = None;
    let mut k: usize = 0;
    while k < snap.sessions.len()
        invariant
            j < snap.executors@.len(),
            remaining@.len() == snap.sessions@.len(),
            0 <= k <= snap.sessions@.len(),
            match best {
                Some(b) => b < k && eligible(snap.sessions@[b as int], snap.executors@[j as int])
                    && remaining@[b as int] > 0
                    && forall|k2: int| 0 <= k2 < k && eligible(snap.sessions@[k2], snap.executors@[j as int])
                        ==> remaining@[k2] <= remaining@[b as int],
                None => forall|k2: int| 0 <= k2 < k && eligible(snap.sessions@[k2], snap.executors@[j as int])
                    ==> remaining@[k2] <= 0,
            },
        decreases snap.sessions.len() - k,
    {
        let s = &snap.sessions[k];
        let e = &snap.executors[j];
        if s.state == SessionState::Open && s.application == e.application && remaining[k] > 0 {
            match best {
                None => { best = Some(k); },
                Some(b) => {
                    if remaining[k] > remaining[b] {
                        best = Some(k);
                    }
                },
            }
        }
        k = k + 1;
    }
    best
}

/// The priority policy. Each Idle executor, in snapshot order, is bound to
/// the open session of its application that has the most room left, where
/// a session's room is its slots less the executors bound to it and those
/// given to it so far. Each Bound executor without a task, whose session
/// has Pending tasks, is to be handed one.
pub fn allocate(snap: &SnapShot) -> (r: Decisions)
    requires
        snap.wf(),
    ensures
        priority_decisions(*snap, r),
{
    let n = snap.sessions.len();
    let mut remaining: Vec<i128> = Vec::new();
    let mut k: usize = 0;
    while k < n
        invariant
            n == snap.sessions@.len(),
            0 <= k <= n,
            remaining@.len() == k,
            forall|k2: int| 0 <= k2 < k ==> #[trigger] remaining@[k2] == budget(*snap, k2),
        decreases n - k,
    {
        let a = count_allocated(&snap.executors, snap.sessions[k].id);
        proof {
            lemma_allocated_bounds(snap.executors@, snap.sessions@[k as int].id);
        }
        remaining.push(snap.sessions[k].slots as i128 - a as i128);
        k = k + 1;
    }
    let mut bindings: Vec<(SessionID, ExecutorID)> = Vec::new();
    let ghost mut ssn_of: Seq<int> = Seq::empty();
    let ghost mut exe_of: Seq<int> = Seq::empty();
    let mut j: usize = 0;
    while j < snap.executors.len()
        invariant
            snap.wf(),
            n == snap.sessions@.len(),
            remaining@.len() == n,
            0 <= j <= snap.executors@.len(),
            forall|k2: int| 0 <= k2 < n ==> #[trigger] remaining@[k2] == budget(*snap, k2) - assigned(bindings@, snap.sessions@[k2].id),
            forall|k2: int| 0 <= k2 < n ==> assigned(bindings@, #[trigger] snap.sessions@[k2].id)
                <= if budget(*snap, k2) > 0 { budget(*snap, k2) } else { 0 },
            ssn_of.len() == bindings@.len(),
            exe_of.len() == bindings@.len(),
            forall|p: int| 0 <= p < bindings@.len() ==> {
                let k2 = #[trigger] ssn_of[p];
                let j2 = exe_of[p];
                &&& 0 <= k2 < n && 0 <= j2 < j
                &&& snap.sessions@[k2].id == bindings@[p].0
                &&& snap.executors@[j2].id@ == bindings@[p].1@
                &&& snap.executors@[j2].state == ExecutorState::Idle
                &&& eligible(snap.sessions@[k2], snap.executors@[j2])
            },
            forall|p: int| 0 <= p < bindings@.len() ==> most_room_at(*snap, bindings@, p, #[trigger] ssn_of[p], exe_of[p]),
            forall|p: int, q: int| 0 <= p < bindings@.len() && 0 <= q < bindings@.len() && p != q
                ==> bindings@[p].1@ != bindings@[q].1@,
            forall|j2: int, k2: int| 0 <= j2 < j && 0 <= k2 < n
                && snap.executors@[j2].state == ExecutorState::Idle
                && !names_executor(bindings@, snap.executors@[j2].id@)
                && eligible(#[trigger] snap.sessions@[k2], #[trigger] snap.executors@[j2])
                ==> remaining@[k2] <= 0,
        decreases snap.executors.len() - j,
    {
        if snap.executors[j].state == ExecutorState::Idle {
            match pick_session(snap, &remaining, j) {
                None => {},
                Some(k) => {
                    let ghost b0 = bindings@;
                    let ghost r0 = remaining@;
                    let sid = snap.sessions[k].id;
                    let eid = snap.executors[j].id.clone();
                    bindings.push((sid, eid));
                    let v = remaining[k] - 1;
                    remaining.set(k, v);
                    proof {
                        let b1 = bindings@;
                        assert(b1.drop_last() =~= b0);
                        assert forall|k2: int| 0 <= k2 < n implies assigned(b1, #[trigger] snap.sessions@[k2].id)
                            == assigned(b0, snap.sessions@[k2].id) + if k2 == k { 1int } else { 0int } by {
                            if k2 != k {
                                assert(snap.sessions@[k2].id != snap.sessions@[k as int].id);
                            }
                        }
                        let so0 = ssn_of;
                        let eo0 = exe_of;
                        ssn_of = ssn_of.push(k as int);
                        exe_of = exe_of.push(j as int);
                        assert forall|p: int| 0 <= p < b1.len() implies most_room_at(*snap, b1, p, #[trigger] ssn_of[p], exe_of[p]) by {
                            assert(b1.subrange(0, p) =~= b0.subrange(0, p) || p == b0.len());
                            if p < b0.len() {
                                assert(b1.subrange(0, p) =~= b0.subrange(0, p));
                                assert(b1[p] == b0[p]);
                                assert(ssn_of[p] == so0[p] && exe_of[p] == eo0[p]);
                                assert(most_room_at(*snap, b0, p, so0[p], eo0[p]));
                            } else {
                                assert(b1.subrange(0, p) =~= b0);
                                assert forall|k2: int| 0 <= k2 < snap.sessions@.len() && eligible(#[trigger] snap.sessions@[k2], snap.executors@[j as int])
                                    implies room_at(*snap, b1, p, k2) <= room_at(*snap, b1, p, k as int) by {
                                    assert(r0[k2] == budget(*snap, k2) - assigned(b0, snap.sessions@[k2].id));
                                }
                            }
                        }
                        assert forall|p: int| 0 <= p < b1.len() implies {
                            let k2 = #[trigger] ssn_of[p];
                            let j2 = exe_of[p];
                            &&& 0 <= k2 < n && 0 <= j2 < j + 1
                            &&& snap.sessions@[k2].id == b1[p].0
                            &&& snap.executors@[j2].id@ == b1[p].1@
                            &&& snap.executors@[j2].state == ExecutorState::Idle
                            &&& eligible(snap.sessions@[k2], snap.executors@[j2])
                        } by {
                            if p < b0.len() {
                                assert(b1[p] == b0[p]);
                                assert(ssn_of[p] == so0[p] && exe_of[p] == eo0[p]);
                            }
                        }
                        assert forall|p: int, q: int| 0 <= p < b1.len() && 0 <= q < b1.len() && p != q
                            implies b1[p].1@ != b1[q].1@ by {
                            if p < b0.len() && q < b0.len() {
                                assert(b1[p] == b0[p] && b1[q] == b0[q]);
                            } else if p < b0.len() {
                                assert(b1[p] == b0[p]);
                                let j2 = eo0[p];
                                assert(0 <= so0[p] < n);
                                assert(0 <= j2 < j);
                                assert(snap.executors@[j2].id@ == b0[p].1@);
                                assert(snap.executors@[j2].id@ != snap.executors@[j as int].id@);
                            } else if q < b0.len() {
                                assert(b1[q] == b0[q]);
                                let j2 = eo0[q];
                                assert(0 <= so0[q] < n);
                                assert(0 <= j2 < j);
                                assert(snap.executors@[j2].id@ == b0[q].1@);
                                assert(snap.executors@[j2].id@ != snap.executors@[j as int].id@);
                            }
                        }
                        assert forall|j2: int, k2: int| 0 <= j2 < j + 1 && 0 <= k2 < n
                            && snap.executors@[j2].state == ExecutorState::Idle
                            && !names_executor(b1, snap.executors@[j2].id@)
                            && eligible(#[trigger] snap.sessions@[k2], #[trigger] snap.executors@[j2])
                            implies remaining@[k2] <= 0 by {
                            if j2 == j {
                                assert(b1[b0.len() as int].1@ == snap.executors@[j2].id@);
                            } else {
                                if names_executor(b0, snap.executors@[j2].id@) {
                                    let p = choose|p: int| 0 <= p < b0.len() && b0[p].1@ == snap.executors@[j2].id@;
                                    assert(b1[p] == b0[p]);
                                }
                                assert(r0[k2] <= 0);
                            }
                        }
                    }
                },
            }
        }
        j = j + 1;
    }
    proof {
        assert forall|p: int| 0 <= p < bindings@.len() implies #[trigger] went_to_most_room(*snap, bindings@, p) by {
            assert(most_room_at(*snap, bindings@, p, ssn_of[p], exe_of[p]));
        }
        assert forall|p: int| 0 <= p < bindings@.len() implies is_binding_in(*snap, #[trigger] bindings@[p]) by {
            let k2 = ssn_of[p];
            let j2 = exe_of[p];
            assert(0 <= k2 < snap.sessions@.len() && 0 <= j2 < snap.executors@.len()
                && snap.sessions@[k2].id == bindings@[p].0
                && snap.executors@[j2].id@ == bindings@[p].1@
                && snap.executors@[j2].state == ExecutorState::Idle
                && eligible(snap.sessions@[k2], snap.executors@[j2]));
        }
    }
    let launches = launch_hints(snap);
    Decisions { bindings, launches }
}

/// The Bound executors without a task whose session has Pending tasks.
fn launch_hints(snap: &SnapShot) -> (r: Vec<(SessionID, ExecutorID)>)
    requires
        snap.wf(),
    ensures
        forall|p: int| 0 <= p < r@.len() ==> is_launch_in(*snap, #[trigger] r@[p]),
        forall|j: int| 0 <= j < snap.executors@.len() && #[trigger] wants_task(*snap, j)
            ==> names_executor(r@, snap.executors@[j].id@),
        forall|p: int, q: int| 0 <= p < r@.len() && 0 <= q < r@.len() && p != q ==> r@[p].1@ != r@[q].1@,
{
    let mut r: Vec<(SessionID, ExecutorID)> = Vec::new();
    let ghost mut src: Seq<int> = Seq::empty();
    let mut j: usize = 0;
    while j < snap.executors.len()
        invariant
            0 <= j <= snap.executors@.len(),
            src.len() == r@.len(),
            forall|p: int| 0 <= p < r@.len() ==> {
                let j2 = #[trigger] src[p];
                &&& 0 <= j2 < snap.executors@.len()
                &&& snap.executors@[j2].id@ == r@[p].1@
                &&& snap.executors@[j2].state == ExecutorState::Bound
                &&& snap.executors@[j2].task_id is None
                &&& snap.executors@[j2].ssn_id == Some(r@[p].0)
            },
            forall|j2: int| 0 <= j2 < j && #[trigger] wants_task(*snap, j2)
                ==> names_executor(r@, snap.executors@[j2].id@),
            forall|p: int| 0 <= p < r@.len() ==> #[trigger] src[p] < j,
            snap.wf(),
            forall|p: int, q: int| 0 <= p < r@.len() && 0 <= q < r@.len() && p != q ==> r@[p].1@ != r@[q].1@,
        decreases snap.executors.len() - j,
    {
        let e = &snap.executors[j];
        if e.state == ExecutorState::Bound && e.task_id.is_none() {
            if let Some(sid) = e.ssn_id {
                if has_pending(snap, sid) {
                    let ghost r0 = r@;
                    r.push((sid, e.id.clone()));
                    proof {
                        let s0 = src;
                        src = src.push(j as int);
                        assert forall|p: int| 0 <= p < r@.len() implies #[trigger] src[p] < j + 1 by {
                            if p < r0.len() {
                                assert(src[p] == s0[p]);
                            }
                        }
                        assert forall|p: int, q: int| 0 <= p < r@.len() && 0 <= q < r@.len() && p != q
                            implies r@[p].1@ != r@[q].1@ by {
                            if p < r0.len() && q < r0.len() {
                                assert(r@[p] == r0[p] && r@[q] == r0[q]);
                            } else if p < r0.len() {
                                assert(r@[p] == r0[p] && src[p] == s0[p] && s0[p] < j);
                                assert(snap.executors@[s0[p]].id@ != snap.executors@[j as int].id@);
                            } else if q < r0.len() {
                                assert(r@[q] == r0[q] && src[q] == s0[q] && s0[q] < j);
                                assert(snap.executors@[s0[q]].id@ != snap.executors@[j as int].id@);
                            }
                        }
                        assert forall|j2: int| 0 <= j2 < j + 1 && #[trigger] wants_task(*snap, j2)
                            implies names_executor(r@, snap.executors@[j2].id@) by {
                            if j2 < j {
                                let p = choose|p: int| 0 <= p < r0.len() && r0[p].1@ == snap.executors@[j2].id@;
                                assert(r@[p] == r0[p]);
                            } else {
                                assert(r@[r0.len() as int].1@ == snap.executors@[j2].id@);
                            }
                        }
                        assert forall|p: int| 0 <= p < r@.len() implies {
                            let j2 = #[trigger] src[p];
                            &&& 0 <= j2 < snap.executors@.len()
                            &&& snap.executors@[j2].id@ == r@[p].1@
                            &&& snap.executors@[j2].state == ExecutorState::Bound
                            &&& snap.executors@[j2].task_id is None
                            &&& snap.executors@[j2].ssn_id == Some(r@[p].0)
                        } by {
                            if p < r0.len() {
                                assert(r@[p] == r0[p] && src[p] == s0[p]);
                            }
                        }
                    }
                }
            }
        }
        j = j + 1;
    }
    proof {
        assert forall|p: int| 0 <= p < r@.len() implies is_launch_in(*snap, #[trigger] r@[p]) by {
            let j2 = src[p];
            assert(0 <= j2 < snap.executors@.len()
                && snap.executors@[j2].id@ == r@[p].1@
                && snap.executors@[j2].state == ExecutorState::Bound
                && snap.executors@[j2].task_id is None
                && snap.executors@[j2].ssn_id == Some(r@[p].0));
        }
    }
    r
}

/// Whether session `sid` has Pending tasks.
fn has_pending(snap: &SnapShot, sid: SessionID) -> (r: bool)
    ensures
        r == exists|k: int| 0 <= k < snap.sessions@.len() && snap.sessions@[k].id == sid && snap.sessions@[k].pending > 0,
{
    let mut k: usize = 0;
    while k < snap.sessions.len()
        invariant
            0 <= k <= snap.sessions@.len(),
            forall|k2: int| 0 <= k2 < k ==> !(snap.sessions@[k2].id == sid && snap.sessions@[k2].pending > 0),
        decreases snap.sessions.len() - k,
    {
        if snap.sessions[k].id == sid && snap.sessions[k].pending > 0 {
            return true;
        }
        k = k + 1;
    }
    false
}

/// Executor `eid` is Idle in the store and session `sid` is an open session
/// of its application.
pub open spec fn binding_allowed(st: StorageView, sid: SessionID, eid: Seq<char>) -> bool {
    &&& st.executors.contains_key(eid)
    &&& st.executors[eid].state == ExecutorState::Idle
    &&& st.sessions.contains_key(sid)
    &&& st.sessions[sid].state == SessionState::Open
    &&& st.sessions[sid].application == st.executors[eid].application.name
}

/// Executor `eid` was Bound to session `sid` without a task: a launch may
/// hand it one.
pub open spec fn launch_allowed(st: StorageView, sid: SessionID, eid: Seq<char>) -> bool {
    &&& st.executors.contains_key(eid)
    &&& st.executors[eid].state == ExecutorState::Bound
    &&& st.executors[eid].ssn_id == Some(sid)
    &&& st.executors[eid].task_id is None
}

/// Executor `eid` is Bound to session `sid`, and holds a task unless that
/// session has no Pending task left.
pub open spec fn launch_done(st: StorageView, sid: SessionID, eid: Seq<char>) -> bool {
    &&& st.executors.contains_key(eid)
    &&& st.executors[eid].state == ExecutorState::Bound
    &&& st.executors[eid].ssn_id == Some(sid)
    &&& st.executors[eid].task_id is None ==> !(st.sessions.contains_key(sid)
        && st.sessions[sid].tasks_by_state[0].len() > 0)
}

/// One pass of the scheduler: a snapshot of the store goes to the policy;
/// each chosen executor is bound to its session, and each executor named
/// for a launch is handed a task. A decision that the store refuses by now
/// (the executor has moved on) is dropped. No record appears or vanishes,
/// and an executor that no decision names keeps its record. The result is
/// the snapshot and the decisions made on it.
pub fn schedule_once(storage: &mut Storage, policy: &Policy) -> (r: (SnapShot, Decisions))
    requires
        old(storage).wf(),
    ensures
        final(storage).wf(),
        final(storage)@.next_ssn_id >= old(storage)@.next_ssn_id,
        pictures(r.0, old(storage)@),
        *policy == Policy::Priority ==> priority_decisions(r.0, r.1),
        final(storage)@.sessions.dom() == old(storage)@.sessions.dom(),
        final(storage)@.executors.dom() == old(storage)@.executors.dom(),
        forall|p: int| 0 <= p < r.1.bindings@.len() ==> {
            let (sid, eid) = #[trigger] r.1.bindings@[p];
            &&& binding_allowed(old(storage)@, sid, eid@)
            &&& final(storage)@.executors[eid@].state == ExecutorState::Binding
            &&& final(storage)@.executors[eid@].ssn_id == Some(sid)
        },
        forall|p: int| 0 <= p < r.1.launches@.len() ==> {
            let (sid, eid) = #[trigger] r.1.launches@[p];
            &&& launch_allowed(old(storage)@, sid, eid@)
            &&& launch_done(final(storage)@, sid, eid@)
        },
        forall|k: Seq<char>|
            #[trigger] old(storage)@.executors.contains_key(k) && !names_executor(r.1.bindings@, k)
                && !names_executor(r.1.launches@, k) ==> final(storage)@.executors[k]
                == old(storage)@.executors[k],
{
    let snap = storage.snapshot();
    let d = policy.allocate(&snap);
    let ghost st0 = storage@;
    let ghost ed = storage@.executors.dom();
    let ghost sd = storage@.sessions.dom();
    let ghost nb = d.bindings@.len();
    let ghost nl = d.launches@.len();
    proof {
        storage.lemma_wf_view();
        assert forall|p: int| 0 <= p < d.bindings@.len() implies binding_allowed(
            st0,
            (#[trigger] d.bindings@[p]).0,
            d.bindings@[p].1@,
        ) by {
            assert(is_binding_in(snap, d.bindings@[p]));
            let (k, j) = choose|k: int, j: int|
                0 <= k < snap.sessions@.len() && 0 <= j < snap.executors@.len()
                    && (#[trigger] snap.sessions@[k]).id == d.bindings@[p].0
                    && (#[trigger] snap.executors@[j]).id@ == d.bindings@[p].1@
                    && snap.executors@[j].state == ExecutorState::Idle
                    && eligible(snap.sessions@[k], snap.executors@[j]);
            assert(session_info_of(snap.sessions@[k], st0.sessions[snap.sessions@[k].id]));
            assert(executor_info_of(snap.executors@[j], st0.executors[snap.executors@[j].id@]));
        }
        assert forall|p: int| 0 <= p < d.launches@.len() implies launch_allowed(
            st0,
            (#[trigger] d.launches@[p]).0,
            d.launches@[p].1@,
        ) by {
            assert(is_launch_in(snap, d.launches@[p]));
            let j = choose|j: int|
                0 <= j < snap.executors@.len() && (#[trigger] snap.executors@[j]).id@ == d.launches@[p].1@
                    && snap.executors@[j].state == ExecutorState::Bound
                    && snap.executors@[j].task_id is None
                    && snap.executors@[j].ssn_id == Some(d.launches@[p].0);
            assert(executor_info_of(snap.executors@[j], st0.executors[snap.executors@[j].id@]));
        }
        assert forall|p: int| 0 <= p < d.launches@.len() implies !names_executor(
            d.bindings@,
            (#[trigger] d.launches@[p]).1@,
        ) by {
            if names_executor(d.bindings@, d.launches@[p].1@) {
                let q = choose|q: int| 0 <= q < d.bindings@.len() && d.bindings@[q].1@ == d.launches@[p].1@;
                assert(binding_allowed(st0, d.bindings@[q].0, d.bindings@[q].1@));
                assert(launch_allowed(st0, d.launches@[p].0, d.launches@[p].1@));
            }
        }
    }
    let mut p: usize = 0;
    while p < d.bindings.len()
        invariant
            storage.wf(),
            storage@.wf(),
            storage@.sessions == st0.sessions,
            storage@.next_ssn_id >= st0.next_ssn_id,
            ed == st0.executors.dom(),
            storage@.executors.dom() == ed,
            nb == d.bindings@.len(),
            0 <= p <= d.bindings@.len(),
            forall|a: int, b: int| 0 <= a < d.bindings@.len() && 0 <= b < d.bindings@.len() && a != b
                ==> d.bindings@[a].1@ != d.bindings@[b].1@,
            forall|q: int| 0 <= q < d.bindings@.len() ==> binding_allowed(st0, (#[trigger] d.bindings@[q]).0, d.bindings@[q].1@),
            forall|q: int| p <= q < d.bindings@.len() ==> storage@.executors[(#[trigger] d.bindings@[q]).1@]
                == st0.executors[d.bindings@[q].1@],
            forall|q: int| 0 <= q < p ==> storage@.executors[(#[trigger] d.bindings@[q]).1@].state
                == ExecutorState::Binding && storage@.executors[d.bindings@[q].1@].ssn_id == Some(d.bindings@[q].0),
            forall|k: Seq<char>| #[trigger] st0.executors.contains_key(k) && !names_executor(d.bindings@, k)
                ==> storage@.executors[k] == st0.executors[k],
        decreases d.bindings.len() - p,
    {
        let (sid, eid) = (d.bindings[p].0, d.bindings[p].1.clone());
        let ghost before = storage@;
        proof {
            assert(binding_allowed(st0, d.bindings@[p as int].0, d.bindings@[p as int].1@));
            assert(eid@ == d.bindings@[p as int].1@);
            assert(st0.executors.contains_key(eid@));
            assert(ed.contains(eid@));
            assert(before.executors.dom().contains(eid@));
            assert(before.executors[eid@] == st0.executors[eid@]);
            assert(before.executors.dom().insert(eid@) =~= before.executors.dom());
        }
        let res = storage.bind_session(eid, sid);
        proof {
            assert(res is Ok);
            storage.lemma_wf_view();
            assert forall|q: int| p + 1 <= q < d.bindings@.len() implies storage@.executors[(#[trigger] d.bindings@[q]).1@]
                == st0.executors[d.bindings@[q].1@] by {
                assert(d.bindings@[q].1@ != d.bindings@[p as int].1@);
            }
            assert forall|q: int| 0 <= q < p + 1 implies storage@.executors[(#[trigger] d.bindings@[q]).1@].state
                == ExecutorState::Binding && storage@.executors[d.bindings@[q].1@].ssn_id == Some(d.bindings@[q].0) by {
                if q < p {
                    assert(d.bindings@[q].1@ != d.bindings@[p as int].1@);
                }
            }
            assert forall|k: Seq<char>| #[trigger] st0.executors.contains_key(k) && !names_executor(d.bindings@, k)
                implies storage@.executors[k] == st0.executors[k] by {
                if k == eid@ {
                    assert(d.bindings@[p as int].1@ == k);
                }
            }
        }
        p = p + 1;
    }
    let mut p: usize = 0;
    while p < d.launches.len()
        invariant
            storage.wf(),
            storage@.wf(),
            storage@.sessions.dom() == sd,
            storage@.next_ssn_id >= st0.next_ssn_id,
            sd == st0.sessions.dom(),
            ed == st0.executors.dom(),
            storage@.executors.dom() == ed,
            nb == d.bindings@.len(),
            nl == d.launches@.len(),
            0 <= p <= d.launches@.len(),
            forall|a: int, b: int| 0 <= a < d.launches@.len() && 0 <= b < d.launches@.len() && a != b
                ==> d.launches@[a].1@ != d.launches@[b].1@,
            forall|q: int| 0 <= q < d.bindings@.len() ==> storage@.executors[(#[trigger] d.bindings@[q]).1@].state
                == ExecutorState::Binding && storage@.executors[d.bindings@[q].1@].ssn_id == Some(d.bindings@[q].0),
            forall|q: int| 0 <= q < d.bindings@.len() ==> binding_allowed(st0, (#[trigger] d.bindings@[q]).0, d.bindings@[q].1@),
            forall|q: int| 0 <= q < d.launches@.len() ==> launch_allowed(st0, (#[trigger] d.launches@[q]).0, d.launches@[q].1@),
            forall|q: int| 0 <= q < d.launches@.len() ==> !names_executor(d.bindings@, (#[trigger] d.launches@[q]).1@),
            forall|q: int| p <= q < d.launches@.len() ==> storage@.executors[(#[trigger] d.launches@[q]).1@]
                == st0.executors[d.launches@[q].1@],
            forall|q: int| 0 <= q < p ==> launch_done(storage@, (#[trigger] d.launches@[q]).0, d.launches@[q].1@),
            forall|k: Seq<char>| #[trigger] st0.executors.contains_key(k) && !names_executor(d.bindings@, k)
                && !names_executor(d.launches@, k) ==> storage@.executors[k] == st0.executors[k],
        decreases d.launches.len() - p,
    {
        let (sid, eid) = (d.launches[p].0, d.launches[p].1.clone());
        let ghost before = storage@;
        proof {
            assert(launch_allowed(st0, d.launches@[p as int].0, d.launches@[p as int].1@));
            assert(eid@ == d.launches@[p as int].1@);
            assert(before.executors[eid@] == st0.executors[eid@]);
            assert(before.executors.dom().insert(eid@) =~= before.executors.dom());
            if before.sessions.contains_key(sid) {
                assert(before.sessions.dom().insert(sid) =~= before.sessions.dom());
            }
        }
        let _ = storage.launch_task(eid);
        proof {
            storage.lemma_wf_view();
            let after = storage@;
            // The pass touched executor `eid` alone, and session `sid` only
            // where it had a Pending task.
            assert(after.sessions == before.sessions || (before.sessions.contains_key(sid)
                && before.sessions[sid].tasks_by_state[0].len() > 0 && after.sessions.dom() == before.sessions.dom()
                && forall|s2: SessionID| s2 != sid ==> #[trigger] after.sessions[s2] == before.sessions[s2]));
            assert(forall|k: Seq<char>| k != eid@ ==> #[trigger] after.executors[k] == before.executors[k]);
            assert(launch_done(after, sid, eid@));
            assert forall|q: int| p + 1 <= q < d.launches@.len() implies storage@.executors[(#[trigger] d.launches@[q]).1@]
                == st0.executors[d.launches@[q].1@] by {
                assert(d.launches@[q].1@ != d.launches@[p as int].1@);
            }
            assert forall|q: int| 0 <= q < p + 1 implies launch_done(storage@, (#[trigger] d.launches@[q]).0, d.launches@[q].1@) by {
                if q < p {
                    assert(d.launches@[q].1@ != d.launches@[p as int].1@);
                    assert(launch_done(before, d.launches@[q].0, d.launches@[q].1@));
                }
            }
            assert forall|q: int| 0 <= q < d.bindings@.len() implies storage@.executors[(#[trigger] d.bindings@[q]).1@].state
                == ExecutorState::Binding && storage@.executors[d.bindings@[q].1@].ssn_id == Some(d.bindings@[q].0) by {
                if d.bindings@[q].1@ == eid@ {
                    assert(names_executor(d.bindings@, d.launches@[p as int].1@));
                }
            }
            assert forall|k: Seq<char>| #[trigger] st0.executors.contains_key(k) && !names_executor(d.bindings@, k)
                && !names_executor(d.launches@, k) implies storage@.executors[k] == st0.executors[k] by {
                if k == eid@ {
                    assert(d.launches@[p as int].1@ == k);
                }
            }
        }
        p = p + 1;
    }
    (snap, d)
}

/// The dispatch policies, chosen by name in the configuration.
#[derive(Clone, Copy, Debug, PartialEq, Eq, Structural)]
pub enum Policy {
    Priority,
}

impl Policy {
    /// The policy of a configured name: `"priority"` is the one there is.
    pub fn from_name(name: &String) -> (r: Result<Policy, FlameError>)
        ensures
            name@ == "priority"@ <==> r is Ok,
            r is Ok ==> r->Ok_0 == Policy::Priority,
            r is Err ==> r->Err_0 is InvalidConfig,
    {
        let known = String::from_str("priority");
        if *name == known {
            Ok(Policy::Priority)
        } else {
            Err(FlameError::InvalidConfig(name.clone()))
        }
    }

    /// The decisions of this policy on a snapshot.
    pub fn allocate(&self, snap: &SnapShot) -> (r: Decisions)
        requires
            snap.wf(),
        ensures
            *self == Policy::Priority ==> priority_decisions(*snap, r),
    {
        match self {
            Policy::Priority => allocate(snap),
        }
    }
}

} // verus!
