use vstd::prelude::*;

use crate::model::ExecutorState;

verus! {

/// The verbs of the executor lifecycle.
#[derive(Clone, Copy, Debug, PartialEq, Eq, Structural)]
pub enum ExecutorVerb {
    BindSession,
    BindSessionCompleted,
    LaunchTask,
    CompleteTask,
    UnbindExecutor,
    UnbindExecutorCompleted,
}

/// The state that a verb leads to, or `None` where the verb is not legal in
/// that state.
pub open spec fn next_state(s: ExecutorState, v: ExecutorVerb) -> Option<ExecutorState> {
    match (s, v) {
        (ExecutorState::Idle, ExecutorVerb::BindSession) => Some(ExecutorState::Binding),
        (ExecutorState::Binding, ExecutorVerb::BindSessionCompleted) => Some(ExecutorState::Bound),
        (ExecutorState::Binding, ExecutorVerb::UnbindExecutor) => Some(ExecutorState::Unbinding),
        (ExecutorState::Bound, ExecutorVerb::LaunchTask) => Some(ExecutorState::Bound),
        (ExecutorState::Bound, ExecutorVerb::CompleteTask) => Some(ExecutorState::Bound),
        (ExecutorState::Bound, ExecutorVerb::UnbindExecutor) => Some(ExecutorState::Unbinding),
        (ExecutorState::Unbinding, ExecutorVerb::CompleteTask) => Some(ExecutorState::Unbinding),
        (ExecutorState::Unbinding, ExecutorVerb::UnbindExecutorCompleted) => Some(
            ExecutorState::Idle,
        ),
        _ => None,
    }
}

/// The state after a sequence of verbs, or `None` where one of them is not
/// legal in the state it meets.
pub open spec fn run_verbs(s: ExecutorState, vs: Seq<ExecutorVerb>) -> Option<ExecutorState>
    decreases vs.len(),
{
    if vs.len() == 0 {
        Some(s)
    } else {
        match run_verbs(s, vs.drop_last()) {
            Some(t) => next_state(t, vs.last()),
            None => None,
        }
    }
}

pub fn transition(s: ExecutorState, v: ExecutorVerb) -> (r: Option<ExecutorState>)
    ensures
        r == next_state(s, v),
{
    match (s, v) {
        (ExecutorState::Idle, ExecutorVerb::BindSession) => Some(ExecutorState::Binding),
        (ExecutorState::Binding, ExecutorVerb::BindSessionCompleted) => Some(ExecutorState::Bound),
        (ExecutorState::Binding, ExecutorVerb::UnbindExecutor) => Some(ExecutorState::Unbinding),
        (ExecutorState::Bound, ExecutorVerb::LaunchTask) => Some(ExecutorState::Bound),
        (ExecutorState::Bound, ExecutorVerb::CompleteTask) => Some(ExecutorState::Bound),
        (ExecutorState::Bound, ExecutorVerb::UnbindExecutor) => Some(ExecutorState::Unbinding),
        (ExecutorState::Unbinding, ExecutorVerb::CompleteTask) => Some(ExecutorState::Unbinding),
        (ExecutorState::Unbinding, ExecutorVerb::UnbindExecutorCompleted) => Some(
            ExecutorState::Idle,
        ),
        _ => None,
    }
}

/// The state after a sequence of verbs from `s`.
pub fn replay(s: ExecutorState, vs: &Vec<ExecutorVerb>) -> (r: Option<ExecutorState>)
    ensures
        r == run_verbs(s, vs@),
{
    let mut cur: Option<ExecutorState> = Some(s);
    let mut i: usize = 0;
    while i < vs.len()
        invariant
            0 <= i <= vs.len(),
            cur == run_verbs(s, vs@.subrange(0, i as int)),
        decreases vs.len() - i,
    {
        proof {
            let pre = vs@.subrange(0, i as int + 1);
            assert(pre.drop_last() =~= vs@.subrange(0, i as int));
            assert(pre.last() == vs@[i as int]);
        }
        cur = match cur {
            Some(t) => transition(t, vs[i]),
            None => None,
        };
        i = i + 1;
    }
    assert(vs@.subrange(0, vs@.len() as int) =~= vs@);
    cur
}

/// One more verb moves the state on from where the sequence left it.
pub proof fn lemma_run_verbs_push(s: ExecutorState, vs: Seq<ExecutorVerb>, v: ExecutorVerb)
    ensures
        run_verbs(s, vs.push(v)) == match run_verbs(s, vs) {
            Some(t) => next_state(t, v),
            None => None,
        },
{
    assert(vs.push(v).drop_last() =~= vs);
}

/// The state after a sequence of verbs in which a verb that is not legal
/// in the state it meets is refused and leaves the state as it was.
pub open spec fn settle_verbs(s: ExecutorState, vs: Seq<ExecutorVerb>) -> ExecutorState
    decreases vs.len(),
{
    if vs.len() == 0 {
        s
    } else {
        let t = settle_verbs(s, vs.drop_last());
        match next_state(t, vs.last()) {
            Some(u) => u,
            None => t,
        }
    }
}

/// One more verb moves the settled state on, or leaves it where the verb
/// is refused.
pub proof fn lemma_settle_verbs_push(s: ExecutorState, vs: Seq<ExecutorVerb>, v: ExecutorVerb)
    ensures
        settle_verbs(s, vs.push(v)) == match next_state(settle_verbs(s, vs), v) {
            Some(u) => u,
            None => settle_verbs(s, vs),
        },
{
    assert(vs.push(v).drop_last() =~= vs);
}

/// Binding an idle executor, then unbinding it, then completing the unbind
/// brings it back to Idle.
pub proof fn lemma_bind_unbind_round_trip()
    ensures
        run_verbs(
            ExecutorState::Idle,
            seq![ExecutorVerb::BindSession, ExecutorVerb::UnbindExecutor, ExecutorVerb::UnbindExecutorCompleted],
        ) == Some(ExecutorState::Idle),
{
    let vs = seq![ExecutorVerb::BindSession, ExecutorVerb::UnbindExecutor, ExecutorVerb::UnbindExecutorCompleted];
    lemma_run_verbs_push(ExecutorState::Idle, Seq::<ExecutorVerb>::empty(), ExecutorVerb::BindSession);
    assert(Seq::<ExecutorVerb>::empty().push(ExecutorVerb::BindSession) =~= vs.subrange(0, 1));
    lemma_run_verbs_push(ExecutorState::Idle, vs.subrange(0, 1), ExecutorVerb::UnbindExecutor);
    assert(vs.subrange(0, 1).push(ExecutorVerb::UnbindExecutor) =~= vs.subrange(0, 2));
    lemma_run_verbs_push(ExecutorState::Idle, vs.subrange(0, 2), ExecutorVerb::UnbindExecutorCompleted);
    assert(vs.subrange(0, 2).push(ExecutorVerb::UnbindExecutorCompleted) =~= vs);
}

} // verus!
