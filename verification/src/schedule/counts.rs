//! The number of dependencies a system still waits for.
use crate::system::{SystemId, END_ID};
use vstd::prelude::*;

verus! {

/// How many of the dependencies are still waiting, given the identities that
/// were released so far.
pub open spec fn pending(deps: Seq<SystemId>, done: Set<SystemId>) -> nat
    decreases deps.len(),
{
    if deps.len() == 0 {
        0
    } else {
        pending(deps.drop_last(), done) + if done.contains(deps.last()) {
            0nat
        } else {
            1nat
        }
    }
}

/// The identities released once the systems of `queue` were extracted, the
/// barrier among them when it is `open`.
pub open spec fn released(queue: Seq<SystemId>, open: bool) -> Set<SystemId> {
    Set::new(|id: SystemId| queue.contains(id) || (open && id == END_ID))
}

/// Before anything is released, every dependency is waiting.
pub(crate) proof fn lemma_pending_initial(deps: Seq<SystemId>)
    ensures
        pending(deps, released(Seq::empty(), false)) == deps.len(),
    decreases deps.len(),
{
    if deps.len() > 0 {
        lemma_pending_initial(deps.drop_last());
    }
}

/// Nothing waits exactly when every dependency was released.
pub(crate) proof fn lemma_pending_zero(deps: Seq<SystemId>, done: Set<SystemId>)
    ensures
        pending(deps, done) == 0 <==> forall|k: int|
            0 <= k < deps.len() ==> done.contains(#[trigger] deps[k]),
    decreases deps.len(),
{
    if deps.len() > 0 {
        let front = deps.drop_last();
        lemma_pending_zero(front, done);
        if pending(deps, done) == 0 {
            assert forall|k: int| 0 <= k < deps.len() implies done.contains(
                #[trigger] deps[k],
            ) by {
                if k < front.len() {
                    assert(front[k] == deps[k]);
                }
            }
        }
        if forall|k: int| 0 <= k < deps.len() ==> done.contains(#[trigger] deps[k]) {
            assert forall|k: int| 0 <= k < front.len() implies done.contains(
                #[trigger] front[k],
            ) by {
                assert(front[k] == deps[k]);
            }
            assert(done.contains(deps[deps.len() - 1]));
        }
    }
}

/// Releasing one more identity takes one off the count of a system that
/// names it, and leaves every other count as it is.
pub(crate) proof fn lemma_pending_release(deps: Seq<SystemId>, done: Set<SystemId>, x: SystemId)
    requires
        deps.no_duplicates(),
        !done.contains(x),
    ensures
        deps.contains(x) ==> pending(deps, done.insert(x)) == pending(deps, done) - 1,
        !deps.contains(x) ==> pending(deps, done.insert(x)) == pending(deps, done),
    decreases deps.len(),
{
    if deps.len() > 0 {
        let front = deps.drop_last();
        let last = deps.last();
        assert(front.no_duplicates()) by {
            assert forall|a: int, b: int| 0 <= a < front.len() && 0 <= b < front.len() && a
                != b implies front[a] != front[b] by {
                assert(front[a] == deps[a] && front[b] == deps[b]);
            }
        }
        lemma_pending_release(front, done, x);
        if front.contains(x) {
            let k = choose|k: int| 0 <= k < front.len() && front[k] == x;
            assert(deps[k] == x);
            assert(deps.contains(x));
            assert(last != x);
        } else if last == x {
            assert(deps[deps.len() - 1] == x);
            assert(deps.contains(x));
        } else {
            if deps.contains(x) {
                let k = choose|k: int| 0 <= k < deps.len() && deps[k] == x;
                if k < front.len() {
                    assert(front[k] == x);
                }
            }
        }
    }
}

/// Extracting a system releases its identity.
pub(crate) proof fn lemma_released_push(queue: Seq<SystemId>, open: bool, x: SystemId)
    ensures
        released(queue.push(x), open) == released(queue, open).insert(x),
{
    assert forall|id: SystemId| released(queue.push(x), open).contains(id) <==> released(
        queue,
        open,
    ).insert(x).contains(id) by {
        if queue.contains(id) {
            let k = choose|k: int| 0 <= k < queue.len() && queue[k] == id;
            assert(queue.push(x)[k] == id);
        }
        if queue.push(x).contains(id) {
            let k = choose|k: int| 0 <= k < queue.push(x).len() && queue.push(x)[k] == id;
            if k < queue.len() {
                assert(queue[k] == id);
            }
        }
        assert(queue.push(x)[queue.len() as int] == x);
    }
    assert(released(queue.push(x), open) =~= released(queue, open).insert(x));
}

/// Opening the barrier releases its identity.
pub(crate) proof fn lemma_released_open(queue: Seq<SystemId>)
    ensures
        released(queue, true) == released(queue, false).insert(END_ID),
{
    assert(released(queue, true) =~= released(queue, false).insert(END_ID));
}

} // verus!
