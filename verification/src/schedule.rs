//! The dependency scheduler: what a valid execution order is, and the
//! algorithm that derives one.
//!
//! The order is built by repeatedly extracting a system none of whose
//! dependencies is still waiting. The barrier is never extracted; when no
//! system can be extracted any more, the barrier is released and extraction
//! resumes, so the order consists of the systems that do not depend on the
//! barrier followed by those that do.
//!
//! This module holds the model: what it means for an order to be a valid
//! schedule of a registry. `adjacency` builds the inverse adjacency, `counts`
//! defines the number of dependencies a system still waits for, and `order`
//! derives the order.
pub mod adjacency;
pub mod counts;
pub mod order;

use crate::system::{records, Record, ScheduleError, SystemId, SystemInfo, END_ID};
use vstd::prelude::*;

verus! {

/// Whether a system is registered under the identity.
pub open spec fn registered(g: Seq<Record>, id: SystemId) -> bool {
    exists|i: int| 0 <= i < g.len() && g[i].id == id
}

/// Whether the system registered as `a` names `b` as a dependency.
pub open spec fn depends(g: Seq<Record>, a: SystemId, b: SystemId) -> bool {
    exists|i: int| 0 <= i < g.len() && g[i].id == a && g[i].deps.contains(b)
}

/// No two records share an identity, and no record names a dependency twice.
pub open spec fn well_formed(g: Seq<Record>) -> bool {
    &&& forall|i: int, j: int| 0 <= i < j < g.len() ==> g[i].id != g[j].id
    &&& forall|i: int| 0 <= i < g.len() ==> (#[trigger] g[i]).deps.no_duplicates()
}

/// Every named dependency is a registered system or the barrier.
pub open spec fn resolves(g: Seq<Record>) -> bool {
    forall|a: SystemId, b: SystemId| #[trigger]
        depends(g, a, b) ==> b == END_ID || registered(g, b)
}

/// The order holds each registered system exactly once, and nothing else.
pub open spec fn covers(g: Seq<Record>, order: Seq<SystemId>) -> bool {
    &&& order.no_duplicates()
    &&& forall|id: SystemId| order.contains(id) <==> registered(g, id)
}

/// Whether `d` stands at a position before `p`.
pub open spec fn precedes(order: Seq<SystemId>, p: int, d: SystemId) -> bool {
    exists|q: int| 0 <= q < p && q < order.len() && order[q] == d
}

/// Every declared dependency stands strictly before its dependent; the
/// barrier, which has no position, is exempt.
pub open spec fn respects_dependencies(g: Seq<Record>, order: Seq<SystemId>) -> bool {
    forall|p: int, d: SystemId|
        0 <= p < order.len() && #[trigger] depends(g, order[p], d) && d != END_ID ==> precedes(
            order,
            p,
            d,
        )
}

/// The order is a topological order of the registered systems.
pub open spec fn topological(g: Seq<Record>, order: Seq<SystemId>) -> bool {
    covers(g, order) && respects_dependencies(g, order)
}

/// Some order puts every dependency before its dependent: the dependencies
/// form no cycle and name no unknown system.
pub open spec fn schedulable(g: Seq<Record>) -> bool {
    exists|order: Seq<SystemId>| topological(g, order)
}

/// Whether a chain of at most `depth` dependency edges leads from the system
/// to the barrier.
pub open spec fn reaches_barrier_within(g: Seq<Record>, id: SystemId, depth: nat) -> bool
    decreases depth,
{
    depth > 0 && (depends(g, id, END_ID) || exists|d: SystemId|
        depends(g, id, d) && reaches_barrier_within(g, d, (depth - 1) as nat))
}

/// Whether the system depends on the barrier, directly or through others.
pub open spec fn reaches_barrier(g: Seq<Record>, id: SystemId) -> bool {
    exists|depth: nat| reaches_barrier_within(g, id, depth)
}

/// Every system that depends on the barrier stands strictly after every
/// system that does not.
pub open spec fn barrier_last(g: Seq<Record>, order: Seq<SystemId>) -> bool {
    forall|p: int, q: int|
        0 <= p < order.len() && 0 <= q < order.len() && reaches_barrier(g, order[p])
            && !reaches_barrier(g, order[q]) ==> q < p
}

/// What a stage may run: a topological order in which the systems behind the
/// barrier come last.
pub open spec fn valid_schedule(g: Seq<Record>, order: Seq<SystemId>) -> bool {
    topological(g, order) && barrier_last(g, order)
}

/// An order can be derived: the barrier's identity is free, every dependency
/// resolves, and the dependencies form no cycle.
pub open spec fn has_schedule(g: Seq<Record>) -> bool {
    !registered(g, END_ID) && resolves(g) && schedulable(g)
}

/// What each error says of the registry it was derived from.
pub open spec fn schedule_failure(g: Seq<Record>, error: ScheduleError) -> bool {
    match error {
        ScheduleError::BarrierRegistered => registered(g, END_ID),
        ScheduleError::UnknownDependency { system, dependency } => {
            &&& !registered(g, END_ID)
            &&& depends(g, system, dependency)
            &&& dependency != END_ID
            &&& !registered(g, dependency)
        },
        ScheduleError::Cycle => !registered(g, END_ID) && resolves(g) && !schedulable(g),
    }
}

/// An error is reported only for a registry of which no order can be
/// derived.
pub proof fn lemma_failure_excludes_schedule(g: Seq<Record>, error: ScheduleError)
    requires
        schedule_failure(g, error),
    ensures
        !has_schedule(g),
{
}

/// In a valid schedule a system stands strictly behind each system it
/// depends on.
pub proof fn lemma_dependency_first(g: Seq<Record>, order: Seq<SystemId>, p: int, q: int)
    requires
        valid_schedule(g, order),
        !registered(g, END_ID),
        0 <= p < order.len(),
        0 <= q < order.len(),
        depends(g, order[p], order[q]),
    ensures
        q < p,
{
    assert(order.contains(order[q]));
    assert(precedes(order, p, order[q]));
}

/// In a valid schedule every system that depends on the barrier, directly or
/// through others, stands strictly behind every system that does not.
pub proof fn lemma_barrier_last(g: Seq<Record>, order: Seq<SystemId>, p: int, q: int)
    requires
        valid_schedule(g, order),
        0 <= p < order.len(),
        0 <= q < order.len(),
        reaches_barrier(g, order[p]),
        !reaches_barrier(g, order[q]),
    ensures
        q < p,
{
}

/// With distinct identities, the record at a position decides what its
/// system depends on.
pub proof fn lemma_depends_at(g: Seq<Record>, i: int, d: SystemId)
    requires
        well_formed(g),
        0 <= i < g.len(),
    ensures
        depends(g, g[i].id, d) <==> g[i].deps.contains(d),
        registered(g, g[i].id),
{
    if depends(g, g[i].id, d) {
        let j = choose|j: int| 0 <= j < g.len() && g[j].id == g[i].id && g[j].deps.contains(d);
        assert(j == i);
    }
}

/// A topological order exists only where every dependency resolves.
pub proof fn lemma_topological_resolves(g: Seq<Record>, order: Seq<SystemId>)
    requires
        topological(g, order),
    ensures
        resolves(g),
{
    assert forall|a: SystemId, b: SystemId| #[trigger] depends(g, a, b) implies b == END_ID
        || registered(g, b) by {
        if b != END_ID {
            let i = choose|i: int| 0 <= i < g.len() && g[i].id == a && g[i].deps.contains(b);
            assert(registered(g, a));
            assert(order.contains(a));
            let p = choose|p: int| 0 <= p < order.len() && order[p] == a;
            assert(depends(g, order[p], b));
            assert(precedes(order, p, b));
            let q = choose|q: int| 0 <= q < p && q < order.len() && order[q] == b;
            assert(order.contains(b));
        }
    }
}

/// The first position of a record with the given identity.
pub fn find_index(systems: &Vec<SystemInfo>, id: SystemId) -> (at: Option<usize>)
    ensures
        match at {
            Some(i) => {
                &&& i < systems@.len()
                &&& records(systems@)[i as int].id == id
                &&& forall|j: int| 0 <= j < i ==> records(systems@)[j].id != id
            },
            None => !registered(records(systems@), id),
        },
{
    let mut i: usize = 0;
    while i < systems.len()
        invariant
            i <= systems@.len(),
            forall|j: int| 0 <= j < i ==> records(systems@)[j].id != id,
        decreases systems@.len() - i,
    {
        if systems[i].id == id {
            return Some(i);
        }
        i += 1;
    }
    None
}

} // verus!
