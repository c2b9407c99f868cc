//! Derivation of the execution order by extraction of ready systems.
use crate::schedule::adjacency::{build_adjacency, consumers_of, Adjacency};
use crate::schedule::counts::{
    lemma_pending_initial, lemma_pending_release, lemma_pending_zero, lemma_released_open,
    lemma_released_push, pending, released,
};
use crate::schedule::{
    depends, find_index, has_schedule, lemma_depends_at, lemma_topological_resolves, precedes,
    reaches_barrier, reaches_barrier_within, registered, schedulable, schedule_failure,
    topological, valid_schedule, well_formed,
};
use crate::system::{records, Record, ScheduleError, SystemId, SystemInfo, END_ID};
use vstd::prelude::*;

verus! {

/// The counts table agrees with the queue: a system has no entry exactly when
/// it was extracted, and the entry of a waiting system is the number of its
/// dependencies that were not released yet.
pub open spec fn counted(
    g: Seq<Record>,
    counts: Seq<Option<usize>>,
    queue: Seq<SystemId>,
    done: Set<SystemId>,
) -> bool {
    &&& counts.len() == g.len()
    &&& forall|i: int|
        0 <= i < g.len() ==> ((#[trigger] counts[i]) is None <==> queue.contains(g[i].id))
    &&& forall|i: int|
        0 <= i < g.len() && (#[trigger] counts[i]) is Some ==> counts[i]->0 == pending(
            g[i].deps,
            done,
        )
}

/// Every dependency of the system at position `p` stands before it; from
/// position `split` on, once the barrier is open, the barrier may be among
/// them.
pub open spec fn settled(
    g: Seq<Record>,
    queue: Seq<SystemId>,
    p: int,
    open: bool,
    split: int,
) -> bool {
    forall|d: SystemId| #[trigger]
        depends(g, queue[p], d) ==> precedes(queue, p, d) || (open && p >= split && d == END_ID)
}

/// What holds between two extractions: the counts agree with the queue, the
/// queue holds registered systems once each, and each of them stands behind
/// its dependencies. Positions from `split` on were filled after the barrier
/// was opened.
pub open spec fn progress(
    g: Seq<Record>,
    counts: Seq<Option<usize>>,
    queue: Seq<SystemId>,
    open: bool,
    split: int,
) -> bool {
    &&& counted(g, counts, queue, released(queue, open))
    &&& queue.no_duplicates()
    &&& forall|p: int| 0 <= p < queue.len() ==> registered(g, #[trigger] queue[p])
    &&& open ==> 0 <= split <= queue.len()
    &&& forall|p: int| 0 <= p < queue.len() ==> #[trigger] settled(g, queue, p, open, split)
}

/// The number of systems that still wait in the counts table.
pub open spec fn waiting(counts: Seq<Option<usize>>) -> nat
    decreases counts.len(),
{
    if counts.len() == 0 {
        0
    } else {
        waiting(counts.drop_last()) + if counts.last() is Some {
            1nat
        } else {
            0nat
        }
    }
}

/// Tables with entries at the same positions have the same number of waiting
/// systems.
proof fn lemma_waiting_same(a: Seq<Option<usize>>, b: Seq<Option<usize>>)
    requires
        a.len() == b.len(),
        forall|i: int| 0 <= i < a.len() ==> (a[i] is None <==> b[i] is None),
    ensures
        waiting(a) == waiting(b),
    decreases a.len(),
{
    if a.len() > 0 {
        lemma_waiting_same(a.drop_last(), b.drop_last());
    }
}

/// Taking an entry out of the table leaves one system less waiting.
proof fn lemma_waiting_extract(a: Seq<Option<usize>>, i: int)
    requires
        0 <= i < a.len(),
        a[i] is Some,
    ensures
        waiting(a.update(i, None)) == waiting(a) - 1,
    decreases a.len(),
{
    let b = a.update(i, None);
    if i == a.len() - 1 {
        assert(b.drop_last() =~= a.drop_last());
    } else {
        assert(b.drop_last() =~= a.drop_last().update(i, None));
        lemma_waiting_extract(a.drop_last(), i);
    }
}

/// The first system whose dependencies were all released.
pub fn find_zero(counts: &Vec<Option<usize>>) -> (found: Option<usize>)
    ensures
        match found {
            Some(i) => {
                &&& i < counts@.len()
                &&& counts@[i as int] == Some(0usize)
                &&& forall|j: int| 0 <= j < i ==> counts@[j] != Some(0usize)
            },
            None => forall|i: int| 0 <= i < counts@.len() ==> counts@[i] != Some(0usize),
        },
{
    let mut i: usize = 0;
    while i < counts.len()
        invariant
            i <= counts@.len(),
            forall|j: int| 0 <= j < i ==> counts@[j] != Some(0usize),
        decreases counts@.len() - i,
    {
        match counts[i] {
            Some(count) => {
                if count == 0 {
                    return Some(i);
                }
            },
            None => {},
        }
        i += 1;
    }
    None
}

/// Whether `c` is among the consumers from position `t` on.
pub open spec fn awaits(consumers: Seq<usize>, t: int, c: int) -> bool {
    exists|u: int| t <= u < consumers.len() && consumers[u] == c
}

/// Tells the consumers of `x` that `x` was released: each of their counts
/// goes down by one.
fn release(
    consumers: &Vec<usize>,
    counts: &mut Vec<Option<usize>>,
    Ghost(g): Ghost<Seq<Record>>,
    Ghost(done): Ghost<Set<SystemId>>,
    Ghost(x): Ghost<SystemId>,
)
    requires
        well_formed(g),
        old(counts)@.len() == g.len(),
        consumers_of(g, consumers@, x),
        !done.contains(x),
        forall|i: int|
            0 <= i < g.len() && (#[trigger] old(counts)@[i]) is Some ==> old(counts)@[i]->0
                == pending(g[i].deps, done),
        forall|t: int|
            0 <= t < consumers@.len() ==> old(counts)@[(#[trigger] consumers@[t]) as int] is Some,
    ensures
        final(counts)@.len() == g.len(),
        forall|i: int|
            0 <= i < g.len() ==>
                ((#[trigger] final(counts)@[i]) is None <==> old(counts)@[i] is None),
        forall|i: int|
            0 <= i < g.len() && (#[trigger] final(counts)@[i]) is Some ==> final(counts)@[i]->0
                == pending(g[i].deps, done.insert(x)),
{
    let n = counts.len();
    proof {
        assert forall|i: int| 0 <= i < g.len() && !awaits(consumers@, 0, i) implies pending(
            g[i].deps,
            done.insert(x),
        ) == pending(g[i].deps, done) by {
            if g[i].deps.contains(x) {
                assert(g.len() == n);
                assert(consumers@.contains(i as usize));
                let u = choose|u: int| 0 <= u < consumers@.len() && consumers@[u] == i as usize;
                assert(consumers@[u] as int == i);
                assert(awaits(consumers@, 0, i));
            }
            lemma_pending_release(g[i].deps, done, x);
        }
    }
    let mut t: usize = 0;
    while t < consumers.len()
        invariant
            well_formed(g),
            counts@.len() == g.len(),
            old(counts)@.len() == g.len(),
            consumers_of(g, consumers@, x),
            !done.contains(x),
            t <= consumers@.len(),
            forall|i: int|
                0 <= i < g.len() ==> ((#[trigger] counts@[i]) is None <==> old(counts)@[i] is None),
            forall|i: int|
                0 <= i < g.len() && (#[trigger] counts@[i]) is Some ==> counts@[i]->0 == (if awaits(
                    consumers@,
                    t as int,
                    i,
                ) {
                    pending(g[i].deps, done)
                } else {
                    pending(g[i].deps, done.insert(x))
                }),
            forall|u: int|
                0 <= u < consumers@.len() ==>
                    old(counts)@[(#[trigger] consumers@[u]) as int] is Some,
        decreases consumers@.len() - t,
    {
        let c = consumers[t];
        let ghost before = counts@;
        proof {
            assert(awaits(consumers@, t as int, c as int));
            assert(old(counts)@[consumers@[t as int] as int] is Some);
            assert(g[c as int].deps.contains(x));
            lemma_pending_release(g[c as int].deps, done, x);
        }
        match counts[c] {
            Some(count) => {
                counts[c] = Some(count - 1);
            },
            None => {},
        }
        proof {
            let t1 = t + 1;
            assert forall|i: int| 0 <= i < g.len() && (#[trigger] counts@[i]) is Some implies
                counts@[i]->0
                == (if awaits(consumers@, t1, i) {
                pending(g[i].deps, done)
            } else {
                pending(g[i].deps, done.insert(x))
            }) by {
                if i == c {
                    if awaits(consumers@, t1, i) {
                        let u = choose|u: int| t1 <= u < consumers@.len() && consumers@[u] == i;
                        assert(consumers@[u] == consumers@[t as int]);
                    }
                } else {
                    assert(counts@[i] == before[i]);
                    if awaits(consumers@, t as int, i) {
                        let u = choose|u: int| t <= u < consumers@.len() && consumers@[u] == i;
                        assert(t1 <= u);
                    }
                    if awaits(consumers@, t1, i) {
                        let u = choose|u: int| t1 <= u < consumers@.len() && consumers@[u] == i;
                        assert(t <= u);
                    }
                }
            }
        }
        t += 1;
    }
    proof {
        assert forall|i: int| 0 <= i < g.len() && (#[trigger] counts@[i]) is Some implies
            counts@[i]->0
            == pending(g[i].deps, done.insert(x)) by {
            if awaits(consumers@, t as int, i) {
                let u = choose|u: int| t <= u < consumers@.len() && consumers@[u] == i;
            }
        }
    }
}

/// A system whose count is zero can be extracted: it is not in the queue, its
/// identity was not released, every system that names it is still waiting,
/// and the queue with it at the end keeps its order.
proof fn lemma_extract(
    g: Seq<Record>,
    counts: Seq<Option<usize>>,
    queue: Seq<SystemId>,
    open: bool,
    split: int,
    i: int,
)
    requires
        well_formed(g),
        !registered(g, END_ID),
        progress(g, counts, queue, open, split),
        0 <= i < g.len(),
        counts[i] == Some(0usize),
    ensures
        !queue.contains(g[i].id),
        !released(queue, open).contains(g[i].id),
        forall|c: int|
            0 <= c < g.len() && (#[trigger] g[c]).deps.contains(g[i].id) ==> c != i
                && counts[c] is Some,
        queue.push(g[i].id).no_duplicates(),
        forall|p: int|
            0 <= p < queue.len() + 1 ==> registered(g, #[trigger] queue.push(g[i].id)[p]),
        forall|p: int|
            0 <= p < queue.len() + 1 ==> #[trigger] settled(g, queue.push(g[i].id), p, open, split),
{
    let id = g[i].id;
    let done = released(queue, open);
    let grown = queue.push(id);
    assert(registered(g, id));
    assert(counts[i] is Some);
    assert(!queue.contains(id));
    lemma_pending_zero(g[i].deps, done);
    assert forall|c: int| 0 <= c < g.len() && (#[trigger] g[c]).deps.contains(id) implies c != i
        && counts[c] is Some by {
        if c == i {
            let k = choose|k: int| 0 <= k < g[i].deps.len() && g[i].deps[k] == id;
            assert(done.contains(g[i].deps[k]));
        } else if counts[c] is None {
            assert(queue.contains(g[c].id));
            let p = choose|p: int| 0 <= p < queue.len() && queue[p] == g[c].id;
            assert(settled(g, queue, p, open, split));
            lemma_depends_at(g, c, id);
            assert(depends(g, queue[p], id));
            assert(precedes(queue, p, id));
            let q = choose|q: int| 0 <= q < p && q < queue.len() && queue[q] == id;
            assert(queue.contains(id));
        }
    }
    assert(grown.no_duplicates()) by {
        assert forall|a: int, b: int| 0 <= a < grown.len() && 0 <= b < grown.len() && a
            != b implies grown[a] != grown[b] by {
            if a < queue.len() {
                assert(queue.contains(queue[a]));
            }
            if b < queue.len() {
                assert(queue.contains(queue[b]));
            }
        }
    }
    assert forall|p: int| 0 <= p < queue.len() + 1 implies registered(g, #[trigger] grown[p]) by {
        if p < queue.len() {
            assert(registered(g, queue[p]));
        }
    }
    assert forall|p: int| 0 <= p < queue.len() + 1 implies #[trigger] settled(
        g,
        grown,
        p,
        open,
        split,
    ) by {
        assert forall|d: SystemId| #[trigger] depends(g, grown[p], d) implies precedes(grown, p, d)
            || (open && p >= split && d == END_ID) by {
            if p < queue.len() {
                assert(settled(g, queue, p, open, split));
                assert(depends(g, queue[p], d));
                if precedes(queue, p, d) {
                    let q = choose|q: int| 0 <= q < p && q < queue.len() && queue[q] == d;
                    assert(grown[q] == d);
                }
            } else {
                lemma_depends_at(g, i, d);
                let k = choose|k: int| 0 <= k < g[i].deps.len() && g[i].deps[k] == d;
                assert(done.contains(g[i].deps[k]));
                if queue.contains(d) {
                    let q = choose|q: int| 0 <= q < queue.len() && queue[q] == d;
                    assert(grown[q] == d);
                }
            }
        }
    }
}

/// After the consumers of an extracted system were told, the counts agree
/// with the queue that holds it.
proof fn lemma_extracted(
    g: Seq<Record>,
    before: Seq<Option<usize>>,
    after: Seq<Option<usize>>,
    queue: Seq<SystemId>,
    open: bool,
    i: int,
)
    requires
        well_formed(g),
        0 <= i < g.len(),
        counted(g, before, queue, released(queue, open)),
        before[i] is Some,
        after.len() == g.len(),
        forall|j: int|
            0 <= j < g.len() ==> ((#[trigger] after[j]) is None <==> (j == i || before[j] is None)),
        forall|j: int|
            0 <= j < g.len() && (#[trigger] after[j]) is Some ==> after[j]->0 == pending(
                g[j].deps,
                released(queue, open).insert(g[i].id),
            ),
    ensures
        counted(g, after, queue.push(g[i].id), released(queue.push(g[i].id), open)),
{
    let id = g[i].id;
    let grown = queue.push(id);
    lemma_released_push(queue, open, id);
    assert forall|j: int| 0 <= j < g.len() implies ((#[trigger] after[j]) is None
        <==> grown.contains(g[j].id)) by {
        if after[j] is None {
            if j == i {
                assert(grown[queue.len() as int] == id);
            } else {
                assert(before[j] is None);
                let p = choose|p: int| 0 <= p < queue.len() && queue[p] == g[j].id;
                assert(grown[p] == g[j].id);
            }
        }
        if grown.contains(g[j].id) {
            let p = choose|p: int| 0 <= p < grown.len() && grown[p] == g[j].id;
            if p < queue.len() {
                assert(queue[p] == g[j].id);
                assert(queue.contains(g[j].id));
            } else {
                assert(g[j].id == g[i].id);
                if j < i {
                    assert(g[j].id != g[i].id);
                }
                if i < j {
                    assert(g[i].id != g[j].id);
                }
            }
        }
    }
}

/// Extracts systems whose dependencies were all released, each time telling
/// its consumers, until none is left to extract.
pub(crate) fn sort(
    systems: &Vec<SystemInfo>,
    adjacency: &Adjacency,
    counts: &mut Vec<Option<usize>>,
    queue: &mut Vec<SystemId>,
    Ghost(open): Ghost<bool>,
    Ghost(split): Ghost<int>,
)
    requires
        well_formed(records(systems@)),
        !registered(records(systems@), END_ID),
        adjacency.inverts(records(systems@)),
        progress(records(systems@), old(counts)@, old(queue)@, open, split),
    ensures
        progress(records(systems@), final(counts)@, final(queue)@, open, split),
        old(queue)@.len() <= final(queue)@.len(),
        final(queue)@.subrange(0, old(queue)@.len() as int) == old(queue)@,
        forall|i: int| 0 <= i < final(counts)@.len() ==> final(counts)@[i] != Some(0usize),
{
    let ghost g = records(systems@);
    loop
        invariant
            g == records(systems@),
            well_formed(g),
            !registered(g, END_ID),
            adjacency.inverts(g),
            progress(g, counts@, queue@, open, split),
            old(queue)@.len() <= queue@.len(),
            queue@.subrange(0, old(queue)@.len() as int) == old(queue)@,
        ensures
            progress(g, counts@, queue@, open, split),
            old(queue)@.len() <= queue@.len(),
            queue@.subrange(0, old(queue)@.len() as int) == old(queue)@,
            forall|i: int| 0 <= i < counts@.len() ==> counts@[i] != Some(0usize),
        decreases waiting(counts@),
    {
        match find_zero(counts) {
            None => {
                break ;
            },
            Some(i) => {
                let ghost counts_before = counts@;
                let ghost queue_before = queue@;
                let id = systems[i].id;
                proof {
                    lemma_extract(g, counts_before, queue_before, open, split, i as int);
                    lemma_waiting_extract(counts_before, i as int);
                }
                counts[i] = None;
                queue.push(id);
                proof {
                    assert(counts@ == counts_before.update(i as int, None));
                    assert forall|t: int| 0 <= t < adjacency.consumers@[i as int]@.len() implies
                        counts@[(
                    #[trigger] adjacency.consumers@[i as int]@[t]) as int] is Some by {
                        let c = adjacency.consumers@[i as int]@[t] as int;
                        assert(g[c].deps.contains(g[i as int].id));
                    }
                }
                let ghost counts_cleared = counts@;
                release(
                    &adjacency.consumers[i],
                    counts,
                    Ghost(g),
                    Ghost(released(queue_before, open)),
                    Ghost(id),
                );
                proof {
                    lemma_waiting_same(counts_cleared, counts@);
                    lemma_extracted(g, counts_before, counts@, queue_before, open, i as int);
                    assert(queue@.subrange(0, old(queue)@.len() as int) =~= old(queue)@);
                }
            },
        }
    }
}

/// Whether some dependency of the list is missing from `early`.
pub open spec fn has_unmet(deps: Seq<SystemId>, early: Seq<SystemId>) -> bool {
    exists|k: int| 0 <= k < deps.len() && !early.contains(deps[k])
}

/// Every system outside `early` waits for something outside `early`: nothing
/// more could be extracted while the barrier was closed.
pub open spec fn stuck(g: Seq<Record>, early: Seq<SystemId>) -> bool {
    forall|i: int|
        0 <= i < g.len() && !early.contains((#[trigger] g[i]).id) ==> has_unmet(g[i].deps, early)
}

/// When extraction stops with the barrier closed, every system left over
/// waits for the barrier or for another system left over.
proof fn lemma_stuck(g: Seq<Record>, counts: Seq<Option<usize>>, early: Seq<SystemId>)
    requires
        counted(g, counts, early, released(early, false)),
        forall|i: int| 0 <= i < counts.len() ==> counts[i] != Some(0usize),
    ensures
        stuck(g, early),
{
    let done = released(early, false);
    assert forall|i: int| 0 <= i < g.len() && !early.contains((#[trigger] g[i]).id) implies
        has_unmet(
        g[i].deps,
        early,
    ) by {
        assert(counts[i] is Some);
        lemma_pending_zero(g[i].deps, done);
        let k = choose|k: int| 0 <= k < g[i].deps.len() && !done.contains(#[trigger] g[i].deps[k]);
        assert(!early.contains(g[i].deps[k]));
    }
}

/// A system extracted while the barrier was closed does not depend on the
/// barrier, however long the chain.
proof fn lemma_early(g: Seq<Record>, queue: Seq<SystemId>, split: int, depth: nat, p: int)
    requires
        well_formed(g),
        !registered(g, END_ID),
        0 <= p < split <= queue.len(),
        forall|q: int| 0 <= q < queue.len() ==> registered(g, #[trigger] queue[q]),
        forall|q: int| 0 <= q < queue.len() ==> #[trigger] settled(g, queue, q, true, split),
    ensures
        !reaches_barrier_within(g, queue[p], depth),
    decreases depth,
{
    if depth > 0 {
        assert(settled(g, queue, p, true, split));
        if depends(g, queue[p], END_ID) {
            assert(precedes(queue, p, END_ID));
            let q = choose|q: int| 0 <= q < p && q < queue.len() && queue[q] == END_ID;
            assert(registered(g, queue[q]));
        }
        if exists|d: SystemId|
            depends(g, queue[p], d) && reaches_barrier_within(g, d, (depth - 1) as nat) {
            let d = choose|d: SystemId|
                depends(g, queue[p], d) && reaches_barrier_within(g, d, (depth - 1) as nat);
            assert(precedes(queue, p, d));
            let q = choose|q: int| 0 <= q < p && q < queue.len() && queue[q] == d;
            lemma_early(g, queue, split, (depth - 1) as nat, q);
        }
    }
}

/// A system extracted after the barrier was opened depends on the barrier,
/// through a chain of the returned length.
proof fn lemma_late(g: Seq<Record>, queue: Seq<SystemId>, split: int, p: int) -> (depth: nat)
    requires
        well_formed(g),
        0 <= split <= p < queue.len(),
        queue.no_duplicates(),
        forall|q: int| 0 <= q < queue.len() ==> registered(g, #[trigger] queue[q]),
        forall|q: int| 0 <= q < queue.len() ==> #[trigger] settled(g, queue, q, true, split),
        stuck(g, queue.subrange(0, split)),
    ensures
        reaches_barrier_within(g, queue[p], depth),
    decreases p,
{
    let early = queue.subrange(0, split);
    let a = queue[p];
    assert(registered(g, a));
    let j = choose|j: int| 0 <= j < g.len() && g[j].id == a;
    assert(!early.contains(a)) by {
        if early.contains(a) {
            let q = choose|q: int| 0 <= q < early.len() && early[q] == a;
            assert(queue[q] == queue[p]);
        }
    }
    assert(has_unmet(g[j].deps, early));
    let k = choose|k: int| 0 <= k < g[j].deps.len() && !early.contains(g[j].deps[k]);
    let d = g[j].deps[k];
    assert(g[j].deps.contains(d));
    assert(depends(g, a, d));
    if d == END_ID {
        1
    } else {
        assert(settled(g, queue, p, true, split));
        assert(precedes(queue, p, d));
        let q = choose|q: int| 0 <= q < p && q < queue.len() && queue[q] == d;
        assert(q >= split) by {
            if q < split {
                assert(early[q] == d);
            }
        }
        let below = lemma_late(g, queue, split, q);
        assert(reaches_barrier_within(g, d, ((below + 1) - 1) as nat));
        below + 1
    }
}

/// When every system was extracted, the queue is a valid schedule.
proof fn lemma_valid(
    g: Seq<Record>,
    counts: Seq<Option<usize>>,
    queue: Seq<SystemId>,
    split: int,
)
    requires
        well_formed(g),
        !registered(g, END_ID),
        progress(g, counts, queue, true, split),
        forall|i: int| 0 <= i < counts.len() ==> counts[i] is None,
        stuck(g, queue.subrange(0, split)),
    ensures
        valid_schedule(g, queue),
{
    assert forall|id: SystemId| queue.contains(id) <==> registered(g, id) by {
        if queue.contains(id) {
            let p = choose|p: int| 0 <= p < queue.len() && queue[p] == id;
            assert(registered(g, queue[p]));
        }
        if registered(g, id) {
            let i = choose|i: int| 0 <= i < g.len() && g[i].id == id;
            assert(counts[i] is None);
        }
    }
    assert forall|p: int, d: SystemId|
        0 <= p < queue.len() && #[trigger] depends(g, queue[p], d) && d != END_ID implies precedes(
        queue,
        p,
        d,
    ) by {
        assert(settled(g, queue, p, true, split));
    }
    assert forall|p: int, q: int|
        0 <= p < queue.len() && 0 <= q < queue.len() && reaches_barrier(g, queue[p])
            && !reaches_barrier(g, queue[q]) implies q < p by {
        if p < split {
            let depth = choose|depth: nat| reaches_barrier_within(g, queue[p], depth);
            lemma_early(g, queue, split, depth, p);
        }
        if q >= split {
            let depth = lemma_late(g, queue, split, q);
        }
    }
}

/// In any topological order, every system among the first `m` was extracted.
proof fn lemma_order_extracted(
    g: Seq<Record>,
    counts: Seq<Option<usize>>,
    queue: Seq<SystemId>,
    order: Seq<SystemId>,
    m: int,
)
    requires
        well_formed(g),
        counted(g, counts, queue, released(queue, true)),
        forall|i: int| 0 <= i < counts.len() ==> counts[i] != Some(0usize),
        topological(g, order),
        0 <= m <= order.len(),
    ensures
        forall|p: int| 0 <= p < m ==> queue.contains(#[trigger] order[p]),
    decreases m,
{
    if m > 0 {
        lemma_order_extracted(g, counts, queue, order, m - 1);
        let p = m - 1;
        let a = order[p];
        assert(order.contains(a));
        assert(registered(g, a));
        let j = choose|j: int| 0 <= j < g.len() && g[j].id == a;
        if counts[j] is Some {
            let done = released(queue, true);
            lemma_pending_zero(g[j].deps, done);
            let k = choose|k: int|
                0 <= k < g[j].deps.len() && !done.contains(#[trigger] g[j].deps[k]);
            let d = g[j].deps[k];
            assert(g[j].deps.contains(d));
            assert(depends(g, order[p], d));
            assert(precedes(order, p, d));
            let q = choose|q: int| 0 <= q < p && q < order.len() && order[q] == d;
            assert(queue.contains(order[q]));
        }
    }
}

/// When extraction stops with the barrier open and a system left over, no
/// topological order exists.
proof fn lemma_unschedulable(
    g: Seq<Record>,
    counts: Seq<Option<usize>>,
    queue: Seq<SystemId>,
    i: int,
)
    requires
        well_formed(g),
        counted(g, counts, queue, released(queue, true)),
        forall|j: int| 0 <= j < counts.len() ==> counts[j] != Some(0usize),
        0 <= i < g.len(),
        counts[i] is Some,
    ensures
        !schedulable(g),
{
    if schedulable(g) {
        let order = choose|order: Seq<SystemId>| topological(g, order);
        lemma_order_extracted(g, counts, queue, order, order.len() as int);
        assert(registered(g, g[i].id));
        assert(order.contains(g[i].id));
        let p = choose|p: int| 0 <= p < order.len() && order[p] == g[i].id;
        assert(queue.contains(order[p]));
    }
}

/// The first system that is still waiting.
fn find_waiting(counts: &Vec<Option<usize>>) -> (found: Option<usize>)
    ensures
        match found {
            Some(i) => i < counts@.len() && counts@[i as int] is Some,
            None => forall|i: int| 0 <= i < counts@.len() ==> counts@[i] is None,
        },
{
    let mut i: usize = 0;
    while i < counts.len()
        invariant
            i <= counts@.len(),
            forall|j: int| 0 <= j < i ==> counts@[j] is None,
        decreases counts@.len() - i,
    {
        if counts[i].is_some() {
            return Some(i);
        }
        i += 1;
    }
    None
}

/// Derives the execution order of a registry.
///
/// The systems that do not depend on the barrier come first, the others
/// after them, and every system stands behind its dependencies. Which of
/// several systems that could run next is taken first is decided by their
/// registration order. No order is produced where a system is registered
/// under the barrier's identity, where a dependency names an unknown system,
/// or where the dependencies form a cycle.
pub fn compute_order(systems: &Vec<SystemInfo>) -> (order: Result<Vec<SystemId>, ScheduleError>)
    requires
        well_formed(records(systems@)),
    ensures
        order is Ok <==> has_schedule(records(systems@)),
        match order {
            Ok(queue) => valid_schedule(records(systems@), queue@),
            Err(error) => schedule_failure(records(systems@), error),
        },
{
    let ghost g = records(systems@);
    if find_index(systems, END_ID).is_some() {
        return Err(ScheduleError::BarrierRegistered);
    }
    let adjacency = match build_adjacency(systems) {
        Ok(adjacency) => adjacency,
        Err(error) => {
            return Err(error);
        },
    };
    let n = systems.len();
    let mut counts: Vec<Option<usize>> = Vec::new();
    let mut i: usize = 0;
    while i < n
        invariant
            n == systems@.len(),
            g == records(systems@),
            i <= n,
            counts@.len() == i,
            forall|j: int|
                0 <= j < i ==> (#[trigger] counts@[j]) is Some && counts@[j]->0 == g[j].deps.len(),
        decreases n - i,
    {
        counts.push(Some(systems[i].dependencies.len()));
        i += 1;
    }
    let mut queue: Vec<SystemId> = Vec::new();
    proof {
        assert forall|j: int| 0 <= j < g.len() && (#[trigger] counts@[j]) is Some implies
            counts@[j]->0
            == pending(g[j].deps, released(queue@, false)) by {
            assert(queue@ =~= Seq::<SystemId>::empty());
            lemma_pending_initial(g[j].deps);
        }
    }
    sort(systems, &adjacency, &mut counts, &mut queue, Ghost(false), Ghost(0));
    let ghost early = queue@;
    let ghost split = early.len() as int;
    proof {
        lemma_stuck(g, counts@, early);
        lemma_released_open(early);
        assert forall|t: int| 0 <= t < adjacency.barrier@.len() implies counts@[(
        #[trigger] adjacency.barrier@[t]) as int] is Some by {
            let c = adjacency.barrier@[t] as int;
            if counts@[c] is None {
                let p = choose|p: int| 0 <= p < early.len() && early[p] == g[c].id;
                assert(settled(g, early, p, false, 0));
                lemma_depends_at(g, c, END_ID);
                assert(depends(g, early[p], END_ID));
                assert(precedes(early, p, END_ID));
                let q = choose|q: int| 0 <= q < p && q < early.len() && early[q] == END_ID;
                assert(registered(g, early[q]));
            }
        }
        assert(!released(early, false).contains(END_ID)) by {
            if early.contains(END_ID) {
                let q = choose|q: int| 0 <= q < early.len() && early[q] == END_ID;
                assert(registered(g, early[q]));
            }
        }
    }
    release(
        &adjacency.barrier,
        &mut counts,
        Ghost(g),
        Ghost(released(early, false)),
        Ghost(END_ID),
    );
    proof {
        assert forall|p: int| 0 <= p < early.len() implies #[trigger] settled(
            g,
            early,
            p,
            true,
            split,
        ) by {
            assert(settled(g, early, p, false, 0));
        }
    }
    sort(systems, &adjacency, &mut counts, &mut queue, Ghost(true), Ghost(split));
    match find_waiting(&counts) {
        Some(i) => {
            proof {
                lemma_unschedulable(g, counts@, queue@, i as int);
            }
            Err(ScheduleError::Cycle)
        },
        None => {
            proof {
                lemma_valid(g, counts@, queue@, split);
                lemma_topological_resolves(g, queue@);
            }
            Ok(queue)
        },
    }
}

} // verus!
