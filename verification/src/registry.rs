//! The registry of a stage as a sequence of records: what registration,
//! activation, dependency edits and a pass do to it, and what follows for
//! the schedules that are valid for it.
use crate::schedule::{
    depends, lemma_depends_at, reaches_barrier, reaches_barrier_within, registered,
    valid_schedule, well_formed,
};
use crate::system::{Record, SystemId, END_ID, ERRORS_ID};
use vstd::prelude::*;

verus! {

/// The list without repetitions: each identity stays at its first place.
pub open spec fn distinct(s: Seq<SystemId>) -> Seq<SystemId>
    decreases s.len(),
{
    if s.len() == 0 {
        Seq::empty()
    } else if distinct(s.drop_last()).contains(s.last()) {
        distinct(s.drop_last())
    } else {
        distinct(s.drop_last()).push(s.last())
    }
}

/// The distinct list has no duplicates and names the same identities.
pub proof fn lemma_distinct(s: Seq<SystemId>)
    ensures
        distinct(s).no_duplicates(),
        forall|id: SystemId| distinct(s).contains(id) <==> s.contains(id),
        s.no_duplicates() ==> distinct(s) == s,
    decreases s.len(),
{
    if s.len() > 0 {
        let front = s.drop_last();
        let last = s.last();
        lemma_distinct(front);
        let d = distinct(front);
        assert forall|id: SystemId| distinct(s).contains(id) <==> s.contains(id) by {
            if s.contains(id) {
                let k = choose|k: int| 0 <= k < s.len() && s[k] == id;
                if k < front.len() {
                    assert(front[k] == id);
                    assert(front.contains(id));
                    assert(d.contains(id));
                    let m = choose|m: int| 0 <= m < d.len() && d[m] == id;
                    if !d.contains(last) {
                        assert(d.push(last)[m] == id);
                    }
                } else if !d.contains(last) {
                    assert(d.push(last)[d.len() as int] == id);
                }
            }
            if distinct(s).contains(id) {
                let m = choose|m: int| 0 <= m < distinct(s).len() && distinct(s)[m] == id;
                if m < d.len() {
                    assert(d[m] == id);
                    assert(d.contains(id));
                    assert(front.contains(id));
                    let k = choose|k: int| 0 <= k < front.len() && front[k] == id;
                    assert(s[k] == id);
                } else {
                    assert(s[s.len() - 1] == id);
                }
            }
        }
        if !d.contains(last) {
            assert forall|a: int, b: int|
                0 <= a < d.push(last).len() && 0 <= b < d.push(last).len() && a != b implies d.push(
                last,
            )[a] != d.push(last)[b] by {
                if a < d.len() {
                    assert(d.contains(d[a]));
                }
                if b < d.len() {
                    assert(d.contains(d[b]));
                }
            }
        }
        if s.no_duplicates() {
            assert(front.no_duplicates()) by {
                assert forall|a: int, b: int|
                    0 <= a < front.len() && 0 <= b < front.len() && a != b implies front[a]
                    != front[b] by {
                    assert(front[a] == s[a] && front[b] == s[b]);
                }
            }
            assert(!front.contains(last)) by {
                if front.contains(last) {
                    let k = choose|k: int| 0 <= k < front.len() && front[k] == last;
                    assert(s[k] == s[s.len() - 1]);
                }
            }
            assert(d.push(last) =~= s);
        }
    } else {
        assert(distinct(s) =~= s);
    }
}

/// Whether the list names the identity.
pub(crate) fn names(list: &Vec<SystemId>, id: SystemId) -> (found: Option<usize>)
    ensures
        match found {
            Some(k) => k < list@.len() && list@[k as int] == id,
            None => !list@.contains(id),
        },
{
    let mut k: usize = 0;
    while k < list.len()
        invariant
            k <= list@.len(),
            forall|j: int| 0 <= j < k ==> list@[j] != id,
        decreases list@.len() - k,
    {
        if list[k] == id {
            return Some(k);
        }
        k += 1;
    }
    None
}

/// Drops the repetitions from a declared dependency list.
pub(crate) fn dedup(declared: Vec<SystemId>) -> (dependencies: Vec<SystemId>)
    ensures
        dependencies@ == distinct(declared@),
{
    let mut dependencies: Vec<SystemId> = Vec::new();
    let mut k: usize = 0;
    while k < declared.len()
        invariant
            k <= declared@.len(),
            dependencies@ == distinct(declared@.take(k as int)),
        decreases declared@.len() - k,
    {
        let id = declared[k];
        proof {
            assert(declared@.take(k + 1).drop_last() =~= declared@.take(k as int));
        }
        if names(&dependencies, id).is_none() {
            dependencies.push(id);
        }
        k += 1;
    }
    proof {
        assert(declared@.take(k as int) =~= declared@);
    }
    dependencies
}

/// The position of the record with the given identity.
pub open spec fn position(g: Seq<Record>, id: SystemId) -> int {
    choose|i: int| 0 <= i < g.len() && g[i].id == id
}

/// The registry after a registration: a record under a new identity goes to
/// the end, one under a registered identity takes the place of the old one.
pub open spec fn put(g: Seq<Record>, record: Record) -> Seq<Record> {
    if registered(g, record.id) {
        g.update(position(g, record.id), record)
    } else {
        g.push(record)
    }
}

/// The list of systems that wait for their initialization, after one more
/// registration: an identity that already waits is not listed again.
pub open spec fn noted(pending: Seq<SystemId>, id: SystemId) -> Seq<SystemId> {
    if pending.contains(id) {
        pending
    } else {
        pending.push(id)
    }
}

/// What a stage keeps of the list of systems that wait for their
/// initialization: each of them is registered, and none waits twice.
pub open spec fn awaited(g: Seq<Record>, pending: Seq<SystemId>) -> bool {
    &&& pending.no_duplicates()
    &&& forall|p: int| 0 <= p < pending.len() ==> registered(g, #[trigger] pending[p])
}

/// The waiting list stays in order when the registry keeps its systems.
pub proof fn lemma_awaited_kept(g: Seq<Record>, h: Seq<Record>, pending: Seq<SystemId>)
    requires
        awaited(g, pending),
        forall|id: SystemId| registered(g, id) ==> registered(h, id),
    ensures
        awaited(h, pending),
{
    assert forall|p: int| 0 <= p < pending.len() implies registered(h, #[trigger] pending[p]) by {
        assert(registered(g, pending[p]));
    }
}

/// The waiting list stays in order when a registered system is noted on it.
pub proof fn lemma_awaited_noted(
    g: Seq<Record>,
    h: Seq<Record>,
    pending: Seq<SystemId>,
    id: SystemId,
)
    requires
        awaited(g, pending),
        forall|x: SystemId| registered(g, x) ==> registered(h, x),
        registered(h, id),
    ensures
        awaited(h, noted(pending, id)),
{
    lemma_awaited_kept(g, h, pending);
    let grown = noted(pending, id);
    if !pending.contains(id) {
        assert forall|a: int, b: int| 0 <= a < grown.len() && 0 <= b < grown.len() && a
            != b implies grown[a] != grown[b] by {
            if a < pending.len() {
                assert(pending.contains(pending[a]));
            }
            if b < pending.len() {
                assert(pending.contains(pending[b]));
            }
        }
        assert forall|p: int| 0 <= p < grown.len() implies registered(h, #[trigger] grown[p]) by {
            if p < pending.len() {
                assert(registered(h, pending[p]));
            }
        }
    }
}

/// With distinct identities, one position holds a given identity.
pub proof fn lemma_only_at(g: Seq<Record>, at: int)
    requires
        well_formed(g),
        0 <= at < g.len(),
    ensures
        forall|i: int| 0 <= i < g.len() && (#[trigger] g[i]).id == g[at].id ==> i == at,
        position(g, g[at].id) == at,
        registered(g, g[at].id),
{
    assert forall|i: int| 0 <= i < g.len() && (#[trigger] g[i]).id == g[at].id implies i == at by {
        if i < at {
            assert(g[i].id != g[at].id);
        }
        if at < i {
            assert(g[at].id != g[i].id);
        }
    }
    assert(registered(g, g[at].id));
    let k = position(g, g[at].id);
    assert(g[k].id == g[at].id);
}

/// The record under which a stage registers its error registry: inactive,
/// without dependencies.
pub open spec fn registry_record() -> Record {
    Record { id: ERRORS_ID, deps: Seq::empty(), active: false, once: false }
}

/// The record of a system that was just registered: active, with the
/// declared dependencies, each counted once.
pub open spec fn registration(id: SystemId, declared: Seq<SystemId>, once: bool) -> Record {
    Record { id, deps: distinct(declared), active: true, once }
}

/// The registry with the active flag of one system set.
pub open spec fn with_active(g: Seq<Record>, id: SystemId, active: bool) -> Seq<Record> {
    Seq::new(
        g.len(),
        |i: int|
            if g[i].id == id {
                Record { active, ..g[i] }
            } else {
                g[i]
            },
    )
}

/// The registry with one more dependency at the end of a system's list.
pub open spec fn with_dependency(g: Seq<Record>, src: SystemId, dep: SystemId) -> Seq<Record> {
    Seq::new(
        g.len(),
        |i: int|
            if g[i].id == src {
                Record { deps: g[i].deps.push(dep), ..g[i] }
            } else {
                g[i]
            },
    )
}

/// The registry with one dependency taken out of a system's list.
pub open spec fn without_dependency(g: Seq<Record>, src: SystemId, dep: SystemId) -> Seq<Record> {
    Seq::new(
        g.len(),
        |i: int|
            if g[i].id == src {
                Record { deps: g[i].deps.remove(g[i].deps.index_of(dep)), ..g[i] }
            } else {
                g[i]
            },
    )
}

/// Whether the system runs in a pass: it is registered and active.
pub open spec fn is_active(g: Seq<Record>, id: SystemId) -> bool {
    exists|i: int| 0 <= i < g.len() && g[i].id == id && g[i].active
}

/// The test that picks the active systems of a registry.
pub open spec fn active_in(g: Seq<Record>) -> spec_fn(SystemId) -> bool {
    |id: SystemId| is_active(g, id)
}

/// The systems whose per-pass hook a pass over `order` calls, in the order
/// of the calls.
pub open spec fn executed(g: Seq<Record>, order: Seq<SystemId>) -> Seq<SystemId> {
    order.filter(active_in(g))
}

/// Whether the record leaves the registry at the end of a pass: its system
/// is marked once and has run.
pub open spec fn leaves(record: Record) -> bool {
    record.active && record.once
}

/// The test that picks the records that stay after a pass.
pub open spec fn stays() -> spec_fn(Record) -> bool {
    |record: Record| !leaves(record)
}

/// The registry after a pass.
pub open spec fn survivors(g: Seq<Record>) -> Seq<Record> {
    g.filter(stays())
}

/// Whether the two registries hold the same latest error, or none, for the
/// system.
pub open spec fn same_error(
    a: Map<SystemId, String>,
    b: Map<SystemId, String>,
    id: SystemId,
) -> bool {
    &&& a.contains_key(id) <==> b.contains_key(id)
    &&& a.contains_key(id) ==> a[id] == b[id]
}

/// The error registry after the hooks of `producers` were called in that
/// order and returned `outcomes`: each failure became the latest error of
/// its producer, in place of any earlier one.
pub open spec fn captured(
    errors: Map<SystemId, String>,
    producers: Seq<SystemId>,
    outcomes: Seq<Result<(), String>>,
) -> Map<SystemId, String>
    decreases producers.len(),
{
    if producers.len() == 0 || outcomes.len() != producers.len() {
        errors
    } else {
        let before = captured(errors, producers.drop_last(), outcomes.drop_last());
        match outcomes.last() {
            Ok(_) => before,
            Err(error) => before.insert(producers.last(), error),
        }
    }
}

/// One more hook: the registry takes in its outcome.
pub proof fn lemma_captured_push(
    errors: Map<SystemId, String>,
    producers: Seq<SystemId>,
    outcomes: Seq<Result<(), String>>,
    producer: SystemId,
    outcome: Result<(), String>,
)
    requires
        producers.len() == outcomes.len(),
    ensures
        captured(errors, producers.push(producer), outcomes.push(outcome)) == match outcome {
            Ok(_) => captured(errors, producers, outcomes),
            Err(error) => captured(errors, producers, outcomes).insert(producer, error),
        },
{
    assert(producers.push(producer).drop_last() =~= producers);
    assert(outcomes.push(outcome).drop_last() =~= outcomes);
}

/// A system none of whose hooks was called keeps its entry, or its lack of
/// one; a system whose last hook called failed has that failure as its
/// latest error.
pub proof fn lemma_captured(
    errors: Map<SystemId, String>,
    producers: Seq<SystemId>,
    outcomes: Seq<Result<(), String>>,
)
    requires
        producers.len() == outcomes.len(),
    ensures
        forall|id: SystemId|
            !producers.contains(id) ==> same_error(
                captured(errors, producers, outcomes),
                errors,
                id,
            ),
        forall|k: int|
            0 <= k < producers.len() && (#[trigger] outcomes[k]) is Err && (forall|j: int|
                k < j < producers.len() ==> producers[j] != producers[k]) ==> {
                &&& captured(errors, producers, outcomes).contains_key(producers[k])
                &&& Err::<(), String>(captured(errors, producers, outcomes)[producers[k]])
                    == outcomes[k]
            },
    decreases producers.len(),
{
    if producers.len() > 0 {
        let front = producers.drop_last();
        let firsts = outcomes.drop_last();
        lemma_captured(errors, front, firsts);
        let all = captured(errors, producers, outcomes);
        assert forall|id: SystemId| !producers.contains(id) implies same_error(all, errors, id) by {
            assert(producers[producers.len() - 1] != id);
            if front.contains(id) {
                let k = choose|k: int| 0 <= k < front.len() && front[k] == id;
                assert(producers[k] == id);
            }
        }
        assert forall|k: int|
            0 <= k < producers.len() && (#[trigger] outcomes[k]) is Err && (forall|j: int|
                k < j < producers.len() ==> producers[j] != producers[k]) implies {
            &&& all.contains_key(producers[k])
            &&& Err::<(), String>(all[producers[k]]) == outcomes[k]
        } by {
            if k < front.len() {
                assert(firsts[k] == outcomes[k]);
                assert(front[k] == producers[k]);
                assert(producers[producers.len() - 1] != producers[k]);
                assert forall|j: int| k < j < front.len() implies front[j] != front[k] by {
                    assert(producers[j] != producers[k]);
                }
            }
        }
    }
}

/// The test that picks every identity but one.
pub open spec fn other_than(id: SystemId) -> spec_fn(SystemId) -> bool {
    |other: SystemId| other != id
}

/// Deactivating a system keeps it registered, keeps every valid schedule
/// valid, and takes its hook, and no other, out of a pass: the systems that
/// the pass calls are those it called before, in the same order, without the
/// deactivated one.
pub proof fn lemma_deactivate_skips(g: Seq<Record>, order: Seq<SystemId>, id: SystemId)
    requires
        well_formed(g),
        registered(g, id),
    ensures
        registered(with_active(g, id, false), id),
        with_active(g, id, false).len() == g.len(),
        valid_schedule(g, order) <==> valid_schedule(with_active(g, id, false), order),
        !executed(with_active(g, id, false), order).contains(id),
        executed(with_active(g, id, false), order) == executed(g, order).filter(other_than(id)),
    decreases order.len(),
{
    let h = with_active(g, id, false);
    lemma_same_graph(g, h);
    lemma_active_without(g, id);
    reveal(Seq::filter);
    if order.len() > 0 {
        let front = order.drop_last();
        let last = order.last();
        lemma_deactivate_skips(g, front, id);
        let was = executed(g, front);
        if is_active(g, last) {
            assert(executed(g, order) == was.push(last));
            assert(was.push(last).drop_last() =~= was);
        }
        if executed(h, order).contains(id) {
            let m = choose|m: int| 0 <= m < executed(h, order).len() && executed(h, order)[m] == id;
            if m < executed(h, front).len() {
                assert(executed(h, front)[m] == id);
            }
        }
    } else {
        assert(executed(g, order) =~= Seq::<SystemId>::empty());
    }
}

/// After a system was deactivated, the active systems are the others that
/// were active.
proof fn lemma_active_without(g: Seq<Record>, id: SystemId)
    requires
        well_formed(g),
    ensures
        forall|x: SystemId| #[trigger]
            is_active(with_active(g, id, false), x) <==> (is_active(g, x) && x != id),
{
    let h = with_active(g, id, false);
    assert forall|x: SystemId| #[trigger] is_active(h, x) <==> (is_active(g, x) && x != id) by {
        if is_active(h, x) {
            let i = choose|i: int| 0 <= i < h.len() && h[i].id == x && h[i].active;
            assert(g[i].id == x && g[i].active);
        }
        if is_active(g, x) && x != id {
            let i = choose|i: int| 0 <= i < g.len() && g[i].id == x && g[i].active;
            assert(h[i].id == x && h[i].active);
        }
    }
}

/// A system that is marked once and active runs in the pass, once, and is
/// gone from the registry after it. One that is not active does not run and
/// stays.
pub proof fn lemma_once_leaves(g: Seq<Record>, order: Seq<SystemId>, i: int)
    requires
        well_formed(g),
        valid_schedule(g, order),
        0 <= i < g.len(),
        g[i].once,
    ensures
        g[i].active ==> executed(g, order).contains(g[i].id) && !registered(
            survivors(g),
            g[i].id,
        ),
        !g[i].active ==> !executed(g, order).contains(g[i].id) && registered(
            survivors(g),
            g[i].id,
        ),
        executed(g, order).no_duplicates(),
{
    let id = g[i].id;
    let trace = executed(g, order);
    lemma_active_at(g, i);
    lemma_survivors(g);
    assert(registered(g, id));
    assert(order.contains(id));
    let p = choose|p: int| 0 <= p < order.len() && order[p] == id;
    if g[i].active {
        assert(active_in(g)(order[p]));
        order.lemma_filter_contains(active_in(g), p);
        if registered(survivors(g), id) {
            let m = choose|m: int| 0 <= m < survivors(g).len() && survivors(g)[m].id == id;
            let r = survivors(g)[m];
            assert(!leaves(r));
            assert(survivors(g).contains(r));
            g.lemma_filter_contains_rev(stays(), r);
            let j = choose|j: int| 0 <= j < g.len() && g[j] == r;
            assert(j == i) by {
                if j < i {
                    assert(g[j].id != g[i].id);
                }
                if i < j {
                    assert(g[i].id != g[j].id);
                }
            }
        }
    } else {
        if trace.contains(id) {
            let m = choose|m: int| 0 <= m < trace.len() && trace[m] == id;
            order.lemma_filter_pred(active_in(g), m);
        }
        assert(survivors(g).contains(g[i]));
        let m = choose|m: int| 0 <= m < survivors(g).len() && survivors(g)[m] == g[i];
        assert(survivors(g)[m].id == id);
    }
    lemma_filter_no_duplicates(order, active_in(g));
}

/// A system that is marked once, active and waiting for its initialization
/// has each of its hooks called once in the pass, and none in the pass after
/// it: it is once among the systems initialized, once among those executed,
/// gone from the registry after the pass, and not among the systems
/// executed by any schedule of what is left.
pub proof fn lemma_once_over_two_passes(
    g: Seq<Record>,
    pending: Seq<SystemId>,
    order: Seq<SystemId>,
    next: Seq<SystemId>,
    i: int,
)
    requires
        well_formed(g),
        awaited(g, pending),
        valid_schedule(g, order),
        0 <= i < g.len(),
        g[i].once,
        g[i].active,
        pending.contains(g[i].id),
    ensures
        pending.filter(only(g[i].id)) == seq![g[i].id],
        executed(g, order).filter(only(g[i].id)) == seq![g[i].id],
        !registered(survivors(g), g[i].id),
        !executed(survivors(g), next).contains(g[i].id),
{
    let id = g[i].id;
    lemma_once_leaves(g, order, i);
    lemma_single(pending, id);
    lemma_single(executed(g, order), id);
    let after = executed(survivors(g), next);
    if after.contains(id) {
        let m = choose|m: int| 0 <= m < after.len() && after[m] == id;
        next.lemma_filter_pred(active_in(survivors(g)), m);
        assert(is_active(survivors(g), id));
        let k = choose|k: int|
            0 <= k < survivors(g).len() && survivors(g)[k].id == id && survivors(g)[k].active;
        assert(registered(survivors(g), id));
    }
}

/// The test that picks one identity.
pub open spec fn only(id: SystemId) -> spec_fn(SystemId) -> bool {
    |other: SystemId| other == id
}

/// A duplicate-free list that names an identity names it once.
pub proof fn lemma_single(s: Seq<SystemId>, id: SystemId)
    requires
        s.no_duplicates(),
        s.contains(id),
    ensures
        s.filter(only(id)) == seq![id],
    decreases s.len(),
{
    reveal(Seq::filter);
    let front = s.drop_last();
    assert(front.no_duplicates()) by {
        assert forall|a: int, b: int| 0 <= a < front.len() && 0 <= b < front.len() && a
            != b implies front[a] != front[b] by {
            assert(front[a] == s[a] && front[b] == s[b]);
        }
    }
    if s.last() == id {
        assert(!front.contains(id)) by {
            if front.contains(id) {
                let k = choose|k: int| 0 <= k < front.len() && front[k] == id;
                assert(s[k] == s[s.len() - 1]);
            }
        }
        lemma_none(front, id);
        assert(s.filter(only(id)) =~= seq![id]);
    } else {
        let k = choose|k: int| 0 <= k < s.len() && s[k] == id;
        assert(front[k] == id);
        lemma_single(front, id);
    }
}

/// A list that does not name an identity has no place for it.
proof fn lemma_none(s: Seq<SystemId>, id: SystemId)
    requires
        !s.contains(id),
    ensures
        s.filter(only(id)) == Seq::<SystemId>::empty(),
    decreases s.len(),
{
    reveal(Seq::filter);
    if s.len() > 0 {
        let front = s.drop_last();
        assert(!front.contains(id)) by {
            if front.contains(id) {
                let k = choose|k: int| 0 <= k < front.len() && front[k] == id;
                assert(s[k] == id);
            }
        }
        assert(s[s.len() - 1] != id);
        lemma_none(front, id);
    } else {
        assert(s.filter(only(id)) =~= Seq::<SystemId>::empty());
    }
}

/// Filtering a duplicate-free list leaves a duplicate-free list.
proof fn lemma_filter_no_duplicates(s: Seq<SystemId>, keep: spec_fn(SystemId) -> bool)
    requires
        s.no_duplicates(),
    ensures
        s.filter(keep).no_duplicates(),
    decreases s.len(),
{
    reveal(Seq::filter);
    if s.len() > 0 {
        let front = s.drop_last();
        assert(front.no_duplicates()) by {
            assert forall|a: int, b: int| 0 <= a < front.len() && 0 <= b < front.len() && a
                != b implies front[a] != front[b] by {
                assert(front[a] == s[a] && front[b] == s[b]);
            }
        }
        lemma_filter_no_duplicates(front, keep);
        let kept = front.filter(keep);
        if keep(s.last()) {
            assert forall|a: int, b: int|
                0 <= a < kept.push(s.last()).len() && 0 <= b < kept.push(s.last()).len() && a
                    != b implies kept.push(s.last())[a] != kept.push(s.last())[b] by {
                if a < kept.len() && b == kept.len() {
                    assert(kept.contains(kept[a]));
                    front.lemma_filter_contains_rev(keep, kept[a]);
                    let k = choose|k: int| 0 <= k < front.len() && front[k] == kept[a];
                    assert(s[k] != s[s.len() - 1]);
                }
                if b < kept.len() && a == kept.len() {
                    assert(kept.contains(kept[b]));
                    front.lemma_filter_contains_rev(keep, kept[b]);
                    let k = choose|k: int| 0 <= k < front.len() && front[k] == kept[b];
                    assert(s[k] != s[s.len() - 1]);
                }
            }
        }
    }
}

/// Adding a dependency and removing it again restores the registry, and with
/// it the schedules that are valid for it.
pub proof fn lemma_add_then_remove_dependency(g: Seq<Record>, src: SystemId, dep: SystemId)
    requires
        well_formed(g),
        registered(g, src),
        !depends(g, src, dep),
    ensures
        depends(with_dependency(g, src, dep), src, dep),
        without_dependency(with_dependency(g, src, dep), src, dep) == g,
        forall|order: Seq<SystemId>|
            valid_schedule(without_dependency(with_dependency(g, src, dep), src, dep), order)
                <==> valid_schedule(g, order),
{
    let h = with_dependency(g, src, dep);
    let back = without_dependency(h, src, dep);
    let at = choose|i: int| 0 <= i < g.len() && g[i].id == src;
    lemma_depends_at(g, at, dep);
    assert(h[at].deps[g[at].deps.len() as int] == dep);
    assert(h[at].id == src && h[at].deps.contains(dep));
    assert forall|i: int| 0 <= i < g.len() implies back[i] == g[i] by {
        if g[i].id == src {
            assert(i == at) by {
                if i < at {
                    assert(g[i].id != g[at].id);
                }
                if at < i {
                    assert(g[at].id != g[i].id);
                }
            }
            let deps = g[i].deps;
            let grown = deps.push(dep);
            let k = grown.index_of(dep);
            assert(grown[deps.len() as int] == dep);
            assert(grown.contains(dep));
            assert(k == deps.len()) by {
                if k < deps.len() {
                    assert(deps[k] == dep);
                    assert(deps.contains(dep));
                }
            }
            assert(grown.remove(k) =~= deps);
        }
    }
    assert(back =~= g);
}

/// With distinct identities, the record at a position decides whether its
/// system is active.
pub(crate) proof fn lemma_active_at(g: Seq<Record>, i: int)
    requires
        well_formed(g),
        0 <= i < g.len(),
    ensures
        is_active(g, g[i].id) <==> g[i].active,
{
    if is_active(g, g[i].id) {
        let j = choose|j: int| 0 <= j < g.len() && g[j].id == g[i].id && g[j].active;
        assert(j == i);
    }
}

/// The survivors from position `i` on are the record at `i`, if it stays,
/// followed by the survivors from position `i + 1` on.
pub(crate) proof fn lemma_survivors_step(g: Seq<Record>, i: int)
    requires
        0 <= i < g.len(),
    ensures
        survivors(g.skip(i)) == if leaves(g[i]) {
            survivors(g.skip(i + 1))
        } else {
            seq![g[i]] + survivors(g.skip(i + 1))
        },
{
    let head = seq![g[i]];
    assert(g.skip(i) =~= head + g.skip(i + 1));
    Seq::filter_distributes_over_add(head, g.skip(i + 1), stays());
    reveal_with_fuel(Seq::filter, 2);
    assert(head.drop_last() =~= Seq::<Record>::empty());
    assert(head.last() == g[i]);
    if leaves(g[i]) {
        assert(head.filter(stays()) =~= Seq::<Record>::empty());
        assert(Seq::<Record>::empty() + survivors(g.skip(i + 1)) =~= survivors(g.skip(i + 1)));
    } else {
        assert(head.filter(stays()) =~= head);
    }
}

/// The survivors of a well-formed registry form a well-formed registry, of
/// the systems that stay; where no record leaves, nothing changes.
pub proof fn lemma_survivors(g: Seq<Record>)
    requires
        well_formed(g),
    ensures
        well_formed(survivors(g)),
        forall|id: SystemId| registered(survivors(g), id) ==> registered(g, id),
        forall|i: int| 0 <= i < survivors(g).len() ==> !leaves(#[trigger] survivors(g)[i]),
        forall|i: int|
            0 <= i < g.len() && !leaves(g[i]) ==> survivors(g).contains(#[trigger] g[i]),
        (forall|i: int| 0 <= i < g.len() ==> !leaves(g[i])) ==> survivors(g) == g,
    decreases g.len(),
{
    reveal(Seq::filter);
    if g.len() > 0 {
        let front = g.drop_last();
        let last = g.last();
        assert(well_formed(front)) by {
            assert forall|i: int| 0 <= i < front.len() implies
                (#[trigger] front[i]).deps.no_duplicates() by {
                assert(front[i] == g[i]);
            }
        }
        lemma_survivors(front);
        let kept = survivors(front);
        let all = survivors(g);
        assert forall|id: SystemId| registered(all, id) implies registered(g, id) by {
            let i = choose|i: int| 0 <= i < all.len() && all[i].id == id;
            if i < kept.len() {
                assert(kept[i].id == id);
                assert(registered(kept, id));
                assert(registered(front, id));
                let j = choose|j: int| 0 <= j < front.len() && front[j].id == id;
                assert(g[j].id == id);
            } else {
                assert(g[g.len() - 1].id == id);
            }
        }
        assert forall|i: int, j: int| 0 <= i < j < all.len() implies all[i].id != all[j].id by {
            if j == kept.len() {
                assert(kept[i].id == all[i].id);
                assert(registered(kept, kept[i].id));
                assert(registered(front, kept[i].id));
                let m = choose|m: int| 0 <= m < front.len() && front[m].id == kept[i].id;
                assert(g[m].id != g[g.len() - 1].id);
            } else {
                assert(kept[i].id != kept[j].id);
            }
        }
        assert forall|i: int| 0 <= i < all.len() implies (#[trigger] all[i]).deps.no_duplicates()
            && !leaves(all[i]) by {
            if i < kept.len() {
                assert(all[i] == kept[i]);
            }
        }
        assert forall|i: int| 0 <= i < g.len() && !leaves(g[i]) implies all.contains(
            #[trigger] g[i],
        ) by {
            if i < front.len() {
                assert(front[i] == g[i]);
                assert(kept.contains(front[i]));
                let m = choose|m: int| 0 <= m < kept.len() && kept[m] == g[i];
                assert(all[m] == g[i]);
            } else {
                assert(all[kept.len() as int] == g[i]);
            }
        }
        if forall|i: int| 0 <= i < g.len() ==> !leaves(g[i]) {
            assert forall|i: int| 0 <= i < front.len() implies !leaves(front[i]) by {
                assert(front[i] == g[i]);
            }
            assert(all =~= g);
        }
    } else {
        assert(survivors(g) =~= g);
    }
}

/// An edit of dependency lists keeps the identities, and with them the
/// distinctness of the identities and the set of registered systems.
pub(crate) proof fn lemma_edit_keeps_identities(g: Seq<Record>, h: Seq<Record>)
    requires
        g.len() == h.len(),
        forall|i: int| 0 <= i < g.len() ==> (#[trigger] g[i]).id == h[i].id,
        forall|i: int, j: int| 0 <= i < j < g.len() ==> g[i].id != g[j].id,
    ensures
        forall|i: int, j: int| 0 <= i < j < h.len() ==> h[i].id != h[j].id,
        forall|id: SystemId| registered(g, id) <==> registered(h, id),
{
    assert forall|i: int, j: int| 0 <= i < j < h.len() implies h[i].id != h[j].id by {
        assert(g[i].id == h[i].id && g[j].id == h[j].id);
    }
    assert forall|id: SystemId| registered(g, id) <==> registered(h, id) by {
        if registered(g, id) {
            let i = choose|i: int| 0 <= i < g.len() && g[i].id == id;
            assert(h[i].id == id);
        }
        if registered(h, id) {
            let i = choose|i: int| 0 <= i < h.len() && h[i].id == id;
            assert(g[i].id == id);
        }
    }
}

/// The empty order is a valid schedule of the empty registry.
pub(crate) proof fn lemma_empty_schedule()
    ensures
        well_formed(Seq::<Record>::empty()),
        !registered(Seq::<Record>::empty(), END_ID),
        valid_schedule(Seq::<Record>::empty(), Seq::<SystemId>::empty()),
{
}

/// Registering a record keeps the registry well formed, provided the record
/// names no dependency twice.
pub(crate) proof fn lemma_put(g: Seq<Record>, record: Record)
    requires
        well_formed(g),
        record.deps.no_duplicates(),
    ensures
        well_formed(put(g, record)),
        forall|id: SystemId|
            registered(put(g, record), id) <==> (registered(g, id) || id == record.id),
{
    let h = put(g, record);
    if registered(g, record.id) {
        let at = position(g, record.id);
        assert forall|i: int, j: int| 0 <= i < j < h.len() implies h[i].id != h[j].id by {
            assert(h[i].id == g[i].id && h[j].id == g[j].id);
        }
        assert forall|id: SystemId| registered(h, id) <==> (registered(g, id) || id
            == record.id) by {
            if registered(h, id) {
                let i = choose|i: int| 0 <= i < h.len() && h[i].id == id;
                assert(g[i].id == id);
            }
            if registered(g, id) {
                let i = choose|i: int| 0 <= i < g.len() && g[i].id == id;
                assert(h[i].id == id);
            }
        }
    } else {
        assert forall|i: int, j: int| 0 <= i < j < h.len() implies h[i].id != h[j].id by {
            if j == g.len() {
                assert(h[i] == g[i]);
            }
        }
        assert forall|id: SystemId| registered(h, id) <==> (registered(g, id) || id
            == record.id) by {
            if registered(h, id) {
                let i = choose|i: int| 0 <= i < h.len() && h[i].id == id;
                if i < g.len() {
                    assert(g[i].id == id);
                }
            }
            if registered(g, id) {
                let i = choose|i: int| 0 <= i < g.len() && g[i].id == id;
                assert(h[i].id == id);
            }
            assert(h[g.len() as int].id == record.id);
        }
    }
}

/// Whether two registries hold the same identities with the same
/// dependencies, position by position.
pub open spec fn same_graph(g: Seq<Record>, h: Seq<Record>) -> bool {
    &&& g.len() == h.len()
    &&& forall|i: int|
        0 <= i < g.len() ==> (#[trigger] g[i]).id == h[i].id && g[i].deps == h[i].deps
}

/// A chain to the barrier in one registry is a chain in any registry with
/// the same graph.
proof fn lemma_same_reach(g: Seq<Record>, h: Seq<Record>, id: SystemId, depth: nat)
    requires
        same_graph(g, h),
        reaches_barrier_within(g, id, depth),
    ensures
        reaches_barrier_within(h, id, depth),
    decreases depth,
{
    lemma_same_edges(g, h);
    if !depends(g, id, END_ID) {
        let d = choose|d: SystemId|
            depends(g, id, d) && reaches_barrier_within(g, d, (depth - 1) as nat);
        lemma_same_reach(g, h, d, (depth - 1) as nat);
        assert(depends(h, id, d));
    }
}

/// Registries with the same graph have the same systems and the same edges.
proof fn lemma_same_edges(g: Seq<Record>, h: Seq<Record>)
    requires
        same_graph(g, h),
    ensures
        forall|id: SystemId| registered(g, id) <==> registered(h, id),
        forall|a: SystemId, b: SystemId| depends(g, a, b) <==> depends(h, a, b),
{
    assert forall|id: SystemId| registered(g, id) <==> registered(h, id) by {
        if registered(g, id) {
            let i = choose|i: int| 0 <= i < g.len() && g[i].id == id;
            assert(h[i].id == id);
        }
        if registered(h, id) {
            let i = choose|i: int| 0 <= i < h.len() && h[i].id == id;
            assert(g[i].id == id);
        }
    }
    assert forall|a: SystemId, b: SystemId| depends(g, a, b) <==> depends(h, a, b) by {
        if depends(g, a, b) {
            let i = choose|i: int| 0 <= i < g.len() && g[i].id == a && g[i].deps.contains(b);
            assert(h[i].id == a && h[i].deps.contains(b));
        }
        if depends(h, a, b) {
            let i = choose|i: int| 0 <= i < h.len() && h[i].id == a && h[i].deps.contains(b);
            assert(g[i].id == a && g[i].deps.contains(b));
        }
    }
}

/// What is a valid schedule depends on the identities and the dependencies
/// alone: registries with the same graph have the same valid schedules.
pub proof fn lemma_same_graph(g: Seq<Record>, h: Seq<Record>)
    requires
        same_graph(g, h),
    ensures
        well_formed(g) <==> well_formed(h),
        forall|id: SystemId| registered(g, id) <==> registered(h, id),
        forall|a: SystemId, b: SystemId| depends(g, a, b) <==> depends(h, a, b),
        forall|order: Seq<SystemId>| valid_schedule(g, order) <==> valid_schedule(h, order),
{
    lemma_same_edges(g, h);
    assert(well_formed(g) <==> well_formed(h)) by {
        if well_formed(g) {
            assert forall|i: int, j: int| 0 <= i < j < h.len() implies h[i].id != h[j].id by {
                assert(g[i].id == h[i].id && g[j].id == h[j].id);
            }
            assert forall|i: int| 0 <= i < h.len() implies
                (#[trigger] h[i]).deps.no_duplicates() by {
                assert(g[i].deps == h[i].deps);
            }
        }
        if well_formed(h) {
            assert forall|i: int, j: int| 0 <= i < j < g.len() implies g[i].id != g[j].id by {
                assert(g[i].id == h[i].id && g[j].id == h[j].id);
            }
            assert forall|i: int| 0 <= i < g.len() implies
                (#[trigger] g[i]).deps.no_duplicates() by {
                assert(g[i].deps == h[i].deps);
            }
        }
    }
    assert forall|order: Seq<SystemId>| valid_schedule(g, order) <==> valid_schedule(h, order) by {
        if valid_schedule(g, order) {
            lemma_same_schedule(g, h, order);
        }
        if valid_schedule(h, order) {
            lemma_same_schedule(h, g, order);
        }
    }
}

/// A valid schedule of one registry is a valid schedule of any registry with
/// the same graph.
proof fn lemma_same_schedule(g: Seq<Record>, h: Seq<Record>, order: Seq<SystemId>)
    requires
        same_graph(g, h) || same_graph(h, g),
        valid_schedule(g, order),
    ensures
        valid_schedule(h, order),
{
    assert(same_graph(g, h) && same_graph(h, g)) by {
        if same_graph(g, h) {
            assert forall|i: int| 0 <= i < h.len() implies (#[trigger] h[i]).id == g[i].id
                && h[i].deps == g[i].deps by {
                assert(g[i].id == h[i].id);
            }
        } else {
            assert forall|i: int| 0 <= i < g.len() implies (#[trigger] g[i]).id == h[i].id
                && g[i].deps == h[i].deps by {
                assert(h[i].id == g[i].id);
            }
        }
    }
    lemma_same_edges(g, h);
    assert forall|p: int, q: int|
        0 <= p < order.len() && 0 <= q < order.len() && reaches_barrier(
            h,
            order[p],
        ) && !reaches_barrier(h, order[q]) implies q < p by {
        let depth = choose|depth: nat| reaches_barrier_within(h, order[p], depth);
        lemma_same_reach(h, g, order[p], depth);
        assert(reaches_barrier(g, order[p]));
        if reaches_barrier(g, order[q]) {
            let deep = choose|deep: nat| reaches_barrier_within(g, order[q], deep);
            lemma_same_reach(g, h, order[q], deep);
        }
    }
}

} // verus!
