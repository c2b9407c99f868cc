//! The inverse adjacency of a registry: for each producer, the systems that
//! wait for it.
use crate::schedule::{depends, find_index, lemma_depends_at, registered, resolves, well_formed};
use crate::system::{records, Record, ScheduleError, SystemId, SystemInfo, END_ID};
use vstd::prelude::*;

verus! {

/// Whether the walk over the records, which has reached dependency `k` of
/// record `i`, has already met `c` as a consumer of `producer`.
pub open spec fn met(g: Seq<Record>, c: int, producer: SystemId, i: int, k: int) -> bool {
    ||| (c < i && g[c].deps.contains(producer))
    ||| (c == i && exists|t: int| 0 <= t < k && t < g[i].deps.len() && g[i].deps[t] == producer)
}

/// The list holds, once each, the positions of the consumers of `producer`
/// that the walk has met.
pub open spec fn consumers_until(
    g: Seq<Record>,
    list: Seq<usize>,
    producer: SystemId,
    i: int,
    k: int,
) -> bool {
    &&& list.no_duplicates()
    &&& forall|t: int|
        0 <= t < list.len() ==> (#[trigger] list[t]) < g.len() && met(
            g,
            list[t] as int,
            producer,
            i,
            k,
        )
    &&& forall|c: int| 0 <= c < g.len() && met(g, c, producer, i, k) ==> list.contains(c as usize)
}

/// The list holds, once each, the positions of the systems that name
/// `producer` as a dependency.
pub open spec fn consumers_of(g: Seq<Record>, list: Seq<usize>, producer: SystemId) -> bool {
    &&& list.no_duplicates()
    &&& forall|t: int|
        0 <= t < list.len() ==> (#[trigger] list[t]) < g.len() && g[list[t] as int].deps.contains(
            producer,
        )
    &&& forall|c: int|
        0 <= c < g.len() && g[c].deps.contains(producer) ==> list.contains(c as usize)
}

/// The inverse adjacency of a registry: for each producer, and for the
/// barrier, the systems that wait for it.
pub struct Adjacency {
    pub consumers: Vec<Vec<usize>>,
    pub barrier: Vec<usize>,
}

impl Adjacency {
    /// The lists hold the consumers that a walk up to dependency `k` of
    /// record `i` has met.
    pub open spec fn built_until(&self, g: Seq<Record>, i: int, k: int) -> bool {
        &&& self.consumers@.len() == g.len()
        &&& forall|j: int|
            0 <= j < g.len() ==> consumers_until(g, (#[trigger] self.consumers@[j])@, g[j].id, i, k)
        &&& consumers_until(g, self.barrier@, END_ID, i, k)
    }

    /// The lists hold every consumer of every producer and of the barrier.
    pub open spec fn inverts(&self, g: Seq<Record>) -> bool {
        &&& self.consumers@.len() == g.len()
        &&& forall|j: int|
            0 <= j < g.len() ==> consumers_of(g, (#[trigger] self.consumers@[j])@, g[j].id)
        &&& consumers_of(g, self.barrier@, END_ID)
    }
}

/// For one more dependency of record `i`, the lists that do not receive it
/// stay complete.
proof fn lemma_met_step(g: Seq<Record>, list: Seq<usize>, producer: SystemId, i: int, k: int)
    requires
        0 <= i < g.len(),
        0 <= k < g[i].deps.len(),
        g[i].deps[k] != producer,
        consumers_until(g, list, producer, i, k),
    ensures
        consumers_until(g, list, producer, i, k + 1),
{
    let k1 = k + 1;
    assert forall|c: int| #[trigger] met(g, c, producer, i, k1) implies
        met(g, c, producer, i, k) by {
        if c == i {
            let t = choose|t: int| 0 <= t < k1 && t < g[i].deps.len() && g[i].deps[t] == producer;
            assert(t < k);
        }
    }
    assert forall|t: int| 0 <= t < list.len() implies (#[trigger] list[t]) < g.len() && met(
        g,
        list[t] as int,
        producer,
        i,
        k1,
    ) by {
        let c = list[t] as int;
        assert(met(g, c, producer, i, k));
        if c == i {
            let u = choose|u: int| 0 <= u < k && u < g[i].deps.len() && g[i].deps[u] == producer;
            assert(0 <= u < k1);
        }
    }
}

/// The list that receives consumer `i` for its dependency `k` stays
/// duplicate-free and complete.
proof fn lemma_met_push(g: Seq<Record>, list: Seq<usize>, producer: SystemId, i: int, k: int)
    requires
        0 <= i < g.len(),
        i <= usize::MAX,
        0 <= k < g[i].deps.len(),
        g[i].deps.no_duplicates(),
        g[i].deps[k] == producer,
        consumers_until(g, list, producer, i, k),
    ensures
        consumers_until(g, list.push(i as usize), producer, i, k + 1),
{
    let grown = list.push(i as usize);
    let k1 = k + 1;
    assert(!list.contains(i as usize)) by {
        if list.contains(i as usize) {
            let t = choose|t: int| 0 <= t < list.len() && list[t] == i as usize;
            assert(met(g, list[t] as int, producer, i, k));
            let u = choose|u: int| 0 <= u < k && u < g[i].deps.len() && g[i].deps[u] == producer;
            assert(g[i].deps[u] == g[i].deps[k]);
        }
    }
    assert(grown.no_duplicates()) by {
        assert forall|a: int, b: int| 0 <= a < grown.len() && 0 <= b < grown.len() && a
            != b implies grown[a] != grown[b] by {
            if a < list.len() {
                assert(list.contains(list[a]));
            }
            if b < list.len() {
                assert(list.contains(list[b]));
            }
        }
    }
    assert forall|t: int| 0 <= t < grown.len() implies (#[trigger] grown[t]) < g.len() && met(
        g,
        grown[t] as int,
        producer,
        i,
        k1,
    ) by {
        if t < list.len() {
            let c = list[t] as int;
            assert(met(g, c, producer, i, k));
            if c == i {
                let u = choose|u: int|
                    0 <= u < k && u < g[i].deps.len() && g[i].deps[u] == producer;
                assert(0 <= u < k1);
            }
        } else {
            assert(0 <= k < k1 && g[i].deps[k] == producer);
        }
    }
    assert forall|c: int| 0 <= c < g.len() && #[trigger] met(g, c, producer, i, k1) implies
        grown.contains(
        c as usize,
    ) by {
        if c == i {
            assert(grown[list.len() as int] == i as usize);
        } else {
            assert(met(g, c, producer, i, k));
            let t = choose|t: int| 0 <= t < list.len() && list[t] == c as usize;
            assert(grown[t] == c as usize);
        }
    }
}

/// When every dependency of record `i` was walked, the walk stands before
/// record `i + 1`.
proof fn lemma_met_next(g: Seq<Record>, list: Seq<usize>, producer: SystemId, i: int)
    requires
        0 <= i < g.len(),
        consumers_until(g, list, producer, i, g[i].deps.len() as int),
    ensures
        consumers_until(g, list, producer, i + 1, 0),
{
    let k = g[i].deps.len() as int;
    let i1 = i + 1;
    assert forall|t: int| 0 <= t < list.len() implies (#[trigger] list[t]) < g.len() && met(
        g,
        list[t] as int,
        producer,
        i1,
        0,
    ) by {
        let c = list[t] as int;
        assert(met(g, c, producer, i, k));
        if c == i {
            let u = choose|u: int| 0 <= u < k && u < g[i].deps.len() && g[i].deps[u] == producer;
            assert(g[i].deps.contains(producer));
        }
    }
    assert forall|c: int| 0 <= c < g.len() && #[trigger] met(g, c, producer, i1, 0) implies
        list.contains(
        c as usize,
    ) by {
        if c == i {
            let u = choose|u: int| 0 <= u < g[i].deps.len() && g[i].deps[u] == producer;
            assert(met(g, c, producer, i, k));
        } else {
            assert(met(g, c, producer, i, k));
        }
    }
}

/// Builds the inverse adjacency from each record's dependency list, and
/// reports the first dependency that names neither a registered system nor
/// the barrier.
pub fn build_adjacency(systems: &Vec<SystemInfo>) -> (built: Result<Adjacency, ScheduleError>)
    requires
        well_formed(records(systems@)),
        !registered(records(systems@), END_ID),
    ensures
        match built {
            Ok(adjacency) => adjacency.inverts(records(systems@)) && resolves(records(systems@)),
            Err(ScheduleError::UnknownDependency { system, dependency }) => {
                &&& depends(records(systems@), system, dependency)
                &&& dependency != END_ID
                &&& !registered(records(systems@), dependency)
            },
            Err(_) => false,
        },
{
    let ghost g = records(systems@);
    let n = systems.len();
    let mut consumers: Vec<Vec<usize>> = Vec::new();
    let mut j: usize = 0;
    while j < n
        invariant
            j <= n,
            consumers@.len() == j,
            forall|t: int| 0 <= t < j ==> (#[trigger] consumers@[t])@.len() == 0,
        decreases n - j,
    {
        consumers.push(Vec::new());
        j += 1;
    }
    let mut adjacency = Adjacency { consumers, barrier: Vec::new() };
    let mut i: usize = 0;
    while i < n
        invariant
            n == systems@.len(),
            g == records(systems@),
            well_formed(g),
            !registered(g, END_ID),
            i <= n,
            adjacency.built_until(g, i as int, 0),
            forall|c: int, t: int|
                0 <= c < i && 0 <= t < g[c].deps.len() ==> (#[trigger] g[c].deps[t]) == END_ID
                    || registered(g, g[c].deps[t]),
        decreases n - i,
    {
        let mut k: usize = 0;
        while k < systems[i].dependencies.len()
            invariant
                n == systems@.len(),
                g == records(systems@),
                well_formed(g),
                !registered(g, END_ID),
                i < n,
                k <= g[i as int].deps.len(),
                adjacency.built_until(g, i as int, k as int),
                forall|c: int, t: int|
                    0 <= c < i && 0 <= t < g[c].deps.len() ==> (#[trigger] g[c].deps[t]) == END_ID
                        || registered(g, g[c].deps[t]),
                forall|t: int|
                    0 <= t < k ==> (#[trigger] g[i as int].deps[t]) == END_ID || registered(
                        g,
                        g[i as int].deps[t],
                    ),
            decreases g[i as int].deps.len() - k,
        {
            let dependency = systems[i].dependencies[k];
            let ghost before = adjacency;
            if dependency == END_ID {
                adjacency.barrier.push(i);
                proof {
                    lemma_met_push(g, before.barrier@, END_ID, i as int, k as int);
                    assert forall|j: int| 0 <= j < g.len() implies consumers_until(
                        g,
                        (#[trigger] adjacency.consumers@[j])@,
                        g[j].id,
                        i as int,
                        k + 1,
                    ) by {
                        assert(registered(g, g[j].id));
                        lemma_met_step(g, before.consumers@[j]@, g[j].id, i as int, k as int);
                    }
                }
            } else {
                match find_index(systems, dependency) {
                    None => {
                        proof {
                            assert(g[i as int].deps.contains(dependency));
                            lemma_depends_at(g, i as int, dependency);
                        }
                        return Err(
                            ScheduleError::UnknownDependency { system: systems[i].id, dependency },
                        );
                    },
                    Some(producer) => {
                        adjacency.consumers[producer].push(i);
                        proof {
                            let ghost list = before.consumers@[producer as int]@;
                            assert(adjacency.consumers@[producer as int]@ == list.push(i));
                            assert(forall|j: int|
                                0 <= j < g.len() && j != producer ==> adjacency.consumers@[j]
                                    == before.consumers@[j]);
                            lemma_met_step(g, before.barrier@, END_ID, i as int, k as int);
                            assert forall|j: int| 0 <= j < g.len() implies consumers_until(
                                g,
                                (#[trigger] adjacency.consumers@[j])@,
                                g[j].id,
                                i as int,
                                k + 1,
                            ) by {
                                if j == producer {
                                    lemma_met_push(
                                        g,
                                        before.consumers@[j]@,
                                        g[j].id,
                                        i as int,
                                        k as int,
                                    );
                                } else {
                                    lemma_met_step(
                                        g,
                                        before.consumers@[j]@,
                                        g[j].id,
                                        i as int,
                                        k as int,
                                    );
                                }
                            }
                            assert(registered(g, dependency));
                        }
                    },
                }
            }
            k += 1;
        }
        proof {
            lemma_met_next(g, adjacency.barrier@, END_ID, i as int);
            assert forall|j: int| 0 <= j < g.len() implies consumers_until(
                g,
                (#[trigger] adjacency.consumers@[j])@,
                g[j].id,
                i + 1,
                0,
            ) by {
                lemma_met_next(g, adjacency.consumers@[j]@, g[j].id, i as int);
            }
        }
        i += 1;
    }
    proof {
        assert forall|a: SystemId, b: SystemId| #[trigger] depends(g, a, b) implies b == END_ID
            || registered(g, b) by {
            let c = choose|c: int| 0 <= c < g.len() && g[c].id == a && g[c].deps.contains(b);
            let t = choose|t: int| 0 <= t < g[c].deps.len() && g[c].deps[t] == b;
            assert(g[c].deps[t] == END_ID || registered(g, g[c].deps[t]));
        }
        lemma_built(g, adjacency.barrier@, END_ID);
        assert forall|j: int| 0 <= j < g.len() implies consumers_of(
            g,
            (#[trigger] adjacency.consumers@[j])@,
            g[j].id,
        ) by {
            lemma_built(g, adjacency.consumers@[j]@, g[j].id);
        }
    }
    Ok(adjacency)
}

/// At the end of the walk the list holds every consumer.
proof fn lemma_built(g: Seq<Record>, list: Seq<usize>, producer: SystemId)
    requires
        consumers_until(g, list, producer, g.len() as int, 0),
    ensures
        consumers_of(g, list, producer),
{
    let n = g.len() as int;
    assert forall|t: int| 0 <= t < list.len() implies (#[trigger] list[t]) < g.len()
        && g[list[t] as int].deps.contains(producer) by {
        assert(met(g, list[t] as int, producer, n, 0));
    }
    assert forall|c: int| 0 <= c < g.len() && g[c].deps.contains(producer) implies list.contains(
        c as usize,
    ) by {
        assert(met(g, c, producer, n, 0));
    }
}

} // verus!
