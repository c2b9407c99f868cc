//! The stage: one world, a registry of systems, and the cached order in
//! which a pass runs them.
use crate::components::lemma_index_of_unique;
use crate::registry::{
    awaited, captured, dedup, distinct, executed, is_active, leaves, lemma_active_at,
    lemma_awaited_kept, lemma_awaited_noted, lemma_captured, lemma_captured_push,
    lemma_distinct, lemma_edit_keeps_identities, lemma_empty_schedule, lemma_only_at, lemma_put,
    lemma_same_graph, lemma_survivors, lemma_survivors_step, names, noted, position, put,
    registration, registry_record, same_error, survivors, with_active, with_dependency,
    without_dependency,
};
use crate::schedule::order::compute_order;
use crate::schedule::{
    depends, find_index, has_schedule, lemma_depends_at, registered, schedule_failure,
    valid_schedule, well_formed,
};
use crate::system::{
    records, Errors, ErrorsSystem, Record, Run, ScheduleError, System, SystemId, SystemInfo,
    END_ID, ERRORS_ID,
};
use crate::world::World;
use vstd::prelude::*;

verus! {

/// What one pass did.
#[derive(Debug, PartialEq, Eq)]
pub struct Pass {
    /// The systems whose initialization hook was called, in the order of the
    /// calls.
    pub initialized: Vec<SystemId>,
    /// The systems whose per-pass hook was called, in the order of the calls.
    pub executed: Vec<SystemId>,
}

/// Stage = world + systems.
pub struct Stage {
    world: World,
    errors: Errors,
    systems: Vec<SystemInfo>,
    need_update: bool,
    run_queue: Vec<SystemId>,
    need_init: Vec<SystemId>,
}

impl Stage {
    /// The registered systems, each with its instance, in registration
    /// order.
    pub closed spec fn entries(&self) -> Seq<SystemInfo> {
        self.systems@
    }

    /// The records of the registered systems, in registration order.
    pub closed spec fn records(&self) -> Seq<Record> {
        records(self.systems@)
    }

    /// The records are those of the entries.
    pub proof fn lemma_records(&self)
        ensures
            self.records() == records(self.entries()),
    {
    }

    /// Whether this stage holds, position by position, the instances that
    /// the other holds.
    pub open spec fn same_instances(&self, other: &Stage) -> bool {
        &&& self.entries().len() == other.entries().len()
        &&& forall|i: int|
            0 <= i < self.entries().len() ==> (#[trigger] self.entries()[i]).system
                == other.entries()[i].system
    }

    /// The cached execution order.
    pub closed spec fn order(&self) -> Seq<SystemId> {
        self.run_queue@
    }

    /// Whether the cached order must be derived anew before the next pass.
    pub closed spec fn dirty(&self) -> bool {
        self.need_update
    }

    /// The systems registered since the last pass, in registration order.
    pub closed spec fn pending_init(&self) -> Seq<SystemId> {
        self.need_init@
    }

    /// The latest error of each system that failed so far.
    pub closed spec fn errors(&self) -> Map<SystemId, String> {
        self.errors@
    }

    /// The world that the stage owns.
    pub closed spec fn world(&self) -> World {
        self.world
    }

    /// The stage's invariant: identities are distinct, no record names a
    /// dependency twice, every system that waits for its initialization is
    /// registered and waits once, and a cached order that is not marked dirty
    /// is a valid schedule of the registry.
    pub open spec fn wf(&self) -> bool {
        &&& well_formed(self.records())
        &&& awaited(self.records(), self.pending_init())
        &&& !self.dirty() ==> !registered(self.records(), END_ID) && valid_schedule(
            self.records(),
            self.order(),
        )
    }

    /// Whether the two stages agree in everything but the registry, the dirty
    /// flag and the list of systems that wait for initialization.
    pub open spec fn same_surroundings(&self, other: &Stage) -> bool {
        &&& self.order() == other.order()
        &&& self.errors() == other.errors()
        &&& self.world() == other.world()
    }

    fn bare(world: World) -> (stage: Stage)
        ensures
            stage.wf(),
            stage.records() == Seq::<Record>::empty(),
            stage.order() == Seq::<SystemId>::empty(),
            !stage.dirty(),
            stage.pending_init() == Seq::<SystemId>::empty(),
            stage.errors() == Map::<SystemId, String>::empty(),
            stage.world() == world,
    {
        let stage = Stage {
            world,
            errors: Errors::new(),
            systems: Vec::new(),
            need_update: false,
            run_queue: Vec::new(),
            need_init: Vec::new(),
        };
        proof {
            assert(stage.records() =~= Seq::<Record>::empty());
            lemma_empty_schedule();
        }
        stage
    }

    /// Create a stage with an empty world. The error registry is registered
    /// as an inactive built-in system.
    pub fn new() -> (stage: Stage)
        ensures
            stage.wf(),
            stage.records() == seq![registry_record()],
            stage.order() == Seq::<SystemId>::empty(),
            stage.dirty(),
            stage.pending_init() == seq![ERRORS_ID],
            stage.errors() == Map::<SystemId, String>::empty(),
            stage.world().columns().len() == 0,
    {
        Stage::from_world(World::new())
    }

    /// Create a stage that owns the given world. The error registry is
    /// registered as an inactive built-in system.
    pub fn from_world(world: World) -> (stage: Stage)
        ensures
            stage.wf(),
            stage.records() == seq![registry_record()],
            stage.order() == Seq::<SystemId>::empty(),
            stage.dirty(),
            stage.pending_init() == seq![ERRORS_ID],
            stage.errors() == Map::<SystemId, String>::empty(),
            stage.world() == world,
    {
        let mut stage = Stage::bare(world);
        let registry: Box<dyn Run> = Box::new(ErrorsSystem);
        stage.add_system_dyn(ERRORS_ID, Vec::new(), false, registry);
        stage.deactivate_dyn(ERRORS_ID);
        proof {
            let empty = Seq::<Record>::empty();
            assert(!registered(empty, ERRORS_ID));
            assert(distinct(Seq::<SystemId>::empty()) =~= Seq::<SystemId>::empty());
            assert(stage.records() =~= seq![registry_record()]);
            assert(stage.pending_init() =~= seq![ERRORS_ID]);
        }
        stage
    }

    /// Puts an entry into the registry: under a new identity at the end,
    /// under a registered one in the place of the old entry. The system
    /// waits for its initialization, and the cached order is derived anew
    /// before the next pass.
    fn install(&mut self, info: SystemInfo)
        requires
            old(self).wf(),
            info@.deps.no_duplicates(),
        ensures
            final(self).wf(),
            final(self).records() == put(old(self).records(), info@),
            registered(final(self).records(), info.id),
            final(self).entries()[position(final(self).records(), info.id)] == info,
            final(self).dirty(),
            final(self).pending_init() == noted(old(self).pending_init(), info.id),
            final(self).same_surroundings(old(self)),
            forall|i: int|
                0 <= i < old(self).entries().len() && old(self).records()[i].id != info.id ==> (
                #[trigger] final(self).entries()[i]) == old(self).entries()[i],
    {
        let ghost g = self.records();
        let ghost record = info@;
        let id = info.id;
        self.need_update = true;
        if names(&self.need_init, id).is_none() {
            self.need_init.push(id);
        }
        match find_index(&self.systems, id) {
            Some(i) => {
                proof {
                    lemma_only_at(g, i as int);
                }
                self.systems[i] = info;
                assert(self.records() =~= g.update(i as int, record));
            },
            None => {
                self.systems.push(info);
                assert(self.records() =~= g.push(record));
            },
        }
        proof {
            lemma_put(g, record);
            assert(self.pending_init() == noted(old(self).pending_init(), id));
            lemma_awaited_noted(g, self.records(), old(self).pending_init(), id);
            let at = position(self.records(), id);
            lemma_only_at(self.records(), at);
        }
    }

    /// Registers a system under an identity, with its declared
    /// dependencies. A system registered under an identity that is already
    /// taken replaces the earlier one; repeated names among the dependencies
    /// count once. The system is active, waits for its initialization, and
    /// the cached order is derived anew before the next pass.
    pub fn add_system_dyn(
        &mut self,
        id: SystemId,
        dependencies: Vec<SystemId>,
        once: bool,
        system: Box<dyn Run>,
    )
        requires
            old(self).wf(),
        ensures
            final(self).wf(),
            final(self).records() == put(
                old(self).records(),
                registration(id, dependencies@, once),
            ),
            registered(final(self).records(), id),
            final(self).dirty(),
            final(self).pending_init() == noted(old(self).pending_init(), id),
            final(self).same_surroundings(old(self)),
            equal(final(self).entries()[position(final(self).records(), id)].system, system),
            forall|i: int|
                0 <= i < old(self).entries().len() && old(self).records()[i].id != id ==> (
                #[trigger] final(self).entries()[i]).system == old(self).entries()[i].system,
    {
        proof {
            lemma_distinct(dependencies@);
        }
        let info = (SystemInfo {
            id,
            dependencies: dedup(dependencies),
            is_active: true,
            is_once: once,
            system,
        }).settled();
        self.install(info);
    }

    /// Sets the active flag of a registered system.
    fn set_active(&mut self, system: SystemId, active: bool)
        requires
            old(self).wf(),
            registered(old(self).records(), system),
        ensures
            final(self).wf(),
            final(self).records() == with_active(old(self).records(), system, active),
            final(self).dirty() == old(self).dirty(),
            final(self).pending_init() == old(self).pending_init(),
            final(self).same_surroundings(old(self)),
            final(self).same_instances(old(self)),
    {
        let ghost g = self.records();
        let at = find_index(&self.systems, system).unwrap();
        self.systems[at].is_active = active;
        proof {
            lemma_only_at(g, at as int);
            assert(self.records() =~= with_active(g, system, active));
            lemma_same_graph(g, self.records());
            lemma_awaited_kept(g, self.records(), self.pending_init());
        }
    }

    /// Add a normal system in stage, with the dependencies that its type
    /// declares. A system registered under an identity that is already taken
    /// replaces the earlier one. Repeated names in the declared dependencies
    /// count once.
    pub fn add_system<T: System + 'static>(&mut self, system: T) -> (stage: &mut Self)
        requires
            old(self).wf(),
        ensures
            stage.wf(),
            exists|declared: Vec<SystemId>|
                call_ensures(T::dependencies, (), declared) && stage.records() == put(
                    old(self).records(),
                    #[trigger] registration(T::ID, declared@, false),
                ),
            registered(stage.records(), T::ID),
            stage.dirty(),
            stage.pending_init() == noted(old(self).pending_init(), T::ID),
            stage.same_surroundings(old(self)),
            equal(stage.entries()[position(stage.records(), T::ID)].system, Box::new(system)),
            forall|i: int|
                0 <= i < old(self).entries().len() && old(self).records()[i].id != T::ID ==> (
                #[trigger] stage.entries()[i]).system == old(self).entries()[i].system,
            *final(self) == *final(stage),
    {
        let declare = T::dependencies;
        let dependencies = declare();
        let ghost declared = dependencies;
        proof {
            lemma_distinct(declared@);
        }
        let info = (SystemInfo {
            id: T::ID,
            dependencies: dedup(dependencies),
            is_active: true,
            is_once: false,
            system: Box::new(system),
        }).settled();
        self.install(info);
        proof {
            assert(call_ensures(T::dependencies, (), declared));
            assert(self.records() == put(
                old(self).records(),
                registration(T::ID, declared@, false),
            ));
        }
        self
    }

    /// Add a system that leaves the registry after the first pass in which it
    /// ran, with the dependencies that its type declares.
    pub fn add_once_system<T: System + 'static>(&mut self, system: T) -> (stage: &mut Self)
        requires
            old(self).wf(),
        ensures
            stage.wf(),
            exists|declared: Vec<SystemId>|
                call_ensures(T::dependencies, (), declared) && stage.records() == put(
                    old(self).records(),
                    #[trigger] registration(T::ID, declared@, true),
                ),
            registered(stage.records(), T::ID),
            stage.dirty(),
            stage.pending_init() == noted(old(self).pending_init(), T::ID),
            stage.same_surroundings(old(self)),
            equal(stage.entries()[position(stage.records(), T::ID)].system, Box::new(system)),
            forall|i: int|
                0 <= i < old(self).entries().len() && old(self).records()[i].id != T::ID ==> (
                #[trigger] stage.entries()[i]).system == old(self).entries()[i].system,
            *final(self) == *final(stage),
    {
        let declare = T::dependencies;
        let dependencies = declare();
        let ghost declared = dependencies;
        proof {
            lemma_distinct(declared@);
        }
        let info = (SystemInfo {
            id: T::ID,
            dependencies: dedup(dependencies),
            is_active: true,
            is_once: true,
            system: Box::new(system),
        }).settled();
        self.install(info);
        proof {
            assert(call_ensures(T::dependencies, (), declared));
            assert(self.records() == put(
                old(self).records(),
                registration(T::ID, declared@, true),
            ));
        }
        self
    }

    /// Check if stage has such system.
    pub fn has_system<T: System>(&self) -> (b: bool)
        ensures
            b == registered(self.records(), T::ID),
    {
        self.has_system_dyn(T::ID)
    }

    /// Check if stage has a system with the given identity.
    pub fn has_system_dyn(&self, system: SystemId) -> (b: bool)
        ensures
            b == registered(self.records(), system),
    {
        find_index(&self.systems, system).is_some()
    }

    /// Deactivate a system: its per-pass hook is not called until it is
    /// activated again. It keeps its record, its dependencies and its place
    /// in the order.
    pub fn deactivate<T: System>(&mut self) -> (stage: &mut Self)
        requires
            old(self).wf(),
            registered(old(self).records(), T::ID),
        ensures
            stage.wf(),
            stage.records() == with_active(old(self).records(), T::ID, false),
            stage.dirty() == old(self).dirty(),
            stage.pending_init() == old(self).pending_init(),
            stage.same_surroundings(old(self)),
            stage.same_instances(old(self)),
            *final(self) == *final(stage),
    {
        self.set_active(T::ID, false);
        self
    }

    /// Same as `deactivate`, for a system given by its identity.
    pub fn deactivate_dyn(&mut self, system: SystemId) -> (stage: &mut Self)
        requires
            old(self).wf(),
            registered(old(self).records(), system),
        ensures
            stage.wf(),
            stage.records() == with_active(old(self).records(), system, false),
            stage.dirty() == old(self).dirty(),
            stage.pending_init() == old(self).pending_init(),
            stage.same_surroundings(old(self)),
            stage.same_instances(old(self)),
            *final(self) == *final(stage),
    {
        self.set_active(system, false);
        self
    }

    /// Activate a system. A system is active from its registration on.
    pub fn activate<T: System>(&mut self) -> (stage: &mut Self)
        requires
            old(self).wf(),
            registered(old(self).records(), T::ID),
        ensures
            stage.wf(),
            stage.records() == with_active(old(self).records(), T::ID, true),
            stage.dirty() == old(self).dirty(),
            stage.pending_init() == old(self).pending_init(),
            stage.same_surroundings(old(self)),
            stage.same_instances(old(self)),
            *final(self) == *final(stage),
    {
        self.set_active(T::ID, true);
        self
    }

    /// Same as `activate`, for a system given by its identity.
    pub fn activate_dyn(&mut self, system: SystemId) -> (stage: &mut Self)
        requires
            old(self).wf(),
            registered(old(self).records(), system),
        ensures
            stage.wf(),
            stage.records() == with_active(old(self).records(), system, true),
            stage.dirty() == old(self).dirty(),
            stage.pending_init() == old(self).pending_init(),
            stage.same_surroundings(old(self)),
            stage.same_instances(old(self)),
            *final(self) == *final(stage),
    {
        self.set_active(system, true);
        self
    }

    /// Get a reference of world in stage.
    pub fn world_ref(&self) -> (world: &World)
        ensures
            *world == self.world(),
    {
        &self.world
    }

    /// Get a mutable reference of world in stage. Whatever is done to the
    /// world, the rest of the stage stays as it is.
    pub fn world_mut(&mut self) -> (world: &mut World)
        ensures
            *world == old(self).world(),
            final(self).world() == *final(world),
            final(self).records() == old(self).records(),
            final(self).same_instances(old(self)),
            final(self).order() == old(self).order(),
            final(self).dirty() == old(self).dirty(),
            final(self).pending_init() == old(self).pending_init(),
            final(self).errors() == old(self).errors(),
    {
        &mut self.world
    }

    /// The error registry of the stage.
    pub fn errors_ref(&self) -> (errors: &Errors)
        ensures
            errors@ == self.errors(),
    {
        &self.errors
    }

    /// The cached execution order.
    pub fn run_queue(&self) -> (order: &Vec<SystemId>)
        ensures
            order@ == self.order(),
    {
        &self.run_queue
    }

    /// Whether `src` is registered and names `dep` as a dependency.
    pub fn depends_on(&self, src: SystemId, dep: SystemId) -> (b: bool)
        requires
            self.wf(),
        ensures
            b == depends(self.records(), src, dep),
    {
        match find_index(&self.systems, src) {
            Some(at) => {
                proof {
                    lemma_depends_at(self.records(), at as int, dep);
                }
                names(&self.systems[at].dependencies, dep).is_some()
            },
            None => false,
        }
    }

    /// Same as `add_dependency`, for systems given by their identities.
    pub fn add_dependency_dyn(&mut self, src: SystemId, dep: SystemId)
        requires
            old(self).wf(),
            registered(old(self).records(), src),
            !depends(old(self).records(), src, dep),
        ensures
            final(self).wf(),
            final(self).records() == with_dependency(old(self).records(), src, dep),
            final(self).dirty(),
            final(self).pending_init() == old(self).pending_init(),
            final(self).same_surroundings(old(self)),
            final(self).same_instances(old(self)),
    {
        let ghost g = self.records();
        let at = find_index(&self.systems, src).unwrap();
        proof {
            lemma_depends_at(g, at as int, dep);
        }
        self.systems[at].dependencies.push(dep);
        self.need_update = true;
        proof {
            let h = with_dependency(g, src, dep);
            lemma_only_at(g, at as int);
            assert(self.records() =~= h);
            lemma_edit_keeps_identities(g, h);
            assert forall|i: int| 0 <= i < h.len() implies
                (#[trigger] h[i]).deps.no_duplicates() by {
                if g[i].id == src {
                    let deps = g[i].deps;
                    assert forall|a: int, b: int|
                        0 <= a < deps.push(dep).len() && 0 <= b < deps.push(dep).len() && a
                            != b implies deps.push(dep)[a] != deps.push(dep)[b] by {
                        if a < deps.len() {
                            assert(deps.contains(deps[a]));
                        }
                        if b < deps.len() {
                            assert(deps.contains(deps[b]));
                        }
                    }
                } else {
                    assert(g[i].deps.no_duplicates());
                }
            }
            lemma_awaited_kept(g, self.records(), self.pending_init());
        }
    }

    /// Same as `remove_dependency`, for systems given by their identities.
    pub fn remove_dependency_dyn(&mut self, src: SystemId, dep: SystemId)
        requires
            old(self).wf(),
            depends(old(self).records(), src, dep),
        ensures
            final(self).wf(),
            final(self).records() == without_dependency(old(self).records(), src, dep),
            final(self).dirty(),
            final(self).pending_init() == old(self).pending_init(),
            final(self).same_surroundings(old(self)),
            final(self).same_instances(old(self)),
    {
        let ghost g = self.records();
        let at = find_index(&self.systems, src).unwrap();
        proof {
            lemma_depends_at(g, at as int, dep);
        }
        let k = names(&self.systems[at].dependencies, dep).unwrap();
        proof {
            lemma_index_of_unique(g[at as int].deps, k as int);
        }
        let _ = self.systems[at].dependencies.remove(k);
        self.need_update = true;
        proof {
            let h = without_dependency(g, src, dep);
            lemma_only_at(g, at as int);
            assert(self.records() =~= h);
            lemma_edit_keeps_identities(g, h);
            assert forall|i: int| 0 <= i < h.len() implies
                (#[trigger] h[i]).deps.no_duplicates() by {
                if g[i].id == src {
                    let deps = g[i].deps;
                    assert(deps.no_duplicates());
                    let at_dep = deps.index_of(dep);
                    let rest = deps.remove(at_dep);
                    assert forall|a: int, b: int|
                        0 <= a < rest.len() && 0 <= b < rest.len() && a != b implies rest[a]
                        != rest[b] by {
                        let a0 = if a < at_dep {
                            a
                        } else {
                            a + 1
                        };
                        let b0 = if b < at_dep {
                            b
                        } else {
                            b + 1
                        };
                        assert(rest[a] == deps[a0] && rest[b] == deps[b0]);
                    }
                } else {
                    assert(g[i].deps.no_duplicates());
                }
            }
            lemma_awaited_kept(g, self.records(), self.pending_init());
        }
    }

    /// Dynamically add a dependency to the system. The source system must be
    /// registered and must not name the dependency yet. The cached order is
    /// derived anew before the next pass.
    pub fn add_dependency<Src: System, Dep: System>(&mut self)
        requires
            old(self).wf(),
            registered(old(self).records(), Src::ID),
            !depends(old(self).records(), Src::ID, Dep::ID),
        ensures
            final(self).wf(),
            final(self).records() == with_dependency(
                old(self).records(),
                Src::ID,
                Dep::ID,
            ),
            final(self).dirty(),
            final(self).pending_init() == old(self).pending_init(),
            final(self).same_surroundings(old(self)),
            final(self).same_instances(old(self)),
    {
        self.add_dependency_dyn(Src::ID, Dep::ID);
    }

    /// Dynamically remove a dependency from system. The source system must
    /// be registered and must name the dependency. The cached order is
    /// derived anew before the next pass.
    pub fn remove_dependency<Src: System, Dep: System>(&mut self)
        requires
            old(self).wf(),
            depends(old(self).records(), Src::ID, Dep::ID),
        ensures
            final(self).wf(),
            final(self).records() == without_dependency(
                old(self).records(),
                Src::ID,
                Dep::ID,
            ),
            final(self).dirty(),
            final(self).pending_init() == old(self).pending_init(),
            final(self).same_surroundings(old(self)),
            final(self).same_instances(old(self)),
    {
        self.remove_dependency_dyn(Src::ID, Dep::ID);
    }

    /// Derives the execution order anew if the registry changed since it was
    /// last derived, and tells why where none can be derived: on an error the
    /// stage stays as it was. A caller that cannot know whether the systems
    /// of the stage can be ordered asks here before it asks for a pass.
    pub fn try_update(&mut self) -> (outcome: Result<(), ScheduleError>)
        requires
            old(self).wf(),
        ensures
            final(self).wf(),
            final(self).records() == old(self).records(),
            final(self).same_instances(old(self)),
            final(self).pending_init() == old(self).pending_init(),
            final(self).errors() == old(self).errors(),
            final(self).world() == old(self).world(),
            outcome is Ok <==> (!old(self).dirty() || has_schedule(old(self).records())),
            match outcome {
                Ok(_) => {
                    &&& !final(self).dirty()
                    &&& !old(self).dirty() ==> final(self).order() == old(self).order()
                },
                Err(error) => {
                    &&& final(self).dirty()
                    &&& final(self).order() == old(self).order()
                    &&& schedule_failure(old(self).records(), error)
                },
            },
    {
        if !self.need_update {
            return Ok(());
        }
        match compute_order(&self.systems) {
            Ok(order) => {
                self.run_queue = order;
                self.need_update = false;
                proof {
                    assert(self.records() == old(self).records());
                    assert(has_schedule(self.records()));
                    assert(valid_schedule(self.records(), self.order()));
                    assert(self.pending_init() == old(self).pending_init());
                }
                Ok(())
            },
            Err(error) => Err(error),
        }
    }

    /// Derives the execution order anew if the registry changed since it was
    /// last derived. The systems of the stage must admit an order: no system
    /// under the barrier's identity, no unknown dependency, no cycle.
    pub fn update(&mut self)
        requires
            old(self).wf(),
            !old(self).dirty() || has_schedule(old(self).records()),
        ensures
            final(self).wf(),
            !final(self).dirty(),
            final(self).records() == old(self).records(),
            final(self).same_instances(old(self)),
            final(self).pending_init() == old(self).pending_init(),
            final(self).errors() == old(self).errors(),
            final(self).world() == old(self).world(),
            !old(self).dirty() ==> final(self).order() == old(self).order(),
    {
        match self.try_update() {
            Ok(_) => {},
            Err(_) => unreached(),
        }
    }

    /// Calls the initialization hook of every system registered since the
    /// last pass, in registration order, keeps what fails, and reports the
    /// systems it called, with what their hooks returned.
    fn initialize_pending(&mut self) -> (called: (Vec<SystemId>, Ghost<Seq<Result<(), String>>>))
        requires
            old(self).wf(),
        ensures
            final(self).wf(),
            final(self).records() == old(self).records(),
            final(self).order() == old(self).order(),
            final(self).dirty() == old(self).dirty(),
            final(self).pending_init() == Seq::<SystemId>::empty(),
            called.0@ == old(self).pending_init(),
            called.1@.len() == called.0@.len(),
            final(self).errors() == captured(old(self).errors(), called.0@, called.1@),
    {
        let ghost g = self.records();
        let ghost pending = self.pending_init();
        let ghost mut outcomes: Seq<Result<(), String>> = Seq::empty();
        let mut called: Vec<SystemId> = Vec::new();
        let mut k: usize = 0;
        while k < self.need_init.len()
            invariant
                self.records() == g,
                self.order() == old(self).order(),
                self.dirty() == old(self).dirty(),
                self.pending_init() == pending,
                awaited(g, pending),
                k <= pending.len(),
                called@ == pending.take(k as int),
                outcomes.len() == called@.len(),
                self.errors() == captured(old(self).errors(), called@, outcomes),
            decreases pending.len() - k,
        {
            let id = self.need_init[k];
            proof {
                assert(registered(g, pending[k as int]));
            }
            match find_index(&self.systems, id) {
                Some(at) => {
                    let outcome = self.systems[at].system.initialize(
                        &mut self.world,
                        &self.errors,
                    );
                    proof {
                        lemma_captured_push(old(self).errors(), called@, outcomes, id, outcome);
                        outcomes = outcomes.push(outcome);
                    }
                    self.errors.capture(id, outcome);
                    called.push(id);
                    proof {
                        assert(self.records() =~= g);
                        assert(called@ =~= pending.take(k + 1));
                    }
                },
                None => {
                    proof {
                        assert(false);
                    }
                },
            }
            k += 1;
        }
        proof {
            assert(pending.take(k as int) =~= pending);
        }
        self.need_init.clear();
        proof {
            lemma_awaited_kept(g, g, Seq::<SystemId>::empty());
        }
        (called, Ghost(outcomes))
    }

    /// Calls the per-pass hook of every active system in the cached order,
    /// keeps what fails, and reports the systems it called, with what their
    /// hooks returned.
    fn execute(&mut self) -> (called: (Vec<SystemId>, Ghost<Seq<Result<(), String>>>))
        requires
            old(self).wf(),
            !old(self).dirty(),
        ensures
            final(self).wf(),
            final(self).records() == old(self).records(),
            final(self).order() == old(self).order(),
            final(self).dirty() == old(self).dirty(),
            final(self).pending_init() == old(self).pending_init(),
            called.0@ == executed(old(self).records(), old(self).order()),
            called.1@.len() == called.0@.len(),
            final(self).errors() == captured(old(self).errors(), called.0@, called.1@),
    {
        let ghost g = self.records();
        let ghost order = self.order();
        let ghost mut outcomes: Seq<Result<(), String>> = Seq::empty();
        let mut trace: Vec<SystemId> = Vec::new();
        let mut k: usize = 0;
        proof {
            reveal(Seq::filter);
            assert(order.take(0) =~= Seq::<SystemId>::empty());
        }
        while k < self.run_queue.len()
            invariant
                well_formed(g),
                self.records() == g,
                self.order() == order,
                self.dirty() == old(self).dirty(),
                self.pending_init() == old(self).pending_init(),
                k <= order.len(),
                trace@ == executed(g, order.take(k as int)),
                outcomes.len() == trace@.len(),
                self.errors() == captured(old(self).errors(), trace@, outcomes),
            decreases order.len() - k,
        {
            let id = self.run_queue[k];
            proof {
                reveal(Seq::filter);
                assert(order.take(k + 1).drop_last() =~= order.take(k as int));
                assert(order.take(k + 1).last() == id);
            }
            match find_index(&self.systems, id) {
                Some(at) => {
                    proof {
                        lemma_active_at(g, at as int);
                    }
                    if self.systems[at].is_active {
                        let outcome = self.systems[at].system.run(&mut self.world, &self.errors);
                        proof {
                            lemma_captured_push(old(self).errors(), trace@, outcomes, id, outcome);
                            outcomes = outcomes.push(outcome);
                        }
                        self.errors.capture(id, outcome);
                        trace.push(id);
                        proof {
                            assert(self.records() =~= g);
                        }
                    }
                },
                None => {
                    proof {
                        assert(!is_active(g, id));
                    }
                },
            }
            k += 1;
        }
        proof {
            assert(order.take(k as int) =~= order);
        }
        (trace, Ghost(outcomes))
    }

    /// Takes the systems that are marked once and have run out of the
    /// registry, and marks the cached order dirty if any left.
    fn retire(&mut self)
        requires
            old(self).wf(),
            old(self).pending_init().len() == 0,
        ensures
            final(self).wf(),
            final(self).records() == survivors(old(self).records()),
            final(self).order() == old(self).order(),
            final(self).pending_init() == old(self).pending_init(),
            final(self).errors() == old(self).errors(),
            final(self).world() == old(self).world(),
            final(self).dirty() <==> (old(self).dirty() || exists|i: int|
                0 <= i < old(self).records().len() && leaves(old(self).records()[i])),
    {
        let ghost g = self.records();
        let mut i: usize = self.systems.len();
        let mut retired = false;
        proof {
            reveal(Seq::filter);
            assert(g.skip(i as int) =~= Seq::<Record>::empty());
            assert(g.take(i as int) =~= g);
            assert(self.records() =~= g.take(i as int) + survivors(g.skip(i as int)));
        }
        while i > 0
            invariant
                i <= g.len(),
                self.records() == g.take(i as int) + survivors(g.skip(i as int)),
                self.order() == old(self).order(),
                self.pending_init() == old(self).pending_init(),
                self.errors() == old(self).errors(),
                self.world() == old(self).world(),
                self.dirty() == old(self).dirty(),
                retired <==> exists|j: int| i <= j < g.len() && leaves(g[j]),
            decreases i,
        {
            i -= 1;
            let ghost current = self.records();
            let ghost tail = survivors(g.skip(i + 1));
            proof {
                assert(current.len() == self.systems@.len());
                assert(g.take(i + 1).len() == i + 1);
                assert(current.len() == g.take(i + 1).len() + tail.len());
                lemma_survivors_step(g, i as int);
                assert(g.take(i + 1) =~= g.take(i as int).push(g[i as int]));
                assert(current[i as int] == g[i as int]);
            }
            if self.systems[i].is_active && self.systems[i].is_once {
                let _ = self.systems.remove(i);
                retired = true;
                proof {
                    assert(self.records() =~= current.remove(i as int));
                    assert(current.remove(i as int) =~= g.take(i as int) + tail);
                }
            } else {
                proof {
                    assert(current =~= g.take(i as int) + (seq![g[i as int]] + tail));
                    assert forall|j: int| i <= j < g.len() && leaves(g[j]) implies i + 1 <= j by {
                    }
                }
            }
        }
        proof {
            assert(g.skip(0) =~= g);
            assert(g.take(0) + survivors(g) =~= survivors(g));
            lemma_survivors(g);
            assert(self.pending_init() =~= Seq::<SystemId>::empty());
        }
        if retired {
            self.need_update = true;
        }
    }

    /// Execute all systems in stage.
    ///
    /// A pass derives the execution order if the registry changed, calls the
    /// initialization hook of every system registered since the last pass,
    /// then calls the per-pass hook of every active system in order, and
    /// takes the systems that are marked once and have run out of the
    /// registry. A hook that fails does not stop the pass: its error becomes
    /// the latest error of its system, where the hooks called after it find
    /// it. The pass reports the systems whose hooks it called.
    ///
    /// The systems of the stage must admit an order; `try_update` tells
    /// whether they do.
    pub fn run(&mut self) -> (pass: Pass)
        requires
            old(self).wf(),
            !old(self).dirty() || has_schedule(old(self).records()),
        ensures
            final(self).wf(),
            valid_schedule(old(self).records(), final(self).order()),
            !old(self).dirty() ==> final(self).order() == old(self).order(),
            pass.initialized@ == old(self).pending_init(),
            pass.executed@ == executed(old(self).records(), final(self).order()),
            final(self).records() == survivors(old(self).records()),
            final(self).dirty() <==> exists|i: int|
                0 <= i < old(self).records().len() && leaves(old(self).records()[i]),
            final(self).pending_init() == Seq::<SystemId>::empty(),
            exists|first: Seq<Result<(), String>>, then: Seq<Result<(), String>>|
                first.len() == pass.initialized@.len() && then.len() == pass.executed@.len()
                    && final(self).errors() == #[trigger] captured(
                    captured(old(self).errors(), pass.initialized@, first),
                    pass.executed@,
                    then,
                ),
            forall|id: SystemId|
                !pass.initialized@.contains(id) && !pass.executed@.contains(id) ==> same_error(
                    final(self).errors(),
                    old(self).errors(),
                    id,
                ),
    {
        self.update();
        let (initialized, Ghost(first)) = self.initialize_pending();
        let ghost between = self.errors();
        let (executed, Ghost(then)) = self.execute();
        self.retire();
        let pass = Pass { initialized, executed };
        proof {
            lemma_captured(old(self).errors(), pass.initialized@, first);
            lemma_captured(between, pass.executed@, then);
            assert(self.errors() == captured(
                captured(old(self).errors(), pass.initialized@, first),
                pass.executed@,
                then,
            ));
        }
        pass
    }
}

} // verus!
