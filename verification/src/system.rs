//! Systems: their identities, their hooks, the error registry that collects
//! their failures, and the record a stage keeps of each.
use crate::world::World;
use std::collections::HashMap;
use vstd::prelude::*;
use vstd::std_specs::hash::*;

verus! {

broadcast use group_hash_axioms;

/// Stable token that stands for one system type.
pub type SystemId = u64;

/// Identity of the barrier: a pseudo-system that is never registered. A
/// system that names it as a dependency runs after every system that does
/// not depend on it, directly or through others.
pub const END_ID: SystemId = 0;

/// Identity of the built-in error registry.
pub const ERRORS_ID: SystemId = 1;

/// Why no execution order could be derived for a stage.
#[derive(Debug, PartialEq, Eq)]
pub enum ScheduleError {
    /// A system was registered under the barrier's identity.
    BarrierRegistered,
    /// `system` names `dependency`, which is neither registered nor the
    /// barrier.
    UnknownDependency { system: SystemId, dependency: SystemId },
    /// The dependencies form a cycle: no order puts every dependency before
    /// its dependent.
    Cycle,
}

/// The error registry: for each producing system, the error of its most
/// recent failure.
pub struct Errors {
    latest: HashMap<SystemId, String>,
}

impl Errors {
    /// The latest error of each system that has failed so far.
    pub closed spec fn view(&self) -> Map<SystemId, String> {
        self.latest@
    }

    /// A registry without errors.
    pub fn new() -> (errors: Errors)
        ensures
            errors@ == Map::<SystemId, String>::empty(),
    {
        Errors { latest: HashMap::new() }
    }

    /// Stores `error` as the latest failure of `producer`, in place of any
    /// earlier one.
    pub fn record(&mut self, producer: SystemId, error: String)
        ensures
            final(self)@ == old(self)@.insert(producer, error),
    {
        self.latest.insert(producer, error);
    }

    /// Takes in what a hook of `producer` returned: a failure becomes the
    /// producer's latest error, a success leaves the registry as it is.
    pub fn capture(&mut self, producer: SystemId, outcome: Result<(), String>)
        ensures
            match outcome {
                Ok(_) => final(self)@ == old(self)@,
                Err(error) => final(self)@ == old(self)@.insert(producer, error),
            },
    {
        match outcome {
            Ok(_) => {},
            Err(error) => {
                self.record(producer, error);
            },
        }
    }

    /// The latest error of the system with the given identity.
    pub fn fetch_error_dyn(&self, producer: SystemId) -> (error: Option<&String>)
        ensures
            match error {
                Some(e) => self@.contains_key(producer) && *e == self@[producer],
                None => !self@.contains_key(producer),
            },
    {
        self.latest.get(&producer)
    }

    /// The latest error of the system `T`.
    pub fn fetch_error<T: System>(&self) -> (error: Option<&String>)
        ensures
            match error {
                Some(e) => self@.contains_key(T::ID) && *e == self@[T::ID],
                None => !self@.contains_key(T::ID),
            },
    {
        self.fetch_error_dyn(T::ID)
    }
}

/// A unit of logic that a stage runs: an identity, the systems it must run
/// after, and two hooks.
pub trait System: Sized {
    /// The identity of this system type. A stage cannot schedule a system
    /// registered under the barrier's identity.
    const ID: SystemId;

    /// The systems that must run before this one; `END_ID` among them puts it
    /// behind the barrier.
    fn dependencies() -> Vec<SystemId>;

    /// Runs once, before the first pass after registration. Unless a system
    /// defines it otherwise, the hook succeeds and changes nothing.
    fn init(&mut self, world: &mut World, errors: &Errors) -> (outcome: Result<(), String>)
        default_ensures
            outcome is Ok,
            *final(self) == *old(self),
            *final(world) == *old(world),
    {
        Ok(())
    }

    /// Runs on every pass in which the system is active. Unless a system
    /// defines it otherwise, the hook succeeds and changes nothing.
    fn update(&mut self, world: &mut World, errors: &Errors) -> (outcome: Result<(), String>)
        default_ensures
            outcome is Ok,
            *final(self) == *old(self),
            *final(world) == *old(world),
    {
        Ok(())
    }
}

/// The hooks of a system, without its type: what a stage stores and calls.
pub trait Run {
    /// Calls the initialization hook.
    fn initialize(&mut self, world: &mut World, errors: &Errors) -> Result<(), String>;

    /// Calls the per-pass hook.
    fn run(&mut self, world: &mut World, errors: &Errors) -> Result<(), String>;
}

impl<T: System> Run for T {
    /// Calls the system's own initialization hook: the outcome, and what
    /// became of the system and of the world, are what `init` yields for them.
    fn initialize(&mut self, world: &mut World, errors: &Errors) -> (outcome: Result<(), String>)
        ensures
            exists|system: &mut T, within: &mut World|
                #[trigger] call_ensures(T::init, (system, within, errors), outcome)
                    && mut_ref_current(system) == *old(self)
                    && mut_ref_future(system) == *final(self)
                    && mut_ref_current(within) == *old(world)
                    && mut_ref_future(within) == *final(world),
    {
        let hook = T::init;
        hook(self, world, errors)
    }

    /// Calls the system's own per-pass hook: the outcome, and what became of
    /// the system and of the world, are what `update` yields for them.
    fn run(&mut self, world: &mut World, errors: &Errors) -> (outcome: Result<(), String>)
        ensures
            exists|system: &mut T, within: &mut World|
                #[trigger] call_ensures(T::update, (system, within, errors), outcome)
                    && mut_ref_current(system) == *old(self)
                    && mut_ref_future(system) == *final(self)
                    && mut_ref_current(within) == *old(world)
                    && mut_ref_future(within) == *final(world),
    {
        let hook = T::update;
        hook(self, world, errors)
    }
}

/// What a stage knows of one registered system, apart from its instance.
pub struct Record {
    /// The identity under which the system is registered.
    pub id: SystemId,
    /// The systems that must run before it, without duplicates.
    pub deps: Seq<SystemId>,
    /// Whether its per-pass hook is called.
    pub active: bool,
    /// Whether it leaves the registry after its first execution.
    pub once: bool,
}

/// One registered system: its record and its instance.
pub struct SystemInfo {
    /// The identity under which the system is registered.
    pub id: SystemId,
    /// The systems that must run before it.
    pub dependencies: Vec<SystemId>,
    /// Whether its per-pass hook is called.
    pub is_active: bool,
    /// Whether it leaves the registry after its first execution.
    pub is_once: bool,
    /// The instance whose hooks are called.
    pub system: Box<dyn Run>,
}

impl View for SystemInfo {
    type V = Record;

    open spec fn view(&self) -> Record {
        Record {
            id: self.id,
            deps: self.dependencies@,
            active: self.is_active,
            once: self.is_once,
        }
    }
}

impl SystemInfo {
    /// An entry for a system that was just registered: active, with the
    /// given dependencies and the given instance.
    pub fn new(
        id: SystemId,
        dependencies: Vec<SystemId>,
        is_once: bool,
        system: Box<dyn Run>,
    ) -> (info: SystemInfo)
        ensures
            info == (SystemInfo { id, dependencies, is_active: true, is_once, system }),
    {
        SystemInfo { id, dependencies, is_active: true, is_once, system }
    }

    /// The entry, handed on as it is.
    pub(crate) fn settled(self) -> (info: SystemInfo)
        ensures
            info == self,
    {
        self
    }
}

/// The records of a registry, in registration order.
pub open spec fn records(systems: Seq<SystemInfo>) -> Seq<Record> {
    Seq::new(systems.len(), |i: int| systems[i]@)
}

/// The barrier as a type, to be named as a dependency.
pub struct End;

impl System for End {
    const ID: SystemId = END_ID;

    fn dependencies() -> (dependencies: Vec<SystemId>)
        ensures
            dependencies@ == Seq::<SystemId>::empty(),
    {
        Vec::new()
    }
}

/// The system under whose identity a stage registers its error registry. Its
/// hooks do nothing: the registry is filled by the stage.
pub struct ErrorsSystem;

impl System for ErrorsSystem {
    const ID: SystemId = ERRORS_ID;

    fn dependencies() -> (dependencies: Vec<SystemId>)
        ensures
            dependencies@ == Seq::<SystemId>::empty(),
    {
        Vec::new()
    }
}

/// The barrier type carries the barrier's identity, and the built-in registry
/// system the registry's.
pub proof fn lemma_built_in_identities()
    ensures
        End::ID == END_ID,
        ErrorsSystem::ID == ERRORS_ID,
{
}

} // verus!
