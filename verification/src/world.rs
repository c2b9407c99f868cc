//! The world: one component column per component type, each behind the
//! uniform storage interface.
use crate::components::{swap_remove_at, ComponentStorage, EntityId};
use vstd::prelude::*;

verus! {

/// Stable token that stands for one component type.
pub type ComponentTypeId = u64;

/// One registered column together with the token of its component type.
pub struct ColumnSlot {
    /// The token of the component type.
    pub type_id: ComponentTypeId,
    /// The column, behind the storage interface.
    pub storage: Box<dyn ComponentStorage>,
}

impl ColumnSlot {
    /// The token of the component type stored in this column.
    pub closed spec fn type_id(&self) -> ComponentTypeId {
        self.type_id
    }

    /// The entities of the column in dense order.
    pub closed spec fn dense(&self) -> Seq<EntityId> {
        self.storage.dense()
    }

    /// The slot, handed on as it is.
    fn settled(self) -> (slot: ColumnSlot)
        ensures
            slot == self,
    {
        self
    }
}

/// No two columns are registered for the same component type.
pub open spec fn distinct_types(columns: Seq<ColumnSlot>) -> bool {
    forall|i: int, j: int|
        0 <= i < j < columns.len() ==> columns[i].type_id() != columns[j].type_id()
}

/// Whether one of the columns is registered for the component type.
pub open spec fn holds_type(columns: Seq<ColumnSlot>, type_id: ComponentTypeId) -> bool {
    exists|i: int| 0 <= i < columns.len() && columns[i].type_id() == type_id
}

/// The entities of the column registered for the component type, in dense
/// order; empty where no column is registered for it.
pub open spec fn entities_in(columns: Seq<ColumnSlot>, type_id: ComponentTypeId) -> Seq<
    EntityId,
> {
    if holds_type(columns, type_id) {
        let i = choose|i: int| 0 <= i < columns.len() && columns[i].type_id() == type_id;
        columns[i].dense()
    } else {
        Seq::empty()
    }
}

/// With distinct types, the column found at a position is the column of its
/// type.
proof fn lemma_column_at(columns: Seq<ColumnSlot>, i: int)
    requires
        distinct_types(columns),
        0 <= i < columns.len(),
    ensures
        holds_type(columns, columns[i].type_id()),
        entities_in(columns, columns[i].type_id()) == columns[i].dense(),
{
    let t = columns[i].type_id();
    let k = choose|k: int| 0 <= k < columns.len() && columns[k].type_id() == t;
    assert(k == i) by {
        if k < i {
            assert(columns[k].type_id() != columns[i].type_id());
        }
        if i < k {
            assert(columns[i].type_id() != columns[k].type_id());
        }
    }
}

/// Columns that carry the same type tokens, position by position, are
/// registered for the same types; a type whose column is the same in both
/// has the same entities in both.
proof fn lemma_same_tokens(before: Seq<ColumnSlot>, after: Seq<ColumnSlot>)
    requires
        distinct_types(before),
        before.len() == after.len(),
        forall|j: int| 0 <= j < before.len() ==> before[j].type_id() == after[j].type_id(),
    ensures
        distinct_types(after),
        forall|t: ComponentTypeId| holds_type(after, t) == holds_type(before, t),
        forall|j: int|
            0 <= j < before.len() && before[j] == after[j] ==> entities_in(
                after,
                #[trigger] before[j].type_id(),
            ) == entities_in(before, before[j].type_id()),
{
    assert forall|i: int, j: int| 0 <= i < j < after.len() implies after[i].type_id()
        != after[j].type_id() by {
        assert(before[i].type_id() != before[j].type_id());
    }
    assert forall|t: ComponentTypeId| holds_type(after, t) == holds_type(before, t) by {
        if holds_type(before, t) {
            let k = choose|k: int| 0 <= k < before.len() && before[k].type_id() == t;
            assert(after[k].type_id() == t);
        }
        if holds_type(after, t) {
            let k = choose|k: int| 0 <= k < after.len() && after[k].type_id() == t;
            assert(before[k].type_id() == t);
        }
    }
    assert forall|j: int| 0 <= j < before.len() && before[j] == after[j] implies entities_in(
        after,
        #[trigger] before[j].type_id(),
    ) == entities_in(before, before[j].type_id()) by {
        lemma_column_at(before, j);
        lemma_column_at(after, j);
    }
}

/// One more column, for a type that has none, leaves the others as they are.
proof fn lemma_one_more(before: Seq<ColumnSlot>, after: Seq<ColumnSlot>)
    requires
        distinct_types(before),
        after.len() == before.len() + 1,
        after.drop_last() == before,
        !holds_type(before, after.last().type_id()),
    ensures
        distinct_types(after),
        forall|t: ComponentTypeId|
            holds_type(after, t) <==> (holds_type(before, t) || t == after.last().type_id()),
        forall|t: ComponentTypeId|
            holds_type(before, t) ==> entities_in(after, t) == entities_in(before, t),
{
    let n = before.len() as int;
    assert forall|j: int| 0 <= j < n implies after[j] == before[j] by {
        assert(after.drop_last()[j] == after[j]);
    }
    assert forall|i: int, j: int| 0 <= i < j < after.len() implies after[i].type_id()
        != after[j].type_id() by {
        if j < n {
            assert(before[i].type_id() != before[j].type_id());
        } else {
            assert(before[i].type_id() == after[i].type_id());
        }
    }
    assert forall|t: ComponentTypeId|
        holds_type(after, t) <==> (holds_type(before, t) || t == after.last().type_id()) by {
        if holds_type(before, t) {
            let k = choose|k: int| 0 <= k < n && before[k].type_id() == t;
            assert(after[k].type_id() == t);
        }
        if holds_type(after, t) && t != after.last().type_id() {
            let k = choose|k: int| 0 <= k < n + 1 && after[k].type_id() == t;
            assert(before[k].type_id() == t);
        }
        assert(after[n].type_id() == after.last().type_id());
    }
    assert forall|t: ComponentTypeId| holds_type(before, t) implies entities_in(after, t)
        == entities_in(before, t) by {
        let k = choose|k: int| 0 <= k < n && before[k].type_id() == t;
        lemma_column_at(before, k);
        lemma_column_at(after, k);
    }
}

/// Owner of the component columns.
pub struct World {
    columns: Vec<ColumnSlot>,
}

impl World {
    /// The invariant that every world keeps: each component type has at most
    /// one column.
    #[verifier::type_invariant]
    pub closed spec fn well_formed(&self) -> bool {
        distinct_types(self.columns@)
    }

    /// The registered columns in registration order.
    pub closed spec fn columns(&self) -> Seq<ColumnSlot> {
        self.columns@
    }

    /// Whether a column is registered for the component type.
    pub open spec fn has_type(&self, type_id: ComponentTypeId) -> bool {
        holds_type(self.columns(), type_id)
    }

    /// The entities that carry a component of the given type, in dense order;
    /// empty where no column is registered for it.
    pub open spec fn entities_of(&self, type_id: ComponentTypeId) -> Seq<EntityId> {
        entities_in(self.columns(), type_id)
    }

    /// A world without columns.
    pub fn new() -> (world: World)
        ensures
            world.columns().len() == 0,
    {
        World { columns: Vec::new() }
    }

    /// Moves the columns out and leaves a world without columns.
    fn take(&mut self) -> (columns: Vec<ColumnSlot>)
        ensures
            columns@ == old(self).columns(),
            distinct_types(columns@),
    {
        proof {
            use_type_invariant(&*self);
        }
        let mut world = World::new();
        core::mem::swap(self, &mut world);
        let World { columns } = world;
        columns
    }

    /// The position of the column of a component type.
    fn find(&self, type_id: ComponentTypeId) -> (at: Option<usize>)
        ensures
            match at {
                Some(i) => {
                    &&& i < self.columns().len()
                    &&& self.columns()[i as int].type_id() == type_id
                    &&& self.entities_of(type_id) == self.columns()[i as int].dense()
                },
                None => !self.has_type(type_id),
            },
    {
        proof {
            use_type_invariant(self);
        }
        let mut i: usize = 0;
        while i < self.columns.len()
            invariant
                i <= self.columns().len(),
                distinct_types(self.columns()),
                forall|j: int| 0 <= j < i ==> self.columns()[j].type_id() != type_id,
            decreases self.columns().len() - i,
        {
            if self.columns[i].type_id == type_id {
                proof {
                    lemma_column_at(self.columns(), i as int);
                }
                return Some(i);
            }
            i += 1;
        }
        None
    }

    /// Registers a column for a component type: the offered storage becomes
    /// the column of the type. A type that already has a column keeps it, and
    /// the offered storage is handed back. The columns of the other types
    /// stay as they are.
    pub fn register(
        &mut self,
        type_id: ComponentTypeId,
        storage: Box<dyn ComponentStorage>,
    ) -> (rejected: Option<Box<dyn ComponentStorage>>)
        ensures
            rejected is Some <==> old(self).has_type(type_id),
            rejected is Some ==> final(self).columns() == old(self).columns(),
            rejected is None ==> final(self).columns() == old(self).columns().push(
                (ColumnSlot { type_id, storage }),
            ),
            rejected is None ==> final(self).entities_of(type_id) == (ColumnSlot {
                type_id,
                storage,
            }).dense(),
            forall|other: ComponentTypeId|
                final(self).has_type(other) <==> (old(self).has_type(other) || other == type_id),
            forall|other: ComponentTypeId|
                old(self).has_type(other) ==> final(self).entities_of(other) == old(
                    self,
                ).entities_of(other),
    {
        match self.find(type_id) {
            Some(_) => Some(storage),
            None => {
                let slot = (ColumnSlot { type_id, storage }).settled();
                let mut columns = self.take();
                columns.push(slot);
                proof {
                    assert(columns@.drop_last() =~= old(self).columns());
                    lemma_one_more(old(self).columns(), columns@);
                    lemma_column_at(columns@, columns@.len() - 1);
                }
                *self = World { columns };
                None
            },
        }
    }

    /// The component types that have a column, in registration order.
    pub fn types(&self) -> (types: Vec<ComponentTypeId>)
        ensures
            types@.len() == self.columns().len(),
            forall|i: int|
                0 <= i < types@.len() ==> (#[trigger] types@[i]) == self.columns()[i].type_id(),
    {
        let mut types: Vec<ComponentTypeId> = Vec::new();
        let mut i: usize = 0;
        while i < self.columns.len()
            invariant
                i <= self.columns().len(),
                types@.len() == i,
                forall|j: int| 0 <= j < i ==> (#[trigger] types@[j]) == self.columns()[j].type_id(),
            decreases self.columns().len() - i,
        {
            types.push(self.columns[i].type_id);
            i += 1;
        }
        types
    }

    /// Whether a column is registered for the component type.
    pub fn has_column(&self, type_id: ComponentTypeId) -> (b: bool)
        ensures
            b == self.has_type(type_id),
    {
        self.find(type_id).is_some()
    }

    /// Whether the entity carries a component of the given type.
    pub fn has(&self, type_id: ComponentTypeId, entity_id: EntityId) -> (b: bool)
        ensures
            b == self.entities_of(type_id).contains(entity_id),
    {
        match self.find(type_id) {
            Some(i) => self.columns[i].storage.has(entity_id),
            None => false,
        }
    }

    /// The number of entities that carry a component of the given type.
    pub fn count(&self, type_id: ComponentTypeId) -> (n: usize)
        ensures
            n == self.entities_of(type_id).len(),
    {
        match self.find(type_id) {
            Some(i) => self.columns[i].storage.count(),
            None => 0,
        }
    }

    /// Takes the component of the given type away from the entity, and says
    /// whether there was one. The last entry of the column moves into the
    /// freed slot; every other column stays as it is.
    pub fn detach(&mut self, type_id: ComponentTypeId, entity_id: EntityId) -> (removed: bool)
        ensures
            removed == old(self).entities_of(type_id).contains(entity_id),
            removed ==> final(self).entities_of(type_id) == swap_remove_at(
                old(self).entities_of(type_id),
                old(self).entities_of(type_id).index_of(entity_id),
            ),
            !removed ==> final(self).columns() == old(self).columns(),
            forall|other: ComponentTypeId|
                other != type_id ==> final(self).entities_of(other) == old(self).entities_of(
                    other,
                ),
            forall|other: ComponentTypeId| final(self).has_type(other) == old(self).has_type(other),
    {
        match self.find(type_id) {
            Some(i) => {
                if self.columns[i].storage.has(entity_id) {
                    let ghost before = self.columns();
                    let mut columns = self.take();
                    columns[i].storage.remove(entity_id);
                    proof {
                        assert forall|j: int| 0 <= j < before.len() implies before[j].type_id()
                            == columns@[j].type_id() by {
                            if j != i {
                                assert(columns@[j] == before[j]);
                            }
                        }
                        lemma_same_tokens(before, columns@);
                        lemma_column_at(columns@, i as int);
                        assert forall|other: ComponentTypeId| other != type_id implies entities_in(
                            columns@,
                            other,
                        ) == entities_in(before, other) by {
                            if holds_type(before, other) {
                                let k = choose|k: int|
                                    0 <= k < before.len() && before[k].type_id() == other;
                                assert(columns@[k] == before[k]);
                            }
                        }
                    }
                    *self = World { columns };
                    true
                } else {
                    false
                }
            },
            None => false,
        }
    }
}

} // verus!
