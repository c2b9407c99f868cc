//! Sparse-set component storage.
//!
//! A column keeps the entities that carry a component in a dense sequence and
//! finds the dense slot of an entity in constant time through a sparse index.
//! The sparse index is kept by `xsparseset`; the values live in a dense vector
//! beside it, and every operation moves a value together with its entity.
use vstd::prelude::*;
use xsparseset::SparseSet;

verus! {

/// Identifier of an entity; consumed here only as a storage key.
pub type EntityId = usize;

/// Largest entity identifier a column accepts. The sparse index holds one
/// machine word per identifier up to the largest one stored, so some bound
/// there must be; this number is the library's own choice and keeps the
/// index below 128 MiB.
pub const MAX_ENTITY_ID: usize = 0x00ff_ffff;

/// Marker for values that can be stored as components.
pub trait Component: Send + Sync + 'static {

}

impl<T: Send + Sync + 'static> Component for T {

}

#[verifier::external_type_specification]
#[verifier::external_body]
#[verifier::reject_recursive_types(E)]
#[verifier::reject_recursive_types(T)]
pub struct ExSparseSet<E: Copy + Into<usize>, T: Sized>(SparseSet<E, T>);

/// The entities held by a sparse index, in dense order: element `i` is the
/// entity stored in dense slot `i`.
pub uninterp spec fn dense_ids(index: SparseSet<EntityId, ()>) -> Seq<EntityId>;

/// What a dense sequence looks like after slot `i` was erased by moving the
/// last element into it.
pub open spec fn swap_remove_at<A>(s: Seq<A>, i: int) -> Seq<A> {
    s.update(i, s.last()).drop_last()
}

/// What a dense sequence looks like after slots `a` and `b` were exchanged.
pub open spec fn swap_at<A>(s: Seq<A>, a: int, b: int) -> Seq<A> {
    if a == b {
        s
    } else {
        s.update(a, s[b]).update(b, s[a])
    }
}

/// `SparseSet::new`: the fresh index holds no entity.
#[verifier::external_body]
fn index_new() -> (index: SparseSet<EntityId, ()>)
    ensures
        dense_ids(index) == Seq::<EntityId>::empty(),
{
    SparseSet::new()
}

/// `SparseSet::len`: the number of dense slots in use.
#[verifier::external_body]
fn index_len(index: &SparseSet<EntityId, ()>) -> (n: usize)
    ensures
        n == dense_ids(*index).len(),
{
    index.len()
}

/// `SparseSet::exist`: whether the entity occupies a dense slot.
#[verifier::external_body]
fn index_exist(index: &SparseSet<EntityId, ()>, id: EntityId) -> (b: bool)
    ensures
        b == dense_ids(*index).contains(id),
{
    index.exist(id)
}

/// `SparseSet::get_index`: the dense slot of a present entity, `None` for an
/// absent one.
#[verifier::external_body]
fn index_get_index(index: &SparseSet<EntityId, ()>, id: EntityId) -> (slot: Option<usize>)
    ensures
        match slot {
            Some(i) => i < dense_ids(*index).len() && dense_ids(*index)[i as int] == id,
            None => !dense_ids(*index).contains(id),
        },
{
    index.get_index(id)
}

/// `SparseSet::add` with the unit payload: an absent entity takes the next
/// dense slot, a present one stays where it is. The sparse array grows to the
/// identifier's size, so the identifier is bounded.
#[verifier::external_body]
fn index_add(index: &mut SparseSet<EntityId, ()>, id: EntityId)
    requires
        id <= MAX_ENTITY_ID,
    ensures
        dense_ids(*old(index)).contains(id) ==> dense_ids(*final(index)) == dense_ids(*old(index)),
        !dense_ids(*old(index)).contains(id) ==> dense_ids(*final(index)) == dense_ids(
            *old(index),
        ).push(id),
{
    index.add(id, ())
}

/// `SparseSet::remove` of a present entity: its dense slot is taken over by
/// the last entity, whose sparse pointer follows it, and the dense sequence
/// shrinks by one. The call reports that it found the entity.
#[verifier::external_body]
fn index_remove(index: &mut SparseSet<EntityId, ()>, id: EntityId) -> (found: Option<()>)
    requires
        dense_ids(*old(index)).contains(id),
    ensures
        found is Some,
        forall|i: int|
            0 <= i < dense_ids(*old(index)).len() && dense_ids(*old(index))[i] == id
                ==> dense_ids(*final(index)) == swap_remove_at(dense_ids(*old(index)), i),
{
    index.remove(id)
}

/// `SparseSet::swap_by_index`: the two dense slots exchange their entities and
/// the sparse pointers of both follow. Equal indices change nothing; unequal
/// ones must both be in range.
#[verifier::external_body]
fn index_swap(index: &mut SparseSet<EntityId, ()>, a: usize, b: usize)
    requires
        a == b || (a < dense_ids(*old(index)).len() && b < dense_ids(*old(index)).len()),
    ensures
        dense_ids(*final(index)) == swap_at(dense_ids(*old(index)), a as int, b as int),
{
    index.swap_by_index(a, b)
}

/// `<[T]>::swap` on a vector: the two positions exchange their values. Both
/// must be in range.
#[verifier::external_body]
fn values_swap<T>(values: &mut Vec<T>, a: usize, b: usize)
    requires
        a < old(values)@.len(),
        b < old(values)@.len(),
    ensures
        final(values)@ == swap_at(old(values)@, a as int, b as int),
{
    values.swap(a, b)
}

/// Erasing one slot of a duplicate-free dense sequence by moving the last
/// element into it: the erased element is gone, every other element stays,
/// nothing occurs twice, and the element that moved answers at the slot it
/// took over.
pub proof fn lemma_swap_remove<A>(s: Seq<A>, i: int)
    requires
        0 <= i < s.len(),
        s.no_duplicates(),
    ensures
        swap_remove_at(s, i).len() == s.len() - 1,
        swap_remove_at(s, i).no_duplicates(),
        !swap_remove_at(s, i).contains(s[i]),
        forall|e: A| e != s[i] ==> (swap_remove_at(s, i).contains(e) <==> s.contains(e)),
        i < s.len() - 1 ==> swap_remove_at(s, i)[i] == s.last(),
        forall|j: int| 0 <= j < s.len() - 1 && j != i ==> swap_remove_at(s, i)[j] == s[j],
{
    let r = swap_remove_at(s, i);
    assert forall|e: A| e != s[i] implies (r.contains(e) <==> s.contains(e)) by {
        if s.contains(e) {
            let j = choose|j: int| 0 <= j < s.len() && s[j] == e;
            if j == s.len() - 1 {
                assert(r[i] == e);
            } else {
                assert(r[j] == e);
            }
        }
        if r.contains(e) {
            let j = choose|j: int| 0 <= j < r.len() && r[j] == e;
            if j == i {
                assert(s[s.len() - 1] == e);
            } else {
                assert(s[j] == e);
            }
        }
    }
    if r.contains(s[i]) {
        let j = choose|j: int| 0 <= j < r.len() && r[j] == s[i];
        if j == i {
            assert(s[s.len() - 1] == s[i]);
        } else {
            assert(s[j] == s[i]);
        }
    }
}

/// Exchanging two slots of a duplicate-free dense sequence keeps its length,
/// its elements, and the absence of duplicates.
pub proof fn lemma_swap<A>(s: Seq<A>, a: int, b: int)
    requires
        0 <= a < s.len(),
        0 <= b < s.len(),
        s.no_duplicates(),
    ensures
        swap_at(s, a, b).len() == s.len(),
        swap_at(s, a, b).no_duplicates(),
        swap_at(s, a, b)[a] == s[b],
        swap_at(s, a, b)[b] == s[a],
        forall|e: A| swap_at(s, a, b).contains(e) <==> s.contains(e),
{
    let r = swap_at(s, a, b);
    assert forall|e: A| r.contains(e) <==> s.contains(e) by {
        if s.contains(e) {
            let j = choose|j: int| 0 <= j < s.len() && s[j] == e;
            if j == a {
                assert(r[b] == e);
            } else if j == b {
                assert(r[a] == e);
            } else {
                assert(r[j] == e);
            }
        }
        if r.contains(e) {
            let j = choose|j: int| 0 <= j < r.len() && r[j] == e;
            if j == a {
                assert(s[b] == e);
            } else if j == b {
                assert(s[a] == e);
            } else {
                assert(s[j] == e);
            }
        }
    }
}

/// The capability interface through which a world handles a column without
/// knowing the type of its values.
pub trait ComponentStorage {
    /// The entities of the column in dense order.
    spec fn dense(&self) -> Seq<EntityId>;

    /// Whether the entity has a value in this column.
    fn has(&self, entity_id: EntityId) -> (b: bool)
        ensures
            b == self.dense().contains(entity_id),
    ;

    /// The dense slot of the entity, if it has a value in this column. No
    /// other slot holds the entity.
    fn index(&self, entity_id: EntityId) -> (slot: Option<usize>)
        ensures
            match slot {
                Some(i) => {
                    &&& i < self.dense().len()
                    &&& self.dense()[i as int] == entity_id
                    &&& self.dense().index_of(entity_id) == i
                },
                None => !self.dense().contains(entity_id),
            },
    ;

    /// Erases the entity's entry by moving the last entry into its slot. The
    /// entity must be present.
    fn remove(&mut self, entity_id: EntityId)
        requires
            old(self).dense().contains(entity_id),
        ensures
            final(self).dense() == swap_remove_at(
                old(self).dense(),
                old(self).dense().index_of(entity_id),
            ),
            !final(self).dense().contains(entity_id),
            forall|other: EntityId|
                other != entity_id ==> (final(self).dense().contains(other) <==> old(
                    self,
                ).dense().contains(other)),
    ;

    /// Exchanges two dense slots. Unequal indices must both be in range.
    fn swap_by_index(&mut self, index_a: usize, index_b: usize)
        requires
            index_a == index_b || (index_a < old(self).dense().len() && index_b < old(
                self,
            ).dense().len()),
        ensures
            final(self).dense() == swap_at(old(self).dense(), index_a as int, index_b as int),
    ;

    /// The number of entities in the column.
    fn count(&self) -> (n: usize)
        ensures
            n == self.dense().len(),
    ;

    /// Whether the column holds no entity.
    fn is_empty(&self) -> (b: bool)
        ensures
            b == (self.dense().len() == 0),
    {
        self.count() == 0
    }
}

/// A component column: the entities that carry a value of type `T`, and the
/// values, slot by slot.
pub struct Column<T> {
    index: SparseSet<EntityId, ()>,
    values: Vec<T>,
}

/// Every entity has exactly one slot, and every slot one value.
pub open spec fn paired<T>(entities: Seq<EntityId>, values: Seq<T>) -> bool {
    &&& entities.len() == values.len()
    &&& entities.no_duplicates()
}

/// Takes an entry out of both dense sequences at once.
fn remove_entry<T>(index: &mut SparseSet<EntityId, ()>, values: &mut Vec<T>, entity_id: EntityId)
    requires
        paired(dense_ids(*old(index)), old(values)@),
        dense_ids(*old(index)).contains(entity_id),
    ensures
        paired(dense_ids(*final(index)), final(values)@),
        dense_ids(*final(index)) == swap_remove_at(
            dense_ids(*old(index)),
            dense_ids(*old(index)).index_of(entity_id),
        ),
        final(values)@ == swap_remove_at(
            old(values)@,
            dense_ids(*old(index)).index_of(entity_id),
        ),
{
    let at = index_get_index(index, entity_id).unwrap();
    proof {
        lemma_index_of_unique(dense_ids(*index), at as int);
        lemma_swap_remove(dense_ids(*index), at as int);
    }
    index_remove(index, entity_id).unwrap();
    let _ = values.swap_remove(at);
}

/// Exchanges two entries in both dense sequences at once.
fn swap_entries<T>(index: &mut SparseSet<EntityId, ()>, values: &mut Vec<T>, a: usize, b: usize)
    requires
        paired(dense_ids(*old(index)), old(values)@),
        a == b || (a < dense_ids(*old(index)).len() && b < dense_ids(*old(index)).len()),
    ensures
        paired(dense_ids(*final(index)), final(values)@),
        dense_ids(*final(index)) == swap_at(dense_ids(*old(index)), a as int, b as int),
        final(values)@ == swap_at(old(values)@, a as int, b as int),
{
    if a != b {
        proof {
            lemma_swap(dense_ids(*index), a as int, b as int);
        }
        index_swap(index, a, b);
        values_swap(values, a, b);
    }
}

/// Stores a value for an entity in both dense sequences at once.
fn put_entry<T>(
    index: &mut SparseSet<EntityId, ()>,
    values: &mut Vec<T>,
    entity_id: EntityId,
    value: T,
) -> (previous: Option<T>)
    requires
        paired(dense_ids(*old(index)), old(values)@),
        entity_id <= MAX_ENTITY_ID,
    ensures
        paired(dense_ids(*final(index)), final(values)@),
        match previous {
            Some(v) => {
                &&& dense_ids(*old(index)).contains(entity_id)
                &&& v == old(values)@[dense_ids(*old(index)).index_of(entity_id)]
                &&& dense_ids(*final(index)) == dense_ids(*old(index))
                &&& final(values)@ == old(values)@.update(
                    dense_ids(*old(index)).index_of(entity_id),
                    value,
                )
            },
            None => {
                &&& !dense_ids(*old(index)).contains(entity_id)
                &&& dense_ids(*final(index)) == dense_ids(*old(index)).push(entity_id)
                &&& final(values)@ == old(values)@.push(value)
            },
        },
{
    match index_get_index(index, entity_id) {
        Some(i) => {
            proof {
                lemma_index_of_unique(dense_ids(*index), i as int);
            }
            values.push(value);
            let previous = values.swap_remove(i);
            assert(values@ =~= old(values)@.update(i as int, value));
            Some(previous)
        },
        None => {
            index_add(index, entity_id);
            values.push(value);
            proof {
                let s = dense_ids(*old(index));
                let r = s.push(entity_id);
                assert forall|a: int, b: int| 0 <= a < r.len() && 0 <= b < r.len() && a != b implies
                    r[a]
                    != r[b] by {
                    if a < s.len() {
                        assert(s.contains(s[a]));
                    }
                    if b < s.len() {
                        assert(s.contains(s[b]));
                    }
                }
            }
            None
        },
    }
}

impl<T> Column<T> {
    /// The invariant that every column keeps.
    #[verifier::type_invariant]
    pub closed spec fn well_formed(&self) -> bool {
        paired(dense_ids(self.index), self.values@)
    }

    /// The entities of the column in dense order.
    pub closed spec fn entities(&self) -> Seq<EntityId> {
        dense_ids(self.index)
    }

    /// The values of the column in dense order: `values()[i]` belongs to
    /// `entities()[i]`.
    pub closed spec fn values(&self) -> Seq<T> {
        self.values@
    }

    /// The value stored for an entity of the column.
    pub open spec fn value_of(&self, entity_id: EntityId) -> T
        recommends
            self.entities().contains(entity_id),
    {
        self.values()[self.entities().index_of(entity_id)]
    }

    /// An empty column.
    pub fn new() -> (column: Column<T>)
        ensures
            column.entities() == Seq::<EntityId>::empty(),
            column.values() == Seq::<T>::empty(),
    {
        Column { index: index_new(), values: Vec::new() }
    }

    /// Stores `value` for the entity. An absent entity takes a new slot at the
    /// end; for a present one the value is replaced in place and the old value
    /// is returned.
    pub fn insert(&mut self, entity_id: EntityId, value: T) -> (previous: Option<T>)
        requires
            entity_id <= MAX_ENTITY_ID,
        ensures
            final(self).entities().len() == final(self).values().len(),
            final(self).entities().no_duplicates(),
            match previous {
                Some(v) => {
                    &&& old(self).entities().contains(entity_id)
                    &&& v == old(self).value_of(entity_id)
                    &&& final(self).entities() == old(self).entities()
                    &&& final(self).values() == old(self).values().update(
                        old(self).entities().index_of(entity_id),
                        value,
                    )
                },
                None => {
                    &&& !old(self).entities().contains(entity_id)
                    &&& final(self).entities() == old(self).entities().push(entity_id)
                    &&& final(self).values() == old(self).values().push(value)
                },
            },
    {
        proof {
            use_type_invariant(&*self);
        }
        let Column { mut index, mut values } = self.take();
        let previous = put_entry(&mut index, &mut values, entity_id, value);
        *self = Column { index, values };
        previous
    }

    /// Moves the column out and leaves an empty one in its place.
    fn take(&mut self) -> (column: Column<T>)
        ensures
            column == *old(self),
    {
        let mut column = Column::new();
        core::mem::swap(self, &mut column);
        column
    }

    /// The value stored for the entity, if it has one.
    pub fn get(&self, entity_id: EntityId) -> (value: Option<&T>)
        ensures
            match value {
                Some(v) => self.entities().contains(entity_id) && *v == self.value_of(entity_id),
                None => !self.entities().contains(entity_id),
            },
    {
        proof {
            use_type_invariant(self);
        }
        match index_get_index(&self.index, entity_id) {
            Some(i) => {
                proof {
                    lemma_index_of_unique(self.entities(), i as int);
                }
                Some(&self.values[i])
            },
            None => None,
        }
    }

    /// Every entity of a column has exactly one slot, and every slot one
    /// value.
    pub proof fn lemma_paired(&self)
        requires
            self.well_formed(),
        ensures
            paired(self.entities(), self.values()),
    {
    }
}

/// In a duplicate-free sequence the position of an element is the one
/// position that holds it.
pub proof fn lemma_index_of_unique<A>(s: Seq<A>, i: int)
    requires
        0 <= i < s.len(),
        s.no_duplicates(),
    ensures
        s.contains(s[i]),
        s.index_of(s[i]) == i,
{
    assert(s.contains(s[i]));
    let j = s.index_of(s[i]);
    assert(0 <= j < s.len() && s[j] == s[i]);
}

impl<T: Component> ComponentStorage for Column<T> {
    open spec fn dense(&self) -> Seq<EntityId> {
        self.entities()
    }

    fn has(&self, entity_id: EntityId) -> (b: bool) {
        index_exist(&self.index, entity_id)
    }

    fn index(&self, entity_id: EntityId) -> (slot: Option<usize>) {
        proof {
            use_type_invariant(self);
        }
        let slot = index_get_index(&self.index, entity_id);
        proof {
            if let Some(i) = slot {
                lemma_index_of_unique(self.entities(), i as int);
            }
        }
        slot
    }

    /// The value leaves with its entity, and the last value moves with the
    /// last entity.
    fn remove(&mut self, entity_id: EntityId)
        ensures
            final(self).values() == swap_remove_at(
                old(self).values(),
                old(self).entities().index_of(entity_id),
            ),
    {
        proof {
            use_type_invariant(&*self);
            let i = self.entities().index_of(entity_id);
            lemma_swap_remove(self.entities(), i);
        }
        let Column { mut index, mut values } = self.take();
        remove_entry(&mut index, &mut values, entity_id);
        *self = Column { index, values };
    }

    /// The two values are exchanged together with their entities.
    fn swap_by_index(&mut self, index_a: usize, index_b: usize)
        ensures
            final(self).values() == swap_at(old(self).values(), index_a as int, index_b as int),
    {
        proof {
            use_type_invariant(&*self);
        }
        let Column { mut index, mut values } = self.take();
        swap_entries(&mut index, &mut values, index_a, index_b);
        *self = Column { index, values };
    }

    fn count(&self) -> (n: usize) {
        index_len(&self.index)
    }
}

} // verus!
