//! Resources that store per-entity data: `VecResource`, indexed by entity
//! index, and `MapResource`, keyed by entity.

use crate::bitset::{
    bitset_add, bitset_contains, bitset_contents, bitset_max_index, bitset_new, bitset_remove,
};
use crate::entity::{index_limit, lemma_entity_of_fits, lemma_entity_unpack, entity_of, generation_of, index_of, Entity, Generation, Handle, Index};
use crate::world::{ResourceBuilder, ENTITY_DATA};
use crate::fnv_map::{
    map_entries, map_entries_mut, map_get, map_get_mut, map_insert, map_remove,
};
use fnv::FnvHashMap;
use hibitset::BitSet;
use std::ops::{Deref, DerefMut};
use vstd::prelude::*;

verus! {

/// A resource whose system access is controlled by the `World`.
pub trait Resource {
    /// Internal consistency the resource keeps between calls.
    open spec fn resource_wf(&self) -> bool {
        true
    }

    /// Whether the resource holds data for `entity`.
    open spec fn has_entity_data(&self, entity: Entity) -> bool {
        false
    }

    /// Clears all data related to the given entities from the resource: none
    /// of them has data left, and every other entity keeps what it had. A
    /// resource without per-entity data implements it with an empty body.
    fn clear_entity_data(&mut self, entities: &[Entity])
        requires
            old(self).resource_wf(),
        ensures
            final(self).resource_wf(),
            forall|e: Entity| #[trigger]
                final(self).has_entity_data(e) == (old(self).has_entity_data(e)
                    && !entities@.contains(e)),
    ;

    /// Converts this resource into a `ResourceBuilder` for constructing itself.
    fn to_builder(self) -> (b: ResourceBuilder<Self>) where Self: Sized
        ensures
            b.resource == self,
    {
        ResourceBuilder::new(self)
    }
}

/// A component resource API gives access to the data stored for each entity
/// in the form of a single `Self::Component` per entity.
pub trait ComponentResourceApi {
    /// The type of data stored for each entity.
    type Component;

    /// The components reachable through `get`, keyed by entity.
    spec fn components(&self) -> Map<Entity, Self::Component>;

    /// The entity whose component an unchecked access with `entity` reaches.
    spec fn unchecked_key(&self, entity: Entity) -> Entity;

    /// Gets a shared reference to the component associated with the given
    /// entity, if present.
    fn get(&self, entity: Entity) -> (r: Option<&Self::Component>)
        ensures
            r is Some <==> self.components().contains_key(entity),
            r is Some ==> *r->0 == self.components()[entity],
    ;

    /// Gets a mutable reference to the component associated with the given
    /// entity, if present.
    fn get_mut(&mut self, entity: Entity) -> (r: Option<&mut Self::Component>)
        ensures
            r is Some <==> old(self).components().contains_key(entity),
            r is Some ==> *r->0 == old(self).components()[entity] && final(self).components()
                == old(self).components().insert(entity, *final(r->0)),
            r is None ==> final(self).components() == old(self).components(),
    ;

    /// Gets a shared reference to the component stored for the given
    /// entity's slot, without checking its generation.
    fn get_unchecked(&self, entity: Entity) -> (r: &Self::Component)
        requires
            self.components().contains_key(self.unchecked_key(entity)),
        ensures
            *r == self.components()[self.unchecked_key(entity)],
    ;

    /// Gets a mutable reference to the component stored for the given
    /// entity's slot, without checking its generation.
    fn get_unchecked_mut(&mut self, entity: Entity) -> (r: &mut Self::Component)
        requires
            old(self).components().contains_key(old(self).unchecked_key(entity)),
        ensures
            *r == old(self).components()[old(self).unchecked_key(entity)],
            final(self).components() == old(self).components().insert(
                old(self).unchecked_key(entity),
                *final(r),
            ),
    ;
}

/// An entity resource stores data about entities: it splits into a bit set
/// of the indices it holds data for, and an API to that data.
pub trait EntityResource: Resource {
    /// The type of API used to access the resource while its filter is
    /// borrowed.
    type Api;

    /// The indices the resource holds data for.
    spec fn filter_indices(&self) -> Set<u32>;

    /// The API to the resource's data.
    spec fn api(&self) -> Self::Api;

    /// Splits the entity resource into a bitset used for entity iteration,
    /// and its restricted API.
    fn deconstruct(&self) -> (r: (&BitSet, &Self::Api))
        requires
            self.resource_wf(),
        ensures
            bitset_contents(*r.0) == self.filter_indices(),
            forall|i: u32| #[trigger] bitset_contents(*r.0).contains(i) ==> (i as int) < bitset_max_index(),
            *r.1 == self.api(),
    ;

    /// Splits the entity resource into a bitset used for entity iteration,
    /// and its restricted API, which may change the data but not which
    /// indices hold data.
    fn deconstruct_mut(&mut self) -> (r: (&BitSet, &mut Self::Api))
        requires
            old(self).resource_wf(),
        ensures
            bitset_contents(*r.0) == old(self).filter_indices(),
            forall|i: u32| #[trigger] bitset_contents(*r.0).contains(i) ==> (i as int) < bitset_max_index(),
            *r.1 == old(self).api(),
            final(self).api() == *final(r.1),
            final(self).filter_indices() == old(self).filter_indices(),
    ;
}

/// The component `get` finds for `entity` among vector slots: the slot of its
/// index must hold data of its generation.
pub open spec fn slot_component<T>(slots: Seq<Option<(Generation, T)>>, entity: Entity) -> Option<
    T,
> {
    let i = index_of(entity.0) as int;
    if i < slots.len() && slots[i] is Some && slots[i].unwrap().0 == generation_of(entity.0) {
        Some(slots[i].unwrap().1)
    } else {
        None
    }
}

/// The components reachable through vector slots, keyed by entity.
pub open spec fn slot_components<T>(slots: Seq<Option<(Generation, T)>>) -> Map<Entity, T> {
    Map::new(
        |e: Entity| slot_component(slots, e) is Some,
        |e: Entity| slot_component(slots, e)->0,
    )
}

/// The indices of the occupied slots.
pub open spec fn occupied<T>(slots: Seq<Option<(Generation, T)>>) -> Set<u32> {
    Set::new(|i: u32| (i as int) < slots.len() && slots[i as int] is Some)
}

/// The slots after storing `value` at `index`, growing them with empty
/// slots when needed.
pub open spec fn store_slot<T>(slots: Seq<Option<(Generation, T)>>, index: int, value: Option<
    (Generation, T),
>) -> Seq<Option<(Generation, T)>> {
    if index < slots.len() {
        slots.update(index, value)
    } else {
        (slots + Seq::new((index - slots.len()) as nat, |k: int| None)).push(value)
    }
}

/// Entity data and generations of the occupied entity indices, as stored
/// inside a `VecResource`.
pub struct VecStorage<T> {
    v: Vec<Option<T>>,
    g: Vec<Option<Generation>>,
}

/// Slot `i` holds the generation and data stored for index `i`, if any.
pub open spec fn slots_of<T>(v: Seq<Option<T>>, g: Seq<Option<Generation>>) -> Seq<
    Option<(Generation, T)>,
> {
    Seq::new(
        g.len(),
        |i: int|
            if g[i] is Some && i < v.len() && v[i] is Some {
                Some((g[i]->0, v[i]->0))
            } else {
                None
            },
    )
}

/// The data of each slot, if it is occupied.
pub open spec fn data_of<T>(slots: Seq<Option<(Generation, T)>>) -> Seq<Option<T>> {
    Seq::new(
        slots.len(),
        |j: int|
            if slots[j] is Some {
                Some((slots[j]->0).1)
            } else {
                None
            },
    )
}

/// Whether `data` has an entry for each of `slots`, present exactly where
/// the slot is occupied.
pub open spec fn keeps_occupancy<T>(slots: Seq<Option<(Generation, T)>>, data: Seq<Option<T>>) -> bool {
    &&& data.len() == slots.len()
    &&& forall|j: int| 0 <= j < slots.len() ==> (#[trigger] data[j] is Some) == (slots[j] is Some)
}

/// The slots after their data is replaced by `data`: an occupied slot keeps
/// its generation and takes the data `data` holds there.
pub open spec fn with_data<T>(slots: Seq<Option<(Generation, T)>>, data: Seq<Option<T>>) -> Seq<
    Option<(Generation, T)>,
> {
    Seq::new(
        slots.len(),
        |j: int|
            if slots[j] is Some && j < data.len() && data[j] is Some {
                Some(((slots[j]->0).0, data[j]->0))
            } else {
                None
            },
    )
}

/// The entities and data of the occupied slots from slot `from` on, in
/// index order.
pub open spec fn occupied_from<T>(slots: Seq<Option<(Generation, T)>>, from: int) -> Seq<
    (Entity, T),
>
    decreases slots.len() - from,
{
    if from < 0 || from >= slots.len() {
        Seq::empty()
    } else {
        let rest = occupied_from(slots, from + 1);
        if slots[from] is Some {
            seq![(entity_of(from as u32, slots[from].unwrap().0), slots[from].unwrap().1)] + rest
        } else {
            rest
        }
    }
}

impl<T> View for VecStorage<T> {
    type V = Seq<Option<(Generation, T)>>;

    closed spec fn view(&self) -> Seq<Option<(Generation, T)>> {
        slots_of(self.v@, self.g@)
    }
}

impl<T> VecStorage<T> {
    /// Data and generation vectors have one entry per slot and agree on
    /// which slots are occupied.
    pub closed spec fn wf(&self) -> bool {
        &&& self.v@.len() == self.g@.len()
        &&& forall|i: int| 0 <= i < self.g@.len() ==> (#[trigger] self.g@[i] is Some) == (
        self.v@[i] is Some)
    }

    fn slot_value_mut(&mut self, index: usize) -> (r: &mut T)
        requires
            (index as int) < old(self)@.len(),
            old(self)@[index as int] is Some,
        ensures
            *r == old(self)@[index as int].unwrap().1,
            final(self)@ == old(self)@.update(
                index as int,
                Some((old(self)@[index as int].unwrap().0, *final(r))),
            ),
            old(self).wf() ==> final(self).wf(),
    {
        match &mut self.v[index] {
            Some(x) => x,
            None => {
                proof {
                    assert(false);
                }
                loop
                    invariant
                        false,
                    decreases 0nat,
                {
                }
            },
        }
    }

    fn new() -> (s: VecStorage<T>)
        ensures
            s.wf(),
            s@ == Seq::<Option<(Generation, T)>>::empty(),
    {
        let s = VecStorage { v: Vec::new(), g: Vec::new() };
        assert(s@ =~= Seq::<Option<(Generation, T)>>::empty());
        s
    }
}

impl<T> ComponentResourceApi for VecStorage<T> {
    type Component = T;

    open spec fn components(&self) -> Map<Entity, T> {
        slot_components(self@)
    }

    open spec fn unchecked_key(&self, entity: Entity) -> Entity {
        let i = index_of(entity.0);
        if (i as int) < self@.len() && self@[i as int] is Some {
            entity_of(i, self@[i as int].unwrap().0)
        } else {
            entity
        }
    }

    fn get(&self, entity: Entity) -> (r: Option<&T>)
        ensures
            r is Some <==> slot_component(self@, entity) is Some,
            r is Some ==> Some(*r->0) == slot_component(self@, entity),
    {
        let index = entity.index() as usize;
        if self.g.len() > index && index < self.v.len() {
            if let Some(gen) = self.g[index] {
                if gen == entity.generation() {
                    return match &self.v[index] {
                        Some(x) => Some(x),
                        None => None,
                    };
                }
            }
        }
        None
    }

    fn get_unchecked(&self, entity: Entity) -> (r: &T) {
        let index = entity.index() as usize;
        proof {
            lemma_unchecked_key(self@, entity);
        }
        match &self.v[index] {
            Some(x) => x,
            None => {
                proof {
                    assert(false);
                }
                loop
                    invariant
                        false,
                    decreases 0nat,
                {
                }
            },
        }
    }

    fn get_mut(&mut self, entity: Entity) -> (r: Option<&mut T>)
        ensures
            r is Some <==> slot_component(old(self)@, entity) is Some,
            r is Some ==> Some(*r->0) == slot_component(old(self)@, entity) && final(self)@
                == old(self)@.update(
                index_of(entity.0) as int,
                Some((generation_of(entity.0), *final(r->0))),
            ) && (old(self).wf() ==> final(self).wf()),
            r is None ==> *final(self) == *old(self),
    {
        let index = entity.index() as usize;
        if self.g.len() > index && index < self.v.len() && self.v[index].is_some() {
            if let Some(gen) = self.g[index] {
                if gen == entity.generation() {
                    let r = self.slot_value_mut(index);
                    proof {
                        lemma_slot_components_update(old(self)@, entity, *final(r));
                    }
                    return Some(r);
                }
            }
        }
        None
    }

    fn get_unchecked_mut(&mut self, entity: Entity) -> (r: &mut T) {
        let index = entity.index() as usize;
        proof {
            lemma_unchecked_key(old(self)@, entity);
            lemma_entity_unpack(entity);
            lemma_entity_of_fits(index as u32, old(self)@[index as int].unwrap().0);
        }
        let r = self.slot_value_mut(index);
        proof {
            lemma_slot_components_update(old(self)@, old(self).unchecked_key(entity), *final(r));
        }
        r
    }
}

proof fn lemma_slot_components_update<T>(slots: Seq<Option<(Generation, T)>>, e: Entity, x: T)
    requires
        (index_of(e.0) as int) < slots.len(),
        slots[index_of(e.0) as int] is Some,
        slots[index_of(e.0) as int].unwrap().0 == generation_of(e.0),
    ensures
        slot_components(slots.update(index_of(e.0) as int, Some((generation_of(e.0), x))))
            == slot_components(slots).insert(e, x),
{
    let i = index_of(e.0) as int;
    let updated = slots.update(i, Some((generation_of(e.0), x)));
    assert forall|e2: Entity| #[trigger] slot_component(updated, e2) == if e2 == e {
        Some(x)
    } else {
        slot_component(slots, e2)
    } by {
        crate::entity::lemma_entity_unpack(e);
        crate::entity::lemma_entity_unpack(e2);
    }
    assert(slot_components(updated) =~= slot_components(slots).insert(e, x));
}

proof fn lemma_unchecked_key<T>(slots: Seq<Option<(Generation, T)>>, entity: Entity)
    ensures
        ({
            let i = index_of(entity.0);
            (i as int) < slots.len() && slots[i as int] is Some ==> slot_component(
                slots,
                entity_of(i, slots[i as int].unwrap().0),
            ) == Some(slots[i as int].unwrap().1)
        }),
{
    let i = index_of(entity.0);
    let bits = entity.0;
    assert(bits & 0x00ff_ffffu32 < 0x0100_0000u32) by (bit_vector);
    if (i as int) < slots.len() && slots[i as int] is Some {
        crate::entity::lemma_pack_unpack(i, slots[i as int].unwrap().0);
        assert(i < 0x0100_0000u32 ==> i & 0x00ff_ffffu32 == i) by (bit_vector);
    }
}

} // verus!

verus! {

/// The slots after `remove` of `entity`: its slot is emptied if it holds data
/// of the entity's generation.
pub open spec fn remove_slot<T>(slots: Seq<Option<(Generation, T)>>, entity: Entity) -> Seq<
    Option<(Generation, T)>,
> {
    if slot_component(slots, entity) is Some {
        slots.update(index_of(entity.0) as int, None)
    } else {
        slots
    }
}

/// The slots after removing each of `entities` in turn.
pub open spec fn remove_slots<T>(slots: Seq<Option<(Generation, T)>>, entities: Seq<Entity>) -> Seq<
    Option<(Generation, T)>,
>
    decreases entities.len(),
{
    if entities.len() == 0 {
        slots
    } else {
        remove_slot(remove_slots(slots, entities.drop_last()), entities.last())
    }
}

/// A `VecResource` stores per-entity data in a `Vec`, indexed by entity
/// index.
///
/// This entity resource is suitable for data which is present for almost all
/// of the entities in the `World`.
pub struct VecResource<T> {
    filter: BitSet,
    storage: VecStorage<T>,
}

impl<T> View for VecResource<T> {
    type V = Seq<Option<(Generation, T)>>;

    /// The slots of the storage behind the resource.
    open spec fn view(&self) -> Seq<Option<(Generation, T)>> {
        self.storage_of()@
    }
}

impl<T> VecResource<T> {
    /// The storage is consistent, the filter holds exactly the occupied
    /// indices, and there are no more slots than the filter can index.
    pub open spec fn wf(&self) -> bool {
        &&& self.storage_of().wf()
        &&& self.held_indices() == occupied(self@)
        &&& self@.len() <= bitset_max_index()
    }

    /// The indices the resource's filter holds.
    pub closed spec fn held_indices(&self) -> Set<u32> {
        bitset_contents(self.filter)
    }

    /// The storage behind the resource.
    pub closed spec fn storage_of(&self) -> VecStorage<T> {
        self.storage
    }

    /// Constructs a new `VecResource`.
    pub fn new() -> (r: VecResource<T>)
        ensures
            r.wf(),
            r@ == Seq::<Option<(Generation, T)>>::empty(),
    {
        let r = VecResource { filter: bitset_new(), storage: VecStorage::new() };
        assert(occupied(r.storage@) =~= Set::<u32>::empty());
        r
    }

    /// Adds entity data to the resource. The entity's index must not already
    /// hold data.
    pub fn add(&mut self, entity: Entity, component: T)
        requires
            old(self).wf(),
            !((index_of(entity.0) as int) < old(self)@.len() && old(self)@[index_of(
                entity.0,
            ) as int] is Some),
            (index_of(entity.0) as int) < bitset_max_index(),
        ensures
            final(self).wf(),
            final(self)@ == store_slot(
                old(self)@,
                index_of(entity.0) as int,
                Some((generation_of(entity.0), component)),
            ),
    {
        let index = entity.index() as usize;
        let ghost old_slots = self@;
        if self.storage.v.len() <= index {
            let additional = index - self.storage.v.len() + 1;
            let mut k: usize = 0;
            while k < additional
                invariant
                    self.storage.wf(),
                    k <= additional,
                    additional == index - old_slots.len() + 1,
                    old_slots.len() <= index,
                    self@ == old_slots + Seq::new(k as nat, |j: int| None::<(Generation, T)>),
                    bitset_contents(self.filter) == occupied(old_slots),
                decreases additional - k,
            {
                let ghost before = self@;
                let ghost v0 = self.storage.v@;
                let ghost g0 = self.storage.g@;
                self.storage.v.push(None);
                self.storage.g.push(None);
                k = k + 1;
                assert forall|j: int| 0 <= j < before.len() implies #[trigger] self@[j] == before[j] by {
                    assert(self.storage.v@[j] == v0[j]);
                    assert(self.storage.g@[j] == g0[j]);
                }
                assert(self@ =~= before.push(None));
                assert(self@ =~= old_slots + Seq::new(k as nat, |j: int| None::<(Generation, T)>));
            }
        }
        let ghost grown = self@;
        self.storage.v.set(index, Some(component));
        self.storage.g.set(index, Some(entity.generation()));
        bitset_add(&mut self.filter, entity.index());
        proof {
            assert(self@ =~= grown.update(index as int, Some((generation_of(entity.0), component))));
            if index < old_slots.len() {
                assert(grown =~= old_slots);
            } else {
                assert(grown.update(index as int, Some((generation_of(entity.0), component)))
                    =~= (old_slots + Seq::new(
                    (index - old_slots.len()) as nat,
                    |j: int| None::<(Generation, T)>,
                )).push(Some((generation_of(entity.0), component))));
            }
            assert(occupied(self@) =~= occupied(old_slots).insert(index as u32));
        }
    }

    /// Removes entity data from the resource, returning it if the entity's
    /// slot held data of its generation.
    pub fn remove(&mut self, entity: Entity) -> (r: Option<T>)
        requires
            old(self).wf(),
        ensures
            final(self).wf(),
            r == slot_component(old(self)@, entity),
            final(self)@ == remove_slot(old(self)@, entity),
    {
        let index = entity.index() as usize;
        if self.storage.v.len() <= index {
            return None;
        }
        match self.storage.g[index] {
            Some(gen) => {
                if gen != entity.generation() {
                    return None;
                }
            },
            None => {
                return None;
            },
        }
        let ghost old_slots = self@;
        bitset_remove(&mut self.filter, entity.index());
        self.storage.g.set(index, None);
        let mut out: Option<T> = None;
        std::mem::swap(&mut out, &mut self.storage.v[index]);
        proof {
            assert(self@ =~= old_slots.update(index as int, None));
            assert(occupied(self@) =~= occupied(old_slots).remove(index as u32));
        }
        out
    }
}

} // verus!

verus! {

impl<T> Resource for VecResource<T> {
    open spec fn resource_wf(&self) -> bool {
        self.wf()
    }

    open spec fn has_entity_data(&self, entity: Entity) -> bool {
        slot_component(self@, entity) is Some
    }

    fn clear_entity_data(&mut self, entities: &[Entity])
        ensures
            final(self)@ == remove_slots(old(self)@, entities@),
    {
        let mut k: usize = 0;
        while k < entities.len()
            invariant
                self.wf(),
                k <= entities.len(),
                self@ == remove_slots(old(self)@, entities@.take(k as int)),
            decreases entities.len() - k,
        {
            self.remove(entities[k]);
            proof {
                assert(entities@.take(k + 1).drop_last() =~= entities@.take(k as int));
            }
            k = k + 1;
        }
        proof {
            assert(entities@.take(k as int) =~= entities@);
            lemma_clear_exact(old(self)@, entities@);
        }
    }

    fn to_builder(self) -> (b: ResourceBuilder<VecResource<T>>)
        ensures
            b.desc.bits == ENTITY_DATA,
    {
        assert(0u32 | 1u32 == 1u32) by (bit_vector);
        ResourceBuilder::new(self).activate_entity_disposal()
    }
}

impl<T> EntityResource for VecResource<T> {
    type Api = VecStorage<T>;

    open spec fn filter_indices(&self) -> Set<u32> {
        self.held_indices()
    }

    open spec fn api(&self) -> VecStorage<T> {
        self.storage_of()
    }

    fn deconstruct(&self) -> (r: (&BitSet, &VecStorage<T>)) {
        proof {
            lemma_occupied_below(self@);
        }
        (&self.filter, &self.storage)
    }

    fn deconstruct_mut(&mut self) -> (r: (&BitSet, &mut VecStorage<T>)) {
        proof {
            lemma_occupied_below(self@);
        }
        (&self.filter, &mut self.storage)
    }
}

/// Every occupied index is below the number of slots.
proof fn lemma_occupied_below<T>(slots: Seq<Option<(Generation, T)>>)
    ensures
        forall|i: u32| #[trigger] occupied(slots).contains(i) ==> (i as int) < slots.len(),
{
}

impl<T> Deref for VecResource<T> {
    type Target = VecStorage<T>;

    fn deref(&self) -> (r: &VecStorage<T>)
        ensures
            *r == self.storage_of(),
    {
        &self.storage
    }
}

impl<T> DerefMut for VecResource<T> {
    fn deref_mut(&mut self) -> (r: &mut VecStorage<T>)
        ensures
            *r == old(self).storage_of(),
            final(self).storage_of() == *final(r),
            final(self).filter_indices() == old(self).filter_indices(),
    {
        &mut self.storage
    }
}

} // verus!

verus! {

/// An iterator over entity data stored in a `VecResource`: yields the
/// entity and data of each occupied slot, in index order.
pub struct VecStorageIter<'a, T> {
    i: usize,
    v: &'a Vec<Option<T>>,
    g: &'a Vec<Option<Generation>>,
}

impl<'a, T> VecStorageIter<'a, T> {
    /// The entities and data still to be yielded.
    pub closed spec fn remaining(&self) -> Seq<(Entity, T)> {
        occupied_from(slots_of(self.v@, self.g@), self.i as int)
    }

    /// Yields the next entity and its data, if any remain.
    pub fn next(&mut self) -> (r: Option<(Entity, &'a T)>)
        ensures
            old(self).remaining().len() == 0 ==> r is None && final(self).remaining()
                == old(self).remaining(),
            old(self).remaining().len() > 0 ==> r is Some && r.unwrap().0 == old(
                self,
            ).remaining()[0].0 && *r.unwrap().1 == old(self).remaining()[0].1
                && final(self).remaining() == old(self).remaining().drop_first(),
    {
        let ghost slots = slots_of(self.v@, self.g@);
        while self.i < self.g.len()
            invariant
                slots == slots_of(self.v@, self.g@),
                occupied_from(slots, self.i as int) == old(self).remaining(),
                self.v == old(self).v,
                self.g == old(self).g,
            decreases self.g@.len() - self.i,
        {
            let index = self.i;
            self.i = self.i + 1;
            if index < self.v.len() {
                if let Some(gen) = self.g[index] {
                    if let Some(x) = &self.v[index] {
                        let e = Entity::new(index as Index, gen);
                        return Some((e, x));
                    }
                }
            }
        }
        None
    }

    /// The number of slots of the storage being iterated.
    pub closed spec fn slot_count(&self) -> nat {
        self.g@.len()
    }

    /// Bounds on the number of items still to be yielded.
    pub fn size_hint(&self) -> (r: (usize, Option<usize>))
        ensures
            r.0 == 0,
            r.1 == Some(self.slot_count() as usize),
            self.remaining().len() <= self.slot_count(),
    {
        proof {
            lemma_occupied_from_len(slots_of(self.v@, self.g@), self.i as int);
        }
        (0, Some(self.g.len()))
    }
}

proof fn lemma_occupied_from_agree<T>(
    s1: Seq<Option<(Generation, T)>>,
    s2: Seq<Option<(Generation, T)>>,
    from: int,
)
    requires
        s1.len() == s2.len(),
        forall|j: int| from <= j < s1.len() ==> s1[j] == s2[j],
    ensures
        occupied_from(s1, from) == occupied_from(s2, from),
    decreases s1.len() - from,
{
    if 0 <= from < s1.len() {
        lemma_occupied_from_agree(s1, s2, from + 1);
    }
}

proof fn lemma_occupied_from_none<T>(s: Seq<Option<(Generation, T)>>, from: int)
    requires
        forall|j: int| from <= j < s.len() ==> s[j] is None,
    ensures
        occupied_from(s, from).len() == 0,
    decreases s.len() - from,
{
    if 0 <= from < s.len() {
        lemma_occupied_from_none(s, from + 1);
    }
}

proof fn lemma_occupied_from_len<T>(slots: Seq<Option<(Generation, T)>>, from: int)
    ensures
        occupied_from(slots, from).len() <= if from < 0 {
            0
        } else {
            slots.len()
        },
        0 <= from ==> occupied_from(slots, from).len() <= slots.len() - from || from
            >= slots.len(),
    decreases slots.len() - from,
{
    if 0 <= from < slots.len() {
        lemma_occupied_from_len(slots, from + 1);
    }
}

impl<T> VecStorage<T> {
    /// The entities and data of all occupied slots, in index order.
    pub open spec fn items(&self) -> Seq<(Entity, T)> {
        occupied_from(self@, 0)
    }

    /// Gets an iterator over immutable references to all entity data stored
    /// in the resource.
    pub fn iter(&self) -> (it: VecStorageIter<'_, T>)
        ensures
            it.remaining() == self.items(),
    {
        VecStorageIter { i: 0, v: &self.v, g: &self.g }
    }
}

} // verus!

verus! {

/// An iterator over mutable references to entity data stored in a
/// `VecResource`: yields the entity and data of each occupied slot, in index
/// order.
pub struct VecStorageIterMut<'a, T> {
    i: usize,
    rest: &'a mut [Option<T>],
    g: &'a [Option<Generation>],
}

impl<'a, T> VecStorageIterMut<'a, T> {
    /// The entities and data still to be yielded.
    pub closed spec fn remaining(&self) -> Seq<(Entity, T)> {
        occupied_from(
            slots_of(Seq::new(self.i as nat, |j: int| None::<T>) + self.rest@, self.g@),
            self.i as int,
        )
    }

    /// The number of slots of the storage being iterated.
    pub closed spec fn slot_count(&self) -> nat {
        self.g@.len()
    }

    /// The number of slots passed so far.
    pub closed spec fn passed(&self) -> nat {
        self.i as nat
    }

    /// The data of the slots not yet passed, still borrowed from the
    /// storage: what it holds when the borrow ends is what the storage holds
    /// in those slots afterwards.
    pub closed spec fn unpassed(&self) -> &'a mut [Option<T>] {
        self.rest
    }

    /// The position and the slots left fit the address space.
    pub closed spec fn valid(&self) -> bool {
        self.i + self.rest@.len() <= usize::MAX
    }

    /// Yields the next entity and a mutable reference to its data, if any
    /// remain. The slots passed over without yielding keep their data.
    pub fn next(&mut self) -> (r: Option<(Entity, &'a mut T)>)
        requires
            old(self).valid(),
        ensures
            final(self).valid(),
            old(self).remaining().len() == 0 ==> r is None,
            old(self).remaining().len() > 0 ==> r is Some && r.unwrap().0 == old(
                self,
            ).remaining()[0].0 && *r.unwrap().1 == old(self).remaining()[0].1
                && final(self).remaining() == old(self).remaining().drop_first(),
            r is None ==> final(old(self).unpassed())@ == old(self).unpassed()@,
            r is Some ==> ({
                let k = final(self).passed() - old(self).passed() - 1;
                &&& 0 <= k < old(self).unpassed()@.len()
                &&& final(self).unpassed()@ == old(self).unpassed()@.skip(k + 1)
                &&& final(old(self).unpassed())@ == old(self).unpassed()@.take(k) + seq![
                    Some(*final(r.unwrap().1)),
                ] + final(final(self).unpassed())@
            }),
    {
        loop
            invariant
                self.g == old(self).g,
                self.remaining() == old(self).remaining(),
                self.i + self.rest@.len() <= usize::MAX,
                old(self).i <= self.i <= old(self).i + old(self).rest@.len(),
                self.rest@ == old(self).rest@.skip(self.i - old(self).i),
                final(old(self).rest)@ == old(self).rest@.take(self.i - old(self).i)
                    + final(self.rest)@,
            decreases self.rest@.len(),
        {
            let ghost s_old = slots_of(Seq::new(self.i as nat, |j: int| None::<T>) + self.rest@, self.g@);
            let ghost skipped = (self.i - old(self).i) as int;
            if self.rest.len() == 0 {
                proof {
                    lemma_occupied_from_none(s_old, self.i as int);
                    assert(old(self).rest@.take(skipped) =~= old(self).rest@);
                }
                let mut done: &'a mut [Option<T>] = &mut [];
                std::mem::swap(&mut done, &mut self.rest);
                proof {
                    assert(self.rest@.len() == 0);
                }
                return None;
            }
            let mut taken: &'a mut [Option<T>] = &mut [];
            std::mem::swap(&mut taken, &mut self.rest);
            let ghost taken_v = taken@;
            let (head, tail) = taken.split_at_mut(1);
            self.rest = tail;
            let index = self.i;
            self.i = self.i + 1;
            proof {
                let c_new = Seq::new(self.i as nat, |j: int| None::<T>) + self.rest@;
                let c_old = Seq::new(index as nat, |j: int| None::<T>) + taken_v;
                assert(c_new.len() == c_old.len());
                assert forall|j: int| index < j < c_new.len() implies c_new[j] == c_old[j] by {
                    assert(c_new[j] == self.rest@[j - self.i]);
                    assert(c_old[j] == taken_v[j - index]);
                }
                let s_new = slots_of(c_new, self.g@);
                assert forall|j: int| index < j < s_new.len() implies s_new[j] == s_old[j] by {
                    if j < c_new.len() {
                        assert(c_new[j] == c_old[j]);
                    }
                }
                lemma_occupied_from_agree(s_old, s_new, index + 1);
                assert((Seq::new(index as nat, |j: int| None::<T>) + taken_v)[index as int] == head@[0]);
                assert(head@ == taken_v.subrange(0, 1));
                assert(self.rest@ == taken_v.subrange(1, taken_v.len() as int));
                assert(taken_v == old(self).rest@.skip(skipped));
                assert(self.rest@ =~= old(self).rest@.skip(self.i - old(self).i));
                assert(old(self).rest@.take(skipped + 1) =~= old(self).rest@.take(skipped) + head@);
            }
            if index < self.g.len() {
                if let Some(gen) = self.g[index] {
                    if let Some(x) = &mut head[0] {
                        let e = Entity::new(index as Index, gen);
                        return Some((e, x));
                    }
                }
            }
        }
    }

    /// Bounds on the number of items still to be yielded.
    pub fn size_hint(&self) -> (r: (usize, Option<usize>))
        ensures
            r.0 == 0,
            r.1 == Some(self.slot_count() as usize),
    {
        (0, Some(self.g.len()))
    }
}

impl<T> VecStorage<T> {
    /// Gets an iterator over mutable references to all entity data stored in
    /// the resource. Which slots are occupied, and by which generation, stays
    /// as it was; the data of each occupied slot is what the iteration leaves
    /// there.
    pub fn iter_mut(&mut self) -> (it: VecStorageIterMut<'_, T>)
        ensures
            it.remaining() == old(self).items(),
            it.valid(),
            it.passed() == 0,
            old(self).wf() ==> it.unpassed()@ == data_of(old(self)@),
            old(self).wf() ==> final(self)@ == with_data(old(self)@, final(it.unpassed())@),
            old(self).wf() ==> (final(self).wf() <==> keeps_occupancy(
                old(self)@,
                final(it.unpassed())@,
            )),
    {
        let rest = self.v.as_mut_slice();
        let slots: usize = rest.len();
        assert(rest@.len() == slots);
        let it = VecStorageIterMut { i: 0, rest, g: self.g.as_slice() };
        proof {
            if old(self).wf() {
                assert(it.unpassed()@ =~= data_of(old(self)@));
                assert(slots_of(final(it.rest)@, old(self).g@) =~= with_data(
                    old(self)@,
                    final(it.rest)@,
                ));
            }
        }
        it
    }
}

} // verus!

verus! {

/// The key under which a map storage keeps an entity's data.
pub open spec fn entity_key(e: Entity) -> u64 {
    e.0 as u64
}

/// The entity stored under a map key.
pub open spec fn key_entity(k: u64) -> Entity {
    Entity(k as u32)
}

/// The components of a map storage's map, keyed by entity.
pub open spec fn map_components<T>(m: Map<u64, T>) -> Map<Entity, T> {
    Map::new(|e: Entity| m.contains_key(entity_key(e)), |e: Entity| m[entity_key(e)])
}

proof fn lemma_key_roundtrip(k: u64)
    requires
        k <= u32::MAX,
    ensures
        entity_key(key_entity(k)) == k,
{
}

proof fn lemma_entity_roundtrip(e: Entity)
    ensures
        key_entity(entity_key(e)) == e,
{
}

/// Provides methods to retrieve and mutate entity data stored inside a
/// `MapResource`.
pub struct MapStorage<T> {
    m: FnvHashMap<u64, T>,
}

impl<T> MapStorage<T> {
    /// Every key of the map is the key of an entity.
    pub closed spec fn wf(&self) -> bool {
        forall|k: u64| #[trigger] self.m@.contains_key(k) ==> k <= u32::MAX
    }

    fn new() -> (s: MapStorage<T>)
        ensures
            s.wf(),
            s.components() == Map::<Entity, T>::empty(),
    {
        let s = MapStorage { m: FnvHashMap::default() };
        assert(s.components() =~= Map::<Entity, T>::empty());
        s
    }

    /// Gets all entities with data in the resource, and their data, each
    /// once, in the map's own order.
    pub fn iter(&self) -> (r: Vec<(Entity, &T)>)
        requires
            self.wf(),
        ensures
            forall|i: int, j: int| 0 <= i < j < r@.len() ==> r@[i].0 != r@[j].0,
            forall|i: int|
                0 <= i < r@.len() ==> self.components().contains_key(#[trigger] r@[i].0)
                    && *r@[i].1 == self.components()[r@[i].0],
            forall|e: Entity|
                #[trigger] self.components().contains_key(e) ==> exists|i: int|
                    0 <= i < r@.len() && r@[i].0 == e,
    {
        let entries = map_entries(&self.m);
        let mut out: Vec<(Entity, &T)> = Vec::new();
        let mut k: usize = 0;
        while k < entries.len()
            invariant
                k <= entries@.len(),
                out@.len() == k,
                forall|i: int|
                    0 <= i < k ==> #[trigger] out@[i].0 == key_entity(entries@[i].0) && *out@[i].1
                        == *entries@[i].1,
            decreases entries@.len() - k,
        {
            let (key, value) = entries[k];
            out.push((Entity(key as u32), value));
            k = k + 1;
        }
        proof {
            assert forall|i: int, j: int| 0 <= i < j < out@.len() implies out@[i].0 != out@[j].0 by {
                assert(self.m@.contains_key(entries@[i].0));
                assert(self.m@.contains_key(entries@[j].0));
                lemma_key_roundtrip(entries@[i].0);
                lemma_key_roundtrip(entries@[j].0);
            }
            assert forall|i: int| 0 <= i < out@.len() implies self.components().contains_key(
                #[trigger] out@[i].0,
            ) && *out@[i].1 == self.components()[out@[i].0] by {
                assert(self.m@.contains_key(entries@[i].0));
                lemma_key_roundtrip(entries@[i].0);
            }
            assert forall|e: Entity| #[trigger] self.components().contains_key(e) implies exists|i: int|
                0 <= i < out@.len() && out@[i].0 == e by {
                let i = choose|i: int| 0 <= i < entries@.len() && #[trigger] entries@[i].0 == entity_key(e);
                lemma_entity_roundtrip(e);
                assert(out@[i].0 == e);
            }
        }
        out
    }

    /// Gets all entity data stored in the resource, in the map's own order.
    pub fn iter_components(&self) -> (r: Vec<&T>)
        requires
            self.wf(),
        ensures
            forall|i: int| 0 <= i < r@.len() ==> self.components().values().contains(*#[trigger] r@[i]),
            forall|e: Entity|
                #[trigger] self.components().contains_key(e) ==> exists|i: int|
                    0 <= i < r@.len() && *r@[i] == self.components()[e],
    {
        let entries = self.iter();
        let mut out: Vec<&T> = Vec::new();
        let mut k: usize = 0;
        while k < entries.len()
            invariant
                k <= entries@.len(),
                out@.len() == k,
                forall|i: int| 0 <= i < k ==> *#[trigger] out@[i] == *entries@[i].1,
            decreases entries@.len() - k,
        {
            out.push(entries[k].1);
            k = k + 1;
        }
        proof {
            assert forall|i: int| 0 <= i < out@.len() implies self.components().values().contains(
                *#[trigger] out@[i],
            ) by {
                assert(self.components().contains_key(entries@[i].0) && *out@[i]
                    == self.components()[entries@[i].0]);
            }
            assert forall|e: Entity| #[trigger] self.components().contains_key(e) implies exists|i: int|
                0 <= i < out@.len() && *out@[i] == self.components()[e] by {
                let i = choose|i: int| 0 <= i < entries@.len() && entries@[i].0 == e;
                assert(*out@[i] == self.components()[e]);
            }
        }
        out
    }

    /// Gets all entities with data in the resource, each once, with a
    /// reference to change its data in place. The resource keeps its
    /// entities, and the data of each is what its reference holds when the
    /// borrow ends.
    pub fn iter_mut(&mut self) -> (r: Vec<(Entity, &mut T)>)
        requires
            old(self).wf(),
        ensures
            forall|i: int, j: int| 0 <= i < j < r@.len() ==> r@[i].0 != r@[j].0,
            forall|i: int|
                0 <= i < r@.len() ==> old(self).components().contains_key(#[trigger] r@[i].0)
                    && *r@[i].1 == old(self).components()[r@[i].0],
            forall|e: Entity|
                #[trigger] old(self).components().contains_key(e) ==> exists|i: int|
                    0 <= i < r@.len() && r@[i].0 == e,
            final(self).wf(),
            forall|e: Entity|
                #[trigger] final(self).components().contains_key(e) == old(
                    self,
                ).components().contains_key(e),
            forall|i: int|
                0 <= i < r@.len() ==> final(self).components()[#[trigger] r@[i].0]
                    == *final(r@[i].1),
    {
        let ghost m0 = self.m@;
        let entries = map_entries_mut(&mut self.m);
        let ghost es = entries@;
        let mut out: Vec<(Entity, &mut T)> = Vec::new();
        for entry in it: entries
            invariant
                it.seq() == es,
                out@.len() == it.index(),
                forall|i: int|
                    0 <= i < out@.len() ==> #[trigger] out@[i].0 == key_entity(es[i].0),
                forall|i: int| 0 <= i < out@.len() ==> #[trigger] out@[i].1 == es[i].1,
        {
            assert(entry == es[it.index() as int]);
            let (key, value) = entry;
            let pair = (Entity(key as u32), value);
            out.push(pair);
        }
        proof {
            assert forall|i: int, j: int| 0 <= i < j < out@.len() implies out@[i].0 != out@[j].0 by {
                assert(m0.contains_key(es[i].0));
                assert(m0.contains_key(es[j].0));
                lemma_key_roundtrip(es[i].0);
                lemma_key_roundtrip(es[j].0);
            }
            assert forall|i: int| 0 <= i < out@.len() implies old(self).components().contains_key(
                #[trigger] out@[i].0,
            ) && *out@[i].1 == old(self).components()[out@[i].0] by {
                assert(m0.contains_key(es[i].0));
                lemma_key_roundtrip(es[i].0);
            }
            assert forall|e: Entity| #[trigger] old(self).components().contains_key(e) implies exists|
                i: int,
            | 0 <= i < out@.len() && out@[i].0 == e by {
                let i = choose|i: int| 0 <= i < es.len() && #[trigger] es[i].0 == entity_key(e);
                lemma_entity_roundtrip(e);
                assert(out@[i].0 == e);
            }
            assert forall|i: int| 0 <= i < out@.len() implies entity_key(#[trigger] out@[i].0)
                == es[i].0 by {
                assert(m0.contains_key(es[i].0));
                lemma_key_roundtrip(es[i].0);
            }
        }
        out
    }

    /// Gets all entity data stored in the resource, with references to change
    /// it in place, one for each entity with data. The resource keeps its
    /// entities, and the data of each is what its reference holds when the
    /// borrow ends.
    pub fn iter_components_mut(&mut self) -> (r: Vec<&mut T>)
        requires
            old(self).wf(),
        ensures
            final(self).wf(),
            forall|e: Entity|
                #[trigger] final(self).components().contains_key(e) == old(
                    self,
                ).components().contains_key(e),
            exists|es: Seq<Entity>|
                #![trigger es.len()]
                {
                    &&& es.len() == r@.len()
                    &&& forall|i: int, j: int| 0 <= i < j < es.len() ==> es[i] != es[j]
                    &&& forall|e: Entity|
                        #[trigger] old(self).components().contains_key(e) ==> es.contains(e)
                    &&& forall|i: int|
                        0 <= i < es.len() ==> old(self).components().contains_key(#[trigger] es[i])
                            && *r@[i] == old(self).components()[es[i]]
                            && final(self).components()[es[i]] == *final(r@[i])
                },
    {
        let entries = self.iter_mut();
        let ghost es = entries@;
        let mut out: Vec<&mut T> = Vec::new();
        for entry in it: entries
            invariant
                it.seq() == es,
                out@.len() == it.index(),
                forall|i: int|
                    0 <= i < out@.len() ==> *#[trigger] out@[i] == *es[i].1 && *final(out@[i])
                        == *final(es[i].1),
        {
            assert(entry == es[it.index() as int]);
            let (_, value) = entry;
            out.push(value);
        }
        proof {
            let ents = es.map_values(|p: (Entity, &mut T)| p.0);
            assert forall|e: Entity| #[trigger] old(self).components().contains_key(e) implies ents.contains(e) by {
                let i = choose|i: int| 0 <= i < es.len() && es[i].0 == e;
                assert(ents[i] == e);
            }
            assert forall|i: int| 0 <= i < ents.len() implies old(self).components().contains_key(
                #[trigger] ents[i],
            ) && *out@[i] == old(self).components()[ents[i]] by {
                assert(ents[i] == es[i].0);
            }
            assert forall|i: int, j: int| 0 <= i < j < ents.len() implies ents[i] != ents[j] by {
                assert(ents[i] == es[i].0);
                assert(ents[j] == es[j].0);
            }
            assert forall|i: int| 0 <= i < ents.len() implies #[trigger] ents[i] == es[i].0
                && *final(out@[i]) == *final(es[i].1) by {
            }
            assert(ents.len() == out@.len());
        }
        out
    }
}

impl<T> ComponentResourceApi for MapStorage<T> {
    type Component = T;

    closed spec fn components(&self) -> Map<Entity, T> {
        map_components(self.m@)
    }

    closed spec fn unchecked_key(&self, entity: Entity) -> Entity {
        entity
    }

    fn get(&self, entity: Entity) -> (r: Option<&T>) {
        map_get(&self.m, entity.0 as u64)
    }

    fn get_mut(&mut self, entity: Entity) -> (r: Option<&mut T>)
        ensures
            old(self).wf() ==> final(self).wf(),
    {
        let r = map_get_mut(&mut self.m, entity.0 as u64);
        proof {
            assert forall|x: T| #[trigger] map_components(old(self).m@.insert(entity_key(entity), x))
                == map_components(old(self).m@).insert(entity, x) by {
                lemma_map_components_insert(old(self).m@, entity, x);
            }
        }
        r
    }

    fn get_unchecked(&self, entity: Entity) -> (r: &T) {
        map_get(&self.m, entity.0 as u64).unwrap()
    }

    fn get_unchecked_mut(&mut self, entity: Entity) -> (r: &mut T)
        ensures
            old(self).wf() ==> final(self).wf(),
    {
        let r = map_get_mut(&mut self.m, entity.0 as u64);
        proof {
            assert forall|x: T| #[trigger] map_components(old(self).m@.insert(entity_key(entity), x))
                == map_components(old(self).m@).insert(entity, x) by {
                lemma_map_components_insert(old(self).m@, entity, x);
            }
        }
        r.unwrap()
    }
}

proof fn lemma_map_components_insert<T>(m: Map<u64, T>, e: Entity, x: T)
    ensures
        map_components(m.insert(entity_key(e), x)) == map_components(m).insert(e, x),
{
    assert forall|e2: Entity| #[trigger] m.insert(entity_key(e), x).contains_key(entity_key(e2)) == (
    e2 == e || m.contains_key(entity_key(e2))) by {
        lemma_entity_roundtrip(e);
        lemma_entity_roundtrip(e2);
    }
    assert(map_components(m.insert(entity_key(e), x)) =~= map_components(m).insert(e, x));
}

proof fn lemma_map_components_remove<T>(m: Map<u64, T>, e: Entity)
    ensures
        map_components(m.remove(entity_key(e))) == map_components(m).remove(e),
{
    assert forall|e2: Entity| #[trigger] m.remove(entity_key(e)).contains_key(entity_key(e2)) == (
    e2 != e && m.contains_key(entity_key(e2))) by {
        lemma_entity_roundtrip(e);
        lemma_entity_roundtrip(e2);
    }
    assert(map_components(m.remove(entity_key(e))) =~= map_components(m).remove(e));
}

/// A `MapResource` stores per-entity data in a hash map keyed by entity.
///
/// This entity resource is suitable for data which is only present for a
/// small portion of the entities in the `World`.
pub struct MapResource<T> {
    filter: BitSet,
    storage: MapStorage<T>,
}

impl<T> MapResource<T> {
    /// The storage is consistent, and every index of the filter is below
    /// the filter's limit and is the index of an entity with data.
    pub open spec fn wf(&self) -> bool {
        &&& self.storage_of().wf()
        &&& forall|i: u32| #[trigger] self.held_indices().contains(i) ==> (i as int) < bitset_max_index()
        &&& forall|i: u32| #[trigger]
            self.held_indices().contains(i) ==> exists|e: Entity|
                index_of(e.0) == i && #[trigger] self.components().contains_key(e)
    }

    /// The indices the resource's filter holds.
    pub closed spec fn held_indices(&self) -> Set<u32> {
        bitset_contents(self.filter)
    }

    /// The components stored, keyed by entity: what `get` finds.
    pub open spec fn components(&self) -> Map<Entity, T> {
        self.storage_of().components()
    }

    /// The storage behind the resource.
    pub closed spec fn storage_of(&self) -> MapStorage<T> {
        self.storage
    }

    /// Constructs a new `MapResource`.
    pub fn new() -> (r: MapResource<T>)
        ensures
            r.wf(),
            r.components() == Map::<Entity, T>::empty(),
            r.filter_indices() == Set::<u32>::empty(),
    {
        MapResource { filter: bitset_new(), storage: MapStorage::new() }
    }

    /// Adds entity data to the resource, replacing any data the entity had.
    pub fn add(&mut self, entity: Entity, component: T)
        requires
            old(self).wf(),
            (index_of(entity.0) as int) < bitset_max_index(),
        ensures
            final(self).wf(),
            final(self).components() == old(self).components().insert(entity, component),
            final(self).filter_indices() == old(self).filter_indices().insert(index_of(entity.0)),
    {
        map_insert(&mut self.storage.m, entity.0 as u64, component);
        bitset_add(&mut self.filter, entity.index());
        proof {
            lemma_map_components_insert(old(self).storage.m@, entity, component);
            assert forall|i: u32| #[trigger] self.held_indices().contains(i) implies (i as int)
                < bitset_max_index() by {
                if i != index_of(entity.0) {
                    assert(old(self).held_indices().contains(i));
                }
            }
            assert forall|i: u32| #[trigger] self.held_indices().contains(i) implies exists|
                e: Entity,
            | index_of(e.0) == i && #[trigger] self.components().contains_key(e) by {
                if i != index_of(entity.0) {
                    assert(old(self).held_indices().contains(i));
                    let w = choose|w: Entity| index_of(w.0) == i && #[trigger] old(self).components().contains_key(w);
                    assert(self.components().contains_key(w));
                } else {
                    assert(self.components().contains_key(entity));
                }
            }
        }
    }

    /// Removes entity data from the resource, returning it if present. The
    /// entity's index leaves the filter only when data was removed.
    pub fn remove(&mut self, entity: Entity) -> (r: Option<T>)
        requires
            old(self).wf(),
        ensures
            final(self).wf(),
            r is Some <==> old(self).components().contains_key(entity),
            r is Some ==> r.unwrap() == old(self).components()[entity],
            final(self).components() == old(self).components().remove(entity),
            final(self).filter_indices() == if r is Some {
                old(self).filter_indices().remove(index_of(entity.0))
            } else {
                old(self).filter_indices()
            },
    {
        let component = map_remove(&mut self.storage.m, entity.0 as u64);
        if component.is_some() {
            bitset_remove(&mut self.filter, entity.index());
        }
        proof {
            lemma_map_components_remove(old(self).storage.m@, entity);
            assert forall|i: u32| #[trigger] self.held_indices().contains(i) implies (i as int)
                < bitset_max_index() by {
                assert(old(self).held_indices().contains(i));
            }
            assert forall|i: u32| #[trigger] self.held_indices().contains(i) implies exists|
                e: Entity,
            | index_of(e.0) == i && #[trigger] self.components().contains_key(e) by {
                assert(old(self).held_indices().contains(i));
                let w = choose|w: Entity| index_of(w.0) == i && #[trigger] old(self).components().contains_key(w);
                if w == entity {
                    assert(component is None);
                }
                assert(self.components().contains_key(w));
            }
        }
        component
    }
}

/// The components after removing each of `entities` in turn.
pub open spec fn remove_components<T>(components: Map<Entity, T>, entities: Seq<Entity>) -> Map<
    Entity,
    T,
>
    decreases entities.len(),
{
    if entities.len() == 0 {
        components
    } else {
        remove_components(components, entities.drop_last()).remove(entities.last())
    }
}

impl<T> Resource for MapResource<T> {
    open spec fn resource_wf(&self) -> bool {
        self.wf()
    }

    open spec fn has_entity_data(&self, entity: Entity) -> bool {
        self.components().contains_key(entity)
    }

    fn clear_entity_data(&mut self, entities: &[Entity])
        ensures
            final(self).components() == remove_components(old(self).components(), entities@),
    {
        let mut k: usize = 0;
        while k < entities.len()
            invariant
                self.wf(),
                k <= entities.len(),
                self.components() == remove_components(
                    old(self).components(),
                    entities@.take(k as int),
                ),
            decreases entities.len() - k,
        {
            self.remove(entities[k]);
            proof {
                assert(entities@.take(k + 1).drop_last() =~= entities@.take(k as int));
            }
            k = k + 1;
        }
        proof {
            assert(entities@.take(k as int) =~= entities@);
            lemma_map_clear_exact(old(self).components(), entities@);
        }
    }

    fn to_builder(self) -> (b: ResourceBuilder<MapResource<T>>)
        ensures
            b.desc.bits == ENTITY_DATA,
    {
        assert(0u32 | 1u32 == 1u32) by (bit_vector);
        ResourceBuilder::new(self).activate_entity_disposal()
    }
}

impl<T> EntityResource for MapResource<T> {
    type Api = MapStorage<T>;

    open spec fn filter_indices(&self) -> Set<u32> {
        self.held_indices()
    }

    open spec fn api(&self) -> MapStorage<T> {
        self.storage_of()
    }

    fn deconstruct(&self) -> (r: (&BitSet, &MapStorage<T>)) {
        (&self.filter, &self.storage)
    }

    fn deconstruct_mut(&mut self) -> (r: (&BitSet, &mut MapStorage<T>)) {
        (&self.filter, &mut self.storage)
    }
}

impl<T> Deref for MapResource<T> {
    type Target = MapStorage<T>;

    fn deref(&self) -> (r: &MapStorage<T>)
        ensures
            *r == self.storage_of(),
    {
        &self.storage
    }
}

impl<T> DerefMut for MapResource<T> {
    fn deref_mut(&mut self) -> (r: &mut MapStorage<T>)
        ensures
            *r == old(self).storage_of(),
            final(self).storage_of() == *final(r),
            final(self).filter_indices() == old(self).filter_indices(),
    {
        &mut self.storage
    }
}

} // verus!

verus! {

/// Data added for an entity is what `get` then finds for that entity.
pub proof fn lemma_add_then_get<T>(slots: Seq<Option<(Generation, T)>>, entity: Entity, component: T)
    ensures
        slot_component(
            store_slot(slots, index_of(entity.0) as int, Some((generation_of(entity.0), component))),
            entity,
        ) == Some(component),
{
}

/// Adding data for an entity leaves what `get` finds for entities of other
/// indices unchanged.
pub proof fn lemma_add_keeps_others<T>(
    slots: Seq<Option<(Generation, T)>>,
    entity: Entity,
    component: T,
    other: Entity,
)
    requires
        index_of(other.0) != index_of(entity.0),
    ensures
        slot_component(
            store_slot(slots, index_of(entity.0) as int, Some((generation_of(entity.0), component))),
            other,
        ) == slot_component(slots, other),
{
    let i = index_of(entity.0) as int;
    let j = index_of(other.0) as int;
    let stored = store_slot(slots, i, Some((generation_of(entity.0), component)));
    if i >= slots.len() && j < stored.len() && j >= slots.len() {
        assert(stored[j] == None::<(Generation, T)>);
    }
}

/// Removing the data just added for an entity gives it back and leaves the
/// entity's index without data.
pub proof fn lemma_add_then_remove<T>(
    slots: Seq<Option<(Generation, T)>>,
    entity: Entity,
    component: T,
)
    ensures
        ({
            let stored = store_slot(
                slots,
                index_of(entity.0) as int,
                Some((generation_of(entity.0), component)),
            );
            &&& slot_component(stored, entity) == Some(component)
            &&& remove_slot(stored, entity)[index_of(entity.0) as int] is None
            &&& slot_component(remove_slot(stored, entity), entity) is None
        }),
{
}

/// After clearing a list of entities, an entity has data exactly when it
/// had data before and is not in the list.
proof fn lemma_clear_exact<T>(slots: Seq<Option<(Generation, T)>>, entities: Seq<Entity>)
    ensures
        forall|e: Entity| #[trigger]
            slot_component(remove_slots(slots, entities), e) is Some == (slot_component(slots, e)
                is Some && !entities.contains(e)),
    decreases entities.len(),
{
    if entities.len() > 0 {
        let rest = entities.drop_last();
        lemma_clear_exact(slots, rest);
        let before = remove_slots(slots, rest);
        let last = entities.last();
        assert forall|e: Entity| #[trigger]
            slot_component(remove_slots(slots, entities), e) is Some == (slot_component(slots, e)
                is Some && !entities.contains(e)) by {
            assert(entities.contains(e) == (rest.contains(e) || e == last)) by {
                if entities.contains(e) {
                    let k = choose|k: int| 0 <= k < entities.len() && entities[k] == e;
                    if k < entities.len() - 1 {
                        assert(rest[k] == e);
                    }
                }
                if rest.contains(e) {
                    let k = choose|k: int| 0 <= k < rest.len() && rest[k] == e;
                    assert(entities[k] == e);
                }
                if e == last {
                    assert(entities[entities.len() - 1] == e);
                }
            }
            let i = index_of(last.0) as int;
            let j = index_of(e.0) as int;
            let after = remove_slots(slots, entities);
            assert(after == remove_slot(before, last));
            if slot_component(before, last) is Some {
                if i != j {
                    if j < before.len() {
                        assert(after[j] == before[j]);
                    }
                    assert(slot_component(after, e) == slot_component(before, e));
                } else {
                    assert(after[i] == None::<(Generation, T)>);
                    if e != last {
                        lemma_entity_unpack(e);
                        lemma_entity_unpack(last);
                        assert(generation_of(e.0) != generation_of(last.0));
                        assert(slot_component(before, e) is None);
                    }
                }
            } else {
                assert(after == before);
            }
        }
    }
}

/// After clearing a list of entities from a map resource, an entity has
/// data exactly when it had data before and is not in the list.
proof fn lemma_map_clear_exact<T>(components: Map<Entity, T>, entities: Seq<Entity>)
    ensures
        forall|e: Entity| #[trigger]
            remove_components(components, entities).contains_key(e) == (components.contains_key(e)
                && !entities.contains(e)),
    decreases entities.len(),
{
    if entities.len() > 0 {
        let rest = entities.drop_last();
        lemma_map_clear_exact(components, rest);
        let before = remove_components(components, rest);
        assert(remove_components(components, entities) == before.remove(entities.last()));
        assert forall|e: Entity| #[trigger]
            remove_components(components, entities).contains_key(e) == (components.contains_key(e)
                && !entities.contains(e)) by {
            if entities.contains(e) {
                let k = choose|k: int| 0 <= k < entities.len() && entities[k] == e;
                if k < entities.len() - 1 {
                    assert(rest[k] == e);
                }
            }
            if rest.contains(e) {
                let k = choose|k: int| 0 <= k < rest.len() && rest[k] == e;
                assert(entities[k] == e);
            }
            if e == entities.last() {
                assert(entities[entities.len() - 1] == e);
            }
        }
    }
}

/// After clearing a list of entities, none of them has data left.
pub proof fn lemma_clear_removes_all<T>(slots: Seq<Option<(Generation, T)>>, entities: Seq<Entity>)
    ensures
        forall|k: int|
            0 <= k < entities.len() ==> slot_component(remove_slots(slots, entities), #[trigger] entities[k])
                is None,
    decreases entities.len(),
{
    if entities.len() > 0 {
        let rest = entities.drop_last();
        lemma_clear_removes_all(slots, rest);
        let before = remove_slots(slots, rest);
        let last = entities.last();
        assert forall|k: int| 0 <= k < entities.len() implies slot_component(
            remove_slots(slots, entities),
            #[trigger] entities[k],
        ) is None by {
            if k < entities.len() - 1 {
                assert(entities[k] == rest[k]);
                assert(slot_component(before, entities[k]) is None);
                if slot_component(before, last) is Some {
                    let i = index_of(last.0) as int;
                    let j = index_of(entities[k].0) as int;
                    assert(remove_slots(slots, entities) == remove_slot(before, last));
                    if i != j && j < before.len() {
                        assert(remove_slots(slots, entities)[j] == before[j]);
                    }
                }
            }
        }
    }
}

/// After clearing a list of entities from a map resource, none of them has
/// data left, and every other entity keeps its data.
pub proof fn lemma_map_clear_removes_all<T>(components: Map<Entity, T>, entities: Seq<Entity>)
    ensures
        forall|k: int|
            0 <= k < entities.len() ==> !remove_components(components, entities).contains_key(
                #[trigger] entities[k],
            ),
        forall|e: Entity|
            !entities.contains(e) && components.contains_key(e) ==> #[trigger] remove_components(
                components,
                entities,
            ).contains_key(e) && remove_components(components, entities)[e] == components[e],
    decreases entities.len(),
{
    if entities.len() > 0 {
        let rest = entities.drop_last();
        lemma_map_clear_removes_all(components, rest);
        assert forall|k: int| 0 <= k < entities.len() implies !remove_components(
            components,
            entities,
        ).contains_key(#[trigger] entities[k]) by {
            if k < entities.len() - 1 {
                assert(entities[k] == rest[k]);
            }
        }
        assert forall|e: Entity|
            !entities.contains(e) && components.contains_key(e) implies #[trigger] remove_components(
            components,
            entities,
        ).contains_key(e) && remove_components(components, entities)[e] == components[e] by {
            if rest.contains(e) {
                let k = choose|k: int| 0 <= k < rest.len() && rest[k] == e;
                assert(entities[k] == e);
            }
            assert(entities[entities.len() - 1] == entities.last());
            assert(e != entities.last());
            assert(remove_components(components, entities) == remove_components(components, rest).remove(
                entities.last(),
            ));
        }
    }
}

} // verus!

verus! {

/// In a well-formed vector resource the filter holds an index exactly when
/// some entity has data there: what `deconstruct` hands out for iteration
/// agrees with what `get` finds.
pub proof fn lemma_vec_filter_matches_data<T>(r: VecResource<T>)
    requires
        r.wf(),
    ensures
        forall|i: u32|
            #[trigger] r.filter_indices().contains(i) <==> exists|e: Entity|
                index_of(e.0) == i && #[trigger] r.storage_of().components().contains_key(e),
{
    assert forall|i: u32| #[trigger] r.filter_indices().contains(i) implies exists|e: Entity|
        index_of(e.0) == i && #[trigger] r.storage_of().components().contains_key(e) by {
        let g = (r@[i as int]->0).0;
        lemma_entity_of_fits(i, g);
        assert(r.storage_of().components().contains_key(entity_of(i, g)));
    }
    assert forall|i: u32| (exists|e: Entity|
        index_of(e.0) == i && #[trigger] r.storage_of().components().contains_key(e)) implies #[trigger] r.filter_indices().contains(i) by {
        let e = choose|e: Entity| index_of(e.0) == i && #[trigger] r.storage_of().components().contains_key(e);
        assert(slot_component(r@, e) is Some);
    }
}

/// In a well-formed map resource every index of the filter is the index of
/// an entity with data.
pub proof fn lemma_map_filter_has_data<T>(r: MapResource<T>)
    requires
        r.wf(),
    ensures
        forall|i: u32|
            #[trigger] r.filter_indices().contains(i) ==> exists|e: Entity|
                index_of(e.0) == i && #[trigger] r.components().contains_key(e),
{
}

} // verus!

verus! {

/// Every entity and data the slot iteration yields from slot `from` on is
/// what `get` finds for that entity, at an index from `from` on; and every
/// entity `get` finds data for at such an index is yielded, with that data.
pub proof fn lemma_occupied_from_found<T>(slots: Seq<Option<(Generation, T)>>, from: int)
    requires
        0 <= from,
        slots.len() <= index_limit(),
    ensures
        forall|k: int|
            0 <= k < occupied_from(slots, from).len() ==> slot_component(
                slots,
                #[trigger] occupied_from(slots, from)[k].0,
            ) == Some(occupied_from(slots, from)[k].1) && from <= index_of(
                (occupied_from(slots, from)[k].0).0,
            ),
        forall|e: Entity|
            #[trigger] slot_component(slots, e) is Some && from <= index_of(e.0) ==> exists|k: int|
                0 <= k < occupied_from(slots, from).len() && occupied_from(slots, from)[k] == (
                e,
                slot_component(slots, e)->0,
            ),
    decreases slots.len() - from,
{
    if from < slots.len() {
        lemma_occupied_from_found(slots, from + 1);
        let rest = occupied_from(slots, from + 1);
        let items = occupied_from(slots, from);
        if slots[from] is Some {
            let g = (slots[from]->0).0;
            lemma_entity_of_fits(from as u32, g);
            assert(items == seq![(entity_of(from as u32, g), (slots[from]->0).1)] + rest);
            assert forall|k: int| 0 <= k < items.len() implies slot_component(
                slots,
                #[trigger] items[k].0,
            ) == Some(items[k].1) && from <= index_of((items[k].0).0) by {
                if k > 0 {
                    assert(items[k] == rest[k - 1]);
                }
            }
            assert forall|e: Entity|
                #[trigger] slot_component(slots, e) is Some && from <= index_of(e.0) implies exists|k: int|
                0 <= k < items.len() && items[k] == (e, slot_component(slots, e)->0) by {
                if index_of(e.0) == from {
                    lemma_entity_unpack(e);
                    assert(items[0] == (e, slot_component(slots, e)->0));
                } else {
                    let k = choose|k: int| 0 <= k < rest.len() && rest[k] == (e, slot_component(slots, e)->0);
                    assert(items[k + 1] == rest[k]);
                }
            }
        } else {
            assert(items == rest);
            assert forall|e: Entity|
                #[trigger] slot_component(slots, e) is Some && from <= index_of(e.0) implies exists|k: int|
                0 <= k < items.len() && items[k] == (e, slot_component(slots, e)->0) by {
                assert(index_of(e.0) != from);
            }
        }
    } else {
        assert forall|e: Entity|
            #[trigger] slot_component(slots, e) is Some && from <= index_of(e.0) implies exists|k: int|
            0 <= k < occupied_from(slots, from).len() && occupied_from(slots, from)[k] == (
                e,
                slot_component(slots, e)->0,
            ) by {
        }
    }
}

/// Iterating a well-formed vector resource yields exactly the entities
/// `get` finds data for, each with that data.
pub proof fn lemma_vec_iter_yields_components<T>(r: VecResource<T>)
    requires
        r.wf(),
    ensures
        forall|k: int|
            0 <= k < r.storage_of().items().len() ==> r.storage_of().components().contains_key(
                #[trigger] r.storage_of().items()[k].0,
            ) && r.storage_of().components()[r.storage_of().items()[k].0] == r.storage_of().items()[k].1,
        forall|e: Entity|
            #[trigger] r.storage_of().components().contains_key(e) ==> exists|k: int|
                0 <= k < r.storage_of().items().len() && r.storage_of().items()[k] == (
                e,
                r.storage_of().components()[e],
            ),
{
    lemma_occupied_from_found(r@, 0);
    assert forall|e: Entity| #[trigger] r.storage_of().components().contains_key(e) implies exists|k: int|
        0 <= k < r.storage_of().items().len() && r.storage_of().items()[k] == (
            e,
            r.storage_of().components()[e],
        ) by {
        let slots = r.storage_of()@;
        assert(slot_component(slots, e) is Some && 0 <= index_of(e.0));
        let k = choose|k: int|
            0 <= k < occupied_from(slots, 0).len() && occupied_from(slots, 0)[k] == (
                e,
                slot_component(slots, e)->0,
            );
        assert(r.storage_of().items()[k] == (e, r.storage_of().components()[e]));
    }
}

} // verus!
