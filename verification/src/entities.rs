//! Allocation, liveness and deletion of entity handles.

use crate::entity::{
    lemma_entity_of_fits, lemma_entity_unpack, lemma_pack_unpack, entity_of, generation_of,
    index_limit, index_of, Entity, Generation, Handle, Index,
};
use crate::resource::EntityResource;
use crate::queue::{
    buffer_queue_items, buffer_queue_new, buffer_queue_pop, buffer_queue_push, index_queue_items,
    index_queue_new, index_queue_pop, index_queue_push,
};
use crate::bitset::{
    bitset_and_indices, bitset_contains, bitset_contents, bitset_indices, bitset_max_index,
    strictly_increasing,
};
use crossbeam::queue::SegQueue;
use hibitset::BitSet;
use vstd::prelude::*;

verus! {

/// Free indices are reused only once more than this many are waiting.
pub const MINIMUM_FREE_INDICES: usize = 1024;

/// Summarises the final changes made during the lifetime of an entity
/// transaction.
pub struct EntityChangeSet {
    /// The entities deleted in the transaction.
    pub deleted: Vec<Entity>,
}

/// Abstract state of an entity allocator.
pub struct EntitiesView {
    /// How many indices have ever been handed out fresh.
    pub allocated: nat,
    /// The current generation of each committed index.
    pub generations: Seq<Generation>,
    /// Indices waiting to be reused, front first.
    pub free: Seq<Index>,
    /// The indices of the entities created by transactions since the last
    /// merge, in order of creation.
    pub pending: Seq<Index>,
}

/// How many times `index` occurs among the indices of `deleted`.
pub open spec fn deletions_of(deleted: Seq<Entity>, index: int) -> nat
    decreases deleted.len(),
{
    if deleted.len() == 0 {
        0
    } else {
        deletions_of(deleted.drop_last(), index) + if index_of(deleted.last().0) == index {
            1nat
        } else {
            0nat
        }
    }
}

/// The entities deleted by a sequence of change sets, in order.
pub open spec fn deleted_entities(changes: Seq<EntityChangeSet>) -> Seq<Entity>
    decreases changes.len(),
{
    if changes.len() == 0 {
        Seq::empty()
    } else {
        deleted_entities(changes.drop_last()) + changes.last().deleted@
    }
}

impl EntitiesView {
    /// Whether `e` is alive: its generation is current, or its index has been
    /// handed out but not yet committed.
    pub open spec fn is_alive(self, e: Entity) -> bool {
        let i = index_of(e.0) as int;
        if i < self.generations.len() {
            self.generations[i] == generation_of(e.0)
        } else {
            i < self.allocated
        }
    }

    /// Whether one of the first `earlier` creations by transactions since
    /// the last merge has index `index`.
    pub open spec fn created_before(self, earlier: nat, index: Index) -> bool {
        exists|k: int| 0 <= k < earlier && k < self.pending.len() && #[trigger] self.pending[k] == index
    }

    /// Whether `e` is alive as a transaction sees it that began after
    /// `earlier` creations by other transactions since the last merge: those
    /// creations are not observed, and everything else is as the allocator
    /// reports it.
    pub open spec fn is_alive_from(self, earlier: nat, e: Entity) -> bool {
        !self.created_before(earlier, index_of(e.0)) && self.is_alive(e)
    }

    /// The state after a transaction creates an entity, and the entity: an
    /// allocation whose index is recorded as a creation not yet merged.
    pub open spec fn create(self) -> (EntitiesView, Entity) {
        let (v, e) = self.allocate();
        (EntitiesView { pending: v.pending.push(index_of(e.0)), ..v }, e)
    }

    /// The facts every well-formed allocator keeps: committed generations
    /// never outnumber handed-out indices; indices waiting for reuse are
    /// committed and fit in a handle; creations not yet merged have indices
    /// that were handed out.
    pub open spec fn consistent(self) -> bool {
        &&& self.generations.len() <= self.allocated
        &&& forall|k: int|
            0 <= k < self.free.len() ==> (#[trigger] self.free[k] as int) < self.generations.len()
                && (self.free[k] as int) < index_limit()
        &&& forall|k: int| 0 <= k < self.pending.len() ==> (#[trigger] self.pending[k] as int) < self.allocated
    }

    /// The current handle for `index`.
    pub open spec fn by_index(self, index: Index) -> Entity {
        if (index as int) < self.generations.len() {
            entity_of(index, self.generations[index as int])
        } else {
            entity_of(index, 0)
        }
    }

    /// The state after one allocation, and the entity it yields: a waiting
    /// free index once more than `MINIMUM_FREE_INDICES` wait, else a fresh one.
    pub open spec fn allocate(self) -> (EntitiesView, Entity) {
        if self.free.len() > MINIMUM_FREE_INDICES {
            let i = self.free[0];
            (
                EntitiesView { free: self.free.drop_first(), ..self },
                entity_of(i, self.generations[i as int]),
            )
        } else {
            (
                EntitiesView { allocated: self.allocated + 1, ..self },
                entity_of(self.allocated as u32, 0),
            )
        }
    }

    /// The generations once every handed-out index is committed: new indices
    /// start at generation zero.
    pub open spec fn committed_generations(self) -> Seq<Generation> {
        Seq::new(
            self.allocated,
            |j: int|
                if j < self.generations.len() {
                    self.generations[j]
                } else {
                    0u8
                },
        )
    }

    /// Whether a merge of `deleted` is defined: every deleted index has been
    /// handed out, and no generation is pushed past its largest value.
    pub open spec fn can_merge(self, deleted: Seq<Entity>) -> bool {
        &&& self.generations.len() <= self.allocated
        &&& forall|k: int|
            0 <= k < deleted.len() ==> (index_of(#[trigger] deleted[k].0) as int) < self.allocated
        &&& forall|j: int|
            0 <= j < self.allocated ==> self.committed_generations()[j] + deletions_of(deleted, j)
                <= 255
    }

    /// The state after committing allocations and deleting `deleted`: each
    /// deletion bumps its index's generation and queues the index for reuse.
    pub open spec fn merge(self, deleted: Seq<Entity>) -> EntitiesView {
        EntitiesView {
            allocated: self.allocated,
            generations: Seq::new(
                self.allocated,
                |j: int| (self.committed_generations()[j] + deletions_of(deleted, j)) as u8,
            ),
            free: self.free + deleted.map_values(|e: Entity| index_of(e.0)),
            pending: Seq::empty(),
        }
    }
}

/// Manages the allocation and deletion of `Entity` IDs.
pub struct Entities {
    free_count_approx: usize,
    allocated: usize,
    generations: Vec<Generation>,
    free: SegQueue<Index>,
    deleted_pool: SegQueue<Vec<Entity>>,
    pending: Vec<Index>,
}

impl View for Entities {
    type V = EntitiesView;

    closed spec fn view(&self) -> EntitiesView {
        EntitiesView {
            allocated: self.allocated as nat,
            generations: self.generations@,
            free: index_queue_items(self.free),
            pending: self.pending@,
        }
    }
}

proof fn lemma_deletions_push(deleted: Seq<Entity>, e: Entity, index: int)
    ensures
        deletions_of(deleted.push(e), index) == deletions_of(deleted, index) + if index_of(e.0)
            == index {
            1nat
        } else {
            0nat
        },
{
    assert(deleted.push(e).drop_last() =~= deleted);
}

proof fn lemma_deleted_index_occurs(deleted: Seq<Entity>, index: int) -> (m: int)
    requires
        deletions_of(deleted, index) > 0,
    ensures
        0 <= m < deleted.len(),
        index_of(deleted[m].0) == index,
    decreases deleted.len(),
{
    if index_of(deleted.last().0) == index {
        (deleted.len() - 1) as int
    } else {
        let m = lemma_deleted_index_occurs(deleted.drop_last(), index);
        m
    }
}

/// How many of `deleted` have index `index`.
fn count_index(deleted: &Vec<Entity>, index: Index) -> (n: usize)
    ensures
        n == deletions_of(deleted@, index as int),
{
    let mut n: usize = 0;
    let mut k: usize = 0;
    while k < deleted.len()
        invariant
            k <= deleted@.len(),
            n == deletions_of(deleted@.take(k as int), index as int),
            n <= k,
        decreases deleted@.len() - k,
    {
        proof {
            assert(deleted@.take(k + 1) =~= deleted@.take(k as int).push(deleted@[k as int]));
            lemma_deletions_push(deleted@.take(k as int), deleted@[k as int], index as int);
        }
        if deleted[k].index() == index {
            n = n + 1;
        }
        k = k + 1;
    }
    proof {
        assert(deleted@.take(k as int) =~= deleted@);
    }
    n
}

/// The entities deleted by `changes`, in order.
fn flatten_deleted(changes: &Vec<EntityChangeSet>) -> (all: Vec<Entity>)
    ensures
        all@ == deleted_entities(changes@),
{
    let mut all: Vec<Entity> = Vec::new();
    let mut i: usize = 0;
    while i < changes.len()
        invariant
            i <= changes@.len(),
            all@ == deleted_entities(changes@.take(i as int)),
        decreases changes@.len() - i,
    {
        let deleted = &changes[i].deleted;
        let mut j: usize = 0;
        while j < deleted.len()
            invariant
                i < changes@.len(),
                *deleted == changes@[i as int].deleted,
                j <= deleted@.len(),
                all@ == deleted_entities(changes@.take(i as int)) + deleted@.take(j as int),
            decreases deleted@.len() - j,
        {
            all.push(deleted[j]);
            proof {
                assert(deleted@.take(j + 1) =~= deleted@.take(j as int).push(deleted@[j as int]));
            }
            j = j + 1;
        }
        proof {
            assert(deleted@.take(j as int) =~= deleted@);
            assert(changes@.take(i + 1).drop_last() =~= changes@.take(i as int));
        }
        i = i + 1;
    }
    proof {
        assert(changes@.take(i as int) =~= changes@);
    }
    all
}

proof fn lemma_deletions_prefix(deleted: Seq<Entity>, n: int, index: int)
    requires
        0 <= n <= deleted.len(),
    ensures
        deletions_of(deleted.take(n), index) <= deletions_of(deleted, index),
    decreases deleted.len(),
{
    if n == deleted.len() {
        assert(deleted.take(n) =~= deleted);
    } else {
        assert(deleted.drop_last().take(n) =~= deleted.take(n));
        lemma_deletions_prefix(deleted.drop_last(), n, index);
    }
}

proof fn lemma_deleted_prefix(changes: Seq<EntityChangeSet>, n: int)
    requires
        0 <= n <= changes.len(),
    ensures
        deleted_entities(changes.take(n)) == deleted_entities(changes).take(
            deleted_entities(changes.take(n)).len() as int,
        ),
        deleted_entities(changes.take(n)).len() <= deleted_entities(changes).len(),
    decreases changes.len(),
{
    if n == changes.len() {
        assert(changes.take(n) =~= changes);
        assert(deleted_entities(changes).take(deleted_entities(changes).len() as int)
            =~= deleted_entities(changes));
    } else {
        assert(changes.drop_last().take(n) =~= changes.take(n));
        lemma_deleted_prefix(changes.drop_last(), n);
        let d = deleted_entities(changes.drop_last());
        assert(deleted_entities(changes) == d + changes.last().deleted@);
        assert((d + changes.last().deleted@).take(deleted_entities(changes.take(n)).len() as int)
            =~= d.take(deleted_entities(changes.take(n)).len() as int));
    }
}

impl Entities {
    /// Internal consistency: the facts of `EntitiesView::consistent`, an
    /// exact free count, and empty pooled deletion buffers.
    pub closed spec fn wf(&self) -> bool {
        &&& self.generations@.len() <= self.allocated
        &&& forall|k: int|
            0 <= k < index_queue_items(self.free).len() ==> (#[trigger] index_queue_items(
                self.free,
            )[k] as int) < self.generations@.len() && (index_queue_items(self.free)[k] as int)
                < index_limit()
        &&& forall|k: int| 0 <= k < self.pending@.len() ==> (#[trigger] self.pending@[k] as int) < self.allocated
        &&& self.free_count_approx == index_queue_items(self.free).len()
        &&& forall|k: int|
            0 <= k < buffer_queue_items(self.deleted_pool).len() ==> (#[trigger] buffer_queue_items(
                self.deleted_pool,
            )[k]).len() == 0
    }

    /// Constructs a new `Entities`.
    pub fn new() -> (em: Entities)
        ensures
            em.wf(),
            em@.allocated == 0,
            em@.generations == Seq::<Generation>::empty(),
            em@.free == Seq::<Index>::empty(),
            em@.pending == Seq::<Index>::empty(),
    {
        Entities {
            generations: Vec::new(),
            free: index_queue_new(),
            free_count_approx: 0,
            allocated: 0,
            deleted_pool: buffer_queue_new(),
            pending: Vec::new(),
        }
    }

    /// A well-formed allocator's view is consistent.
    pub proof fn lemma_consistent(&self)
        requires
            self.wf(),
        ensures
            self@.consistent(),
    {
    }

    /// Creates a new `Entity`. Allocated entities cannot be deleted until after
    /// `commit_allocations` has been called.
    pub fn allocate(&mut self) -> (e: Entity)
        requires
            old(self).wf(),
            old(self)@.allocated < usize::MAX,
        ensures
            final(self).wf(),
            (final(self)@, e) == old(self)@.allocate(),
    {
        if self.free_count_approx > MINIMUM_FREE_INDICES {
            let popped = index_queue_pop(&mut self.free);
            if let Some(index) = popped {
                self.free_count_approx = self.free_count_approx - 1;
                let generation = self.generations[index as usize];
                return Entity::new(index, generation);
            }
        }
        let index = self.allocated;
        self.allocated = self.allocated + 1;
        Entity::new(index as Index, 0 as Generation)
    }

    /// Determines if the specified `Entity` is still alive.
    pub fn is_alive(&self, entity: &Entity) -> (alive: bool)
        ensures
            alive == self@.is_alive(*entity),
    {
        let index = entity.index() as usize;
        if index < self.generations.len() {
            self.generations[index] == entity.generation()
        } else {
            self.allocated > index
        }
    }

    /// Gets the count of currently allocated entities.
    pub fn count(&self) -> (n: usize)
        ensures
            n == self@.allocated,
    {
        self.allocated
    }

    /// Gets the currently living `Entity` with the given `Index`.
    pub fn by_index(&self, index: Index) -> (e: Entity)
        ensures
            e == self@.by_index(index),
    {
        if (index as usize) < self.generations.len() {
            Entity::new(index, self.generations[index as usize])
        } else {
            Entity::new(index, 0)
        }
    }

    /// Creates a new entity transaction. Transactions can be used to allocate
    /// or delete entities; deletions are committed when the transaction's
    /// change set is merged via `merge`.
    pub fn transaction(&mut self) -> (tx: EntitiesTransaction<'_>)
        requires
            old(self).wf(),
        ensures
            tx.borrowed().wf(),
            tx.borrowed()@ == old(self)@,
            tx.deleted_so_far() == Seq::<Entity>::empty(),
            tx.earlier() == old(self)@.pending.len(),
            *final(tx.borrowed()) == *final(self),
    {
        let popped = buffer_queue_pop(&mut self.deleted_pool);
        let deleted = match popped {
            Some(v) => v,
            None => Vec::new(),
        };
        let earlier = self.pending.len();
        EntitiesTransaction { entities: self, deleted, earlier }
    }

    /// Merges a set of entity change sets, committing their allocations and
    /// deletions.
    pub fn merge(&mut self, changes: Vec<EntityChangeSet>)
        requires
            old(self).wf(),
            old(self)@.can_merge(deleted_entities(changes@)),
            old(self)@.free.len() + deleted_entities(changes@).len() <= usize::MAX,
        ensures
            final(self).wf(),
            final(self)@ == old(self)@.merge(deleted_entities(changes@)),
    {
        let ghost start = self@;
        let ghost all = deleted_entities(changes@);
        self.commit_allocations();
        let ghost committed = self@;
        let mut freed: usize = 0;
        let ghost mut done: Seq<Entity> = Seq::empty();
        let ghost cs = changes@;
        let ghost mut seen: int = 0;
        for set in it: changes.into_iter()
            invariant
                start.can_merge(all),
                start.free.len() + all.len() <= usize::MAX,
                all == deleted_entities(cs),
                it.seq() == cs,
                seen == it.index(),
                0 <= seen <= cs.len(),
                done == deleted_entities(cs.take(seen)),
                done == all.take(done.len() as int),
                freed == done.len(),
                self.allocated == start.allocated,
                self.generations@ == Seq::new(
                    start.allocated,
                    |j: int| (start.committed_generations()[j] + deletions_of(done, j)) as u8,
                ),
                index_queue_items(self.free) == start.free + done.map_values(
                    |e: Entity| index_of(e.0),
                ),
                self.free_count_approx == start.free.len(),
                forall|k: int|
                    0 <= k < buffer_queue_items(self.deleted_pool).len() ==> (
                    #[trigger] buffer_queue_items(self.deleted_pool)[k]).len() == 0,
        {
            proof {
                assert(cs.take(seen + 1).drop_last() =~= cs.take(seen));
                lemma_deleted_prefix(cs, seen + 1);
            }
            let ghost outer = done;
            let mut deleted = set.deleted;
            let n = deleted.len();
            let mut k: usize = 0;
            while k < n
                invariant
                    start.can_merge(all),
                    start.free.len() + all.len() <= usize::MAX,
                    n == deleted.len(),
                    k <= n,
                    outer + deleted@ == all.take((outer.len() + deleted@.len()) as int),
                    outer.len() + deleted@.len() <= all.len(),
                    done == outer + deleted@.take(k as int),
                    freed == done.len(),
                    self.allocated == start.allocated,
                    self.generations@ == Seq::new(
                        start.allocated,
                        |j: int| (start.committed_generations()[j] + deletions_of(done, j)) as u8,
                    ),
                    index_queue_items(self.free) == start.free + done.map_values(
                        |e: Entity| index_of(e.0),
                    ),
                    self.free_count_approx == start.free.len(),
                    forall|j: int|
                        0 <= j < buffer_queue_items(self.deleted_pool).len() ==> (
                        #[trigger] buffer_queue_items(self.deleted_pool)[j]).len() == 0,
                decreases n - k,
            {
                let e = deleted[k];
                let index = e.index() as usize;
                proof {
                    let ghost pre = all.take((outer.len() + deleted@.len()) as int);
                    assert(pre[(outer.len() + k) as int] == (outer + deleted@)[(outer.len() + k) as int]);
                    assert(all[done.len() as int] == e);
                    assert(done.push(e) =~= all.take(done.len() + 1int));
                    lemma_deletions_prefix(all, done.len() + 1int, index as int);
                    lemma_deletions_push(done, e, index as int);
                }
                let bumped = self.generations[index] + 1;
                self.generations.set(index, bumped);
                index_queue_push(&mut self.free, e.index());
                freed = freed + 1;
                proof {
                    let ghost next = done.push(e);
                    assert forall|j: int| 0 <= j < start.allocated implies deletions_of(next, j)
                        == deletions_of(done, j) + if j == index {
                        1nat
                    } else {
                        0nat
                    } by {
                        lemma_deletions_push(done, e, j);
                    }
                    assert(self.generations@ =~= Seq::new(
                        start.allocated,
                        |j: int| (start.committed_generations()[j] + deletions_of(next, j)) as u8,
                    ));
                    assert(next.map_values(|e: Entity| index_of(e.0)) =~= done.map_values(
                        |e: Entity| index_of(e.0),
                    ).push(index_of(e.0)));
                    assert(outer + deleted@.take(k + 1) =~= next);
                    done = next;
                }
                k = k + 1;
            }
            proof {
                assert(deleted@.take(n as int) =~= deleted@);
            }
            deleted.clear();
            assert(deleted@.len() == 0);
            let ghost pool = buffer_queue_items(self.deleted_pool);
            buffer_queue_push(&mut self.deleted_pool, deleted);
            proof {
                assert forall|j: int|
                    0 <= j < buffer_queue_items(self.deleted_pool).len() implies (
                    #[trigger] buffer_queue_items(self.deleted_pool)[j]).len() == 0 by {
                    if j < pool.len() {
                        assert(buffer_queue_items(self.deleted_pool)[j] == pool[j]);
                    } else {
                        assert(buffer_queue_items(self.deleted_pool)[j] == Seq::<Entity>::empty());
                    }
                }
                seen = seen + 1;
            }
        }
        proof {
            assert(cs.take(cs.len() as int) =~= cs);
        }
        self.free_count_approx = self.free_count_approx + freed;
        self.pending = Vec::new();
        proof {
            assert forall|k: int| 0 <= k < index_queue_items(self.free).len() implies (
            #[trigger] index_queue_items(self.free)[k] as int) < self.generations@.len() && (
            index_queue_items(self.free)[k] as int) < index_limit() by {
                if k >= start.free.len() {
                    let m = k - start.free.len();
                    assert(index_queue_items(self.free)[k] == index_of(all[m].0));
                    lemma_entity_unpack(all[m]);
                } else {
                    assert(index_queue_items(self.free)[k] == start.free[k]);
                }
            }
            assert(self@ =~= start.merge(all));
        }
    }

    /// Whether `merge` accepts `changes`: every deleted index has been
    /// handed out, no generation is pushed past its largest value, and the
    /// free indices stay countable.
    pub fn check_merge(&self, changes: &Vec<EntityChangeSet>) -> (ok: bool)
        requires
            self.wf(),
        ensures
            ok == (self@.can_merge(deleted_entities(changes@)) && self@.free.len()
                + deleted_entities(changes@).len() <= usize::MAX),
    {
        let all = flatten_deleted(changes);
        if self.free_count_approx > usize::MAX - all.len() {
            return false;
        }
        let ghost v = self@;
        let mut k: usize = 0;
        while k < all.len()
            invariant
                self.wf(),
                v == self@,
                all@ == deleted_entities(changes@),
                self@.free.len() + all@.len() <= usize::MAX,
                k <= all@.len(),
                forall|m: int|
                    0 <= m < k ==> (index_of(#[trigger] all@[m].0) as int) < v.allocated && v.committed_generations()[index_of(all@[m].0) as int]
                        + deletions_of(all@, index_of(all@[m].0) as int) <= 255,
            decreases all@.len() - k,
        {
            let index = all[k].index() as usize;
            if index >= self.allocated {
                return false;
            }
            let committed: u8 = if index < self.generations.len() {
                self.generations[index]
            } else {
                0
            };
            let count = count_index(&all, all[k].index());
            if count > 255 - committed as usize {
                proof {
                    assert(v.committed_generations()[index as int] == committed);
                }
                return false;
            }
            proof {
                assert(v.committed_generations()[index as int] == committed);
            }
            k = k + 1;
        }
        proof {
            assert forall|j: int| 0 <= j < v.allocated implies v.committed_generations()[j]
                + deletions_of(all@, j) <= 255 by {
                if deletions_of(all@, j) > 0 {
                    let m = lemma_deleted_index_occurs(all@, j);
                }
            }
        }
        true
    }

    fn commit_allocations(&mut self)
        requires
            old(self).wf(),
        ensures
            final(self).wf(),
            final(self)@ == (EntitiesView {
                generations: old(self)@.committed_generations(),
                ..old(self)@
            }),
    {
        let allocated = self.allocated;
        let new_entities = allocated - self.generations.len();
        if new_entities > 0 {
            self.generations.resize(allocated, 0);
        }
        assert(self.generations@ =~= old(self)@.committed_generations());
    }
}

/// An entity transaction creates and deletes entities of an `Entities`.
/// Deletions take effect when its change set is merged.
pub struct EntitiesTransaction<'a> {
    entities: &'a mut Entities,
    deleted: Vec<Entity>,
    earlier: usize,
}

impl<'a> EntitiesTransaction<'a> {
    /// The borrow of the allocator the transaction creates entities in.
    pub closed spec fn borrowed(&self) -> &'a mut Entities {
        self.entities
    }

    /// The entities destroyed so far, in order.
    pub closed spec fn deleted_so_far(&self) -> Seq<Entity> {
        self.deleted@
    }

    /// The allocator the transaction creates entities in.
    pub fn entities(&self) -> (r: &Entities)
        ensures
            *r == *self.borrowed(),
    {
        &*self.entities
    }

    /// The number of creations by other transactions since the last merge
    /// when the transaction began: the transaction does not observe them.
    pub closed spec fn earlier(&self) -> nat {
        self.earlier as nat
    }

    /// The current state of the allocator the transaction works on.
    pub open spec fn allocator(&self) -> EntitiesView {
        self.borrowed()@
    }

    /// Creates a new `Entity`.
    ///
    /// This `Entity` can immediately be used to register data with resources,
    /// and the calling system may destroy the entity, but transactions begun
    /// after it do not observe the creation until the changes are merged.
    pub fn create(&mut self) -> (e: Entity)
        requires
            old(self).borrowed().wf(),
            old(self).borrowed()@.allocated < usize::MAX,
        ensures
            final(self).borrowed().wf(),
            (final(self).borrowed()@, e) == old(self).borrowed()@.create(),
            final(self).deleted_so_far() == old(self).deleted_so_far(),
            final(self).earlier() == old(self).earlier(),
            *final(final(self).borrowed()) == *final(old(self).borrowed()),
    {
        let e = self.entities.allocate();
        self.entities.pending.push(e.index());
        proof {
            let v = old(self).borrowed()@;
            if v.free.len() > MINIMUM_FREE_INDICES {
                assert((v.free[0] as int) < v.generations.len());
            }
            lemma_index_below_allocated(v, e);
        }
        e
    }

    /// Destroys an `Entity`.
    ///
    /// Entity destructions are deferred until the transaction's change set is
    /// merged; related data in entity resources is removed at that time.
    pub fn destroy(&mut self, entity: Entity)
        ensures
            final(self).deleted_so_far() == old(self).deleted_so_far().push(entity),
            final(self).earlier() == old(self).earlier(),
            *final(self).borrowed() == *old(self).borrowed(),
            *final(final(self).borrowed()) == *final(old(self).borrowed()),
    {
        self.deleted.push(entity);
    }

    /// Determines if the given `Entity` is still alive, as the transaction
    /// sees it: entities created by other transactions and not yet merged
    /// are not observed.
    pub fn is_alive(&self, entity: &Entity) -> (alive: bool)
        ensures
            alive == self.allocator().is_alive_from(self.earlier(), *entity),
    {
        let index = entity.index();
        let pending = &self.entities.pending;
        let mut k: usize = 0;
        while k < self.earlier && k < pending.len()
            invariant
                *pending == self.entities.pending,
                index == index_of(entity.0),
                k <= self.earlier,
                forall|j: int| 0 <= j < k && j < pending@.len() ==> pending@[j] != index,
            decreases self.earlier - k,
        {
            if pending[k] == index {
                assert(self.allocator().pending[k as int] == index);
                return false;
            }
            k = k + 1;
        }
        self.entities.is_alive(entity)
    }

    /// Gets the currently living `Entity` with the given `Index`.
    pub fn by_index(&self, index: Index) -> (e: Entity)
        ensures
            e == self.allocator().by_index(index),
    {
        self.entities.by_index(index)
    }

    /// Converts this transaction into a change set, consuming the transaction
    /// in the process.
    pub fn to_change_set(self) -> (cs: EntityChangeSet)
        ensures
            cs.deleted@ == self.deleted_so_far(),
            has_resolved(self.borrowed()),
    {
        EntityChangeSet { deleted: self.deleted }
    }
}

/// An allocation's index was handed out: it is below the new allocation
/// count.
proof fn lemma_index_below_allocated(v: EntitiesView, e: Entity)
    requires
        v.consistent(),
        e == v.allocate().1,
    ensures
        (index_of(e.0) as int) < v.allocate().0.allocated,
{
    if v.free.len() > MINIMUM_FREE_INDICES {
        lemma_entity_of_fits(v.free[0], v.generations[v.free[0] as int]);
    } else {
        let a = v.allocated as u32;
        assert((v.allocated as u32) as int <= v.allocated);
        lemma_pack_unpack(a, 0);
        assert(a & 0x00ff_ffffu32 <= a) by (bit_vector);
    }
}

/// The state after `n` successive allocations, and the entities they yield.
pub open spec fn allocate_many(v: EntitiesView, n: nat) -> (EntitiesView, Seq<Entity>)
    decreases n,
{
    if n == 0 {
        (v, Seq::empty())
    } else {
        let (v1, es) = allocate_many(v, (n - 1) as nat);
        let (v2, e) = v1.allocate();
        (v2, es.push(e))
    }
}

/// An entity just allocated is alive.
pub proof fn lemma_allocated_is_alive(em: Entities)
    requires
        em.wf(),
        em@.allocated < index_limit(),
    ensures
        em@.allocate().0.is_alive(em@.allocate().1),
{
    let v = em@;
    if v.free.len() > MINIMUM_FREE_INDICES {
        let i = v.free[0];
        assert((i as int) < v.generations.len());
        lemma_entity_of_fits(i, v.generations[i as int]);
    } else {
        lemma_entity_of_fits(v.allocated as u32, 0);
    }
}

/// While no more than `MINIMUM_FREE_INDICES` indices wait for reuse, `n`
/// successive allocations hand out the fresh indices `allocated`,
/// `allocated + 1`, ... in order, so no entity is handed out twice.
pub proof fn lemma_fresh_allocations_distinct(v: EntitiesView, n: nat)
    requires
        v.free.len() <= MINIMUM_FREE_INDICES,
        v.allocated + n <= index_limit(),
    ensures
        allocate_many(v, n).0.allocated == v.allocated + n,
        allocate_many(v, n).0.free == v.free,
        allocate_many(v, n).0.generations == v.generations,
        allocate_many(v, n).1.len() == n,
        forall|k: int|
            0 <= k < n ==> index_of(#[trigger] allocate_many(v, n).1[k].0) == v.allocated + k,
        forall|k: int, l: int|
            0 <= k < l < n ==> allocate_many(v, n).1[k] != allocate_many(v, n).1[l],
    decreases n,
{
    if n > 0 {
        lemma_fresh_allocations_distinct(v, (n - 1) as nat);
        let (v1, es) = allocate_many(v, (n - 1) as nat);
        lemma_entity_of_fits(v1.allocated as u32, 0);
        let all = allocate_many(v, n).1;
        assert forall|k: int| 0 <= k < n implies index_of(#[trigger] all[k].0) == v.allocated
            + k by {
            if k < n - 1 {
                assert(all[k] == es[k]);
            }
        }
        assert forall|k: int, l: int| 0 <= k < l < n implies all[k] != all[l] by {
            assert(index_of(all[k].0) == v.allocated + k);
            assert(index_of(all[l].0) == v.allocated + l);
        }
    }
}

/// The shape of the state after `n` allocations: generations unchanged,
/// free indices consumed from the front, and the indices handed out
/// distinct, below the new allocation count and no longer waiting.
proof fn lemma_allocate_many_shape(v: EntitiesView, n: nat)
    requires
        v.free.no_duplicates(),
        forall|k: int| 0 <= k < v.free.len() ==> (#[trigger] v.free[k] as int) < v.generations.len(),
        v.generations.len() <= v.allocated,
        v.allocated + n <= index_limit(),
    ensures
        ({
            let (w, es) = allocate_many(v, n);
            &&& w.generations == v.generations
            &&& v.allocated <= w.allocated <= v.allocated + n
            &&& w.free.len() <= v.free.len()
            &&& w.free == v.free.skip(v.free.len() - w.free.len())
            &&& es.len() == n
            &&& forall|k: int|
                0 <= k < n ==> (index_of(#[trigger] es[k].0) as int) < w.allocated
                    && !w.free.contains(index_of(es[k].0))
            &&& forall|k: int, l: int|
                0 <= k < l < n ==> index_of(es[k].0) != index_of(es[l].0)
        }),
    decreases n,
{
    if n > 0 {
        lemma_allocate_many_shape(v, (n - 1) as nat);
        let (w1, es1) = allocate_many(v, (n - 1) as nat);
        let (w2, e) = w1.allocate();
        let es = es1.push(e);
        assert(allocate_many(v, n) == (w2, es));
        let d = v.free.len() - w1.free.len();
        assert forall|k: int| 0 <= k < w1.free.len() implies (#[trigger] w1.free[k] as int)
            < v.generations.len() by {
            assert(w1.free[k] == v.free[d + k]);
        }
        assert(w1.free.no_duplicates()) by {
            assert forall|a: int, b: int| 0 <= a < w1.free.len() && 0 <= b < w1.free.len() && a
                != b implies w1.free[a] != w1.free[b] by {
                assert(w1.free[a] == v.free[d + a]);
                assert(w1.free[b] == v.free[d + b]);
            }
        }
        if w1.free.len() > MINIMUM_FREE_INDICES {
            let i = w1.free[0];
            lemma_entity_of_fits(i, v.generations[i as int]);
            assert(w2.free =~= v.free.skip(v.free.len() - w2.free.len()));
            assert forall|k: int| 0 <= k < n implies (index_of(#[trigger] es[k].0) as int)
                < w2.allocated && !w2.free.contains(index_of(es[k].0)) by {
                if k < n - 1 {
                    assert(es[k] == es1[k]);
                    if w2.free.contains(index_of(es[k].0)) {
                        let j = choose|j: int| 0 <= j < w2.free.len() && w2.free[j] == index_of(es[k].0);
                        assert(w1.free[j + 1] == w2.free[j]);
                    }
                } else {
                    if w2.free.contains(i) {
                        let j = choose|j: int| 0 <= j < w2.free.len() && w2.free[j] == i;
                        assert(w1.free[j + 1] == w2.free[j]);
                    }
                }
            }
            assert forall|k: int, l: int| 0 <= k < l < n implies index_of(es[k].0) != index_of(
                es[l].0,
            ) by {
                assert(es[k] == es1[k]);
                if l == n - 1 {
                    assert(w1.free.contains(i));
                } else {
                    assert(es[l] == es1[l]);
                }
            }
        } else {
            lemma_entity_of_fits(w1.allocated as u32, 0);
            assert forall|k: int| 0 <= k < n implies (index_of(#[trigger] es[k].0) as int)
                < w2.allocated && !w2.free.contains(index_of(es[k].0)) by {
                if k < n - 1 {
                    assert(es[k] == es1[k]);
                } else {
                    if w2.free.contains(index_of(es[k].0)) {
                        let j = choose|j: int| 0 <= j < w2.free.len() && w2.free[j] == index_of(es[k].0);
                        assert((w1.free[j] as int) < v.generations.len());
                    }
                }
            }
            assert forall|k: int, l: int| 0 <= k < l < n implies index_of(es[k].0) != index_of(
                es[l].0,
            ) by {
                assert(es[k] == es1[k]);
                if l < n - 1 {
                    assert(es[l] == es1[l]);
                }
            }
        }
    }
}

/// As long as no index waits twice for reuse, successive allocations never
/// hand out the same entity twice: fresh indices are new, and each reused
/// index leaves the queue as it is handed out.
pub proof fn lemma_allocations_distinct(em: Entities, n: nat)
    requires
        em.wf(),
        em@.free.no_duplicates(),
        em@.allocated + n <= index_limit(),
    ensures
        forall|k: int, l: int|
            0 <= k < l < n ==> allocate_many(em@, n).1[k] != allocate_many(em@, n).1[l],
{
    lemma_allocate_many_shape(em@, n);
    let es = allocate_many(em@, n).1;
    assert forall|k: int, l: int| 0 <= k < l < n implies es[k] != es[l] by {
        assert(index_of(es[k].0) != index_of(es[l].0));
    }
}

/// No index waits twice for reuse as long as each merge deletes distinct
/// indices that are not already waiting, and allocation keeps it so.
pub proof fn lemma_free_stays_distinct(v: EntitiesView, deleted: Seq<Entity>)
    requires
        v.free.no_duplicates(),
        forall|k: int, l: int|
            0 <= k < l < deleted.len() ==> index_of(deleted[k].0) != index_of(deleted[l].0),
        forall|k: int| 0 <= k < deleted.len() ==> !v.free.contains(index_of(#[trigger] deleted[k].0)),
    ensures
        v.merge(deleted).free.no_duplicates(),
        v.allocate().0.free.no_duplicates(),
{
    let added = deleted.map_values(|e: Entity| index_of(e.0));
    let f = v.merge(deleted).free;
    assert(f == v.free + added);
    assert forall|a: int, b: int| 0 <= a < f.len() && 0 <= b < f.len() && a != b implies f[a]
        != f[b] by {
        let n = v.free.len() as int;
        if a >= n && b >= n {
            assert(f[a] == index_of(deleted[a - n].0));
            assert(f[b] == index_of(deleted[b - n].0));
        } else if a >= n {
            assert(f[a] == index_of(deleted[a - n].0));
            assert(v.free.contains(f[b]));
        } else if b >= n {
            assert(f[b] == index_of(deleted[b - n].0));
            assert(v.free.contains(f[a]));
        }
    }
    let g = v.allocate().0.free;
    if v.free.len() > MINIMUM_FREE_INDICES {
        assert forall|a: int, b: int| 0 <= a < g.len() && 0 <= b < g.len() && a != b implies g[a]
            != g[b] by {
            assert(g[a] == v.free[a + 1]);
            assert(g[b] == v.free[b + 1]);
        }
    }
}

/// An entity a transaction creates is alive to that transaction, is not
/// observed by a transaction begun after the creation until the changes are
/// merged, and is alive to every transaction once merged, unless the merge
/// deletes its index. This holds whether the index is fresh or reused, as
/// long as the index the creation takes was not already created since the
/// last merge.
pub proof fn lemma_creation_isolated(v: EntitiesView, earlier: nat, deleted: Seq<Entity>)
    requires
        v.consistent(),
        earlier <= v.pending.len(),
        v.allocated < index_limit(),
        !v.pending.contains(index_of((v.allocate().1).0)),
    ensures
        ({
            let (v1, e) = v.create();
            &&& v1.is_alive_from(earlier, e)
            &&& !v1.is_alive_from(v1.pending.len(), e)
            &&& v1.can_merge(deleted) && deletions_of(deleted, index_of(e.0) as int) == 0
                ==> forall|b: nat| #[trigger] v1.merge(deleted).is_alive_from(b, e)
                    && v1.merge(deleted).by_index(index_of(e.0)) == e
        }),
{
    let (v1, e) = v.create();
    let i = index_of(e.0);
    if v.free.len() > MINIMUM_FREE_INDICES {
        lemma_entity_of_fits(v.free[0], v.generations[v.free[0] as int]);
    } else {
        lemma_entity_of_fits(v.allocated as u32, 0);
    }
    assert(v1.pending[v.pending.len() as int] == i);
    assert(v1.created_before(v1.pending.len(), i));
    if v1.created_before(earlier, i) {
        let k = choose|k: int| 0 <= k < earlier && k < v1.pending.len() && #[trigger] v1.pending[k] == i;
        assert(v.pending[k] == i);
    }
}

/// Every entity handed out by `n` successive allocations is still alive and
/// still the current handle of its index after all of them.
proof fn lemma_allocate_many_alive(v: EntitiesView, n: nat)
    requires
        v.free.no_duplicates(),
        forall|k: int| 0 <= k < v.free.len() ==> (#[trigger] v.free[k] as int) < v.generations.len(),
        v.generations.len() <= v.allocated,
        v.allocated + n <= index_limit(),
    ensures
        ({
            let (w, es) = allocate_many(v, n);
            forall|k: int|
                0 <= k < n ==> w.is_alive(#[trigger] es[k]) && w.by_index(index_of(es[k].0))
                    == es[k]
        }),
    decreases n,
{
    if n > 0 {
        lemma_allocate_many_alive(v, (n - 1) as nat);
        lemma_allocate_many_shape(v, (n - 1) as nat);
        lemma_allocate_many_shape(v, n);
        let (w1, es1) = allocate_many(v, (n - 1) as nat);
        let (w2, e) = w1.allocate();
        let es = es1.push(e);
        assert(allocate_many(v, n) == (w2, es));
        if w1.free.len() > MINIMUM_FREE_INDICES {
            let d = v.free.len() - w1.free.len();
            assert(w1.free[0] == v.free[d]);
            lemma_entity_of_fits(w1.free[0], v.generations[w1.free[0] as int]);
        } else {
            lemma_entity_of_fits(w1.allocated as u32, 0);
        }
        assert forall|k: int| 0 <= k < n implies w2.is_alive(#[trigger] es[k]) && w2.by_index(
            index_of(es[k].0),
        ) == es[k] by {
            if k < n - 1 {
                assert(es[k] == es1[k]);
                assert(w1.is_alive(es1[k]));
            }
        }
    }
}

/// An entity handed out by a run of allocations stays alive and stays the
/// current handle of its index through the rest of the run, and through a
/// merge that does not delete its index; the allocation count never falls:
/// it grows by one for each fresh index and merges keep it.
pub proof fn lemma_allocated_stays_alive(v: EntitiesView, n: nat, k: int, deleted: Seq<Entity>)
    requires
        v.consistent(),
        v.free.no_duplicates(),
        v.allocated + n <= index_limit(),
        0 <= k < n,
    ensures
        ({
            let (w, es) = allocate_many(v, n);
            &&& w.is_alive(es[k])
            &&& w.by_index(index_of(es[k].0)) == es[k]
            &&& v.allocated <= w.allocated <= v.allocated + n
            &&& w.merge(deleted).allocated == w.allocated
            &&& w.can_merge(deleted) && deletions_of(deleted, index_of(es[k].0) as int) == 0
                ==> w.merge(deleted).is_alive(es[k]) && w.merge(deleted).by_index(
                index_of(es[k].0),
            ) == es[k]
        }),
{
    lemma_allocate_many_alive(v, n);
    lemma_allocate_many_shape(v, n);
    let (w, es) = allocate_many(v, n);
    let i = index_of(es[k].0);
    lemma_entity_unpack(es[k]);
    if w.can_merge(deleted) && deletions_of(deleted, i as int) == 0 {
        lemma_merge_keeps_others(w, deleted, i);
    }
}

/// The current handle of any handed-out index is alive.
pub proof fn lemma_by_index_is_alive(v: EntitiesView, index: Index)
    requires
        (index as int) < v.allocated,
        (index as int) < index_limit(),
    ensures
        v.is_alive(v.by_index(index)),
{
    if (index as int) < v.generations.len() {
        lemma_entity_of_fits(index, v.generations[index as int]);
    } else {
        lemma_entity_of_fits(index, 0);
    }
}

/// Merging a change set that deletes the current handle of an index leaves
/// that handle dead.
pub proof fn lemma_merge_kills_deleted(v: EntitiesView, deleted: Seq<Entity>, k: int)
    requires
        v.can_merge(deleted),
        0 <= k < deleted.len(),
        deleted[k] == v.by_index(index_of(deleted[k].0)),
    ensures
        !v.merge(deleted).is_alive(deleted[k]),
{
    let e = deleted[k];
    let i = index_of(e.0);
    let bits = e.0;
    assert(bits & 0x00ff_ffffu32 < 0x0100_0000u32) by (bit_vector);
    lemma_deletions_prefix(deleted, k, i as int);
    lemma_deletions_prefix(deleted, k + 1, i as int);
    assert(deleted.take(k + 1) =~= deleted.take(k).push(e));
    lemma_deletions_push(deleted.take(k), e, i as int);
    if (i as int) < v.generations.len() {
        lemma_entity_of_fits(i, v.generations[i as int]);
    } else {
        lemma_entity_of_fits(i, 0);
    }
}

/// Merging leaves the current handle of every index that it does not delete
/// alive.
pub proof fn lemma_merge_keeps_others(v: EntitiesView, deleted: Seq<Entity>, index: Index)
    requires
        v.can_merge(deleted),
        (index as int) < v.allocated,
        (index as int) < index_limit(),
        deletions_of(deleted, index as int) == 0,
    ensures
        v.merge(deleted).is_alive(v.by_index(index)),
        v.merge(deleted).by_index(index) == v.by_index(index),
{
    if (index as int) < v.generations.len() {
        lemma_entity_of_fits(index, v.generations[index as int]);
    } else {
        lemma_entity_of_fits(index, 0);
    }
}

/// Allocation never changes whether a handle of a committed index is alive:
/// in particular a deleted handle stays dead when its index is reused.
pub proof fn lemma_allocate_keeps_committed(v: EntitiesView, e: Entity)
    requires
        (index_of(e.0) as int) < v.generations.len(),
    ensures
        v.allocate().0.is_alive(e) == v.is_alive(e),
{
}

} // verus!

verus! {

/// The indices held by every one of `sets`.
pub open spec fn common_indices(sets: Seq<Set<u32>>) -> Set<u32> {
    Set::new(|i: u32| forall|k: int| 0 <= k < sets.len() ==> (#[trigger] sets[k]).contains(i))
}

/// The contents of each of `filters`.
pub open spec fn filter_contents(filters: Seq<&BitSet>) -> Seq<Set<u32>> {
    filters.map_values(|b: &BitSet| bitset_contents(*b))
}

/// The indices held by every one of the given bit sets, in increasing order.
pub fn join_filters(filters: &Vec<&BitSet>) -> (v: Vec<Index>)
    requires
        filters@.len() >= 1,
        forall|k: int, i: u32|
            0 <= k < filters@.len() && #[trigger] filter_contents(filters@)[k].contains(i) ==> (i
                as int) < bitset_max_index(),
    ensures
        strictly_increasing(v@),
        v@.to_set() == common_indices(filter_contents(filters@)),
{
    let ghost sets = filter_contents(filters@);
    proof {
        assert forall|k: int, i: u32|
            0 <= k < filters@.len() && #[trigger] bitset_contents(*filters@[k]).contains(i) implies (i
                as int) < bitset_max_index() by {
            assert(sets[k] == bitset_contents(*filters@[k]));
        }
    }
    let mut v = if filters.len() == 1 {
        bitset_indices(filters[0])
    } else {
        bitset_and_indices(filters[0], filters[1])
    };
    let ghost first = if filters@.len() == 1 {
        1int
    } else {
        2int
    };
    let mut k: usize = if filters.len() == 1 {
        1
    } else {
        2
    };
    proof {
        assert forall|x: u32| #[trigger] common_indices(sets.take(k as int)).contains(x) == v@.to_set().contains(x) by {
            assert(sets.take(k as int)[0] == sets[0]);
            if k == 2 {
                assert(sets.take(k as int)[1] == sets[1]);
            }
        }
        assert(v@.to_set() =~= common_indices(sets.take(k as int)));
    }
    while k < filters.len()
        invariant
            sets == filter_contents(filters@),
            1 <= k <= filters@.len(),
            strictly_increasing(v@),
            v@.to_set() == common_indices(sets.take(k as int)),
        decreases filters@.len() - k,
    {
        let mut kept: Vec<Index> = Vec::new();
        let mut j: usize = 0;
        let ghost keep = |x: u32| sets[k as int].contains(x);
        proof {
            assert(v@.take(0).to_set().filter(keep) =~= Set::<u32>::empty());
            assert(kept@.to_set() =~= Set::<u32>::empty());
        }
        while j < v.len()
            invariant
                sets == filter_contents(filters@),
                k < filters@.len(),
                keep == (|x: u32| sets[k as int].contains(x)),
                j <= v@.len(),
                strictly_increasing(v@),
                strictly_increasing(kept@),
                kept@.to_set() == v@.take(j as int).to_set().filter(keep),
            decreases v@.len() - j,
        {
            let ghost before = kept@;
            proof {
                assert(v@.take(j + 1) =~= v@.take(j as int).push(v@[j as int]));
                v@.take(j as int).lemma_push_to_set_commute(v@[j as int]);
            }
            if bitset_contains(filters[k], v[j]) {
                proof {
                    if before.len() > 0 {
                        assert(before.to_set().contains(before.last()));
                        assert(v@.take(j as int).to_set().contains(before.last()));
                        let p = choose|p: int| 0 <= p < j && v@.take(j as int)[p] == before.last();
                        assert(v@[p] == before.last());
                    }
                }
                kept.push(v[j]);
                proof {
                    before.lemma_push_to_set_commute(v@[j as int]);
                    assert(kept@.to_set() =~= v@.take(j + 1).to_set().filter(keep));
                }
            } else {
                proof {
                    assert(kept@.to_set() =~= v@.take(j + 1).to_set().filter(keep));
                }
            }
            j = j + 1;
        }
        proof {
            assert(v@.take(j as int) =~= v@);
            assert(sets.take(k + 1) =~= sets.take(k as int).push(sets[k as int]));
            assert forall|x: u32| #[trigger] kept@.to_set().contains(x) == common_indices(sets.take(k + 1)).contains(x) by {
                if common_indices(sets.take(k + 1)).contains(x) {
                    assert forall|q: int| 0 <= q < k implies (#[trigger] sets.take(k as int)[q]).contains(x) by {
                        assert(sets.take(k + 1)[q] == sets.take(k as int)[q]);
                    }
                    assert(sets.take(k + 1)[k as int] == sets[k as int]);
                }
                if kept@.to_set().contains(x) {
                    assert forall|q: int| 0 <= q < k + 1 implies (#[trigger] sets.take(k + 1)[q]).contains(x) by {
                        if q < k {
                            assert(sets.take(k + 1)[q] == sets.take(k as int)[q]);
                        }
                    }
                }
            }
            assert(kept@.to_set() =~= common_indices(sets.take(k + 1)));
        }
        v = kept;
        k = k + 1;
    }
    proof {
        assert(sets.take(k as int) =~= sets);
    }
    v
}

} // verus!

verus! {

/// An iterator which converts entity indices into the current handles of
/// those indices.
pub struct EntityIter<'a> {
    entities: &'a Entities,
    indices: Vec<Index>,
    pos: usize,
}

impl<'a> EntityIter<'a> {
    /// The state of the allocator the handles are read from.
    pub closed spec fn allocator(&self) -> EntitiesView {
        self.entities@
    }

    /// The indices still to be converted, in order.
    pub closed spec fn index_seq(&self) -> Seq<Index> {
        if self.pos <= self.indices@.len() {
            self.indices@.skip(self.pos as int)
        } else {
            Seq::empty()
        }
    }

    /// Whether the iterator reads handles from `entities` and converts the
    /// indices of `set`, in increasing order.
    pub open spec fn yields(&self, entities: EntitiesView, set: Set<u32>) -> bool {
        &&& self.allocator() == entities
        &&& strictly_increasing(self.index_seq())
        &&& self.index_seq().to_set() == set
    }

    /// Constructs a new `EntityIter` over the given indices.
    pub fn new(entities: &'a Entities, indices: Vec<Index>) -> (it: EntityIter<'a>)
        ensures
            it.allocator() == entities@,
            it.index_seq() == indices@,
    {
        let it = EntityIter { entities, indices, pos: 0 };
        assert(it.indices@.skip(0) =~= it.indices@);
        it
    }

    /// Yields the current handle of the next index, if any remain.
    pub fn next(&mut self) -> (r: Option<Entity>)
        ensures
            final(self).allocator() == old(self).allocator(),
            old(self).index_seq().len() == 0 ==> r is None && final(self).index_seq() == old(
                self,
            ).index_seq(),
            old(self).index_seq().len() > 0 ==> r == Some(
                old(self).allocator().by_index(old(self).index_seq()[0]),
            ) && final(self).index_seq() == old(self).index_seq().drop_first(),
    {
        if self.pos < self.indices.len() {
            let index = self.indices[self.pos];
            self.pos = self.pos + 1;
            assert(self.indices@.skip(self.pos as int) =~= old(self).indices@.skip(
                old(self).pos as int,
            ).drop_first());
            assert(old(self).index_seq()[0] == index);
            Some(self.entities.by_index(index))
        } else {
            None
        }
    }

    /// Bounds on the number of handles still to be yielded: the bit set
    /// iteration it stands for gives no bounds.
    pub fn size_hint(&self) -> (r: (usize, Option<usize>))
        ensures
            r.0 == 0,
            r.1 is None,
    {
        (0, None)
    }
}

/// Provides methods for efficiently iterating through entities.
pub struct EntityIterBuilder<'b> {
    entities: &'b Entities,
}

impl<'b> EntityIterBuilder<'b> {
    /// The state of the allocator the builder reads handles from.
    pub closed spec fn allocator(&self) -> EntitiesView {
        self.entities@
    }

    /// Constructs a new `EntityIterBuilder`.
    pub fn new(entities: &'b Entities) -> (b: EntityIterBuilder<'b>)
        ensures
            b.allocator() == entities@,
    {
        EntityIterBuilder { entities }
    }

    /// Calls `f` with an iterator over every entity with data stored in all
    /// the given entity resources, in index order, and with the restricted
    /// API of each resource, which may change entity data but not which
    /// entities have data.
    pub fn r0w1<W0: EntityResource, F, R>(&self, w0: &mut W0, f: F) -> (r: R) where
        F: FnOnce(EntityIter<'b>, &mut W0::Api) -> R,

        requires
            old(w0).resource_wf(),
            forall|it: EntityIter<'b>, b0: &mut W0::Api| #[trigger] f.requires((it, b0,)),
        ensures
            final(w0).filter_indices() == old(w0).filter_indices(),
            exists|it: EntityIter<'b>, b0: &mut W0::Api|
                it.yields(self.allocator(), common_indices(seq![old(w0).filter_indices()]))
                    && *b0 == old(w0).api()
                    && final(w0).api() == *final(b0)
                    && f.ensures((it, b0,), r),
    {
        let (w0_filter, w0_api) = w0.deconstruct_mut();
        let filters = vec![w0_filter];
        let iter = EntityIter::new(self.entities, join_filters(&filters));
        proof {
            assert(filter_contents(filters@) =~= seq![old(w0).filter_indices()]);
        }
        f(iter, w0_api)
    }

    /// Calls `f` with an iterator over every entity with data stored in all
    /// the given entity resources, in index order, and with the restricted
    /// API of each resource, which may change entity data but not which
    /// entities have data.
    pub fn r0w2<W0: EntityResource, W1: EntityResource, F, R>(&self, w0: &mut W0, w1: &mut W1, f: F) -> (r: R) where
        F: FnOnce(EntityIter<'b>, &mut W0::Api, &mut W1::Api) -> R,

        requires
            old(w0).resource_wf(),
            old(w1).resource_wf(),
            forall|it: EntityIter<'b>, b0: &mut W0::Api, b1: &mut W1::Api| #[trigger] f.requires((it, b0, b1,)),
        ensures
            final(w0).filter_indices() == old(w0).filter_indices(),
            final(w1).filter_indices() == old(w1).filter_indices(),
            exists|it: EntityIter<'b>, b0: &mut W0::Api, b1: &mut W1::Api|
                it.yields(self.allocator(), common_indices(seq![old(w0).filter_indices(), old(w1).filter_indices()]))
                    && *b0 == old(w0).api()
                    && final(w0).api() == *final(b0)
                    && *b1 == old(w1).api()
                    && final(w1).api() == *final(b1)
                    && f.ensures((it, b0, b1,), r),
    {
        let (w0_filter, w0_api) = w0.deconstruct_mut();
        let (w1_filter, w1_api) = w1.deconstruct_mut();
        let filters = vec![w0_filter, w1_filter];
        let iter = EntityIter::new(self.entities, join_filters(&filters));
        proof {
            assert(filter_contents(filters@) =~= seq![old(w0).filter_indices(), old(w1).filter_indices()]);
        }
        f(iter, w0_api, w1_api)
    }

    /// Calls `f` with an iterator over every entity with data stored in all
    /// the given entity resources, in index order, and with the restricted
    /// API of each resource, which may change entity data but not which
    /// entities have data.
    pub fn r0w3<W0: EntityResource, W1: EntityResource, W2: EntityResource, F, R>(&self, w0: &mut W0, w1: &mut W1, w2: &mut W2, f: F) -> (r: R) where
        F: FnOnce(EntityIter<'b>, &mut W0::Api, &mut W1::Api, &mut W2::Api) -> R,

        requires
            old(w0).resource_wf(),
            old(w1).resource_wf(),
            old(w2).resource_wf(),
            forall|it: EntityIter<'b>, b0: &mut W0::Api, b1: &mut W1::Api, b2: &mut W2::Api| #[trigger] f.requires((it, b0, b1, b2,)),
        ensures
            final(w0).filter_indices() == old(w0).filter_indices(),
            final(w1).filter_indices() == old(w1).filter_indices(),
            final(w2).filter_indices() == old(w2).filter_indices(),
            exists|it: EntityIter<'b>, b0: &mut W0::Api, b1: &mut W1::Api, b2: &mut W2::Api|
                it.yields(self.allocator(), common_indices(seq![old(w0).filter_indices(), old(w1).filter_indices(), old(w2).filter_indices()]))
                    && *b0 == old(w0).api()
                    && final(w0).api() == *final(b0)
                    && *b1 == old(w1).api()
                    && final(w1).api() == *final(b1)
                    && *b2 == old(w2).api()
                    && final(w2).api() == *final(b2)
                    && f.ensures((it, b0, b1, b2,), r),
    {
        let (w0_filter, w0_api) = w0.deconstruct_mut();
        let (w1_filter, w1_api) = w1.deconstruct_mut();
        let (w2_filter, w2_api) = w2.deconstruct_mut();
        let filters = vec![w0_filter, w1_filter, w2_filter];
        let iter = EntityIter::new(self.entities, join_filters(&filters));
        proof {
            assert(filter_contents(filters@) =~= seq![old(w0).filter_indices(), old(w1).filter_indices(), old(w2).filter_indices()]);
        }
        f(iter, w0_api, w1_api, w2_api)
    }

    /// Calls `f` with an iterator over every entity with data stored in all
    /// the given entity resources, in index order, and with the restricted
    /// API of each resource, which may change entity data but not which
    /// entities have data.
    pub fn r1w0<R0: EntityResource, F, R>(&self, r0: &R0, f: F) -> (r: R) where
        F: FnOnce(EntityIter<'b>, &R0::Api) -> R,

        requires
            r0.resource_wf(),
            forall|it: EntityIter<'b>, a0: &R0::Api| #[trigger] f.requires((it, a0,)),
        ensures
            exists|it: EntityIter<'b>, a0: &R0::Api|
                it.yields(self.allocator(), common_indices(seq![r0.filter_indices()]))
                    && *a0 == r0.api()
                    && f.ensures((it, a0,), r),
    {
        let (r0_filter, r0_api) = r0.deconstruct();
        let filters = vec![r0_filter];
        let iter = EntityIter::new(self.entities, join_filters(&filters));
        proof {
            assert(filter_contents(filters@) =~= seq![r0.filter_indices()]);
        }
        f(iter, r0_api)
    }

    /// Calls `f` with an iterator over every entity with data stored in all
    /// the given entity resources, in index order, and with the restricted
    /// API of each resource, which may change entity data but not which
    /// entities have data.
    pub fn r1w1<R0: EntityResource, W0: EntityResource, F, R>(&self, r0: &R0, w0: &mut W0, f: F) -> (r: R) where
        F: FnOnce(EntityIter<'b>, &R0::Api, &mut W0::Api) -> R,

        requires
            r0.resource_wf(),
            old(w0).resource_wf(),
            forall|it: EntityIter<'b>, a0: &R0::Api, b0: &mut W0::Api| #[trigger] f.requires((it, a0, b0,)),
        ensures
            final(w0).filter_indices() == old(w0).filter_indices(),
            exists|it: EntityIter<'b>, a0: &R0::Api, b0: &mut W0::Api|
                it.yields(self.allocator(), common_indices(seq![r0.filter_indices(), old(w0).filter_indices()]))
                    && *a0 == r0.api()
                    && *b0 == old(w0).api()
                    && final(w0).api() == *final(b0)
                    && f.ensures((it, a0, b0,), r),
    {
        let (r0_filter, r0_api) = r0.deconstruct();
        let (w0_filter, w0_api) = w0.deconstruct_mut();
        let filters = vec![r0_filter, w0_filter];
        let iter = EntityIter::new(self.entities, join_filters(&filters));
        proof {
            assert(filter_contents(filters@) =~= seq![r0.filter_indices(), old(w0).filter_indices()]);
        }
        f(iter, r0_api, w0_api)
    }

    /// Calls `f` with an iterator over every entity with data stored in all
    /// the given entity resources, in index order, and with the restricted
    /// API of each resource, which may change entity data but not which
    /// entities have data.
    pub fn r1w2<R0: EntityResource, W0: EntityResource, W1: EntityResource, F, R>(&self, r0: &R0, w0: &mut W0, w1: &mut W1, f: F) -> (r: R) where
        F: FnOnce(EntityIter<'b>, &R0::Api, &mut W0::Api, &mut W1::Api) -> R,

        requires
            r0.resource_wf(),
            old(w0).resource_wf(),
            old(w1).resource_wf(),
            forall|it: EntityIter<'b>, a0: &R0::Api, b0: &mut W0::Api, b1: &mut W1::Api| #[trigger] f.requires((it, a0, b0, b1,)),
        ensures
            final(w0).filter_indices() == old(w0).filter_indices(),
            final(w1).filter_indices() == old(w1).filter_indices(),
            exists|it: EntityIter<'b>, a0: &R0::Api, b0: &mut W0::Api, b1: &mut W1::Api|
                it.yields(self.allocator(), common_indices(seq![r0.filter_indices(), old(w0).filter_indices(), old(w1).filter_indices()]))
                    && *a0 == r0.api()
                    && *b0 == old(w0).api()
                    && final(w0).api() == *final(b0)
                    && *b1 == old(w1).api()
                    && final(w1).api() == *final(b1)
                    && f.ensures((it, a0, b0, b1,), r),
    {
        let (r0_filter, r0_api) = r0.deconstruct();
        let (w0_filter, w0_api) = w0.deconstruct_mut();
        let (w1_filter, w1_api) = w1.deconstruct_mut();
        let filters = vec![r0_filter, w0_filter, w1_filter];
        let iter = EntityIter::new(self.entities, join_filters(&filters));
        proof {
            assert(filter_contents(filters@) =~= seq![r0.filter_indices(), old(w0).filter_indices(), old(w1).filter_indices()]);
        }
        f(iter, r0_api, w0_api, w1_api)
    }

    /// Calls `f` with an iterator over every entity with data stored in all
    /// the given entity resources, in index order, and with the restricted
    /// API of each resource, which may change entity data but not which
    /// entities have data.
    pub fn r1w3<R0: EntityResource, W0: EntityResource, W1: EntityResource, W2: EntityResource, F, R>(&self, r0: &R0, w0: &mut W0, w1: &mut W1, w2: &mut W2, f: F) -> (r: R) where
        F: FnOnce(EntityIter<'b>, &R0::Api, &mut W0::Api, &mut W1::Api, &mut W2::Api) -> R,

        requires
            r0.resource_wf(),
            old(w0).resource_wf(),
            old(w1).resource_wf(),
            old(w2).resource_wf(),
            forall|it: EntityIter<'b>, a0: &R0::Api, b0: &mut W0::Api, b1: &mut W1::Api, b2: &mut W2::Api| #[trigger] f.requires((it, a0, b0, b1, b2,)),
        ensures
            final(w0).filter_indices() == old(w0).filter_indices(),
            final(w1).filter_indices() == old(w1).filter_indices(),
            final(w2).filter_indices() == old(w2).filter_indices(),
            exists|it: EntityIter<'b>, a0: &R0::Api, b0: &mut W0::Api, b1: &mut W1::Api, b2: &mut W2::Api|
                it.yields(self.allocator(), common_indices(seq![r0.filter_indices(), old(w0).filter_indices(), old(w1).filter_indices(), old(w2).filter_indices()]))
                    && *a0 == r0.api()
                    && *b0 == old(w0).api()
                    && final(w0).api() == *final(b0)
                    && *b1 == old(w1).api()
                    && final(w1).api() == *final(b1)
                    && *b2 == old(w2).api()
                    && final(w2).api() == *final(b2)
                    && f.ensures((it, a0, b0, b1, b2,), r),
    {
        let (r0_filter, r0_api) = r0.deconstruct();
        let (w0_filter, w0_api) = w0.deconstruct_mut();
        let (w1_filter, w1_api) = w1.deconstruct_mut();
        let (w2_filter, w2_api) = w2.deconstruct_mut();
        let filters = vec![r0_filter, w0_filter, w1_filter, w2_filter];
        let iter = EntityIter::new(self.entities, join_filters(&filters));
        proof {
            assert(filter_contents(filters@) =~= seq![r0.filter_indices(), old(w0).filter_indices(), old(w1).filter_indices(), old(w2).filter_indices()]);
        }
        f(iter, r0_api, w0_api, w1_api, w2_api)
    }

    /// Calls `f` with an iterator over every entity with data stored in all
    /// the given entity resources, in index order, and with the restricted
    /// API of each resource, which may change entity data but not which
    /// entities have data.
    pub fn r2w0<R0: EntityResource, R1: EntityResource, F, R>(&self, r0: &R0, r1: &R1, f: F) -> (r: R) where
        F: FnOnce(EntityIter<'b>, &R0::Api, &R1::Api) -> R,

        requires
            r0.resource_wf(),
            r1.resource_wf(),
            forall|it: EntityIter<'b>, a0: &R0::Api, a1: &R1::Api| #[trigger] f.requires((it, a0, a1,)),
        ensures
            exists|it: EntityIter<'b>, a0: &R0::Api, a1: &R1::Api|
                it.yields(self.allocator(), common_indices(seq![r0.filter_indices(), r1.filter_indices()]))
                    && *a0 == r0.api()
                    && *a1 == r1.api()
                    && f.ensures((it, a0, a1,), r),
    {
        let (r0_filter, r0_api) = r0.deconstruct();
        let (r1_filter, r1_api) = r1.deconstruct();
        let filters = vec![r0_filter, r1_filter];
        let iter = EntityIter::new(self.entities, join_filters(&filters));
        proof {
            assert(filter_contents(filters@) =~= seq![r0.filter_indices(), r1.filter_indices()]);
        }
        f(iter, r0_api, r1_api)
    }

    /// Calls `f` with an iterator over every entity with data stored in all
    /// the given entity resources, in index order, and with the restricted
    /// API of each resource, which may change entity data but not which
    /// entities have data.
    pub fn r2w1<R0: EntityResource, R1: EntityResource, W0: EntityResource, F, R>(&self, r0: &R0, r1: &R1, w0: &mut W0, f: F) -> (r: R) where
        F: FnOnce(EntityIter<'b>, &R0::Api, &R1::Api, &mut W0::Api) -> R,

        requires
            r0.resource_wf(),
            r1.resource_wf(),
            old(w0).resource_wf(),
            forall|it: EntityIter<'b>, a0: &R0::Api, a1: &R1::Api, b0: &mut W0::Api| #[trigger] f.requires((it, a0, a1, b0,)),
        ensures
            final(w0).filter_indices() == old(w0).filter_indices(),
            exists|it: EntityIter<'b>, a0: &R0::Api, a1: &R1::Api, b0: &mut W0::Api|
                it.yields(self.allocator(), common_indices(seq![r0.filter_indices(), r1.filter_indices(), old(w0).filter_indices()]))
                    && *a0 == r0.api()
                    && *a1 == r1.api()
                    && *b0 == old(w0).api()
                    && final(w0).api() == *final(b0)
                    && f.ensures((it, a0, a1, b0,), r),
    {
        let (r0_filter, r0_api) = r0.deconstruct();
        let (r1_filter, r1_api) = r1.deconstruct();
        let (w0_filter, w0_api) = w0.deconstruct_mut();
        let filters = vec![r0_filter, r1_filter, w0_filter];
        let iter = EntityIter::new(self.entities, join_filters(&filters));
        proof {
            assert(filter_contents(filters@) =~= seq![r0.filter_indices(), r1.filter_indices(), old(w0).filter_indices()]);
        }
        f(iter, r0_api, r1_api, w0_api)
    }

    /// Calls `f` with an iterator over every entity with data stored in all
    /// the given entity resources, in index order, and with the restricted
    /// API of each resource, which may change entity data but not which
    /// entities have data.
    pub fn r2w2<R0: EntityResource, R1: EntityResource, W0: EntityResource, W1: EntityResource, F, R>(&self, r0: &R0, r1: &R1, w0: &mut W0, w1: &mut W1, f: F) -> (r: R) where
        F: FnOnce(EntityIter<'b>, &R0::Api, &R1::Api, &mut W0::Api, &mut W1::Api) -> R,

        requires
            r0.resource_wf(),
            r1.resource_wf(),
            old(w0).resource_wf(),
            old(w1).resource_wf(),
            forall|it: EntityIter<'b>, a0: &R0::Api, a1: &R1::Api, b0: &mut W0::Api, b1: &mut W1::Api| #[trigger] f.requires((it, a0, a1, b0, b1,)),
        ensures
            final(w0).filter_indices() == old(w0).filter_indices(),
            final(w1).filter_indices() == old(w1).filter_indices(),
            exists|it: EntityIter<'b>, a0: &R0::Api, a1: &R1::Api, b0: &mut W0::Api, b1: &mut W1::Api|
                it.yields(self.allocator(), common_indices(seq![r0.filter_indices(), r1.filter_indices(), old(w0).filter_indices(), old(w1).filter_indices()]))
                    && *a0 == r0.api()
                    && *a1 == r1.api()
                    && *b0 == old(w0).api()
                    && final(w0).api() == *final(b0)
                    && *b1 == old(w1).api()
                    && final(w1).api() == *final(b1)
                    && f.ensures((it, a0, a1, b0, b1,), r),
    {
        let (r0_filter, r0_api) = r0.deconstruct();
        let (r1_filter, r1_api) = r1.deconstruct();
        let (w0_filter, w0_api) = w0.deconstruct_mut();
        let (w1_filter, w1_api) = w1.deconstruct_mut();
        let filters = vec![r0_filter, r1_filter, w0_filter, w1_filter];
        let iter = EntityIter::new(self.entities, join_filters(&filters));
        proof {
            assert(filter_contents(filters@) =~= seq![r0.filter_indices(), r1.filter_indices(), old(w0).filter_indices(), old(w1).filter_indices()]);
        }
        f(iter, r0_api, r1_api, w0_api, w1_api)
    }

    /// Calls `f` with an iterator over every entity with data stored in all
    /// the given entity resources, in index order, and with the restricted
    /// API of each resource, which may change entity data but not which
    /// entities have data.
    pub fn r2w3<R0: EntityResource, R1: EntityResource, W0: EntityResource, W1: EntityResource, W2: EntityResource, F, R>(&self, r0: &R0, r1: &R1, w0: &mut W0, w1: &mut W1, w2: &mut W2, f: F) -> (r: R) where
        F: FnOnce(EntityIter<'b>, &R0::Api, &R1::Api, &mut W0::Api, &mut W1::Api, &mut W2::Api) -> R,

        requires
            r0.resource_wf(),
            r1.resource_wf(),
            old(w0).resource_wf(),
            old(w1).resource_wf(),
            old(w2).resource_wf(),
            forall|it: EntityIter<'b>, a0: &R0::Api, a1: &R1::Api, b0: &mut W0::Api, b1: &mut W1::Api, b2: &mut W2::Api| #[trigger] f.requires((it, a0, a1, b0, b1, b2,)),
        ensures
            final(w0).filter_indices() == old(w0).filter_indices(),
            final(w1).filter_indices() == old(w1).filter_indices(),
            final(w2).filter_indices() == old(w2).filter_indices(),
            exists|it: EntityIter<'b>, a0: &R0::Api, a1: &R1::Api, b0: &mut W0::Api, b1: &mut W1::Api, b2: &mut W2::Api|
                it.yields(self.allocator(), common_indices(seq![r0.filter_indices(), r1.filter_indices(), old(w0).filter_indices(), old(w1).filter_indices(), old(w2).filter_indices()]))
                    && *a0 == r0.api()
                    && *a1 == r1.api()
                    && *b0 == old(w0).api()
                    && final(w0).api() == *final(b0)
                    && *b1 == old(w1).api()
                    && final(w1).api() == *final(b1)
                    && *b2 == old(w2).api()
                    && final(w2).api() == *final(b2)
                    && f.ensures((it, a0, a1, b0, b1, b2,), r),
    {
        let (r0_filter, r0_api) = r0.deconstruct();
        let (r1_filter, r1_api) = r1.deconstruct();
        let (w0_filter, w0_api) = w0.deconstruct_mut();
        let (w1_filter, w1_api) = w1.deconstruct_mut();
        let (w2_filter, w2_api) = w2.deconstruct_mut();
        let filters = vec![r0_filter, r1_filter, w0_filter, w1_filter, w2_filter];
        let iter = EntityIter::new(self.entities, join_filters(&filters));
        proof {
            assert(filter_contents(filters@) =~= seq![r0.filter_indices(), r1.filter_indices(), old(w0).filter_indices(), old(w1).filter_indices(), old(w2).filter_indices()]);
        }
        f(iter, r0_api, r1_api, w0_api, w1_api, w2_api)
    }

    /// Calls `f` with an iterator over every entity with data stored in all
    /// the given entity resources, in index order, and with the restricted
    /// API of each resource, which may change entity data but not which
    /// entities have data.
    pub fn r3w0<R0: EntityResource, R1: EntityResource, R2: EntityResource, F, R>(&self, r0: &R0, r1: &R1, r2: &R2, f: F) -> (r: R) where
        F: FnOnce(EntityIter<'b>, &R0::Api, &R1::Api, &R2::Api) -> R,

        requires
            r0.resource_wf(),
            r1.resource_wf(),
            r2.resource_wf(),
            forall|it: EntityIter<'b>, a0: &R0::Api, a1: &R1::Api, a2: &R2::Api| #[trigger] f.requires((it, a0, a1, a2,)),
        ensures
            exists|it: EntityIter<'b>, a0: &R0::Api, a1: &R1::Api, a2: &R2::Api|
                it.yields(self.allocator(), common_indices(seq![r0.filter_indices(), r1.filter_indices(), r2.filter_indices()]))
                    && *a0 == r0.api()
                    && *a1 == r1.api()
                    && *a2 == r2.api()
                    && f.ensures((it, a0, a1, a2,), r),
    {
        let (r0_filter, r0_api) = r0.deconstruct();
        let (r1_filter, r1_api) = r1.deconstruct();
        let (r2_filter, r2_api) = r2.deconstruct();
        let filters = vec![r0_filter, r1_filter, r2_filter];
        let iter = EntityIter::new(self.entities, join_filters(&filters));
        proof {
            assert(filter_contents(filters@) =~= seq![r0.filter_indices(), r1.filter_indices(), r2.filter_indices()]);
        }
        f(iter, r0_api, r1_api, r2_api)
    }

    /// Calls `f` with an iterator over every entity with data stored in all
    /// the given entity resources, in index order, and with the restricted
    /// API of each resource, which may change entity data but not which
    /// entities have data.
    pub fn r3w1<R0: EntityResource, R1: EntityResource, R2: EntityResource, W0: EntityResource, F, R>(&self, r0: &R0, r1: &R1, r2: &R2, w0: &mut W0, f: F) -> (r: R) where
        F: FnOnce(EntityIter<'b>, &R0::Api, &R1::Api, &R2::Api, &mut W0::Api) -> R,

        requires
            r0.resource_wf(),
            r1.resource_wf(),
            r2.resource_wf(),
            old(w0).resource_wf(),
            forall|it: EntityIter<'b>, a0: &R0::Api, a1: &R1::Api, a2: &R2::Api, b0: &mut W0::Api| #[trigger] f.requires((it, a0, a1, a2, b0,)),
        ensures
            final(w0).filter_indices() == old(w0).filter_indices(),
            exists|it: EntityIter<'b>, a0: &R0::Api, a1: &R1::Api, a2: &R2::Api, b0: &mut W0::Api|
                it.yields(self.allocator(), common_indices(seq![r0.filter_indices(), r1.filter_indices(), r2.filter_indices(), old(w0).filter_indices()]))
                    && *a0 == r0.api()
                    && *a1 == r1.api()
                    && *a2 == r2.api()
                    && *b0 == old(w0).api()
                    && final(w0).api() == *final(b0)
                    && f.ensures((it, a0, a1, a2, b0,), r),
    {
        let (r0_filter, r0_api) = r0.deconstruct();
        let (r1_filter, r1_api) = r1.deconstruct();
        let (r2_filter, r2_api) = r2.deconstruct();
        let (w0_filter, w0_api) = w0.deconstruct_mut();
        let filters = vec![r0_filter, r1_filter, r2_filter, w0_filter];
        let iter = EntityIter::new(self.entities, join_filters(&filters));
        proof {
            assert(filter_contents(filters@) =~= seq![r0.filter_indices(), r1.filter_indices(), r2.filter_indices(), old(w0).filter_indices()]);
        }
        f(iter, r0_api, r1_api, r2_api, w0_api)
    }

    /// Calls `f` with an iterator over every entity with data stored in all
    /// the given entity resources, in index order, and with the restricted
    /// API of each resource, which may change entity data but not which
    /// entities have data.
    pub fn r3w2<R0: EntityResource, R1: EntityResource, R2: EntityResource, W0: EntityResource, W1: EntityResource, F, R>(&self, r0: &R0, r1: &R1, r2: &R2, w0: &mut W0, w1: &mut W1, f: F) -> (r: R) where
        F: FnOnce(EntityIter<'b>, &R0::Api, &R1::Api, &R2::Api, &mut W0::Api, &mut W1::Api) -> R,

        requires
            r0.resource_wf(),
            r1.resource_wf(),
            r2.resource_wf(),
            old(w0).resource_wf(),
            old(w1).resource_wf(),
            forall|it: EntityIter<'b>, a0: &R0::Api, a1: &R1::Api, a2: &R2::Api, b0: &mut W0::Api, b1: &mut W1::Api| #[trigger] f.requires((it, a0, a1, a2, b0, b1,)),
        ensures
            final(w0).filter_indices() == old(w0).filter_indices(),
            final(w1).filter_indices() == old(w1).filter_indices(),
            exists|it: EntityIter<'b>, a0: &R0::Api, a1: &R1::Api, a2: &R2::Api, b0: &mut W0::Api, b1: &mut W1::Api|
                it.yields(self.allocator(), common_indices(seq![r0.filter_indices(), r1.filter_indices(), r2.filter_indices(), old(w0).filter_indices(), old(w1).filter_indices()]))
                    && *a0 == r0.api()
                    && *a1 == r1.api()
                    && *a2 == r2.api()
                    && *b0 == old(w0).api()
                    && final(w0).api() == *final(b0)
                    && *b1 == old(w1).api()
                    && final(w1).api() == *final(b1)
                    && f.ensures((it, a0, a1, a2, b0, b1,), r),
    {
        let (r0_filter, r0_api) = r0.deconstruct();
        let (r1_filter, r1_api) = r1.deconstruct();
        let (r2_filter, r2_api) = r2.deconstruct();
        let (w0_filter, w0_api) = w0.deconstruct_mut();
        let (w1_filter, w1_api) = w1.deconstruct_mut();
        let filters = vec![r0_filter, r1_filter, r2_filter, w0_filter, w1_filter];
        let iter = EntityIter::new(self.entities, join_filters(&filters));
        proof {
            assert(filter_contents(filters@) =~= seq![r0.filter_indices(), r1.filter_indices(), r2.filter_indices(), old(w0).filter_indices(), old(w1).filter_indices()]);
        }
        f(iter, r0_api, r1_api, r2_api, w0_api, w1_api)
    }

    /// Calls `f` with an iterator over every entity with data stored in all
    /// the given entity resources, in index order, and with the restricted
    /// API of each resource, which may change entity data but not which
    /// entities have data.
    pub fn r3w3<R0: EntityResource, R1: EntityResource, R2: EntityResource, W0: EntityResource, W1: EntityResource, W2: EntityResource, F, R>(&self, r0: &R0, r1: &R1, r2: &R2, w0: &mut W0, w1: &mut W1, w2: &mut W2, f: F) -> (r: R) where
        F: FnOnce(EntityIter<'b>, &R0::Api, &R1::Api, &R2::Api, &mut W0::Api, &mut W1::Api, &mut W2::Api) -> R,

        requires
            r0.resource_wf(),
            r1.resource_wf(),
            r2.resource_wf(),
            old(w0).resource_wf(),
            old(w1).resource_wf(),
            old(w2).resource_wf(),
            forall|it: EntityIter<'b>, a0: &R0::Api, a1: &R1::Api, a2: &R2::Api, b0: &mut W0::Api, b1: &mut W1::Api, b2: &mut W2::Api| #[trigger] f.requires((it, a0, a1, a2, b0, b1, b2,)),
        ensures
            final(w0).filter_indices() == old(w0).filter_indices(),
            final(w1).filter_indices() == old(w1).filter_indices(),
            final(w2).filter_indices() == old(w2).filter_indices(),
            exists|it: EntityIter<'b>, a0: &R0::Api, a1: &R1::Api, a2: &R2::Api, b0: &mut W0::Api, b1: &mut W1::Api, b2: &mut W2::Api|
                it.yields(self.allocator(), common_indices(seq![r0.filter_indices(), r1.filter_indices(), r2.filter_indices(), old(w0).filter_indices(), old(w1).filter_indices(), old(w2).filter_indices()]))
                    && *a0 == r0.api()
                    && *a1 == r1.api()
                    && *a2 == r2.api()
                    && *b0 == old(w0).api()
                    && final(w0).api() == *final(b0)
                    && *b1 == old(w1).api()
                    && final(w1).api() == *final(b1)
                    && *b2 == old(w2).api()
                    && final(w2).api() == *final(b2)
                    && f.ensures((it, a0, a1, a2, b0, b1, b2,), r),
    {
        let (r0_filter, r0_api) = r0.deconstruct();
        let (r1_filter, r1_api) = r1.deconstruct();
        let (r2_filter, r2_api) = r2.deconstruct();
        let (w0_filter, w0_api) = w0.deconstruct_mut();
        let (w1_filter, w1_api) = w1.deconstruct_mut();
        let (w2_filter, w2_api) = w2.deconstruct_mut();
        let filters = vec![r0_filter, r1_filter, r2_filter, w0_filter, w1_filter, w2_filter];
        let iter = EntityIter::new(self.entities, join_filters(&filters));
        proof {
            assert(filter_contents(filters@) =~= seq![r0.filter_indices(), r1.filter_indices(), r2.filter_indices(), old(w0).filter_indices(), old(w1).filter_indices(), old(w2).filter_indices()]);
        }
        f(iter, r0_api, r1_api, r2_api, w0_api, w1_api, w2_api)
    }

    /// Calls `f` with an iterator over every entity with data stored in all
    /// the given entity resources, in index order, and with the restricted
    /// API of each resource, which may change entity data but not which
    /// entities have data.
    pub fn r4w0<R0: EntityResource, R1: EntityResource, R2: EntityResource, R3: EntityResource, F, R>(&self, r0: &R0, r1: &R1, r2: &R2, r3: &R3, f: F) -> (r: R) where
        F: FnOnce(EntityIter<'b>, &R0::Api, &R1::Api, &R2::Api, &R3::Api) -> R,

        requires
            r0.resource_wf(),
            r1.resource_wf(),
            r2.resource_wf(),
            r3.resource_wf(),
            forall|it: EntityIter<'b>, a0: &R0::Api, a1: &R1::Api, a2: &R2::Api, a3: &R3::Api| #[trigger] f.requires((it, a0, a1, a2, a3,)),
        ensures
            exists|it: EntityIter<'b>, a0: &R0::Api, a1: &R1::Api, a2: &R2::Api, a3: &R3::Api|
                it.yields(self.allocator(), common_indices(seq![r0.filter_indices(), r1.filter_indices(), r2.filter_indices(), r3.filter_indices()]))
                    && *a0 == r0.api()
                    && *a1 == r1.api()
                    && *a2 == r2.api()
                    && *a3 == r3.api()
                    && f.ensures((it, a0, a1, a2, a3,), r),
    {
        let (r0_filter, r0_api) = r0.deconstruct();
        let (r1_filter, r1_api) = r1.deconstruct();
        let (r2_filter, r2_api) = r2.deconstruct();
        let (r3_filter, r3_api) = r3.deconstruct();
        let filters = vec![r0_filter, r1_filter, r2_filter, r3_filter];
        let iter = EntityIter::new(self.entities, join_filters(&filters));
        proof {
            assert(filter_contents(filters@) =~= seq![r0.filter_indices(), r1.filter_indices(), r2.filter_indices(), r3.filter_indices()]);
        }
        f(iter, r0_api, r1_api, r2_api, r3_api)
    }

    /// Calls `f` with an iterator over every entity with data stored in all
    /// the given entity resources, in index order, and with the restricted
    /// API of each resource, which may change entity data but not which
    /// entities have data.
    pub fn r4w1<R0: EntityResource, R1: EntityResource, R2: EntityResource, R3: EntityResource, W0: EntityResource, F, R>(&self, r0: &R0, r1: &R1, r2: &R2, r3: &R3, w0: &mut W0, f: F) -> (r: R) where
        F: FnOnce(EntityIter<'b>, &R0::Api, &R1::Api, &R2::Api, &R3::Api, &mut W0::Api) -> R,

        requires
            r0.resource_wf(),
            r1.resource_wf(),
            r2.resource_wf(),
            r3.resource_wf(),
            old(w0).resource_wf(),
            forall|it: EntityIter<'b>, a0: &R0::Api, a1: &R1::Api, a2: &R2::Api, a3: &R3::Api, b0: &mut W0::Api| #[trigger] f.requires((it, a0, a1, a2, a3, b0,)),
        ensures
            final(w0).filter_indices() == old(w0).filter_indices(),
            exists|it: EntityIter<'b>, a0: &R0::Api, a1: &R1::Api, a2: &R2::Api, a3: &R3::Api, b0: &mut W0::Api|
                it.yields(self.allocator(), common_indices(seq![r0.filter_indices(), r1.filter_indices(), r2.filter_indices(), r3.filter_indices(), old(w0).filter_indices()]))
                    && *a0 == r0.api()
                    && *a1 == r1.api()
                    && *a2 == r2.api()
                    && *a3 == r3.api()
                    && *b0 == old(w0).api()
                    && final(w0).api() == *final(b0)
                    && f.ensures((it, a0, a1, a2, a3, b0,), r),
    {
        let (r0_filter, r0_api) = r0.deconstruct();
        let (r1_filter, r1_api) = r1.deconstruct();
        let (r2_filter, r2_api) = r2.deconstruct();
        let (r3_filter, r3_api) = r3.deconstruct();
        let (w0_filter, w0_api) = w0.deconstruct_mut();
        let filters = vec![r0_filter, r1_filter, r2_filter, r3_filter, w0_filter];
        let iter = EntityIter::new(self.entities, join_filters(&filters));
        proof {
            assert(filter_contents(filters@) =~= seq![r0.filter_indices(), r1.filter_indices(), r2.filter_indices(), r3.filter_indices(), old(w0).filter_indices()]);
        }
        f(iter, r0_api, r1_api, r2_api, r3_api, w0_api)
    }

    /// Calls `f` with an iterator over every entity with data stored in all
    /// the given entity resources, in index order, and with the restricted
    /// API of each resource, which may change entity data but not which
    /// entities have data.
    pub fn r4w2<R0: EntityResource, R1: EntityResource, R2: EntityResource, R3: EntityResource, W0: EntityResource, W1: EntityResource, F, R>(&self, r0: &R0, r1: &R1, r2: &R2, r3: &R3, w0: &mut W0, w1: &mut W1, f: F) -> (r: R) where
        F: FnOnce(EntityIter<'b>, &R0::Api, &R1::Api, &R2::Api, &R3::Api, &mut W0::Api, &mut W1::Api) -> R,

        requires
            r0.resource_wf(),
            r1.resource_wf(),
            r2.resource_wf(),
            r3.resource_wf(),
            old(w0).resource_wf(),
            old(w1).resource_wf(),
            forall|it: EntityIter<'b>, a0: &R0::Api, a1: &R1::Api, a2: &R2::Api, a3: &R3::Api, b0: &mut W0::Api, b1: &mut W1::Api| #[trigger] f.requires((it, a0, a1, a2, a3, b0, b1,)),
        ensures
            final(w0).filter_indices() == old(w0).filter_indices(),
            final(w1).filter_indices() == old(w1).filter_indices(),
            exists|it: EntityIter<'b>, a0: &R0::Api, a1: &R1::Api, a2: &R2::Api, a3: &R3::Api, b0: &mut W0::Api, b1: &mut W1::Api|
                it.yields(self.allocator(), common_indices(seq![r0.filter_indices(), r1.filter_indices(), r2.filter_indices(), r3.filter_indices(), old(w0).filter_indices(), old(w1).filter_indices()]))
                    && *a0 == r0.api()
                    && *a1 == r1.api()
                    && *a2 == r2.api()
                    && *a3 == r3.api()
                    && *b0 == old(w0).api()
                    && final(w0).api() == *final(b0)
                    && *b1 == old(w1).api()
                    && final(w1).api() == *final(b1)
                    && f.ensures((it, a0, a1, a2, a3, b0, b1,), r),
    {
        let (r0_filter, r0_api) = r0.deconstruct();
        let (r1_filter, r1_api) = r1.deconstruct();
        let (r2_filter, r2_api) = r2.deconstruct();
        let (r3_filter, r3_api) = r3.deconstruct();
        let (w0_filter, w0_api) = w0.deconstruct_mut();
        let (w1_filter, w1_api) = w1.deconstruct_mut();
        let filters = vec![r0_filter, r1_filter, r2_filter, r3_filter, w0_filter, w1_filter];
        let iter = EntityIter::new(self.entities, join_filters(&filters));
        proof {
            assert(filter_contents(filters@) =~= seq![r0.filter_indices(), r1.filter_indices(), r2.filter_indices(), r3.filter_indices(), old(w0).filter_indices(), old(w1).filter_indices()]);
        }
        f(iter, r0_api, r1_api, r2_api, r3_api, w0_api, w1_api)
    }

    /// Calls `f` with an iterator over every entity with data stored in all
    /// the given entity resources, in index order, and with the restricted
    /// API of each resource, which may change entity data but not which
    /// entities have data.
    pub fn r4w3<R0: EntityResource, R1: EntityResource, R2: EntityResource, R3: EntityResource, W0: EntityResource, W1: EntityResource, W2: EntityResource, F, R>(&self, r0: &R0, r1: &R1, r2: &R2, r3: &R3, w0: &mut W0, w1: &mut W1, w2: &mut W2, f: F) -> (r: R) where
        F: FnOnce(EntityIter<'b>, &R0::Api, &R1::Api, &R2::Api, &R3::Api, &mut W0::Api, &mut W1::Api, &mut W2::Api) -> R,

        requires
            r0.resource_wf(),
            r1.resource_wf(),
            r2.resource_wf(),
            r3.resource_wf(),
            old(w0).resource_wf(),
            old(w1).resource_wf(),
            old(w2).resource_wf(),
            forall|it: EntityIter<'b>, a0: &R0::Api, a1: &R1::Api, a2: &R2::Api, a3: &R3::Api, b0: &mut W0::Api, b1: &mut W1::Api, b2: &mut W2::Api| #[trigger] f.requires((it, a0, a1, a2, a3, b0, b1, b2,)),
        ensures
            final(w0).filter_indices() == old(w0).filter_indices(),
            final(w1).filter_indices() == old(w1).filter_indices(),
            final(w2).filter_indices() == old(w2).filter_indices(),
            exists|it: EntityIter<'b>, a0: &R0::Api, a1: &R1::Api, a2: &R2::Api, a3: &R3::Api, b0: &mut W0::Api, b1: &mut W1::Api, b2: &mut W2::Api|
                it.yields(self.allocator(), common_indices(seq![r0.filter_indices(), r1.filter_indices(), r2.filter_indices(), r3.filter_indices(), old(w0).filter_indices(), old(w1).filter_indices(), old(w2).filter_indices()]))
                    && *a0 == r0.api()
                    && *a1 == r1.api()
                    && *a2 == r2.api()
                    && *a3 == r3.api()
                    && *b0 == old(w0).api()
                    && final(w0).api() == *final(b0)
                    && *b1 == old(w1).api()
                    && final(w1).api() == *final(b1)
                    && *b2 == old(w2).api()
                    && final(w2).api() == *final(b2)
                    && f.ensures((it, a0, a1, a2, a3, b0, b1, b2,), r),
    {
        let (r0_filter, r0_api) = r0.deconstruct();
        let (r1_filter, r1_api) = r1.deconstruct();
        let (r2_filter, r2_api) = r2.deconstruct();
        let (r3_filter, r3_api) = r3.deconstruct();
        let (w0_filter, w0_api) = w0.deconstruct_mut();
        let (w1_filter, w1_api) = w1.deconstruct_mut();
        let (w2_filter, w2_api) = w2.deconstruct_mut();
        let filters = vec![r0_filter, r1_filter, r2_filter, r3_filter, w0_filter, w1_filter, w2_filter];
        let iter = EntityIter::new(self.entities, join_filters(&filters));
        proof {
            assert(filter_contents(filters@) =~= seq![r0.filter_indices(), r1.filter_indices(), r2.filter_indices(), r3.filter_indices(), old(w0).filter_indices(), old(w1).filter_indices(), old(w2).filter_indices()]);
        }
        f(iter, r0_api, r1_api, r2_api, r3_api, w0_api, w1_api, w2_api)
    }
}

} // verus!

verus! {

/// The entities deleted by a batch are those of its change sets, one change
/// set after another: the concatenation of their `deleted` lists.
pub proof fn lemma_deleted_entities_concat(changes: Seq<EntityChangeSet>)
    ensures
        deleted_entities(changes) == changes.map_values(|c: EntityChangeSet| c.deleted@).flatten(),
    decreases changes.len(),
{
    broadcast use Seq::lemma_flatten_push;

    if changes.len() > 0 {
        lemma_deleted_entities_concat(changes.drop_last());
        assert(changes.map_values(|c: EntityChangeSet| c.deleted@) =~= changes.drop_last().map_values(
            |c: EntityChangeSet| c.deleted@,
        ).push(changes.last().deleted@));
    } else {
        assert(changes.map_values(|c: EntityChangeSet| c.deleted@) =~= Seq::<Seq<Entity>>::empty());
    }
}

/// Every entity of every change set is among the entities a batch deletes.
pub proof fn lemma_deleted_member(changes: Seq<EntityChangeSet>, c: int, j: int)
    requires
        0 <= c < changes.len(),
        0 <= j < changes[c].deleted@.len(),
    ensures
        deleted_entities(changes).contains(changes[c].deleted@[j]),
    decreases changes.len(),
{
    let rest = deleted_entities(changes.drop_last());
    let last = changes.last().deleted@;
    assert(deleted_entities(changes) == rest + last);
    if c == changes.len() - 1 {
        assert((rest + last)[rest.len() + j] == last[j]);
    } else {
        assert(changes.drop_last()[c] == changes[c]);
        lemma_deleted_member(changes.drop_last(), c, j);
        let k = choose|k: int| 0 <= k < rest.len() && rest[k] == changes[c].deleted@[j];
        assert((rest + last)[k] == rest[k]);
    }
}

/// Merging a batch kills the current handle that any of its change sets
/// deletes, whichever change set it is in.
pub proof fn lemma_merge_deletes_every_change_set(
    v: EntitiesView,
    changes: Seq<EntityChangeSet>,
    c: int,
    j: int,
)
    requires
        v.can_merge(deleted_entities(changes)),
        0 <= c < changes.len(),
        0 <= j < changes[c].deleted@.len(),
        changes[c].deleted@[j] == v.by_index(index_of(changes[c].deleted@[j].0)),
    ensures
        !v.merge(deleted_entities(changes)).is_alive(changes[c].deleted@[j]),
{
    let all = deleted_entities(changes);
    lemma_deleted_member(changes, c, j);
    let k = choose|k: int| 0 <= k < all.len() && all[k] == changes[c].deleted@[j];
    lemma_merge_kills_deleted(v, all, k);
}

/// A merge keeps the indices already waiting for reuse at the front of the
/// queue, in their order, and queues the deleted indices behind them in the
/// order of deletion; a later allocation that reuses an index takes the
/// oldest one that was waiting before the merge.
pub proof fn lemma_merge_keeps_waiting_indices(v: EntitiesView, deleted: Seq<Entity>)
    ensures
        v.merge(deleted).free.len() == v.free.len() + deleted.len(),
        v.merge(deleted).free.take(v.free.len() as int) == v.free,
        forall|k: int|
            0 <= k < deleted.len() ==> v.merge(deleted).free[v.free.len() + k] == index_of(
                #[trigger] deleted[k].0,
            ),
        v.free.len() > MINIMUM_FREE_INDICES ==> index_of((v.merge(deleted).allocate().1).0)
            == index_of(entity_of(v.free[0], v.merge(deleted).generations[v.free[0] as int]).0)
            && v.merge(deleted).allocate().0.allocated == v.allocated,
{
    let f = v.merge(deleted).free;
    assert(f.take(v.free.len() as int) =~= v.free);
    if v.free.len() > MINIMUM_FREE_INDICES {
        assert(f[0] == v.free[0]);
    }
}

/// Whether a merge is accepted does not depend on which entities were
/// created by transactions since the last merge.
pub proof fn lemma_can_merge_ignores_creations(v: EntitiesView, pending: Seq<Index>, deleted: Seq<Entity>)
    ensures
        (EntitiesView { pending, ..v }).can_merge(deleted) == v.can_merge(deleted),
{
    assert((EntitiesView { pending, ..v }).committed_generations() =~= v.committed_generations());
}

/// An entity a transaction creates on a fresh index may be destroyed in the
/// same batch: a merge deleting it is accepted, and kills it.
pub proof fn lemma_create_then_destroy_merges(v: EntitiesView)
    requires
        v.consistent(),
        v.free.len() <= MINIMUM_FREE_INDICES,
        v.allocated < index_limit(),
    ensures
        ({
            let (v1, e) = v.create();
            &&& v1.can_merge(seq![e])
            &&& !v1.merge(seq![e]).is_alive(e)
        }),
{
    let (v1, e) = v.create();
    let d = seq![e];
    let i = v.allocated;
    lemma_entity_of_fits(i as u32, 0);
    assert(deletions_of(d.drop_last(), i as int) == 0);
    assert forall|j: int| 0 <= j < v1.allocated implies v1.committed_generations()[j] + deletions_of(d, j)
        <= 255 by {
        assert(d.drop_last() =~= Seq::<Entity>::empty());
        assert(deletions_of(d.drop_last(), j) == 0);
        if j < v1.generations.len() {
            assert(v1.committed_generations()[j] == v1.generations[j]);
            assert(j != i);
        }
    }
    assert(d[0] == v1.by_index(index_of(d[0].0)));
    lemma_merge_kills_deleted(v1, d, 0);
}

} // verus!
