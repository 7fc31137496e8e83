//! The world: registered resources, the entity allocator they share, and
//! the commit of entity changes between batches of systems.

use crate::entities::{
    deleted_entities, Entities, EntitiesTransaction, EntityChangeSet, EntityIterBuilder,
};
use crate::resource::Resource;
use std::ops::{Deref, DerefMut};
use crate::entity::{Entity, Generation, Index};
use crate::fnv_map::{map_get, map_get_mut, map_insert, map_len};
use fnv::FnvHashMap;
use std::collections::HashSet;
use vstd::prelude::*;

verus! {

/// Flags describing how the world treats a registered resource.
#[derive(PartialEq, Eq, Structural, Debug, Copy, Clone)]
pub struct ResourceDescription {
    /// The raw flag bits.
    pub bits: u32,
}

/// The resource holds per-entity data, to be cleared when entities are
/// destroyed.
pub const ENTITY_DATA: u32 = 1;

impl ResourceDescription {
    /// No flags set.
    pub fn empty() -> (d: ResourceDescription)
        ensures
            d.bits == 0,
    {
        ResourceDescription { bits: 0 }
    }

    /// Whether every flag of `flags` is set here.
    pub fn contains(&self, flags: u32) -> (r: bool)
        ensures
            r == (self.bits & flags == flags),
    {
        self.bits & flags == flags
    }

    /// Sets every flag of `flags`.
    pub fn insert(&mut self, flags: u32)
        ensures
            final(self).bits == old(self).bits | flags,
    {
        self.bits = self.bits | flags;
    }
}

/// Constructs and configures a world resource.
pub struct ResourceBuilder<T> {
    /// The resource being registered.
    pub resource: T,
    /// How the world treats it.
    pub desc: ResourceDescription,
}

impl<T> ResourceBuilder<T> {
    /// Constructs a new `ResourceBuilder` with no flags.
    pub fn new(resource: T) -> (b: ResourceBuilder<T>)
        ensures
            b.resource == resource,
            b.desc.bits == 0,
    {
        ResourceBuilder { resource, desc: ResourceDescription::empty() }
    }

    /// Marks this resource as containing entity data which should be cleared
    /// when entities are destroyed.
    pub fn activate_entity_disposal(self) -> (b: ResourceBuilder<T>)
        ensures
            b.resource == self.resource,
            b.desc.bits == self.desc.bits | 1,
    {
        let mut b = self;
        b.desc.insert(ENTITY_DATA);
        b
    }
}

} // verus!

verus! {

/// `HashSet::is_disjoint`: whether the two sets share no element.
#[verifier::external_body]
fn set_is_disjoint(a: &HashSet<u64>, b: &HashSet<u64>) -> (r: bool)
    ensures
        r == a@.disjoint(b@),
{
    a.is_disjoint(b)
}

/// `BitOr` on two `HashSet` references: the union of the sets.
#[verifier::external_body]
fn set_union(a: &HashSet<u64>, b: &HashSet<u64>) -> (r: HashSet<u64>)
    ensures
        r@ == a@.union(b@),
{
    a | b
}

/// Whether a system with the given accesses may join a batch that reads
/// `reading` and writes `writing`: it writes nothing the batch reads, and
/// reads nothing the batch writes.
pub open spec fn can_batch(reading: Set<u64>, writing: Set<u64>, reads: Set<u64>, writes: Set<u64>) -> bool {
    reading.disjoint(writes) && writing.disjoint(reads)
}

fn can_batch_system(
    reading: &HashSet<u64>,
    writing: &HashSet<u64>,
    system: (&HashSet<u64>, &HashSet<u64>),
) -> (r: bool)
    ensures
        r == can_batch(reading@, writing@, system.0@, system.1@),
{
    let (system_reads, system_writes) = system;
    set_is_disjoint(reading, system_writes) && set_is_disjoint(writing, system_reads)
}

/// A system queued into a command buffer: its id, the resources it reads
/// (every resource it accesses) and writes, and the system itself.
pub struct QueuedSystem<P> {
    id: u32,
    read: HashSet<u64>,
    write: HashSet<u64>,
    system: P,
}

impl<P> QueuedSystem<P> {
    /// The id the system received when queued into its scope.
    pub closed spec fn spec_id(&self) -> u32 {
        self.id
    }

    /// The resources the system reads, written ones included.
    pub closed spec fn reads(&self) -> Set<u64> {
        self.read@
    }

    /// The resources the system writes.
    pub closed spec fn writes(&self) -> Set<u64> {
        self.write@
    }

    /// The system itself.
    pub closed spec fn payload(&self) -> P {
        self.system
    }

    /// Gets the id of the system.
    pub fn id(&self) -> (r: u32)
        ensures
            r == self.spec_id(),
    {
        self.id
    }

    /// Gets the resources the system reads and writes.
    pub fn resource_access(&self) -> (r: (&HashSet<u64>, &HashSet<u64>))
        ensures
            r.0@ == self.reads(),
            r.1@ == self.writes(),
    {
        (&self.read, &self.write)
    }

    /// Gets the system itself.
    pub fn system(&self) -> (r: &P)
        ensures
            *r == self.payload(),
    {
        &self.system
    }

    /// Gets the system itself, to run it.
    pub fn system_mut(&mut self) -> (r: &mut P)
        ensures
            *r == old(self).payload(),
            final(self).payload() == *final(r),
            final(self).spec_id() == old(self).spec_id(),
            final(self).reads() == old(self).reads(),
            final(self).writes() == old(self).writes(),
    {
        &mut self.system
    }
}

/// Systems queued within a `SystemScope` may be scheduled to run in
/// parallel.
pub struct SystemScope<P> {
    systems: Vec<QueuedSystem<P>>,
}

/// The set of the elements of a vector of resource keys.
pub open spec fn key_set(keys: Seq<u64>) -> Set<u64> {
    keys.to_set()
}

fn hash_set_of(keys: &Vec<u64>) -> (s: HashSet<u64>)
    ensures
        s@ == key_set(keys@),
{
    broadcast use vstd::std_specs::hash::group_hash_axioms;

    let mut s: HashSet<u64> = HashSet::new();
    let mut k: usize = 0;
    while k < keys.len()
        invariant
            k <= keys@.len(),
            s@ == keys@.take(k as int).to_set(),
        decreases keys@.len() - k,
    {
        s.insert(keys[k]);
        proof {
            assert(keys@.take(k + 1) =~= keys@.take(k as int).push(keys@[k as int]));
            keys@.take(k as int).lemma_push_to_set_commute(keys@[k as int]);
        }
        k = k + 1;
    }
    proof {
        assert(keys@.take(k as int) =~= keys@);
    }
    s
}

impl<P> SystemScope<P> {
    /// The systems queued so far, in order.
    pub closed spec fn systems(&self) -> Seq<QueuedSystem<P>> {
        self.systems@
    }

    /// Constructs an empty scope.
    pub fn new() -> (s: SystemScope<P>)
        ensures
            s.systems() == Seq::<QueuedSystem<P>>::empty(),
    {
        SystemScope { systems: Vec::new() }
    }

    /// Queues a new system that reads `reads` and writes `writes`. A system
    /// also counts as reading what it writes. Returns the system's id: the
    /// number of systems queued in the scope before it.
    pub fn add_system(&mut self, reads: Vec<u64>, writes: Vec<u64>, system: P) -> (id: u32)
        ensures
            id == old(self).systems().len() as u32,
            final(self).systems().len() == old(self).systems().len() + 1,
            final(self).systems().take(old(self).systems().len() as int) == old(self).systems(),
            final(self).systems().last().spec_id() == id,
            final(self).systems().last().reads() == key_set(reads@) + key_set(writes@),
            final(self).systems().last().writes() == key_set(writes@),
            final(self).systems().last().payload() == system,
    {
        let read_only = hash_set_of(&reads);
        let write = hash_set_of(&writes);
        let read = set_union(&read_only, &write);
        let id = self.systems.len() as u32;
        self.systems.push(QueuedSystem { id, read, write, system });
        proof {
            assert(self.systems@.take(old(self).systems@.len() as int) =~= old(self).systems@);
        }
        id
    }
}

/// Progress of the batching of a sequence of systems: the batches closed so
/// far and the one being filled, as positions in the sequence, with the
/// resources the open batch reads and writes.
pub struct Batching {
    /// Closed batches.
    pub done: Seq<Seq<int>>,
    /// The open batch.
    pub current: Seq<int>,
    /// Resources the open batch reads.
    pub reading: Set<u64>,
    /// Resources the open batch writes.
    pub writing: Set<u64>,
}

/// The batching of the first `n` systems: each system joins the open batch
/// when it can, and otherwise closes it and opens a new one.
pub open spec fn batching<P>(systems: Seq<QueuedSystem<P>>, n: nat) -> Batching
    decreases n,
{
    if n == 0 || n > systems.len() {
        Batching {
            done: Seq::empty(),
            current: Seq::empty(),
            reading: Set::empty(),
            writing: Set::empty(),
        }
    } else {
        let b = batching(systems, (n - 1) as nat);
        let s = systems[n - 1];
        if can_batch(b.reading, b.writing, s.reads(), s.writes()) {
            Batching {
                done: b.done,
                current: b.current.push(n - 1),
                reading: b.reading.union(s.reads()),
                writing: b.writing.union(s.writes()),
            }
        } else {
            Batching {
                done: b.done.push(b.current),
                current: seq![n - 1],
                reading: s.reads(),
                writing: s.writes(),
            }
        }
    }
}

/// The batches of a sequence of systems, as positions in the sequence.
pub open spec fn batch_positions<P>(systems: Seq<QueuedSystem<P>>) -> Seq<Seq<int>> {
    let b = batching(systems, systems.len());
    if b.current.len() > 0 {
        b.done.push(b.current)
    } else {
        b.done
    }
}

/// The batches of a sequence of systems.
pub open spec fn batches_of<P>(systems: Seq<QueuedSystem<P>>) -> Seq<Seq<QueuedSystem<P>>> {
    batch_positions(systems).map_values(|b: Seq<int>| b.map_values(|i: int| systems[i]))
}

/// Records system executions, to be run later within a `World`.
pub struct SystemCommandBuffer<P> {
    batches: Vec<Vec<QueuedSystem<P>>>,
}

impl<P> SystemCommandBuffer<P> {
    /// The batches recorded so far, in order.
    pub closed spec fn spec_batches(&self) -> Seq<Seq<QueuedSystem<P>>> {
        self.batches@.map_values(|b: Vec<QueuedSystem<P>>| b@)
    }

    /// Constructs a new, empty `SystemCommandBuffer`.
    pub fn new() -> (b: SystemCommandBuffer<P>)
        ensures
            b.spec_batches() == Seq::<Seq<QueuedSystem<P>>>::empty(),
    {
        let b = SystemCommandBuffer { batches: Vec::new() };
        assert(b.spec_batches() =~= Seq::<Seq<QueuedSystem<P>>>::empty());
        b
    }

    /// Gets the batches recorded so far.
    pub fn batches(&self) -> (r: &Vec<Vec<QueuedSystem<P>>>)
        ensures
            r@.map_values(|b: Vec<QueuedSystem<P>>| b@) == self.spec_batches(),
    {
        &self.batches
    }

    /// Gets the batches recorded so far, to run their systems.
    pub fn batches_mut(&mut self) -> (r: &mut Vec<Vec<QueuedSystem<P>>>)
        ensures
            r@.map_values(|b: Vec<QueuedSystem<P>>| b@) == old(self).spec_batches(),
            final(r)@.map_values(|b: Vec<QueuedSystem<P>>| b@) == final(self).spec_batches(),
    {
        &mut self.batches
    }

    /// Queues the systems that `f` adds to a fresh scope into the command
    /// buffer, grouped into batches whose systems may run concurrently, and
    /// returns what `f` returns.
    pub fn queue_systems<F, R>(&mut self, f: F) -> (r: R) where F: FnOnce(&mut SystemScope<P>) -> R
        requires
            forall|s: &mut SystemScope<P>| #[trigger] f.requires((s,)),
        ensures
            exists|s: &mut SystemScope<P>|
                (*s).systems() == Seq::<QueuedSystem<P>>::empty() && f.ensures((s,), r)
                    && final(self).spec_batches() == old(self).spec_batches() + batches_of(
                    final(s).systems(),
                ),
    {
        let mut scope = SystemScope::new();
        let r = f(&mut scope);
        self.queue_scope(scope);
        r
    }

    /// Queues the systems of a scope into the command buffer, grouped into
    /// batches whose systems may run concurrently.
    pub fn queue_scope(&mut self, scope: SystemScope<P>)
        ensures
            final(self).spec_batches() == old(self).spec_batches() + batches_of(scope.systems()),
    {
        let ghost systems = scope.systems();
        let ghost start = self.spec_batches();
        let mut reading: HashSet<u64> = HashSet::new();
        let mut writing: HashSet<u64> = HashSet::new();
        let mut batch: Vec<QueuedSystem<P>> = Vec::new();
        let ghost mut n: nat = 0;
        for system in it: scope.systems.into_iter()
            invariant
                it.seq() == systems,
                n == it.index(),
                n <= systems.len(),
                reading@ == batching(systems, n).reading,
                writing@ == batching(systems, n).writing,
                batch@ == batching(systems, n).current.map_values(|i: int| systems[i]),
                self.spec_batches() == start + batching(systems, n).done.map_values(
                    |b: Seq<int>| b.map_values(|i: int| systems[i]),
                ),
        {
            let fits = {
                let (system_reading, system_writing) = system.resource_access();
                can_batch_system(&reading, &writing, (system_reading, system_writing))
            };
            let ghost b0 = batching(systems, n);
            let ghost before = self.batches@;
            let ghost open = batch@;
            if !fits {
                self.batches.push(batch);
                batch = Vec::new();
                reading.clear();
                writing.clear();
                proof {
                    assert(self.batches@ == before.push(self.batches@.last()));
                    assert(self.batches@.last()@ == open);
                    assert(self.spec_batches() =~= before.map_values(|b: Vec<QueuedSystem<P>>| b@).push(open));
                    assert(self.spec_batches() =~= start + b0.done.push(b0.current).map_values(
                        |b: Seq<int>| b.map_values(|i: int| systems[i]),
                    ));
                }
            }
            reading = set_union(&reading, &system.read);
            writing = set_union(&writing, &system.write);
            batch.push(system);
            proof {
                n = n + 1;
                let b1 = batching(systems, n);
                assert(b1.done.map_values(|b: Seq<int>| b.map_values(|i: int| systems[i])) =~= (if fits {
                    b0.done
                } else {
                    b0.done.push(b0.current)
                }).map_values(|b: Seq<int>| b.map_values(|i: int| systems[i])));
            }
        }
        let ghost bn = batching(systems, n);
        let ghost before = self.batches@;
        let ghost open = batch@;
        if batch.len() > 0 {
            self.batches.push(batch);
            proof {
                assert(self.batches@ == before.push(self.batches@.last()));
                assert(self.spec_batches() =~= before.map_values(|b: Vec<QueuedSystem<P>>| b@).push(
                    bn.current.map_values(|i: int| systems[i]),
                ));
                assert(self.spec_batches() =~= start + bn.done.push(bn.current).map_values(
                    |b: Seq<int>| b.map_values(|i: int| systems[i]),
                ));
            }
        }
        proof {
            assert(n == systems.len());
        }
    }
}

} // verus!

verus! {

/// The resources read by the systems at `positions`.
pub open spec fn reads_of<P>(systems: Seq<QueuedSystem<P>>, positions: Seq<int>) -> Set<u64>
    decreases positions.len(),
{
    if positions.len() == 0 {
        Set::empty()
    } else {
        reads_of(systems, positions.drop_last()).union(systems[positions.last()].reads())
    }
}

/// The resources written by the systems at `positions`.
pub open spec fn writes_of<P>(systems: Seq<QueuedSystem<P>>, positions: Seq<int>) -> Set<u64>
    decreases positions.len(),
{
    if positions.len() == 0 {
        Set::empty()
    } else {
        writes_of(systems, positions.drop_last()).union(systems[positions.last()].writes())
    }
}

/// No two of the systems at `positions` conflict: neither writes a resource
/// the other reads.
pub open spec fn conflict_free<P>(systems: Seq<QueuedSystem<P>>, positions: Seq<int>) -> bool {
    forall|i: int, j: int|
        0 <= i < j < positions.len() ==> #[trigger] can_batch(
            systems[positions[i]].reads(),
            systems[positions[i]].writes(),
            systems[positions[j]].reads(),
            systems[positions[j]].writes(),
        ) && can_batch(
            systems[positions[j]].reads(),
            systems[positions[j]].writes(),
            systems[positions[i]].reads(),
            systems[positions[i]].writes(),
        )
}

/// The positions `0, 1, ..., n - 1`.
pub open spec fn positions_upto(n: nat) -> Seq<int> {
    Seq::new(n, |i: int| i)
}

proof fn lemma_reads_of_member<P>(systems: Seq<QueuedSystem<P>>, positions: Seq<int>, k: int)
    requires
        0 <= k < positions.len(),
    ensures
        systems[positions[k]].reads().subset_of(reads_of(systems, positions)),
        systems[positions[k]].writes().subset_of(writes_of(systems, positions)),
    decreases positions.len(),
{
    if k < positions.len() - 1 {
        lemma_reads_of_member(systems, positions.drop_last(), k);
    }
}

proof fn lemma_disjoint_subset(a: Set<u64>, b: Set<u64>, c: Set<u64>)
    requires
        a.subset_of(b),
        b.disjoint(c),
    ensures
        a.disjoint(c),
        c.disjoint(a),
{
    assert forall|x: u64| a.contains(x) implies !c.contains(x) by {
        assert(b.contains(x));
    }
}

#[verifier::spinoff_prover]
proof fn lemma_join_conflict_free<P>(systems: Seq<QueuedSystem<P>>, current: Seq<int>, next: int)
    requires
        conflict_free(systems, current),
        can_batch(
            reads_of(systems, current),
            writes_of(systems, current),
            systems[next].reads(),
            systems[next].writes(),
        ),
    ensures
        conflict_free(systems, current.push(next)),
{
    let c = current.push(next);
    assert forall|i: int, j: int| 0 <= i < j < c.len() implies #[trigger] can_batch(
        systems[c[i]].reads(),
        systems[c[i]].writes(),
        systems[c[j]].reads(),
        systems[c[j]].writes(),
    ) && can_batch(
        systems[c[j]].reads(),
        systems[c[j]].writes(),
        systems[c[i]].reads(),
        systems[c[i]].writes(),
    ) by {
        assert(c[i] == current[i]);
        if j == c.len() - 1 {
            let si = systems[current[i]];
            let sn = systems[next];
            assert(c[j] == next);
            lemma_reads_of_member(systems, current, i);
            lemma_disjoint_subset(si.reads(), reads_of(systems, current), sn.writes());
            lemma_disjoint_subset(si.writes(), writes_of(systems, current), sn.reads());
            assert(can_batch(si.reads(), si.writes(), sn.reads(), sn.writes()));
            assert(can_batch(sn.reads(), sn.writes(), si.reads(), si.writes()));
        } else {
            assert(c[j] == current[j]);
            assert(can_batch(
                systems[current[i]].reads(),
                systems[current[i]].writes(),
                systems[current[j]].reads(),
                systems[current[j]].writes(),
            ));
        }
    }
}

#[verifier::spinoff_prover]
proof fn lemma_batching_inv<P>(systems: Seq<QueuedSystem<P>>, n: nat)
    requires
        n <= systems.len(),
    ensures
        ({
            let b = batching(systems, n);
            &&& b.done.flatten() + b.current == positions_upto(n)
            &&& forall|k: int| 0 <= k < b.done.len() ==> (#[trigger] b.done[k]).len() > 0
            &&& n > 0 ==> b.current.len() > 0
            &&& b.reading == reads_of(systems, b.current)
            &&& b.writing == writes_of(systems, b.current)
            &&& forall|k: int| 0 <= k < b.done.len() ==> conflict_free(systems, #[trigger] b.done[k])
            &&& conflict_free(systems, b.current)
            &&& forall|k: int|
                0 < k < b.done.len() + (if b.current.len() > 0 {
                    1int
                } else {
                    0int
                }) ==> {
                    let prev = b.done[k - 1];
                    let first = (#[trigger] b.done.push(b.current)[k])[0];
                    !can_batch(
                        reads_of(systems, prev),
                        writes_of(systems, prev),
                        systems[first].reads(),
                        systems[first].writes(),
                    )
                }
        }),
    decreases n,
{
    broadcast use Seq::lemma_flatten_push;

    if n == 0 {
        assert(positions_upto(0) =~= Seq::<int>::empty());
        assert(Seq::<Seq<int>>::empty().flatten() =~= Seq::<int>::empty());
    } else {
        lemma_batching_inv(systems, (n - 1) as nat);
        let b0 = batching(systems, (n - 1) as nat);
        let b = batching(systems, n);
        let s = systems[n - 1];
        assert(positions_upto(n) =~= positions_upto((n - 1) as nat).push(n - 1));
        if can_batch(b0.reading, b0.writing, s.reads(), s.writes()) {
            assert(b.current.drop_last() =~= b0.current);
            assert(b.done.flatten() + b.current =~= (b0.done.flatten() + b0.current).push(n - 1));
            lemma_join_conflict_free(systems, b0.current, n - 1);
            assert forall|k: int|
                0 < k < b.done.len() + (if b.current.len() > 0 {
                    1int
                } else {
                    0int
                }) implies {
                let prev = b.done[k - 1];
                let first = (#[trigger] b.done.push(b.current)[k])[0];
                !can_batch(
                    reads_of(systems, prev),
                    writes_of(systems, prev),
                    systems[first].reads(),
                    systems[first].writes(),
                )
            } by {
                if k < b.done.len() {
                    assert(b.done.push(b.current)[k] == b0.done.push(b0.current)[k]);
                } else if n - 1 > 0 {
                    assert(b.done.push(b.current)[k][0] == b0.done.push(b0.current)[k][0]);
                }
            }
        } else {
            assert(b0.current.len() > 0) by {
                if b0.current.len() == 0 {
                    assert(b0.reading =~= Set::<u64>::empty());
                    assert(b0.writing =~= Set::<u64>::empty());
                }
            }
            assert(b.done.flatten() =~= b0.done.flatten() + b0.current);
            assert(b.done.flatten() + b.current =~= (b0.done.flatten() + b0.current).push(n - 1));
            assert(seq![n - 1].drop_last() =~= Seq::<int>::empty());
            assert(reads_of(systems, Seq::<int>::empty()) == Set::<u64>::empty());
            assert(writes_of(systems, Seq::<int>::empty()) == Set::<u64>::empty());
            assert(reads_of(systems, seq![n - 1]) == reads_of(systems, Seq::<int>::empty()).union(
                s.reads(),
            ));
            assert(writes_of(systems, seq![n - 1]) == writes_of(systems, Seq::<int>::empty()).union(
                s.writes(),
            ));
            assert(reads_of(systems, seq![n - 1]) =~= s.reads());
            assert(writes_of(systems, seq![n - 1]) =~= s.writes());
            assert forall|k: int|
                0 < k < b.done.len() + (if b.current.len() > 0 {
                    1int
                } else {
                    0int
                }) implies {
                let prev = b.done[k - 1];
                let first = (#[trigger] b.done.push(b.current)[k])[0];
                !can_batch(
                    reads_of(systems, prev),
                    writes_of(systems, prev),
                    systems[first].reads(),
                    systems[first].writes(),
                )
            } by {
                if k < b0.done.len() {
                    assert(b.done.push(b.current)[k] == b0.done.push(b0.current)[k]);
                } else if k == b0.done.len() {
                    assert(b.done.push(b.current)[k] == b0.current);
                    assert(b0.done.push(b0.current)[k] == b0.current);
                }
            }
        }
    }
}

/// Every queued system lands in exactly one batch, and reading the batches
/// in order gives the systems in the order they were queued.
pub proof fn lemma_batches_keep_order<P>(systems: Seq<QueuedSystem<P>>)
    ensures
        batch_positions(systems).flatten() == positions_upto(systems.len()),
        batches_of(systems).flatten() == systems,
{
    broadcast use Seq::lemma_flatten_push;

    lemma_batching_inv(systems, systems.len());
    let b = batching(systems, systems.len());
    if b.current.len() == 0 {
        assert(b.done.flatten() + b.current =~= b.done.flatten());
    }
    lemma_flatten_pick(systems, batch_positions(systems));
    assert(positions_upto(systems.len()).map_values(|i: int| systems[i]) =~= systems);
}

/// Picking the systems at each group of positions and then concatenating
/// the groups picks the systems at the concatenated positions.
proof fn lemma_flatten_pick<P>(systems: Seq<QueuedSystem<P>>, groups: Seq<Seq<int>>)
    ensures
        groups.map_values(|b: Seq<int>| b.map_values(|i: int| systems[i])).flatten()
            == groups.flatten().map_values(|i: int| systems[i]),
    decreases groups.len(),
{
    let picked = groups.map_values(|b: Seq<int>| b.map_values(|i: int| systems[i]));
    if groups.len() > 0 {
        lemma_flatten_pick(systems, groups.drop_first());
        assert(picked.drop_first() =~= groups.drop_first().map_values(
            |b: Seq<int>| b.map_values(|i: int| systems[i]),
        ));
        assert((groups.first() + groups.drop_first().flatten()).map_values(|i: int| systems[i])
            =~= groups.first().map_values(|i: int| systems[i]) + groups.drop_first().flatten().map_values(
            |i: int| systems[i],
        ));
    } else {
        assert(picked.flatten() =~= groups.flatten().map_values(|i: int| systems[i]));
    }
}

/// No batch is empty, and no two systems of a batch conflict: neither writes
/// a resource the other reads or writes, so they may run concurrently.
pub proof fn lemma_batches_conflict_free<P>(systems: Seq<QueuedSystem<P>>)
    ensures
        forall|k: int|
            0 <= k < batch_positions(systems).len() ==> (#[trigger] batch_positions(systems)[k]).len()
                > 0 && conflict_free(systems, batch_positions(systems)[k]),
        forall|k: int, i: int, j: int|
            0 <= k < batches_of(systems).len() && 0 <= i < j < batches_of(systems)[k].len() ==> {
                let s = #[trigger] batches_of(systems)[k][i];
                let t = #[trigger] batches_of(systems)[k][j];
                can_batch(s.reads(), s.writes(), t.reads(), t.writes()) && can_batch(
                    t.reads(),
                    t.writes(),
                    s.reads(),
                    s.writes(),
                )
            },
{
    lemma_batching_inv(systems, systems.len());
    let bp = batch_positions(systems);
    assert forall|k: int, i: int, j: int|
        0 <= k < batches_of(systems).len() && 0 <= i < j < batches_of(systems)[k].len() implies {
            let s = #[trigger] batches_of(systems)[k][i];
            let t = #[trigger] batches_of(systems)[k][j];
            can_batch(s.reads(), s.writes(), t.reads(), t.writes()) && can_batch(
                t.reads(),
                t.writes(),
                s.reads(),
                s.writes(),
            )
        } by {
        assert(conflict_free(systems, bp[k]));
        assert(batches_of(systems)[k][i] == systems[bp[k][i]]);
        assert(batches_of(systems)[k][j] == systems[bp[k][j]]);
    }
}

/// A batch is closed only when the next queued system conflicts with it:
/// the first system of every batch but the first could not join the batch
/// before it.
pub proof fn lemma_batches_split_on_conflict<P>(systems: Seq<QueuedSystem<P>>)
    ensures
        forall|k: int|
            0 < k < batch_positions(systems).len() ==> {
                let prev = #[trigger] batch_positions(systems)[k - 1];
                let first = batch_positions(systems)[k][0];
                !can_batch(
                    reads_of(systems, prev),
                    writes_of(systems, prev),
                    systems[first].reads(),
                    systems[first].writes(),
                )
            },
{
    lemma_batching_inv(systems, systems.len());
    let b = batching(systems, systems.len());
    assert forall|k: int| 0 < k < batch_positions(systems).len() implies {
        let prev = #[trigger] batch_positions(systems)[k - 1];
        let first = batch_positions(systems)[k][0];
        !can_batch(
            reads_of(systems, prev),
            writes_of(systems, prev),
            systems[first].reads(),
            systems[first].writes(),
        )
    } by {
        assert(b.done.push(b.current)[k - 1] == b.done[k - 1]);
        if b.current.len() > 0 {
            assert(batch_positions(systems)[k] == b.done.push(b.current)[k]);
        } else {
            assert(batch_positions(systems)[k] == b.done[k]);
            assert(b.done.push(b.current)[k] == b.done[k]);
        }
    }
}

} // verus!

verus! {

/// Stores entities and resources: each resource is registered under a key
/// that identifies its type, receives a small id, and may be marked as
/// holding per-entity data.
pub struct World<R> {
    entities: Entities,
    resources: FnvHashMap<u64, (u8, R)>,
    entity_resources: Vec<u64>,
}

/// The ids of registered resources are distinct and below the number of
/// registered resources.
pub open spec fn ids_distinct<R>(resources: Map<u64, (u8, R)>) -> bool {
    &&& forall|k: u64| #[trigger] resources.contains_key(k) ==> (resources[k].0 as int)
        < resources.dom().len()
    &&& forall|k1: u64, k2: u64|
        #[trigger] resources.contains_key(k1) && #[trigger] resources.contains_key(k2) && k1 != k2
            ==> resources[k1].0 != resources[k2].0
}

/// The registry after registering `resource` under `key`: its id is the
/// number of resources registered before, cut to eight bits.
pub open spec fn register_spec<R>(resources: Map<u64, (u8, R)>, key: u64, resource: R) -> Map<
    u64,
    (u8, R),
> {
    resources.insert(key, ((resources.dom().len() as u8), resource))
}

impl<R> World<R> {
    /// The resources registered so far, with their ids.
    pub closed spec fn resources(&self) -> Map<u64, (u8, R)> {
        self.resources@
    }

    /// The keys of the resources that hold per-entity data, in registration
    /// order.
    pub closed spec fn entity_resource_keys(&self) -> Seq<u64> {
        self.entity_resources@
    }

    /// The entity allocator.
    pub closed spec fn entities_of(&self) -> Entities {
        self.entities
    }

    /// The registry is finite, every key marked as holding per-entity data
    /// is registered, and the allocator is consistent.
    pub closed spec fn wf(&self) -> bool {
        &&& self.resources@.dom().finite()
        &&& forall|k: int|
            0 <= k < self.entity_resources@.len() ==> self.resources@.contains_key(
                #[trigger] self.entity_resources@[k],
            )
        &&& self.entities.wf()
    }

    /// Constructs a new `World`.
    pub fn new() -> (w: World<R>)
        ensures
            w.wf(),
            w.resources() == Map::<u64, (u8, R)>::empty(),
            w.entity_resource_keys() == Seq::<u64>::empty(),
            w.entities_of()@.allocated == 0,
            w.entities_of()@.generations == Seq::<Generation>::empty(),
            w.entities_of()@.free == Seq::<Index>::empty(),
    {
        World {
            entities: Entities::new(),
            resources: FnvHashMap::default(),
            entity_resources: Vec::new(),
        }
    }

    /// Registers a resource under `key`, replacing any resource registered
    /// under it, and returns the resource's id.
    pub fn register(&mut self, key: u64, desc: ResourceDescription, resource: R) -> (id: u8)
        requires
            old(self).wf(),
        ensures
            final(self).wf(),
            id == old(self).resources().dom().len() as u8,
            final(self).resources() == register_spec(old(self).resources(), key, resource),
            final(self).entity_resource_keys() == if desc.bits & ENTITY_DATA == ENTITY_DATA {
                old(self).entity_resource_keys().push(key)
            } else {
                old(self).entity_resource_keys()
            },
            final(self).entities_of() == old(self).entities_of(),
    {
        if desc.contains(ENTITY_DATA) {
            self.entity_resources.push(key);
        }
        let id = map_len(&self.resources) as u8;
        map_insert(&mut self.resources, key, (id, resource));
        id
    }

    /// Gets the id and the resource registered under `key`, if any.
    pub fn get_resource(&self, key: u64) -> (r: Option<(u8, &R)>)
        ensures
            r is Some <==> self.resources().contains_key(key),
            r is Some ==> r.unwrap().0 == self.resources()[key].0 && *r.unwrap().1
                == self.resources()[key].1,
    {
        match map_get(&self.resources, key) {
            Some(entry) => Some((entry.0, &entry.1)),
            None => None,
        }
    }

    /// Gets the id and the resource registered under `key`, if any, to
    /// change the resource in place.
    pub fn get_resource_mut(&mut self, key: u64) -> (r: Option<(u8, &mut R)>)
        ensures
            r is Some <==> old(self).resources().contains_key(key),
            r is Some ==> r.unwrap().0 == old(self).resources()[key].0 && *r.unwrap().1 == old(
                self,
            ).resources()[key].1,
            r is Some ==> final(self).resources() == old(self).resources().insert(
                key,
                (r.unwrap().0, *final(r.unwrap().1)),
            ),
            r is None ==> final(self).resources() == old(self).resources(),
            final(self).entities_of() == old(self).entities_of(),
            final(self).entity_resource_keys() == old(self).entity_resource_keys(),
            final(self).resources().dom() == old(self).resources().dom(),
            old(self).wf() ==> final(self).wf(),
    {
        match map_get_mut(&mut self.resources, key) {
            Some(entry) => Some((entry.0, &mut entry.1)),
            None => None,
        }
    }

    /// Gets the keys of the resources holding per-entity data.
    pub fn entity_resources(&self) -> (r: &Vec<u64>)
        ensures
            r@ == self.entity_resource_keys(),
    {
        &self.entity_resources
    }

    /// Gets the entity allocator.
    pub fn entities(&self) -> (r: &Entities)
        ensures
            *r == self.entities_of(),
    {
        &self.entities
    }

    /// Gets the entity allocator, to create or commit entities.
    pub fn entities_mut(&mut self) -> (r: &mut Entities)
        ensures
            *r == old(self).entities_of(),
            final(self).entities_of() == *final(r),
            final(self).resources() == old(self).resources(),
            final(self).entity_resource_keys() == old(self).entity_resource_keys(),
    {
        &mut self.entities
    }
}

/// Shared access to the resources of a `World`, available while its entity
/// allocator is borrowed to run systems.
pub struct WorldResources<'a, R> {
    resources: &'a FnvHashMap<u64, (u8, R)>,
}

impl<'a, R> WorldResources<'a, R> {
    /// The resources registered, with their ids.
    pub closed spec fn resources(&self) -> Map<u64, (u8, R)> {
        self.resources@
    }

    /// Gets the id and the resource registered under `key`, if any.
    pub fn get_resource(&self, key: u64) -> (r: Option<(u8, &'a R)>)
        ensures
            r is Some <==> self.resources().contains_key(key),
            r is Some ==> r.unwrap().0 == self.resources()[key].0 && *r.unwrap().1
                == self.resources()[key].1,
    {
        match map_get(self.resources, key) {
            Some(entry) => Some((entry.0, &entry.1)),
            None => None,
        }
    }
}

impl<R> World<R> {
    /// Splits the world into its entity allocator, to create and delete
    /// entities, and shared access to its resources.
    pub fn split_mut(&mut self) -> (r: (&mut Entities, WorldResources<'_, R>))
        ensures
            *r.0 == old(self).entities_of(),
            r.1.resources() == old(self).resources(),
            final(self).entities_of() == *final(r.0),
            final(self).resources() == old(self).resources(),
            final(self).entity_resource_keys() == old(self).entity_resource_keys(),
    {
        (&mut self.entities, WorldResources { resources: &self.resources })
    }
}

/// Whether every registered resource is internally consistent.
pub open spec fn resources_wf<R: Resource>(resources: Map<u64, (u8, R)>) -> bool {
    forall|k: u64| #[trigger] resources.contains_key(k) ==> resources[k].1.resource_wf()
}

/// `after` holds the resources of `before` under the same keys and ids, and
/// only those under `touched` may have changed.
pub open spec fn only_touched<R>(
    before: Map<u64, (u8, R)>,
    after: Map<u64, (u8, R)>,
    touched: Seq<u64>,
) -> bool {
    &&& after.dom() == before.dom()
    &&& forall|k: u64| #[trigger] after.contains_key(k) ==> after[k].0 == before[k].0
    &&& forall|k: u64|
        #[trigger] after.contains_key(k) && !touched.contains(k) ==> after[k] == before[k]
}

/// Whether some change set of `changes` deletes `entity`.
pub open spec fn deletes(changes: Seq<EntityChangeSet>, entity: Entity) -> bool {
    exists|c: int| 0 <= c < changes.len() && changes[c].deleted@.contains(entity)
}

/// Each resource registered under one of `keys` holds data in `after`
/// exactly for the entities it held data for in `before` that `changes` do
/// not delete.
pub open spec fn cleared<R: Resource>(
    before: Map<u64, (u8, R)>,
    after: Map<u64, (u8, R)>,
    keys: Seq<u64>,
    changes: Seq<EntityChangeSet>,
) -> bool {
    forall|k: int, e: Entity|
        0 <= k < keys.len() ==> #[trigger] after[keys[k]].1.has_entity_data(e) == (
        before[keys[k]].1.has_entity_data(e) && !deletes(changes, e))
}

impl<R: Resource> World<R> {
    /// Clears the data of the entities deleted by `changes` from every
    /// resource that holds per-entity data, one change set after another.
    fn clean_deleted_entities(&mut self, changes: &Vec<EntityChangeSet>)
        requires
            old(self).wf(),
            resources_wf(old(self).resources()),
        ensures
            final(self).wf(),
            resources_wf(final(self).resources()),
            only_touched(
                old(self).resources(),
                final(self).resources(),
                old(self).entity_resource_keys(),
            ),
            cleared(
                old(self).resources(),
                final(self).resources(),
                old(self).entity_resource_keys(),
                changes@,
            ),
            final(self).entities_of() == old(self).entities_of(),
            final(self).entity_resource_keys() == old(self).entity_resource_keys(),
    {
        let mut i: usize = 0;
        while i < self.entity_resources.len()
            invariant
                self.wf(),
                resources_wf(self.resources()),
                only_touched(
                    old(self).resources(),
                    self.resources(),
                    old(self).entity_resource_keys().take(i as int),
                ),
                cleared(
                    old(self).resources(),
                    self.resources(),
                    old(self).entity_resource_keys().take(i as int),
                    changes@,
                ),
                self.entities == old(self).entities,
                self.entity_resources == old(self).entity_resources,
                i <= self.entity_resources@.len(),
            decreases self.entity_resources@.len() - i,
        {
            let key = self.entity_resources[i];
            let ghost before = self.resources@;
            assert(self.resources@.contains_key(key));
            let entry = map_get_mut(&mut self.resources, key);
            if let Some(entry) = entry {
                let mut j: usize = 0;
                while j < changes.len()
                    invariant
                        entry.1.resource_wf(),
                        entry.0 == before[key].0,
                        j <= changes@.len(),
                        forall|e: Entity| #[trigger]
                            entry.1.has_entity_data(e) == (before[key].1.has_entity_data(e)
                                && !deletes(changes@.take(j as int), e)),
                    decreases changes@.len() - j,
                {
                    let deleted = changes[j].deleted.as_slice();
                    entry.1.clear_entity_data(deleted);
                    proof {
                        assert forall|e: Entity|
                            deletes(changes@.take(j + 1), e) == (deletes(changes@.take(j as int), e)
                                || changes@[j as int].deleted@.contains(e)) by {
                            if deletes(changes@.take(j + 1), e) {
                                let c = choose|c: int| 0 <= c < j + 1 && (#[trigger] changes@.take(j + 1)[c]).deleted@.contains(e);
                                if c < j {
                                    assert(changes@.take(j as int)[c] == changes@[c]);
                                }
                            }
                            if deletes(changes@.take(j as int), e) {
                                let c = choose|c: int| 0 <= c < j && (#[trigger] changes@.take(j as int)[c]).deleted@.contains(e);
                                assert(changes@.take(j + 1)[c] == changes@[c]);
                            }
                            if changes@[j as int].deleted@.contains(e) {
                                assert(changes@.take(j + 1)[j as int] == changes@[j as int]);
                            }
                        }
                    }
                    j = j + 1;
                }
                proof {
                    assert(changes@.take(j as int) =~= changes@);
                }
            }
            proof {
                let keys = old(self).entity_resource_keys();
                assert(keys[i as int] == key);
                assert(self.resources@.dom() =~= before.dom());
                assert forall|k: int, e: Entity| 0 <= k < i + 1 implies #[trigger] self.resources@[keys.take(i + 1)[k]].1.has_entity_data(e) == (
                    old(self).resources()[keys.take(i + 1)[k]].1.has_entity_data(e) && !deletes(changes@, e)) by {
                    assert(keys.take(i + 1)[k] == keys[k]);
                    if k < i {
                        assert(keys.take(i as int)[k] == keys[k]);
                    }
                    if keys[k] != key {
                        assert(keys.take(i as int)[k] == keys[k]);
                    } else if exists|q: int| 0 <= q < i && #[trigger] keys[q] == key {
                        let q = choose|q: int| 0 <= q < i && #[trigger] keys[q] == key;
                        assert(keys.take(i as int)[q] == keys[q]);
                    } else {
                        assert(!keys.take(i as int).contains(key));
                    }
                }
                assert forall|k: u64| #[trigger] self.resources@.contains_key(k) && !keys.take(
                    i + 1,
                ).contains(k) implies self.resources@[k] == old(self).resources()[k] by {
                    assert(keys.take(i + 1)[i as int] == key);
                    if keys.take(i as int).contains(k) {
                        let q = choose|q: int| 0 <= q < i && #[trigger] keys.take(i as int)[q] == k;
                        assert(keys.take(i + 1)[q] == k);
                    }
                }
            }
            i = i + 1;
        }
        proof {
            assert(old(self).entity_resource_keys().take(i as int) =~= old(self).entity_resource_keys());
        }
    }

    /// Commits the entity changes of a batch of systems: clears the data of
    /// the deleted entities from every resource that holds per-entity data,
    /// so that none of those resources keeps data for them, then merges the
    /// changes into the allocator. Returns `false`, changing
    /// nothing, where the merge would delete an index never handed out,
    /// push a generation past its largest value, or overflow the free count.
    pub fn commit(&mut self, changes: Vec<EntityChangeSet>) -> (ok: bool)
        requires
            old(self).wf(),
            resources_wf(old(self).resources()),
        ensures
            final(self).wf(),
            resources_wf(final(self).resources()),
            ok == (old(self).entities_of()@.can_merge(deleted_entities(changes@))
                && old(self).entities_of()@.free.len() + deleted_entities(changes@).len()
                <= usize::MAX),
            ok ==> final(self).entities_of()@ == old(self).entities_of()@.merge(
                deleted_entities(changes@),
            ),
            ok ==> only_touched(
                old(self).resources(),
                final(self).resources(),
                old(self).entity_resource_keys(),
            ),
            ok ==> cleared(
                old(self).resources(),
                final(self).resources(),
                old(self).entity_resource_keys(),
                changes@,
            ),
            !ok ==> *final(self) == *old(self),
            final(self).entity_resource_keys() == old(self).entity_resource_keys(),
    {
        if !self.entities.check_merge(&changes) {
            return false;
        }
        self.clean_deleted_entities(&changes);
        self.entities.merge(changes);
        true
    }
}

/// Registering a resource under a key not yet registered keeps the ids of
/// the registry distinct, as long as fewer than 256 resources were
/// registered before.
pub proof fn lemma_register_keeps_ids_distinct<R>(
    resources: Map<u64, (u8, R)>,
    key: u64,
    resource: R,
)
    requires
        resources.dom().finite(),
        ids_distinct(resources),
        !resources.contains_key(key),
        resources.dom().len() < 256,
    ensures
        ids_distinct(register_spec(resources, key, resource)),
        register_spec(resources, key, resource).dom().len() == resources.dom().len() + 1,
{
    let after = register_spec(resources, key, resource);
    assert(after.dom() =~= resources.dom().insert(key));
}

/// A resource can be found under its key right after it is registered, with
/// the id `register` returned.
pub proof fn lemma_register_then_get<R>(resources: Map<u64, (u8, R)>, key: u64, resource: R)
    ensures
        register_spec(resources, key, resource).contains_key(key),
        register_spec(resources, key, resource)[key] == ((resources.dom().len() as u8), resource),
{
}

} // verus!

verus! {

/// Contains system execution state information: the system's entity
/// transaction and the state the systems run with.
pub struct SystemContext<'a, S> {
    /// The transaction the system creates and destroys entities in.
    pub entities: EntitiesTransaction<'a>,
    /// The state the systems run with.
    pub state: &'a S,
}

impl<'a, S> SystemContext<'a, S> {
    /// Constructs a context from a transaction and a state.
    pub fn new(entities: EntitiesTransaction<'a>, state: &'a S) -> (ctx: SystemContext<'a, S>)
        ensures
            ctx.entities == entities,
            ctx.state == state,
    {
        SystemContext { entities, state }
    }

    /// Gets the current system execution state.
    pub fn state(&self) -> (r: &S)
        ensures
            *r == *self.state,
    {
        self.state
    }

    /// Gets a builder for iterating through the entities with data in a set
    /// of entity resources.
    pub fn iter(&self) -> (b: EntityIterBuilder<'_>)
        ensures
            b.allocator() == self.entities.allocator(),
    {
        EntityIterBuilder::new(self.entities.entities())
    }

    /// Converts this context into the change set of its transaction.
    pub fn to_change_set(self) -> (cs: EntityChangeSet)
        ensures
            cs.deleted@ == self.entities.deleted_so_far(),
            has_resolved(self.entities.borrowed()),
    {
        self.entities.to_change_set()
    }
}

impl<'a, S> Deref for SystemContext<'a, S> {
    type Target = EntitiesTransaction<'a>;

    fn deref(&self) -> (r: &EntitiesTransaction<'a>)
        ensures
            *r == self.entities,
    {
        &self.entities
    }
}

impl<'a, S> DerefMut for SystemContext<'a, S> {
    fn deref_mut(&mut self) -> (r: &mut EntitiesTransaction<'a>)
        ensures
            *r == old(self).entities,
            final(self).entities == *final(r),
            final(self).state == old(self).state,
    {
        &mut self.entities
    }
}

/// Determines the behavior of entity transaction commits when running a
/// system command buffer sequentially.
pub enum SequentialExecute {
    /// Entity creations and deletions are committed after each system,
    /// guaranteeing that deletions are observed by later queued systems.
    SequentialCommit,
    /// Entity creations and deletions are committed in the same batches that
    /// parallel execution would schedule.
    ParallelBatchedCommit,
}

} // verus!
