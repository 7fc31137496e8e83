//! First-in first-out queues (from `crossbeam`) of free entity indices and
//! of reusable deletion buffers.

use crate::entity::Entity;
use crossbeam::queue::SegQueue;
use vstd::prelude::*;

verus! {

#[verifier::external_type_specification]
#[verifier::external_body]
#[verifier::reject_recursive_types(T)]
pub struct ExSegQueue<T>(SegQueue<T>);

/// The indices waiting in a queue of free indices, front first.
pub uninterp spec fn index_queue_items(q: SegQueue<u32>) -> Seq<u32>;

/// The buffers waiting in a pool of deletion buffers, front first.
pub uninterp spec fn buffer_queue_items(q: SegQueue<Vec<Entity>>) -> Seq<Seq<Entity>>;

/// `SegQueue::new` for indices: an empty queue.
#[verifier::external_body]
pub(crate) fn index_queue_new() -> (q: SegQueue<u32>)
    ensures
        index_queue_items(q) == Seq::<u32>::empty(),
{
    SegQueue::new()
}

/// `SegQueue::push_mut` for indices: appends at the back.
#[verifier::external_body]
pub(crate) fn index_queue_push(q: &mut SegQueue<u32>, value: u32)
    ensures
        index_queue_items(*final(q)) == index_queue_items(*old(q)).push(value),
{
    q.push_mut(value)
}

/// `SegQueue::pop_mut` for indices: removes and returns the front, if any.
#[verifier::external_body]
pub(crate) fn index_queue_pop(q: &mut SegQueue<u32>) -> (r: Option<u32>)
    ensures
        index_queue_items(*old(q)).len() == 0 ==> r is None && index_queue_items(*final(q))
            == index_queue_items(*old(q)),
        index_queue_items(*old(q)).len() > 0 ==> r == Some(index_queue_items(*old(q))[0])
            && index_queue_items(*final(q)) == index_queue_items(*old(q)).drop_first(),
{
    q.pop_mut()
}

/// `SegQueue::new` for buffers: an empty queue.
#[verifier::external_body]
pub(crate) fn buffer_queue_new() -> (q: SegQueue<Vec<Entity>>)
    ensures
        buffer_queue_items(q) == Seq::<Seq<Entity>>::empty(),
{
    SegQueue::new()
}

/// `SegQueue::push_mut` for buffers: appends at the back.
#[verifier::external_body]
pub(crate) fn buffer_queue_push(q: &mut SegQueue<Vec<Entity>>, value: Vec<Entity>)
    ensures
        buffer_queue_items(*final(q)) == buffer_queue_items(*old(q)).push(value@),
{
    q.push_mut(value)
}

/// `SegQueue::pop_mut` for buffers: removes and returns the front, if any.
#[verifier::external_body]
pub(crate) fn buffer_queue_pop(q: &mut SegQueue<Vec<Entity>>) -> (r: Option<Vec<Entity>>)
    ensures
        buffer_queue_items(*old(q)).len() == 0 ==> r is None && buffer_queue_items(*final(q))
            == buffer_queue_items(*old(q)),
        buffer_queue_items(*old(q)).len() > 0 ==> r is Some && r->0@ == buffer_queue_items(
            *old(q),
        )[0] && buffer_queue_items(*final(q)) == buffer_queue_items(*old(q)).drop_first(),
{
    q.pop_mut()
}

} // verus!
