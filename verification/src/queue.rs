//! A double-ended queue of values: push and pop at either end.

use vstd::prelude::*;

verus! {

/// One queued value; the queue's entries, in order, make up its contents.
pub struct QueueEntry<T> {
    pub data: T,
}

/// A double-ended queue: `entries` holds the values from head to tail.
pub struct Queue<T> {
    pub entries: Vec<QueueEntry<T>>,
}

impl<T> Queue<T> {
    /// The values from head to tail.
    pub open spec fn view(self) -> Seq<T> {
        Seq::new(self.entries@.len(), |i: int| self.entries@[i].data)
    }
}

/// Creates an empty queue.
pub fn queue_new<T>() -> (r: Option<Queue<T>>)
    ensures
        r matches Some(q) && q@ == Seq::<T>::empty(),
{
    let q = Queue { entries: Vec::new() };
    proof {
        assert(q@ =~= Seq::<T>::empty());
    }
    Some(q)
}

/// Whether the queue holds nothing.
pub fn queue_is_empty<T>(queue: &Queue<T>) -> (r: bool)
    ensures
        r <==> queue@.len() == 0,
{
    queue.entries.len() == 0
}

/// Puts `data` at the head of the queue.
pub fn queue_push_head<T>(queue: &mut Queue<T>, data: T) -> (r: bool)
    ensures
        r,
        final (queue)@ == seq![data].add(old(queue)@),
{
    queue.entries.insert(0, QueueEntry { data });
    proof {
        assert(queue@ =~= seq![data].add(old(queue)@));
    }
    true
}

/// Puts `data` at the tail of the queue.
pub fn queue_push_tail<T>(queue: &mut Queue<T>, data: T) -> (r: i32)
    ensures
        r == 1,
        final (queue)@ == old(queue)@.push(data),
{
    queue.entries.push(QueueEntry { data });
    proof {
        assert(queue@ =~= old(queue)@.push(data));
    }
    1
}

/// Takes the value at the head, while there is one.
pub fn queue_pop_head<T>(queue: &mut Queue<T>) -> (r: Option<T>)
    ensures
        old(queue)@.len() == 0 ==> r is None && final (queue)@ == old(queue)@,
        old(queue)@.len() > 0 ==> (r matches Some(v) && v == old(queue)@[0] && final (queue)@
            == old(queue)@.drop_first()),
{
    if queue.entries.len() == 0 {
        return None;
    }
    let e = queue.entries.remove(0);
    proof {
        assert(queue@ =~= old(queue)@.drop_first());
    }
    Some(e.data)
}

/// Takes the value at the tail, while there is one.
pub fn queue_pop_tail<T>(queue: &mut Queue<T>) -> (r: Option<T>)
    ensures
        old(queue)@.len() == 0 ==> r is None && final (queue)@ == old(queue)@,
        old(queue)@.len() > 0 ==> (r matches Some(v) && v == old(queue)@.last() && final (
        queue)@ == old(queue)@.drop_last()),
{
    match queue.entries.pop() {
        Some(e) => {
            proof {
                assert(queue@ =~= old(queue)@.drop_last());
            }
            Some(e.data)
        },
        None => None,
    }
}

/// The value at the head, while there is one.
pub fn queue_peek_head<T>(queue: &Queue<T>) -> (r: Option<&T>)
    ensures
        queue@.len() == 0 ==> r is None,
        queue@.len() > 0 ==> (r matches Some(v) && *v == queue@[0]),
{
    if queue.entries.len() == 0 {
        None
    } else {
        Some(&queue.entries[0].data)
    }
}

/// The value at the tail, while there is one.
pub fn queue_peek_tail<T>(queue: &Queue<T>) -> (r: Option<&T>)
    ensures
        queue@.len() == 0 ==> r is None,
        queue@.len() > 0 ==> (r matches Some(v) && *v == queue@.last()),
{
    if queue.entries.len() == 0 {
        None
    } else {
        Some(&queue.entries[queue.entries.len() - 1].data)
    }
}

/// Empties the queue.
pub fn queue_free<T>(queue: &mut Queue<T>)
    ensures
        final (queue)@ == Seq::<T>::empty(),
{
    queue.entries.clear();
    proof {
        assert(queue@ =~= Seq::<T>::empty());
    }
}

} // verus!
