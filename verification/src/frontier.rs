//! The frontier: a FIFO queue of URLs awaiting fetch, backed by the `queues`
//! crate's growable queue.

use queues::IsQueue;
use vstd::prelude::*;

verus! {

#[verifier::external_type_specification]
#[verifier::external_body]
#[verifier::reject_recursive_types(T)]
pub struct ExQueue<T: Clone>(queues::Queue<T>);

/// The URLs a backing queue holds, oldest first.
pub uninterp spec fn queue_urls(q: queues::Queue<String>) -> Seq<Seq<char>>;

/// Relies on `queues::Queue::new`: a fresh queue is empty.
#[verifier::external_body]
fn queue_new() -> (q: queues::Queue<String>)
    ensures
        queue_urls(q) == Seq::<Seq<char>>::empty(),
{
    queues::Queue::new()
}

/// Relies on `queues::Queue::add`: appends to the tail and, on this growable
/// queue, always succeeds.
#[verifier::external_body]
fn queue_add(q: &mut queues::Queue<String>, url: String)
    ensures
        queue_urls(*final(q)) == queue_urls(*old(q)).push(url@),
{
    let _ = q.add(url);
}

/// Relies on `queues::Queue::remove`: removes and returns the oldest element,
/// or reports an error on an empty queue, which this wrapper turns into
/// `None`.
#[verifier::external_body]
fn queue_remove(q: &mut queues::Queue<String>) -> (r: Option<String>)
    ensures
        queue_urls(*old(q)).len() == 0 ==> r is None && queue_urls(*final(q)) == queue_urls(
            *old(q),
        ),
        queue_urls(*old(q)).len() > 0 ==> (r matches Some(u) && u@ == queue_urls(*old(q))[0]
            && queue_urls(*final(q)) == queue_urls(*old(q)).drop_first()),
{
    match q.remove() {
        Ok(u) => Some(u),
        Err(_) => None,
    }
}

/// Relies on `queues::Queue::size`: the number of queued elements.
#[verifier::external_body]
fn queue_size(q: &queues::Queue<String>) -> (n: usize)
    ensures
        n == queue_urls(*q).len(),
{
    q.size()
}

/// The queue of URLs discovered but not yet fetched, in FIFO order.
pub struct Frontier {
    q: queues::Queue<String>,
}

impl View for Frontier {
    type V = Seq<Seq<char>>;

    closed spec fn view(&self) -> Seq<Seq<char>> {
        queue_urls(self.q)
    }
}

impl Frontier {
    /// A fresh, empty frontier.
    pub fn new() -> (r: Frontier)
        ensures
            r@ == Seq::<Seq<char>>::empty(),
    {
        Frontier { q: queue_new() }
    }

    /// Append `url` to the tail.
    pub fn push(&mut self, url: String)
        ensures
            final(self)@ == old(self)@.push(url@),
    {
        queue_add(&mut self.q, url);
    }

    /// Remove and return the head, or report emptiness; the caller decides
    /// whether to wait for work or to shut down.
    pub fn pop(&mut self) -> (r: Option<String>)
        ensures
            old(self)@.len() == 0 ==> r is None && final(self)@ == old(self)@,
            old(self)@.len() > 0 ==> (r matches Some(u) && u@ == old(self)@[0] && final(self)@
                == old(self)@.drop_first()),
    {
        queue_remove(&mut self.q)
    }

    /// How many URLs await fetching.
    pub fn len(&self) -> (n: usize)
        ensures
            n == self@.len(),
    {
        queue_size(&self.q)
    }
}

} // verus!
