use priority_queue::DoublePriorityQueue;
use vstd::prelude::*;

verus! {

#[verifier::external_type_specification]
#[verifier::external_body]
#[verifier::reject_recursive_types(I)]
#[verifier::reject_recursive_types(P)]
#[verifier::reject_recursive_types(H)]
pub struct ExDoublePriorityQueue<I, P, H>(DoublePriorityQueue<I, P, H>);

/// The frontier of a grid search: grid cells keyed by `(x, y)`, each with a
/// priority (its distance from the search's origin).
pub type Frontier = DoublePriorityQueue<(usize, usize), usize>;

/// What a frontier holds: each item with its current priority. An item
/// occurs at most once, so a map from items to priorities is its whole
/// content.
pub uninterp spec fn frontier_entries(q: Frontier) -> Map<(usize, usize), usize>;

/// Relies on `DoublePriorityQueue::with_capacity`: the new queue is empty.
#[verifier::external_body]
pub(crate) fn frontier_with_capacity(capacity: usize) -> (r: Frontier)
    ensures
        frontier_entries(r) =~= Map::empty(),
{
    DoublePriorityQueue::with_capacity(capacity)
}

/// Relies on `DoublePriorityQueue::push`: an item already present gets the
/// new priority and its old one is returned; otherwise the item is inserted
/// and `None` is returned.
#[verifier::external_body]
pub(crate) fn frontier_push(q: &mut Frontier, item: (usize, usize), priority: usize) -> (r: Option<usize>)
    ensures
        frontier_entries(*final(q)) == frontier_entries(*old(q)).insert(item, priority),
        r == (if frontier_entries(*old(q)).contains_key(item) {
            Some(frontier_entries(*old(q))[item])
        } else {
            None::<usize>
        }),
{
    q.push(item, priority)
}

/// Relies on `DoublePriorityQueue::pop_min`: removes and returns an item of
/// least priority, or returns `None` when the queue is empty.
#[verifier::external_body]
pub(crate) fn frontier_pop_min(q: &mut Frontier) -> (r: Option<((usize, usize), usize)>)
    ensures
        match r {
            None => frontier_entries(*old(q)) =~= Map::empty()
                && frontier_entries(*final(q)) == frontier_entries(*old(q)),
            Some((item, priority)) => {
                &&& frontier_entries(*old(q)).contains_key(item)
                &&& frontier_entries(*old(q))[item] == priority
                &&& forall|other: (usize, usize)| #[trigger]
                    frontier_entries(*old(q)).contains_key(other) ==> priority
                        <= frontier_entries(*old(q))[other]
                &&& frontier_entries(*final(q)) == frontier_entries(*old(q)).remove(item)
            },
        },
{
    q.pop_min()
}

} // verus!
