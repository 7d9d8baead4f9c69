//! The fixed-capacity collections of `heapless` that hold the codec's window and lookahead.
use vstd::prelude::*;
use heapless::{Deque, HistoryBuffer};

verus! {

/// Slots in the history buffer, and in the lookahead queue: enough for the widest window and
/// the longest match, `2^16` bytes each.
pub const HISTORY_CAPACITY: usize = 65536;

#[verifier::external_type_specification]
#[verifier::external_body]
#[verifier::reject_recursive_types(T)]
pub struct ExHistoryBuffer<T, const N: usize>(HistoryBuffer<T, N>);

#[verifier::external_type_specification]
#[verifier::external_body]
#[verifier::reject_recursive_types(T)]
pub struct ExDeque<T, const N: usize>(Deque<T, N>);

/// The bytes a history buffer holds, oldest first.
pub uninterp spec fn history_contents(h: HistoryBuffer<u8, 65536>) -> Seq<u8>;

/// The bytes a queue holds, front first.
pub uninterp spec fn queue_contents(q: Deque<u8, 65536>) -> Seq<u8>;

/// Relies on `heapless::HistoryBuffer::new`: the buffer starts empty.
#[verifier::external_body]
pub(crate) fn history_new() -> (r: HistoryBuffer<u8, 65536>)
    ensures
        history_contents(r) == Seq::<u8>::empty(),
{
    HistoryBuffer::new()
}

/// Relies on `heapless::HistoryBuffer::clear_with`: afterwards every slot holds `t`, and the
/// buffer counts as full.
#[verifier::external_body]
pub(crate) fn history_clear_with(h: &mut HistoryBuffer<u8, 65536>, t: u8)
    ensures
        history_contents(*final(h)) == Seq::new(65536, |i: int| t),
{
    h.clear_with(t)
}

/// Relies on `heapless::HistoryBuffer::write`: appends `t`, dropping the oldest byte when full.
#[verifier::external_body]
pub(crate) fn history_write(h: &mut HistoryBuffer<u8, 65536>, t: u8)
    ensures
        history_contents(*old(h)).len() < 65536
            ==> history_contents(*final(h)) == history_contents(*old(h)).push(t),
        history_contents(*old(h)).len() == 65536 ==> history_contents(*final(h))
            == history_contents(*old(h)).drop_first().push(t),
{
    h.write(t)
}

/// Relies on `heapless::HistoryBuffer::as_slices`: the contents, oldest first, in two pieces.
#[verifier::external_body]
pub(crate) fn history_as_slices(h: &HistoryBuffer<u8, 65536>) -> (r: (&[u8], &[u8]))
    ensures
        r.0@ + r.1@ == history_contents(*h),
{
    h.as_slices()
}

/// Relies on `heapless::Deque::new`: the queue starts empty.
#[verifier::external_body]
pub(crate) fn queue_new() -> (r: Deque<u8, 65536>)
    ensures
        queue_contents(r) == Seq::<u8>::empty(),
{
    Deque::new()
}

/// Relies on `heapless::Deque::clear`: the queue is empty afterwards.
#[verifier::external_body]
pub(crate) fn queue_clear(q: &mut Deque<u8, 65536>)
    ensures
        queue_contents(*final(q)) == Seq::<u8>::empty(),
{
    q.clear()
}

/// Relies on `heapless::Deque::len`: the number of queued bytes.
#[verifier::external_body]
pub(crate) fn queue_len(q: &Deque<u8, 65536>) -> (r: usize)
    ensures
        r == queue_contents(*q).len(),
{
    q.len()
}

/// Relies on `heapless::Deque::push_back`: appends unless the queue is full; whether it
/// appended comes back.
#[verifier::external_body]
pub(crate) fn queue_push_back(q: &mut Deque<u8, 65536>, item: u8) -> (r: bool)
    ensures
        r == (queue_contents(*old(q)).len() < 65536),
        r ==> queue_contents(*final(q)) == queue_contents(*old(q)).push(item),
        !r ==> queue_contents(*final(q)) == queue_contents(*old(q)),
{
    q.push_back(item).is_ok()
}

/// Relies on `heapless::Deque::pop_front`: removes and returns the front byte, if any.
#[verifier::external_body]
pub(crate) fn queue_pop_front(q: &mut Deque<u8, 65536>) -> (r: Option<u8>)
    ensures
        queue_contents(*old(q)).len() == 0 ==> r == None::<u8> && queue_contents(*final(q))
            == queue_contents(*old(q)),
        queue_contents(*old(q)).len() > 0 ==> r == Some(queue_contents(*old(q))[0])
            && queue_contents(*final(q)) == queue_contents(*old(q)).drop_first(),
{
    q.pop_front()
}

/// Relies on `heapless::Deque::as_slices`: the contents, front first, in two pieces.
#[verifier::external_body]
pub(crate) fn queue_as_slices(q: &Deque<u8, 65536>) -> (r: (&[u8], &[u8]))
    ensures
        r.0@ + r.1@ == queue_contents(*q),
{
    q.as_slices()
}

} // verus!
