//! What holds of whole runs of operations, proved over [`Layout`].
//!
//! The operations of [`crate::RingBuffer`] are specified as the transitions
//! [`Layout::push`], [`Layout::push_ignore`] and [`Layout::pop`]. The laws below
//! speak of those transitions, so each of them holds of every buffer. A pop
//! writes a filler into the slot it gives up; the laws hold whatever the
//! fillers are.

use vstd::prelude::*;
use vstd::arithmetic::div_mod::{lemma_add_mod_noop_right, lemma_mod_equivalence};
use crate::iter::{lemma_walk_from_tail, walk};
use crate::layout::{lemma_wrap_near, Layout};

verus! {

/// Bounded insertions that fit are all accepted: they leave the ring in order,
/// append the values to the held elements in the order given, and add their
/// number to the length.
pub proof fn lemma_push_all_appends<T>(ring: Layout<T>, vals: Seq<T>)
    requires
        ring.wf(),
        ring.len() + vals.len() <= ring.capacity(),
    ensures
        ring.push_all(vals).wf(),
        ring.push_all(vals).capacity() == ring.capacity(),
        ring.push_all(vals).items() == ring.items() + vals,
        ring.push_all(vals).len() == ring.len() + vals.len(),
    decreases vals.len(),
{
    ring.lemma_len();
    if vals.len() == 0 {
        assert(ring.items() + vals =~= ring.items());
    } else {
        let earlier = ring.push_all(vals.drop_last());
        lemma_push_all_appends(ring, vals.drop_last());
        earlier.lemma_push(vals.last());
        assert(earlier.items().push(vals.last()) =~= ring.items() + vals);
    }
}

/// Removals from a ring that holds enough: they leave the ring in order, drop
/// as many of the oldest elements as there are fillers, and take their number
/// off the length.
pub proof fn lemma_pop_all_skips<T>(ring: Layout<T>, fillers: Seq<T>)
    requires
        ring.wf(),
        fillers.len() <= ring.len(),
    ensures
        ring.pop_all(fillers).wf(),
        ring.pop_all(fillers).capacity() == ring.capacity(),
        ring.pop_all(fillers).items() == ring.items().skip(fillers.len() as int),
        ring.pop_all(fillers).len() == ring.len() - fillers.len(),
    decreases fillers.len(),
{
    ring.lemma_len();
    if fillers.len() == 0 {
        assert(ring.items().skip(0) =~= ring.items());
    } else {
        let earlier = ring.pop_all(fillers.drop_last());
        lemma_pop_all_skips(ring, fillers.drop_last());
        earlier.lemma_pop(fillers.last());
        assert(earlier.items().drop_first() =~= ring.items().skip(fillers.len() as int));
    }
}

/// Overwriting insertions keep the newest: after them the ring holds what it
/// held before followed by the new values, cut down from the front to the
/// capacity.
pub proof fn lemma_push_ignore_all_keeps_newest<T>(ring: Layout<T>, vals: Seq<T>)
    requires
        ring.wf(),
    ensures
        ring.push_ignore_all(vals).wf(),
        ring.push_ignore_all(vals).capacity() == ring.capacity(),
        ring.push_ignore_all(vals).items() == {
            let all = ring.items() + vals;
            if all.len() <= ring.capacity() {
                all
            } else {
                all.skip(all.len() - ring.capacity())
            }
        },
    decreases vals.len(),
{
    ring.lemma_len();
    let all = ring.items() + vals;
    if vals.len() == 0 {
        assert(all =~= ring.items());
    } else {
        let earlier = ring.push_ignore_all(vals.drop_last());
        lemma_push_ignore_all_keeps_newest(ring, vals.drop_last());
        earlier.lemma_len();
        earlier.lemma_push_ignore(vals.last());
        let kept = if all.len() <= ring.capacity() {
            all
        } else {
            all.skip(all.len() - ring.capacity())
        };
        assert(ring.items() + vals.drop_last() =~= all.drop_last());
        assert(ring.push_ignore_all(vals).items() =~= kept);
    }
}

/// Where overwriting insertions put their values: on a ring that started
/// vacated, the head stands at the number of insertions modulo the capacity,
/// and each of the newest values, as many as there are slots, sits in the slot
/// of its own rank modulo the capacity.
pub proof fn lemma_stored_order<T>(slots: Seq<T>, vals: Seq<T>, i: int)
    requires
        slots.len() >= 1,
        0 <= i < vals.len(),
        vals.len() <= i + slots.len(),
    ensures
        Layout::vacated(slots).push_ignore_all(vals).head == vals.len() % slots.len(),
        Layout::vacated(slots).push_ignore_all(vals).slots[i % (slots.len() as int)] == vals[i],
    decreases vals.len(),
{
    let c = slots.len() as int;
    let m = vals.len() as int;
    let earlier = Layout::vacated(slots).push_ignore_all(vals.drop_last());
    lemma_push_ignore_all_keeps_newest(Layout::vacated(slots), vals.drop_last());
    earlier.lemma_push_ignore(vals.last());
    if m == 1 {
        lemma_wrap_near(0, c);
    } else if i == m - 1 {
        lemma_stored_order(slots, vals.drop_last(), i - 1);
    } else {
        lemma_stored_order(slots, vals.drop_last(), i);
        lemma_mod_equivalence(m - 1, i, c);
        lemma_wrap_near(m - 1 - i, c);
    }
    lemma_add_mod_noop_right(1, m - 1, c);
}

/// A ring of `n >= 1` slots that starts empty accepts exactly `n` bounded
/// insertions: after `k` of them it holds `k` elements, it is full when `k`
/// reaches `n` and not before, and one more insertion is refused and leaves
/// it unchanged.
pub proof fn lemma_fills_at_capacity<T>(ring: Layout<T>, vals: Seq<T>, k: int, extra: T)
    requires
        ring.wf(),
        ring.is_empty(),
        ring.capacity() >= 1,
        vals.len() == ring.capacity(),
        0 <= k <= vals.len(),
    ensures
        ring.push_all(vals.take(k)).len() == k,
        ring.push_all(vals.take(k)).is_full() <==> k == vals.len(),
        ring.push_all(vals).is_full(),
        ring.push_all(vals).push(extra) == ring.push_all(vals),
{
    lemma_push_all_appends(ring, vals.take(k));
    lemma_push_all_appends(ring, vals);
}

/// With no removal in between, the length counts the accepted insertions: `k`
/// values offered to an empty ring with room for them leave it with length `k`.
pub proof fn lemma_len_counts_pushes<T>(ring: Layout<T>, vals: Seq<T>)
    requires
        ring.wf(),
        ring.is_empty(),
        vals.len() <= ring.capacity(),
    ensures
        ring.push_all(vals).len() == vals.len(),
{
    lemma_push_all_appends(ring, vals);
}

/// A removal from a ring that holds something takes exactly one off the length.
pub proof fn lemma_pop_shortens_by_one<T>(ring: Layout<T>, filler: T)
    requires
        ring.wf(),
        !ring.is_empty(),
    ensures
        ring.pop(filler).len() == ring.len() - 1,
{
    ring.lemma_pop(filler);
}

/// First in, first out: after values that fit have been pushed into an empty
/// ring, the removal that follows `k` earlier ones finds `vals[k]` at the
/// front, and as many removals as values leave the ring empty.
pub proof fn lemma_round_trip<T>(ring: Layout<T>, vals: Seq<T>, fillers: Seq<T>, k: int)
    requires
        ring.wf(),
        ring.is_empty(),
        vals.len() <= ring.capacity(),
        fillers.len() == vals.len(),
        0 <= k < vals.len(),
    ensures
        ring.push_all(vals).items() == vals,
        ring.push_all(vals).pop_all(fillers.take(k)).front() == Some(vals[k]),
        ring.push_all(vals).pop_all(fillers).is_empty(),
{
    let loaded = ring.push_all(vals);
    ring.lemma_len();
    lemma_push_all_appends(ring, vals);
    assert(ring.items() + vals =~= vals);
    lemma_pop_all_skips(loaded, fillers.take(k));
    lemma_pop_all_skips(loaded, fillers);
    loaded.pop_all(fillers.take(k)).lemma_front();
}

/// Overwriting on a full ring: the oldest element goes, the others stay in
/// order and `v` comes last; and the removal that follows `k` earlier ones
/// finds the element of rank `k` of that sequence at the front.
pub proof fn lemma_overwrite<T>(ring: Layout<T>, v: T, fillers: Seq<T>, k: int)
    requires
        ring.wf(),
        ring.is_full(),
        ring.capacity() >= 1,
        fillers.len() == ring.capacity(),
        0 <= k < ring.capacity(),
    ensures
        ring.push_ignore(v).is_full(),
        ring.push_ignore(v).items() == ring.items().drop_first().push(v),
        ring.push_ignore(v).pop_all(fillers.take(k)).front() == Some(
            ring.items().drop_first().push(v)[k],
        ),
        ring.push_ignore(v).pop_all(fillers).is_empty(),
{
    let after = ring.push_ignore(v);
    ring.lemma_len();
    ring.lemma_push_ignore(v);
    after.lemma_len();
    lemma_pop_all_skips(after, fillers.take(k));
    lemma_pop_all_skips(after, fillers);
    after.pop_all(fillers.take(k)).lemma_front();
}

/// A traversal of a full ring visits every slot once, wherever the cursors
/// stand, and visits the held elements from oldest to newest.
pub proof fn lemma_full_walk_goes_once_around<T>(ring: Layout<T>)
    requires
        ring.wf(),
        ring.is_full(),
    ensures
        walk(ring, ring.tail, false).len() == ring.capacity(),
        walk(ring, ring.tail, false) == ring.items(),
{
    ring.lemma_len();
    lemma_walk_from_tail(ring);
}

/// A ring without slots is empty and full at once; it refuses every bounded
/// insertion, ignores every overwriting one, and has nothing to remove.
pub proof fn lemma_zero_capacity<T>(ring: Layout<T>, v: T)
    requires
        ring.wf(),
        ring.capacity() == 0,
    ensures
        ring.is_empty(),
        ring.is_full(),
        ring.push(v) == ring,
        ring.push_ignore(v) == ring,
        ring.front() is None,
        ring.pop(v) == ring,
{
}

} // verus!
