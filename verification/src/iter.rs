//! The two traversals of a ring buffer: one that borrows, one that consumes.

use vstd::prelude::*;
use vstd::std_specs::iter::IteratorSpecImpl;
use crate::buffer::RingBuffer;
use crate::layout::{lemma_wrap_near, Layout};

verus! {

/// The number of slots that a walk visits when it starts at slot `index` and
/// ends before the head. A walk that starts at the head of a full ring and has
/// not moved yet (`traversed` is false) goes once around; any other walk that
/// stands at the head is over.
pub open spec fn walk_len<T>(layout: Layout<T>, index: nat, traversed: bool) -> nat {
    if layout.capacity() == 0 {
        0
    } else if index == layout.head {
        if layout.full && !traversed {
            layout.capacity()
        } else {
            0
        }
    } else {
        layout.wrap(layout.head - index) as nat
    }
}

/// The slots that such a walk visits, in the order of the visit.
pub open spec fn walk<T>(layout: Layout<T>, index: nat, traversed: bool) -> Seq<T> {
    Seq::new(walk_len(layout, index, traversed), |k: int| layout.slots[layout.wrap(index + k)])
}

/// A walk from the tail that has not moved yet visits exactly the held
/// elements, oldest first.
pub proof fn lemma_walk_from_tail<T>(layout: Layout<T>)
    requires
        layout.wf(),
    ensures
        walk(layout, layout.tail, false) == layout.items(),
{
    let c = layout.capacity() as int;
    if c > 0 {
        lemma_wrap_near(layout.head - layout.tail, c);
    }
    assert(walk(layout, layout.tail, false) =~= layout.items());
}

/// One step of a walk: where it is over nothing is left to visit; elsewhere the
/// slot under the cursor comes first, and the rest is the walk from the next
/// slot on, marked as having moved.
pub proof fn lemma_walk_step<T>(layout: Layout<T>, index: nat, traversed: bool)
    requires
        layout.wf(),
        layout.capacity() > 0,
        index < layout.capacity(),
    ensures
        index == layout.head && (traversed || !layout.full) ==>
            walk_len(layout, index, traversed) == 0,
        !(index == layout.head && (traversed || !layout.full)) ==> {
            &&& walk_len(layout, index, traversed) > 0
            &&& walk(layout, index, traversed)[0] == layout.slots[index as int]
            &&& walk(layout, layout.succ(index), true) ==
                walk(layout, index, traversed).drop_first()
        },
{
    let c = layout.capacity() as int;
    if !(index == layout.head && (traversed || !layout.full)) {
        let next = layout.succ(index);
        layout.lemma_succ(index);
        lemma_wrap_near(layout.head - index, c);
        lemma_wrap_near(layout.head - next, c);
        lemma_wrap_near(index as int, c);
        let rest = walk(layout, index, traversed).drop_first();
        assert(walk(layout, next, true).len() == rest.len());
        assert forall|k: int| 0 <= k < rest.len() implies
            walk(layout, next, true)[k] == rest[k] by {
            lemma_wrap_near(next + k, c);
            lemma_wrap_near(index + k + 1, c);
        }
        assert(walk(layout, next, true) =~= rest);
    }
}

/// A traversal that borrows the buffer and yields references to its elements
/// from oldest to newest. The buffer is left as it is.
pub struct Iter<'a, T: Default> {
    buffer: &'a RingBuffer<T>,
    index: usize,
    traversed: bool,
}

impl<'a, T: Default> Iter<'a, T> {
    /// The cursor stands on a slot of a buffer that is in order.
    #[verifier::type_invariant]
    closed spec fn inv(self) -> bool {
        &&& self.buffer.inv()
        &&& self.buffer@.capacity() > 0 ==> self.index < self.buffer@.capacity()
    }

    /// The references still to be yielded, in order.
    pub closed spec fn pending(self) -> Seq<&'a T> {
        walk(self.buffer@, self.index as nat, self.traversed).as_ref()
    }

    /// Starts a traversal at the oldest element of `buffer`.
    pub(crate) fn new(buffer: &'a RingBuffer<T>) -> (it: Self)
        ensures
            it.pending() == buffer@.items().as_ref(),
    {
        proof {
            use_type_invariant(buffer);
            lemma_walk_from_tail(buffer@);
        }
        Iter { buffer, index: buffer.tail_index(), traversed: false }
    }
}

impl<'a, T: Default> Iterator for Iter<'a, T> {
    type Item = &'a T;

    /// Yields the element under the cursor and moves on, or `None` once the
    /// cursor has come to the head with nothing left.
    fn next(&mut self) -> (r: Option<&'a T>) {
        proof {
            use_type_invariant(&*self);
        }
        let buffer = self.buffer;
        if buffer.capacity() == 0 {
            return None;
        }
        proof {
            lemma_walk_step(buffer@, self.index as nat, self.traversed);
        }
        if self.index == buffer.head_index() && (self.traversed || !buffer.is_full()) {
            return None;
        }
        let item = &buffer.slots()[self.index];
        let ghost before = self.pending();
        self.traversed = true;
        self.index = buffer.advance(self.index);
        proof {
            assert(self.pending() =~= before.drop_first());
        }
        Some(item)
    }
}

impl<'a, T: Default> IteratorSpecImpl for Iter<'a, T> {
    open spec fn obeys_prophetic_iter_laws(&self) -> bool {
        true
    }

    open spec fn remaining(&self) -> Seq<&'a T> {
        self.pending()
    }

    open spec fn will_return_none(&self) -> bool {
        true
    }

    open spec fn decrease(&self) -> Option<nat> {
        Some(self.pending().len())
    }

    open spec fn initial_value_relation(&self, init: &Self) -> bool {
        self.pending() == init.pending()
    }

    open spec fn peek(&self, index: int) -> Option<&'a T> {
        if 0 <= index < self.pending().len() {
            Some(self.pending()[index])
        } else {
            None
        }
    }
}

/// A traversal that owns the buffer and yields its elements from oldest to
/// newest, removing each as it goes.
pub struct IntoIter<T: Default> {
    buffer: RingBuffer<T>,
}

impl<T: Default> IntoIter<T> {
    /// The elements still to be yielded, in order.
    pub closed spec fn pending(self) -> Seq<T> {
        self.buffer@.items()
    }

    /// Starts a traversal that empties `buffer`.
    pub(crate) fn new(buffer: RingBuffer<T>) -> (it: Self)
        ensures
            it.pending() == buffer@.items(),
    {
        IntoIter { buffer }
    }
}

impl<T: Default> Iterator for IntoIter<T> {
    type Item = T;

    /// Pops the oldest element of the buffer.
    fn next(&mut self) -> (r: Option<T>) {
        self.buffer.pop()
    }
}

impl<T: Default> IteratorSpecImpl for IntoIter<T> {
    open spec fn obeys_prophetic_iter_laws(&self) -> bool {
        true
    }

    open spec fn remaining(&self) -> Seq<T> {
        self.pending()
    }

    open spec fn will_return_none(&self) -> bool {
        true
    }

    open spec fn decrease(&self) -> Option<nat> {
        Some(self.pending().len())
    }

    open spec fn initial_value_relation(&self, init: &Self) -> bool {
        self.pending() == init.pending()
    }

    open spec fn peek(&self, index: int) -> Option<T> {
        if 0 <= index < self.pending().len() {
            Some(self.pending()[index])
        } else {
            None
        }
    }
}

impl<T: Default> IntoIterator for RingBuffer<T> {
    type Item = T;

    type IntoIter = IntoIter<T>;

    fn into_iter(self) -> (it: IntoIter<T>)
        ensures
            it.pending() == self@.items(),
    {
        IntoIter::new(self)
    }
}

impl<'a, T: Default> IntoIterator for &'a RingBuffer<T> {
    type Item = &'a T;

    type IntoIter = Iter<'a, T>;

    fn into_iter(self) -> (it: Iter<'a, T>)
        ensures
            it.pending() == self@.items().as_ref(),
    {
        Iter::new(self)
    }
}

} // verus!
