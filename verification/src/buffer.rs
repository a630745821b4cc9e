//! The ring buffer and its operations.

use vstd::prelude::*;
use vstd::std_specs::iter::IteratorSpec;
use crate::iter::{IntoIter, Iter};
use crate::layout::{lemma_wrap_near, Layout};

verus! {

/// The refusal of [`RingBuffer::push`]: the buffer was full.
#[derive(Debug, Clone, Copy, PartialEq, Eq)]
pub struct RingBufferError;

/// The two cursors and the flag. An operation replaces them as one value, so
/// that a buffer never passes through a state in which they disagree.
struct Cursor {
    head: usize,
    tail: usize,
    full: bool,
}

/// A queue of at most `capacity` elements in storage that never grows.
///
/// Elements leave in the order in which they came. [`RingBuffer::push`] refuses
/// an element when the buffer is full; [`RingBuffer::push_ignore`] makes room by
/// discarding the oldest one. Slots that hold no element keep a default value
/// of `T`, which is why the operations ask for `T: Default`.
pub struct RingBuffer<T: Default> {
    data: Vec<T>,
    cursor: Cursor,
}

/// Whether `x` is a value that `T::default()` can return.
pub open spec fn is_default<T: Default>(x: T) -> bool {
    call_ensures(T::default, (), x)
}

/// Whether every slot of `layout` that holds no element keeps a default value.
pub open spec fn vacant_slots_default<T: Default>(layout: Layout<T>) -> bool {
    forall|j: int| #[trigger] layout.vacant(j) ==> is_default(layout.slots[j])
}

/// Whatever is written into an occupied slot, the vacant slots keep their
/// default values.
proof fn lemma_write_occupied<T: Default>(layout: Layout<T>, j: int)
    requires
        vacant_slots_default(layout),
        0 <= j < layout.capacity(),
        !layout.vacant(j),
    ensures
        forall|x: T|
            vacant_slots_default(Layout { slots: #[trigger] layout.slots.update(j, x), ..layout }),
{
    assert forall|x: T|
        vacant_slots_default(
            Layout { slots: #[trigger] layout.slots.update(j, x), ..layout },
        ) by {
        let written = Layout { slots: layout.slots.update(j, x), ..layout };
        assert forall|i: int| #[trigger] written.vacant(i) implies is_default(written.slots[i]) by {
            assert(layout.vacant(i));
        }
    }
}

impl<T: Default> View for RingBuffer<T> {
    type V = Layout<T>;

    closed spec fn view(&self) -> Layout<T> {
        Layout {
            slots: self.data@,
            head: self.cursor.head as nat,
            tail: self.cursor.tail as nat,
            full: self.cursor.full,
        }
    }
}

impl<T: Default> RingBuffer<T> {
    /// What holds of every buffer: its layout is well formed, and its vacant
    /// slots keep default values.
    #[verifier::type_invariant]
    pub open spec fn inv(self) -> bool {
        self@.wf() && vacant_slots_default(self@)
    }

    /// Creates an empty buffer of `n` slots, each holding a default value.
    pub fn with_capacity(n: usize) -> (rb: Self)
        ensures
            rb@ == Layout::vacated(rb@.slots),
            rb@.capacity() == n,
            rb@.items() == Seq::<T>::empty(),
            forall|j: int| 0 <= j < n ==> is_default(#[trigger] rb@.slots[j]),
    {
        let mut data: Vec<T> = Vec::with_capacity(n);
        let mut i: usize = 0;
        while i < n
            invariant
                i <= n,
                data@.len() == i,
                forall|j: int| 0 <= j < i ==> is_default(#[trigger] data@[j]),
            decreases n - i,
        {
            data.push(T::default());
            i += 1;
        }
        RingBuffer { data, cursor: Cursor { head: 0, tail: 0, full: n == 0 } }
    }

    /// Reduces the position `v` modulo the capacity.
    fn mask(&self, v: usize) -> (r: usize)
        requires
            self@.capacity() > 0,
        ensures
            r == self@.wrap(v as int),
    {
        v % self.data.len()
    }

    /// The position that follows `i` on the ring.
    pub(crate) fn advance(&self, i: usize) -> (r: usize)
        requires
            i < self@.capacity(),
        ensures
            r == self@.succ(i as nat),
    {
        assert(self.data.len() == self.data@.len());
        self.mask(i + 1)
    }

    /// Returns the number of elements the buffer is able to hold.
    pub fn capacity(&self) -> (n: usize)
        ensures
            n == self@.capacity(),
    {
        self.data.len()
    }

    /// Returns the number of elements the buffer holds.
    pub fn len(&self) -> (n: usize)
        ensures
            n == self@.len(),
            n == self@.items().len(),
            n <= self@.capacity(),
    {
        proof {
            use_type_invariant(self);
        }
        if self.cursor.full {
            self.data.len()
        } else if self.cursor.head >= self.cursor.tail {
            self.cursor.head - self.cursor.tail
        } else {
            self.data.len() - self.cursor.tail + self.cursor.head
        }
    }

    /// Returns `true` if the buffer holds no element.
    pub fn is_empty(&self) -> (b: bool)
        ensures
            b == self@.is_empty(),
            b == (self@.items().len() == 0),
    {
        self.len() == 0
    }

    /// Returns `true` if the buffer holds as many elements as it has slots.
    pub fn is_full(&self) -> (b: bool)
        ensures
            b == self@.is_full(),
            b == self@.full,
            b == (self@.items().len() == self@.capacity()),
    {
        proof {
            use_type_invariant(self);
            self@.lemma_len();
        }
        self.cursor.full
    }

    /// Returns the storage in physical order, vacant slots included.
    pub fn slots(&self) -> (s: &[T])
        ensures
            s@ == self@.slots,
    {
        self.data.as_slice()
    }

    /// The slot that the next insertion writes.
    pub(crate) fn head_index(&self) -> (i: usize)
        ensures
            i == self@.head,
    {
        self.cursor.head
    }

    /// The slot of the oldest element.
    pub(crate) fn tail_index(&self) -> (i: usize)
        ensures
            i == self@.tail,
    {
        self.cursor.tail
    }

    /// Appends `v` even if the buffer is full, in which case the oldest element
    /// is discarded to make room. A buffer without slots stays as it is.
    pub fn push_ignore(&mut self, v: T)
        ensures
            final(self)@ == old(self)@.push_ignore(v),
            final(self)@.items() == if old(self)@.capacity() == 0 {
                old(self)@.items()
            } else if old(self)@.is_full() {
                old(self)@.items().drop_first().push(v)
            } else {
                old(self)@.items().push(v)
            },
            final(self)@.len() == if old(self)@.is_full() {
                old(self)@.len()
            } else {
                old(self)@.len() + 1
            },
            final(self)@.capacity() == old(self)@.capacity(),
    {
        proof {
            use_type_invariant(&*self);
            self@.lemma_len();
            self@.lemma_push_ignore(v);
        }
        if self.data.len() == 0 {
            return ;
        }
        let head = self.cursor.head;
        let next = self.advance(head);
        let tail = if self.cursor.full {
            self.advance(self.cursor.tail)
        } else {
            self.cursor.tail
        };
        let ghost target = self@.push_ignore(v);
        proof {
            let moved = Layout { slots: self@.slots, ..target };
            assert forall|j: int| #[trigger] moved.vacant(j) implies is_default(moved.slots[j]) by {
                assert(target.vacant(j));
            }
        }
        self.cursor = Cursor { head: next, tail, full: self.cursor.full || next == tail };
        proof {
            assert(!target.vacant(head as int));
            lemma_write_occupied(self@, head as int);
        }
        self.data[head] = v;
    }

    /// Appends `v` if the buffer is not full, and refuses it otherwise, leaving
    /// the buffer as it was.
    pub fn push(&mut self, v: T) -> (r: Result<(), RingBufferError>)
        ensures
            r is Ok <==> !old(self)@.is_full(),
            final(self)@ == old(self)@.push(v),
            final(self)@.items() == if old(self)@.is_full() {
                old(self)@.items()
            } else {
                old(self)@.items().push(v)
            },
            final(self)@.len() == if old(self)@.is_full() {
                old(self)@.len()
            } else {
                old(self)@.len() + 1
            },
            final(self)@.capacity() == old(self)@.capacity(),
    {
        proof {
            use_type_invariant(&*self);
            self@.lemma_len();
        }
        if self.is_full() {
            return Err(RingBufferError);
        }
        self.push_ignore(v);
        Ok(())
    }

    /// Removes the oldest element and returns it, or returns `None` if the
    /// buffer is empty. The slot that is given up receives a default value.
    pub fn pop(&mut self) -> (r: Option<T>)
        ensures
            r == old(self)@.front(),
            r == if old(self)@.items().len() == 0 {
                None
            } else {
                Some(old(self)@.items()[0])
            },
            r is None ==> final(self)@ == old(self)@,
            r is Some ==> {
                let filler = final(self)@.slots[old(self)@.tail as int];
                is_default(filler) && final(self)@ == old(self)@.pop(filler)
            },
            final(self)@.items() == if r is Some {
                old(self)@.items().drop_first()
            } else {
                old(self)@.items()
            },
            final(self)@.len() == if r is Some {
                old(self)@.len() - 1
            } else {
                0
            },
            final(self)@.capacity() == old(self)@.capacity(),
    {
        proof {
            use_type_invariant(&*self);
            self@.lemma_len();
            self@.lemma_front();
        }
        if self.is_empty() {
            return None;
        }
        let tail = self.cursor.tail;
        let next = self.advance(tail);
        let ghost before = self@;
        let mut out = T::default();
        proof {
            lemma_write_occupied(before, tail as int);
        }
        core::mem::swap(&mut self.data[tail], &mut out);
        proof {
            let target = before.pop(self@.slots[tail as int]);
            before.lemma_pop(self@.slots[tail as int]);
            assert forall|j: int| #[trigger] target.vacant(j) implies
                is_default(target.slots[j]) by {
                assert(before.vacant(j) || j == tail);
            }
        }
        self.cursor = Cursor { head: self.cursor.head, tail: next, full: false };
        Some(out)
    }

    /// Removes every element. The capacity stays as it was, both cursors return
    /// to the first slot, and every slot holds a default value again.
    pub fn clear(&mut self)
        ensures
            final(self)@ == Layout::vacated(final(self)@.slots),
            final(self)@.capacity() == old(self)@.capacity(),
            final(self)@.items() == Seq::<T>::empty(),
            forall|j: int| 0 <= j < final(self)@.capacity() ==>
                is_default(#[trigger] final(self)@.slots[j]),
    {
        loop
            invariant
                self@.capacity() == old(self)@.capacity(),
            ensures
                self@.capacity() == old(self)@.capacity(),
                self@.is_empty(),
            decreases self@.len(),
        {
            if self.pop().is_none() {
                break ;
            }
        }
        proof {
            use_type_invariant(&*self);
            self@.lemma_len();
            let c = self@.capacity() as int;
            assert forall|j: int| 0 <= j < c implies is_default(#[trigger] self@.slots[j]) by {
                lemma_wrap_near(j - self@.tail, c);
                assert(self@.vacant(j));
            }
            let rewound = Layout::vacated(self@.slots);
            assert forall|j: int| #[trigger] rewound.vacant(j) implies
                is_default(rewound.slots[j]) by {
                assert(is_default(self@.slots[j]));
            }
        }
        self.cursor = Cursor { head: 0, tail: 0, full: self.data.len() == 0 };
    }

    /// Returns a traversal of the held elements, oldest first, that leaves the
    /// buffer as it is.
    pub fn iter(&self) -> (it: Iter<'_, T>)
        ensures
            it.pending() == self@.items().as_ref(),
            it.pending().len() == self@.len(),
    {
        Iter::new(self)
    }

    /// Turns the buffer into a traversal that removes and yields its elements,
    /// oldest first.
    pub fn into_iter(self) -> (it: IntoIter<T>)
        ensures
            it.pending() == self@.items(),
    {
        IntoIter::new(self)
    }

    /// Builds a full buffer out of what `iter` yields: its capacity is the
    /// number of values, and the first of them is the oldest element.
    ///
    /// The traversal has to come to an end, which is what the two conditions
    /// say in the terms in which iterators are specified.
    pub fn from_iter<I: Iterator<Item = T>>(iter: I) -> (rb: Self)
        requires
            iter.obeys_prophetic_iter_laws(),
            iter.decrease() is Some,
        ensures
            rb@ == Layout::filled(iter.remaining()),
            rb@.items() == iter.remaining(),
    {
        let mut data: Vec<T> = Vec::new();
        let mut rest = iter;
        loop
            invariant
                rest.obeys_prophetic_iter_laws(),
                rest.decrease() is Some,
                data@ + rest.remaining() == iter.remaining(),
            ensures
                data@ == iter.remaining(),
            decreases rest.decrease()->0,
        {
            match rest.next() {
                Some(v) => {
                    data.push(v);
                },
                None => {
                    break ;
                },
            }
        }
        Self::from_vec(data)
    }

    /// Builds a full buffer out of `items`: its capacity is their number, and
    /// the first of them is the oldest element.
    pub fn from_vec(items: Vec<T>) -> (rb: Self)
        ensures
            rb@ == Layout::filled(items@),
            rb@.items() == items@,
    {
        proof {
            let layout = Layout::filled(items@);
            assert forall|i: int| 0 <= i < items@.len() implies layout.items()[i] == items@[i] by {
                layout.lemma_slot_of(i);
            }
            assert(layout.items() =~= items@);
            assert forall|j: int| #[trigger] layout.vacant(j) implies
                is_default(layout.slots[j]) by {
                lemma_wrap_near(j, items@.len() as int);
            }
        }
        RingBuffer { data: items, cursor: Cursor { head: 0, tail: 0, full: true } }
    }
}

} // verus!
