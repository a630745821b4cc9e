//! The mathematical picture of a ring: its slots, cursors and flag.

use vstd::prelude::*;
use vstd::arithmetic::div_mod::lemma_fundamental_div_mod_converse;

verus! {

/// The state of a ring buffer as plain mathematics.
///
/// `slots` is the storage in physical order, `head` the slot that the next
/// insertion writes, `tail` the slot of the oldest element, and `full` tells
/// whether every slot is occupied.
#[verifier::ext_equal]
pub struct Layout<T> {
    pub slots: Seq<T>,
    pub head: nat,
    pub tail: nat,
    pub full: bool,
}

impl<T> Layout<T> {
    /// The number of slots.
    pub open spec fn capacity(self) -> nat {
        self.slots.len()
    }

    /// A ring over `slots` that holds nothing, both cursors on the first slot.
    /// With no slots at all it counts as full as well.
    pub open spec fn vacated(slots: Seq<T>) -> Self {
        Layout { slots, head: 0, tail: 0, full: slots.len() == 0 }
    }

    /// A ring in which every slot of `slots` is occupied, the oldest element first.
    pub open spec fn filled(slots: Seq<T>) -> Self {
        Layout { slots, head: 0, tail: 0, full: true }
    }

    /// Both cursors point into the storage, and the flag is set only where they
    /// meet. A ring without slots has both cursors at zero and is flagged full.
    pub open spec fn wf(self) -> bool {
        if self.capacity() == 0 {
            self.head == 0 && self.tail == 0 && self.full
        } else {
            &&& self.head < self.capacity()
            &&& self.tail < self.capacity()
            &&& self.full ==> self.head == self.tail
        }
    }

    /// The number of held elements.
    pub open spec fn len(self) -> nat {
        if self.full {
            self.capacity()
        } else if self.head >= self.tail {
            (self.head - self.tail) as nat
        } else {
            (self.capacity() + self.head - self.tail) as nat
        }
    }

    pub open spec fn is_empty(self) -> bool {
        self.len() == 0
    }

    pub open spec fn is_full(self) -> bool {
        self.len() == self.capacity()
    }

    /// The position `i`, reduced modulo the capacity.
    pub open spec fn wrap(self, i: int) -> int {
        i % (self.capacity() as int)
    }

    /// The position that follows `i` on the ring.
    pub open spec fn succ(self, i: nat) -> nat {
        self.wrap(i as int + 1) as nat
    }

    /// The slot that holds the element of age rank `i`, rank 0 being the oldest.
    pub open spec fn slot_of(self, i: int) -> int {
        self.wrap(self.tail + i)
    }

    /// Whether slot `j` exists and holds no element.
    pub open spec fn vacant(self, j: int) -> bool {
        0 <= j < self.capacity() && self.wrap(j - self.tail) >= self.len()
    }

    /// The held elements from oldest to newest.
    pub open spec fn items(self) -> Seq<T> {
        Seq::new(self.len(), |i: int| self.slots[self.slot_of(i)])
    }

    /// The oldest element, if there is one.
    pub open spec fn front(self) -> Option<T> {
        if self.is_empty() {
            None
        } else {
            Some(self.slots[self.tail as int])
        }
    }

    /// Insertion that overwrites: `v` goes into the head slot and the head moves
    /// on. If the ring was full the tail moves on too, which discards the oldest
    /// element. A ring without slots stays as it is.
    pub open spec fn push_ignore(self, v: T) -> Self {
        if self.capacity() == 0 {
            self
        } else {
            let head = self.succ(self.head);
            Layout {
                slots: self.slots.update(self.head as int, v),
                head,
                tail: if self.full { self.succ(self.tail) } else { self.tail },
                full: self.full || head == self.tail,
            }
        }
    }

    /// Bounded insertion: as [`Self::push_ignore`] unless the ring is full, in
    /// which case nothing changes.
    pub open spec fn push(self, v: T) -> Self {
        if self.is_full() {
            self
        } else {
            self.push_ignore(v)
        }
    }

    /// Removal of the oldest element: its slot receives `filler`, the tail moves
    /// on and the flag is cleared. An empty ring stays as it is.
    pub open spec fn pop(self, filler: T) -> Self {
        if self.is_empty() {
            self
        } else {
            Layout {
                slots: self.slots.update(self.tail as int, filler),
                head: self.head,
                tail: self.succ(self.tail),
                full: false,
            }
        }
    }

    /// The ring after `vals` have been offered to [`Self::push`] one by one.
    pub open spec fn push_all(self, vals: Seq<T>) -> Self
        decreases vals.len(),
    {
        if vals.len() == 0 {
            self
        } else {
            self.push_all(vals.drop_last()).push(vals.last())
        }
    }

    /// The ring after `vals` have been handed to [`Self::push_ignore`] one by one.
    pub open spec fn push_ignore_all(self, vals: Seq<T>) -> Self
        decreases vals.len(),
    {
        if vals.len() == 0 {
            self
        } else {
            self.push_ignore_all(vals.drop_last()).push_ignore(vals.last())
        }
    }

    /// The ring after one pop for each element of `fillers`, which supplies the
    /// values that the vacated slots receive.
    pub open spec fn pop_all(self, fillers: Seq<T>) -> Self
        decreases fillers.len(),
    {
        if fillers.len() == 0 {
            self
        } else {
            self.pop_all(fillers.drop_last()).pop(fillers.last())
        }
    }
}

impl<T> Layout<T> {
    /// The length never exceeds the capacity, the flag is set exactly when the two
    /// are equal, and the ring is empty exactly when it has no slots or the
    /// cursors meet with the flag cleared.
    pub proof fn lemma_len(self)
        requires
            self.wf(),
        ensures
            self.len() <= self.capacity(),
            self.items().len() == self.len(),
            self.full <==> self.is_full(),
            self.is_empty() <==> self.capacity() == 0 || (!self.full && self.head == self.tail),
    {
    }

    /// Walking `i` slots on from the tail wraps at most once, and leads to a slot
    /// whose distance from the tail is `i` again.
    pub proof fn lemma_slot_of(self, i: int)
        requires
            self.wf(),
            0 <= i < self.capacity(),
        ensures
            0 <= self.slot_of(i) < self.capacity(),
            self.slot_of(i) == if self.tail + i < self.capacity() {
                self.tail + i
            } else {
                self.tail + i - self.capacity()
            },
            self.wrap(self.slot_of(i) - self.tail) == i,
    {
        let c = self.capacity() as int;
        lemma_wrap_near(self.tail + i, c);
        lemma_wrap_near(self.slot_of(i) - self.tail, c);
    }

    /// The cursor that follows `i` is `i + 1`, or the first slot after the last.
    pub proof fn lemma_succ(self, i: nat)
        requires
            i < self.capacity(),
        ensures
            self.succ(i) < self.capacity(),
            self.succ(i) == if i + 1 == self.capacity() {
                0
            } else {
                i + 1
            },
    {
        lemma_wrap_near(i as int + 1, self.capacity() as int);
    }

    /// The head is the slot just behind the newest element.
    pub proof fn lemma_head(self)
        requires
            self.wf(),
            self.capacity() > 0,
        ensures
            self.slot_of(self.len() as int) == self.head,
    {
        lemma_wrap_near(self.tail + self.len() as int, self.capacity() as int);
    }

    /// What an overwriting insertion does to the held elements: on a ring with
    /// room it appends `v`; on a full one it drops the oldest element and appends
    /// `v`; on a ring without slots it does nothing. Only the head slot is
    /// written, and no slot becomes vacant.
    pub proof fn lemma_push_ignore(self, v: T)
        requires
            self.wf(),
        ensures
            self.push_ignore(v).wf(),
            self.push_ignore(v).capacity() == self.capacity(),
            self.push_ignore(v).items() == if self.capacity() == 0 {
                self.items()
            } else if self.full {
                self.items().drop_first().push(v)
            } else {
                self.items().push(v)
            },
            self.push_ignore(v).len() == if self.is_full() {
                self.len()
            } else {
                self.len() + 1
            },
            self.capacity() > 0 ==> forall|j: int| #[trigger]
                self.push_ignore(v).vacant(j) ==> self.vacant(j) && j != self.head,
    {
        self.lemma_len();
        let after = self.push_ignore(v);
        let c = self.capacity() as int;
        if c > 0 {
            self.lemma_succ(self.head);
            self.lemma_succ(self.tail);
            self.lemma_head();
            let expected = if self.full {
                self.items().drop_first().push(v)
            } else {
                self.items().push(v)
            };
            assert(after.items().len() == expected.len());
            assert forall|i: int| 0 <= i < expected.len() implies
                after.items()[i] == expected[i] by {
                after.lemma_slot_of(i);
                if self.full {
                    if i + 1 < c {
                        self.lemma_slot_of(i + 1);
                    }
                } else if i < self.len() {
                    self.lemma_slot_of(i);
                }
            }
            assert(after.items() =~= expected);
            assert forall|j: int| #[trigger] after.vacant(j) implies
                self.vacant(j) && j != self.head by {
                lemma_wrap_near(j - after.tail, c);
                lemma_wrap_near(j - self.tail, c);
            }
        }
    }

    /// What a bounded insertion does to the held elements: it appends `v` where
    /// there is room and changes nothing on a full ring.
    pub proof fn lemma_push(self, v: T)
        requires
            self.wf(),
        ensures
            self.push(v).wf(),
            self.push(v).capacity() == self.capacity(),
            self.push(v).items() == if self.is_full() {
                self.items()
            } else {
                self.items().push(v)
            },
            self.push(v).len() == if self.is_full() {
                self.len()
            } else {
                self.len() + 1
            },
    {
        self.lemma_len();
        self.lemma_push_ignore(v);
    }

    /// The front of a ring that holds something is the first of its elements.
    pub proof fn lemma_front(self)
        requires
            self.wf(),
        ensures
            self.front() == if self.is_empty() {
                None
            } else {
                Some(self.items()[0])
            },
            !self.is_empty() ==> !self.vacant(self.tail as int),
    {
        if !self.is_empty() {
            self.lemma_len();
            self.lemma_slot_of(0);
        }
    }

    /// What a removal does to the held elements: it drops the oldest one, or
    /// nothing where nothing is held. Only the tail slot is written, and only it
    /// becomes vacant.
    pub proof fn lemma_pop(self, filler: T)
        requires
            self.wf(),
        ensures
            self.pop(filler).wf(),
            self.pop(filler).capacity() == self.capacity(),
            self.pop(filler).items() == if self.is_empty() {
                self.items()
            } else {
                self.items().drop_first()
            },
            self.pop(filler).len() == if self.is_empty() {
                0
            } else {
                self.len() - 1
            },
            forall|j: int| #[trigger]
                self.pop(filler).vacant(j) ==> self.vacant(j) || j == self.tail,
    {
        let after = self.pop(filler);
        let c = self.capacity() as int;
        if !self.is_empty() {
            self.lemma_len();
            self.lemma_succ(self.tail);
            let expected = self.items().drop_first();
            assert(after.items().len() == expected.len());
            assert forall|i: int| 0 <= i < expected.len() implies
                after.items()[i] == expected[i] by {
                after.lemma_slot_of(i);
                self.lemma_slot_of(i + 1);
            }
            assert(after.items() =~= expected);
            assert forall|j: int| #[trigger] after.vacant(j) implies
                self.vacant(j) || j == self.tail by {
                lemma_wrap_near(j - after.tail, c);
                lemma_wrap_near(j - self.tail, c);
            }
        }
    }
}

/// Reduction modulo `c` of a position that is less than one lap away from the
/// range `0..c`.
pub proof fn lemma_wrap_near(x: int, c: int)
    requires
        c > 0,
        -c <= x < 2 * c,
    ensures
        x % c == if x < 0 {
            x + c
        } else if x < c {
            x
        } else {
            x - c
        },
{
    if x < 0 {
        lemma_fundamental_div_mod_converse(x, c, -1, x + c);
    } else if x < c {
        lemma_fundamental_div_mod_converse(x, c, 0, x);
    } else {
        lemma_fundamental_div_mod_converse(x, c, 1, x - c);
    }
}

} // verus!
