//! A bounded FIFO ring of fixed capacity.
use vstd::prelude::*;

verus! {

/// A ring of `size + 1` slots holding at most `size` items: one slot stays
/// free so that a full ring is told apart from an empty one.
pub struct RingBuffer<T> {
    slots: Vec<Option<T>>,
    head: usize,
    tail: usize,
}

/// Slot index `k` places after slot `head` in a ring of `cap` slots.
pub open spec fn ring_index(head: int, k: int, cap: int) -> int {
    if head + k < cap {
        head + k
    } else {
        head + k - cap
    }
}

impl<T> RingBuffer<T> {
    /// Number of slots.
    pub closed spec fn cap(&self) -> nat {
        self.slots@.len()
    }

    /// Maximum number of items held.
    pub open spec fn size(&self) -> nat {
        (self.cap() - 1) as nat
    }

    /// Number of items held.
    pub closed spec fn count(&self) -> nat {
        if self.tail >= self.head {
            (self.tail - self.head) as nat
        } else {
            (self.cap() - self.head + self.tail) as nat
        }
    }

    /// The items held, oldest first.
    pub closed spec fn items(&self) -> Seq<T> {
        Seq::new(
            self.count(),
            |k: int| self.slots@[ring_index(self.head as int, k, self.cap() as int)]->Some_0,
        )
    }

    /// The slots from `head` up to `tail` hold items.
    #[verifier::type_invariant]
    spec fn wf(&self) -> bool {
        &&& self.slots@.len() >= 2
        &&& self.head < self.slots@.len()
        &&& self.tail < self.slots@.len()
        &&& forall|k: int|
            0 <= k < self.count() ==> (#[trigger] self.slots@[ring_index(
                self.head as int,
                k,
                self.slots@.len() as int,
            )]) is Some
    }

    /// The slot after slot `i`.
    fn next(&self, i: usize) -> (j: usize)
        requires
            i < self.cap(),
        ensures
            j == ring_index(i as int, 1, self.cap() as int),
    {
        let n = self.slots.len();
        if i + 1 == n {
            0
        } else {
            i + 1
        }
    }

    /// An empty ring holding at most `size` items.
    pub fn new(size: usize) -> (r: Self)
        requires
            0 < size < usize::MAX,
        ensures
            r.size() == size,
            r.items() == Seq::<T>::empty(),
    {
        let mut slots: Vec<Option<T>> = Vec::new();
        let mut i: usize = 0;
        while i < size + 1
            invariant
                size < usize::MAX,
                i <= size + 1,
                slots@.len() == i,
                forall|j: int| 0 <= j < i ==> #[trigger] slots@[j] is None,
            decreases size + 1 - i,
        {
            slots.push(None);
            i += 1;
        }
        let r = RingBuffer { slots, head: 0, tail: 0 };
        assert(r.items() =~= Seq::<T>::empty());
        r
    }

    /// Number of items held.
    pub fn len(&self) -> (n: usize)
        ensures
            n == self.items().len(),
            n <= self.size(),
    {
        proof {
            use_type_invariant(self);
        }
        if self.tail >= self.head {
            self.tail - self.head
        } else {
            self.slots.len() - self.head + self.tail
        }
    }

    /// Whether no item is held.
    pub fn is_empty(&self) -> (b: bool)
        ensures
            b == (self.items().len() == 0),
    {
        proof {
            use_type_invariant(self);
        }
        self.head == self.tail
    }

    /// Append `item` unless the ring is full, in which case it is handed back.
    pub fn try_push(&mut self, item: T) -> (r: Result<(), T>)
        ensures
            final(self).size() == old(self).size(),
            old(self).items().len() < old(self).size() ==> r is Ok && final(self).items() == old(self).items().push(item),
            old(self).items().len() == old(self).size() ==> r == Err::<(), T>(item) && final(self).items() == old(self).items(),
    {
        proof {
            use_type_invariant(&*self);
        }
        let next_tail = self.next(self.tail);
        if next_tail == self.head {
            return Err(item);
        }
        let ghost old_items = self.items();
        let ghost cap = self.cap() as int;
        let ghost n = self.count() as int;
        let t = self.tail;
        assert(t == ring_index(self.head as int, n, cap));
        assert forall|k: int| 0 <= k < n implies #[trigger] ring_index(self.head as int, k, cap) != t by {}
        self.slots[t] = Some(item);
        self.tail = next_tail;
        assert(self.count() == n + 1);
        assert forall|k: int| 0 <= k < n implies #[trigger] self.slots@[ring_index(
            self.head as int,
            k,
            cap,
        )] == old(self).slots@[ring_index(self.head as int, k, cap)] by {}
        assert(self.items() =~= old_items.push(item));
        Ok(())
    }

    /// Remove and return the oldest item, if any.
    pub fn try_pop(&mut self) -> (r: Option<T>)
        ensures
            final(self).size() == old(self).size(),
            old(self).items().len() == 0 ==> r is None && final(self).items() == old(self).items(),
            old(self).items().len() > 0 ==> r == Some(old(self).items()[0]) && final(self).items()
                == old(self).items().drop_first(),
    {
        proof {
            use_type_invariant(&*self);
        }
        if self.head == self.tail {
            return None;
        }
        let ghost old_items = self.items();
        let ghost cap = self.cap() as int;
        let ghost n = self.count() as int;
        let h = self.head;
        assert(h == ring_index(h as int, 0, cap));
        assert(self.slots@[h as int] is Some);
        let next_head = self.next(h);
        assert forall|k: int| 0 <= k < n - 1 implies #[trigger] ring_index(next_head as int, k, cap)
            == ring_index(h as int, k + 1, cap) by {}
        assert forall|k: int| 0 <= k < n - 1 implies (#[trigger] self.slots@[ring_index(
            next_head as int,
            k,
            cap,
        )]) is Some by {
            assert(self.slots@[ring_index(h as int, k + 1, cap)] is Some);
        }
        self.head = next_head;
        assert(self.count() == n - 1);
        let mut slot: Option<T> = None;
        std::mem::swap(&mut self.slots[h], &mut slot);
        assert(slot == Some(old_items[0]));
        assert forall|k: int| 0 <= k < self.count() implies #[trigger] self.items()[k]
            == old_items.drop_first()[k] by {
            assert(ring_index(h as int, k + 1, cap) != h);
        }
        assert(self.items() =~= old_items.drop_first());
        match slot {
            Some(x) => Some(x),
            None => None,
        }
    }
}

} // verus!
