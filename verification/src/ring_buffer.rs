//! A fixed-capacity FIFO ring buffer with a configurable overflow policy.
use vstd::prelude::*;

verus! {

/// What a full buffer does with a newly pushed item.
#[derive(Debug, Clone, Copy, PartialEq, Eq, Structural)]
pub enum OverflowStrategy {
    /// Reject the new item and keep the buffer unchanged.
    DropNewest,
    /// Discard the oldest item to make room for the new one.
    DropOldest,
}

/// A FIFO queue of at most `N` items stored in a circular array.
pub struct RingBuffer<T, const N: usize> {
    data: [Option<T>; N],
    head: usize,
    tail: usize,
    size: usize,
    strategy: OverflowStrategy,
}

/// Index `x` of a circular array of length `n`, for `0 <= x < 2 * n`.
pub open spec fn wrap(x: int, n: int) -> int {
    if x < n { x } else { x - n }
}

/// The index after `i` in a circular array of length `n`.
fn next_index(i: usize, n: usize) -> (r: usize)
    requires
        i < n,
    ensures
        r == wrap(i + 1, n as int),
        r == (i + 1) % (n as int),
{
    proof {
        if i + 1 < n {
            vstd::arithmetic::div_mod::lemma_small_mod((i + 1) as nat, n as nat);
        } else {
            vstd::arithmetic::div_mod::lemma_mod_self_0(n as int);
        }
    }
    (i + 1) % n
}

impl<T, const N: usize> RingBuffer<T, N> {
    /// Array slot of the `i`-th oldest item.
    pub closed spec fn slot(&self, i: int) -> int {
        wrap(self.head + i, N as int)
    }

    /// The circular representation: the head and tail are slots of the array, the tail is
    /// `size` slots after the head, the `size` slots from the head hold items and the other
    /// slots are empty. Every buffer keeps it through every operation.
    #[verifier::type_invariant]
    pub closed spec fn inv(&self) -> bool {
        &&& N > 0
        &&& self.head < N
        &&& self.tail < N
        &&& self.size <= N
        &&& self.tail == self.slot(self.size as int)
        &&& forall|i: int| 0 <= i < self.size ==> (#[trigger] self.data@[self.slot(i)]) is Some
        &&& forall|i: int| self.size <= i < N ==> (#[trigger] self.data@[self.slot(i)]) is None
    }

    /// The overflow policy chosen at construction.
    pub closed spec fn spec_strategy(&self) -> OverflowStrategy {
        self.strategy
    }
}

impl<T, const N: usize> View for RingBuffer<T, N> {
    type V = Seq<T>;

    /// The stored items, oldest first.
    closed spec fn view(&self) -> Seq<T> {
        Seq::new(self.size as nat, |i: int| self.data@[self.slot(i)]->Some_0)
    }
}

impl<T: Copy, const N: usize> RingBuffer<T, N> {
    /// An empty buffer with the given overflow policy.
    pub fn new(strategy: OverflowStrategy) -> (r: Self)
        requires
            N > 0,
        ensures
            r.inv(),
            r@ == Seq::<T>::empty(),
            r.spec_strategy() == strategy,
    {
        let r = Self { data: [None;N], head: 0, tail: 0, size: 0, strategy };
        assert(r@ =~= Seq::<T>::empty());
        r
    }

    /// Whether the buffer holds `N` items.
    pub fn is_full(&self) -> (r: bool)
        ensures
            r == (self@.len() == N),
    {
        self.size == N
    }

    /// Whether the buffer holds no item.
    pub fn is_empty(&self) -> (r: bool)
        ensures
            r == (self@.len() == 0),
    {
        self.size == 0
    }

    /// Appends `item`; on a full buffer the overflow policy decides.
    pub fn push(&mut self, item: T) -> (r: Result<(), T>)
        ensures
            final(self).inv(),
            final(self).spec_strategy() == old(self).spec_strategy(),
            final(self)@.len() <= N,
            old(self)@.len() < N ==> r == Ok::<(), T>(()) && final(self)@ == old(self)@.push(item),
            old(self)@.len() == N && old(self).spec_strategy() == OverflowStrategy::DropNewest
                ==> r == Err::<(), T>(item) && final(self)@ == old(self)@,
            old(self)@.len() == N && old(self).spec_strategy() == OverflowStrategy::DropOldest
                ==> r == Ok::<(), T>(()) && final(self)@ == old(self)@.drop_first().push(item),
    {
        proof { use_type_invariant(&*self); }
        let mut head = self.head;
        let mut size = self.size;
        if self.size == N {
            match self.strategy {
                OverflowStrategy::DropNewest => {
                    return Err(item);
                },
                OverflowStrategy::DropOldest => {
                    head = next_index(self.head, N);
                    size = self.size - 1;
                },
            }
        }
        let ghost old_buf = *self;
        let mut data = self.data;
        let tail = self.tail;
        data[tail] = Some(item);
        let new_tail = next_index(tail, N);
        let new_size = size + 1;
        let ghost skip: int = old_buf.size - size;
        proof {
            assert forall|i: int| 0 <= i < new_size implies #[trigger] data@[wrap(head + i, N as int)] is Some
                && data@[wrap(head + i, N as int)]->Some_0 == (if i < size {
                    old_buf@[i + skip]
                } else {
                    item
                }) by {
                if i < size {
                    assert(wrap(head + i, N as int) == old_buf.slot(i + skip));
                    assert(old_buf.data@[old_buf.slot(i + skip)] is Some);
                }
            }
        }
        proof {
            assert forall|i: int| new_size <= i < N implies #[trigger] data@[wrap(head + i, N as int)] is None by {
                assert(old_buf.size < N);
                assert(wrap(head + i, N as int) == old_buf.slot(i));
                assert(old_buf.data@[old_buf.slot(i)] is None);
                assert(wrap(head + i, N as int) != tail);
            }
        }
        *self = Self { data, head, tail: new_tail, size: new_size, strategy: self.strategy };
        proof {
            if old_buf.size < N {
                assert(self@ =~= old_buf@.push(item));
            } else {
                assert(self@ =~= old_buf@.drop_first().push(item));
            }
        }
        Ok(())
    }

    /// Removes and returns the oldest item, if any.
    pub fn pop(&mut self) -> (r: Option<T>)
        ensures
            final(self).inv(),
            final(self).spec_strategy() == old(self).spec_strategy(),
            old(self)@.len() <= N,
            old(self)@.len() == 0 ==> r == None::<T> && final(self)@ == old(self)@,
            old(self)@.len() > 0 ==> r == Some(old(self)@[0]) && final(self)@ == old(self)@.drop_first(),
    {
        proof { use_type_invariant(&*self); }
        if self.size == 0 {
            return None;
        }
        let ghost old_buf = *self;
        let mut data = self.data;
        let h = self.head;
        let item = data[h];
        data[h] = None;
        let head = next_index(h, N);
        let size = self.size - 1;
        proof {
            assert forall|i: int| 0 <= i < size implies #[trigger] data@[wrap(head + i, N as int)] is Some
                && data@[wrap(head + i, N as int)]->Some_0 == old_buf@[i + 1] by {
                assert(wrap(head + i, N as int) == old_buf.slot(i + 1));
                assert(old_buf.data@[old_buf.slot(i + 1)] is Some);
            }
        }
        proof {
            assert forall|i: int| size <= i < N implies #[trigger] data@[wrap(head + i, N as int)] is None by {
                if i + 1 < N {
                    assert(wrap(head + i, N as int) == old_buf.slot(i + 1));
                    assert(old_buf.data@[old_buf.slot(i + 1)] is None);
                    assert(old_buf.slot(i + 1) != h);
                } else {
                    assert(wrap(head + i, N as int) == h);
                }
            }
        }
        *self = Self { data, head, tail: self.tail, size, strategy: self.strategy };
        proof {
            assert(self@ =~= old_buf@.drop_first());
        }
        item
    }
}

} // verus!
