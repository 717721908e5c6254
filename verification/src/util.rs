//! General-purpose containers.

use vstd::prelude::*;

verus! {

/// Where the `k`-th live element of a ring of capacity `n` sits, for a
/// ring whose oldest element sits at slot `r`.
pub open spec fn ring_slot(r: int, k: int, n: int) -> int {
    if r + k < n {
        r + k
    } else {
        r + k - n
    }
}

/// A fixed-capacity first-in, first-out byte-of-anything queue backed
/// by an array of slots, read position and live count kept explicitly
/// so that no index ever grows without bound.
pub struct CircularBuffer<T, const N: usize> {
    slots: Vec<Option<T>>,
    r_index: usize,
    count: usize,
}

impl<T, const N: usize> CircularBuffer<T, N> {
    /// The buffer's backing storage is intact: `N` slots, the read
    /// position inside them, and every live position occupied.
    pub closed spec fn wf(self) -> bool {
        &&& self.slots@.len() == N
        &&& self.count <= N
        &&& (N == 0 ==> self.r_index == 0)
        &&& (N > 0 ==> self.r_index < N)
        &&& (forall|k: int|
            0 <= k < self.count ==> (#[trigger] self.slots@[ring_slot(
                self.r_index as int,
                k,
                N as int,
            )]) is Some)
    }

    /// The live contents, oldest first.
    pub closed spec fn contents(self) -> Seq<T> {
        Seq::new(
            self.count as nat,
            |k: int| self.slots@[ring_slot(self.r_index as int, k, N as int)]->Some_0,
        )
    }

    /// A buffer never holds more than its capacity: what `is_full`
    /// reports is the largest the contents can get.
    pub proof fn lemma_contents_bounded(self)
        requires
            self.wf(),
        ensures
            self.contents().len() <= N,
    {
    }

    /// An empty buffer.
    pub fn new() -> (r: Self)
        ensures
            r.wf(),
            r.contents() == Seq::<T>::empty(),
    {
        let mut slots: Vec<Option<T>> = Vec::new();
        let mut k: usize = 0;
        while k < N
            invariant
                slots@.len() == k,
                k <= N,
            decreases N - k,
        {
            slots.push(None);
            k = k + 1;
        }
        let r = CircularBuffer { slots, r_index: 0, count: 0 };
        proof {
            assert(r.contents() =~= Seq::<T>::empty());
        }
        r
    }

    /// Whether nothing is queued.
    pub fn is_empty(&self) -> (r: bool)
        requires
            self.wf(),
        ensures
            r == (self.contents().len() == 0),
    {
        self.count == 0
    }

    /// Whether the buffer is at capacity.
    pub fn is_full(&self) -> (r: bool)
        requires
            self.wf(),
        ensures
            r == (self.contents().len() == N),
    {
        self.count == N
    }

    /// Pop the oldest element, or `None` when nothing is queued.
    pub fn read(&mut self) -> (r: Option<T>)
        requires
            old(self).wf(),
        ensures
            final(self).wf(),
            old(self).contents().len() == 0 ==> r is None && final(self).contents() == old(self).contents(),
            old(self).contents().len() > 0 ==> r == Some(old(self).contents()[0])
                && final(self).contents() == old(self).contents().skip(1),
    {
        if self.count == 0 {
            proof {
                assert(self.contents() =~= old(self).contents());
            }
            None
        } else {
            let ghost pre = *self;
            let value = self.slots[self.r_index].take();
            let ghost mid = *self;
            proof {
                assert(ring_slot(pre.r_index as int, 0, N as int) == pre.r_index as int);
                assert(value == Some(pre.contents()[0]));
            }
            self.r_index = if self.r_index + 1 == N {
                0
            } else {
                self.r_index + 1
            };
            self.count = self.count - 1;
            proof {
                assert forall|k: int| 0 <= k < self.count implies (#[trigger] self.slots@[
                ring_slot(self.r_index as int, k, N as int)]) is Some && self.slots@[ring_slot(
                    self.r_index as int,
                    k,
                    N as int,
                )] == pre.slots@[ring_slot(pre.r_index as int, k + 1, N as int)] by {
                    assert(ring_slot(self.r_index as int, k, N as int) == ring_slot(
                        pre.r_index as int,
                        k + 1,
                        N as int,
                    ));
                    assert(ring_slot(pre.r_index as int, k + 1, N as int) != pre.r_index as int);
                }
                assert(self.contents() =~= pre.contents().skip(1));
            }
            value
        }
    }

    /// Queue an element, or report `None` — dropping it — when the
    /// buffer is at capacity.
    pub fn write(&mut self, value: T) -> (r: Option<()>)
        requires
            old(self).wf(),
        ensures
            final(self).wf(),
            old(self).contents().len() == N ==> r is None && final(self).contents() == old(self).contents(),
            old(self).contents().len() < N ==> r == Some(()) && final(self).contents() == old(self).contents().push(value),
    {
        if self.count == N {
            proof {
                assert(self.contents() =~= old(self).contents());
            }
            None
        } else {
            let ghost pre = *self;
            let idx: usize = if self.r_index >= N - self.count {
                self.r_index - (N - self.count)
            } else {
                self.r_index + self.count
            };
            proof {
                assert(idx as int == ring_slot(pre.r_index as int, pre.count as int, N as int));
            }
            self.slots[idx] = Some(value);
            self.count = self.count + 1;
            proof {
                assert forall|k: int| 0 <= k < self.count implies (#[trigger] self.slots@[
                ring_slot(self.r_index as int, k, N as int)]) is Some && (k < pre.count
                    ==> self.slots@[ring_slot(self.r_index as int, k, N as int)] == pre.slots@[
                ring_slot(pre.r_index as int, k, N as int)]) && (k == pre.count
                    ==> self.slots@[ring_slot(self.r_index as int, k, N as int)] == Some(
                    value,
                )) by {
                    if k < pre.count {
                        assert(ring_slot(pre.r_index as int, k, N as int) != idx as int);
                    }
                }
                assert(self.contents() =~= pre.contents().push(value));
            }
            Some(())
        }
    }
}

} // verus!
