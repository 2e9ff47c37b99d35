//! A bounded circular queue, used elsewhere for buffering.
//!
//! Elements live in a fixed-capacity buffer between `head` and `tail`; pushes
//! wrap around the end of the buffer.  The abstract content is the sequence
//! of live elements in queue order.
use vstd::prelude::*;
use vstd::arithmetic::div_mod::*;
use vstd::slice::slice_subrange;

verus! {

/// `(x + k) % cap` walked `k` steps from the reduced position `a`.
proof fn lemma_phys_offset(x: int, k: int, cap: int)
    requires
        cap > 0,
        0 <= x,
        0 <= k < cap,
    ensures
        (x + k) % cap == (if (x % cap) + k < cap {
            (x % cap) + k
        } else {
            (x % cap) + k - cap
        }),
{
    lemma_fundamental_div_mod(x, cap);
    let m = x / cap;
    let a = x % cap;
    assert(x + k == cap * m + (a + k));
    lemma_mod_multiples_vanish(m, a + k, cap);
    if a + k < cap {
        lemma_small_mod((a + k) as nat, cap as nat);
    } else {
        lemma_mod_sub_multiples_vanish(a + k, cap);
        lemma_small_mod((a + k - cap) as nat, cap as nat);
    }
}

pub struct Queue<T> {
    pub contents: Vec<T>,
    /// Index in `contents` the queue starts at.
    pub head: usize,
    /// Index in `contents` to place the next element at.
    pub tail: usize,
    /// Number of elements used.
    pub length: usize,
    /// Fixed bound on the number of elements.
    pub capacity: usize,
}

impl<T: Copy> Queue<T> {
    /// The buffer is only as full as it has been written, the live region
    /// stays inside the written part, and `tail` trails `head` by `length`
    /// around the ring.
    pub open spec fn wf(self) -> bool {
        self.capacity <= 0x4000_0000 && (if self.capacity == 0 {
            self.head == 0 && self.tail == 0 && self.length == 0 && self.contents@.len() == 0
        } else {
            &&& self.head < self.capacity
            &&& self.tail < self.capacity
            &&& self.length <= self.capacity
            &&& self.contents@.len() <= self.capacity
            &&& self.tail == (self.head + self.length) % (self.capacity as int)
            &&& (self.contents@.len() < self.capacity ==> self.head + self.length
                <= self.contents@.len())
        })
    }

    /// The live elements in queue order.
    pub open spec fn items(self) -> Seq<T> {
        Seq::new(
            self.length as nat,
            |i: int| self.contents@[(self.head + i) % (self.capacity as int)],
        )
    }

    pub fn new(capacity: usize) -> (q: Queue<T>)
        requires
            capacity <= 0x4000_0000,
        ensures
            q.wf(),
            q.items() == Seq::<T>::empty(),
            q.capacity == capacity,
    {
        let q = Queue { contents: Vec::new(), head: 0, tail: 0, length: 0, capacity };
        proof {
            if capacity > 0 {
                lemma_small_mod(0nat, capacity as nat);
            }
            assert(q.items() =~= Seq::<T>::empty());
        }
        q
    }

    pub fn len(&self) -> (n: usize)
        ensures
            n == self.items().len(),
    {
        self.length
    }

    pub fn is_empty(&self) -> (r: bool)
        ensures
            r == (self.items().len() == 0),
    {
        self.length == 0
    }

    /// The element at logical position `i`.
    pub fn get(&self, i: usize) -> (t: T)
        requires
            self.wf(),
            i < self.length,
        ensures
            t == self.items()[i as int],
    {
        let cap = self.capacity;
        let slot = (self.head + i) % cap;
        proof {
            lemma_phys_offset(self.head as int, i as int, cap as int);
            lemma_small_mod(self.head as nat, cap as nat);
        }
        self.contents[slot]
    }

    /// Append one element at the tail.
    pub fn push(&mut self, t: T)
        requires
            old(self).wf(),
            old(self).length < old(self).capacity,
        ensures
            final(self).wf(),
            final(self).capacity == old(self).capacity,
            final(self).items() == old(self).items().push(t),
    {
        let ghost pre = *self;
        let cap = self.capacity;
        proof {
            lemma_small_mod(pre.head as nat, cap as nat);
            lemma_phys_offset(pre.head as int, pre.length as int, cap as int);
        }
        if self.tail == self.contents.len() {
            self.contents.push(t);
        } else {
            self.contents[self.tail] = t;
        }
        self.tail = (self.tail + 1) % cap;
        self.length = self.length + 1;
        proof {
            lemma_mod_bound(pre.head + pre.length + 1, cap as int);
            assert(self.tail == (self.head + self.length) % (cap as int)) by {
                lemma_reduce_mod_add(pre.head + pre.length, 1, cap as int);
            }
            assert(self.items() =~= pre.items().push(t)) by {
                assert forall|i: int| 0 <= i < pre.length implies self.items()[i]
                    == pre.items()[i] by {
                    lemma_phys_offset(pre.head as int, i, cap as int);
                    lemma_phys_offset(pre.head as int, pre.length as int, cap as int);
                    lemma_small_mod(pre.head as nat, cap as nat);
                }
                assert(self.items()[pre.length as int] == t) by {
                    lemma_phys_offset(pre.head as int, pre.length as int, cap as int);
                    lemma_small_mod(pre.head as nat, cap as nat);
                }
            }
        }
    }

    /// Append a run of elements in order.
    pub fn push_all(&mut self, ts: &[T])
        requires
            old(self).wf(),
            old(self).length + ts@.len() <= old(self).capacity,
        ensures
            final(self).wf(),
            final(self).capacity == old(self).capacity,
            final(self).items() == old(self).items() + ts@,
    {
        let ghost pre = *self;
        let mut i: usize = 0;
        while i < ts.len()
            invariant
                i <= ts@.len(),
                self.wf(),
                self.capacity == pre.capacity,
                self.length == pre.length + i,
                pre.length + ts@.len() <= pre.capacity,
                self.items() == pre.items() + ts@.subrange(0, i as int),
            decreases ts@.len() - i,
        {
            let t = ts[i];
            self.push(t);
            proof {
                assert(self.items() =~= pre.items() + ts@.subrange(0, i as int + 1));
            }
            i = i + 1;
        }
        proof {
            assert(ts@.subrange(0, ts@.len() as int) =~= ts@);
        }
    }

    /// Drop `count` elements from the head.
    pub fn pop(&mut self, count: usize)
        requires
            old(self).wf(),
            count <= old(self).length,
        ensures
            final(self).wf(),
            final(self).capacity == old(self).capacity,
            final(self).items() == old(self).items().skip(count as int),
    {
        let ghost pre = *self;
        if count > 0 {
            let cap = self.capacity;
            self.head = (self.head + count) % cap;
            self.length = self.length - count;
            proof {
                lemma_mod_bound(pre.head + count, cap as int);
                assert forall|i: int| 0 <= i <= self.length implies #[trigger] ((self.head + i)
                    % (cap as int)) == (pre.head + (count + i)) % (cap as int) by {
                    lemma_reduce_mod_add(pre.head + count, i, cap as int);
                }
                assert(self.tail == (self.head + self.length) % (cap as int));
                if self.contents@.len() < cap {
                    lemma_small_mod((pre.head + count) as nat, cap as nat);
                }
                assert(self.items() =~= pre.items().skip(count as int));
            }
        } else {
            proof {
                assert(self.items() =~= pre.items().skip(0));
            }
        }
    }

    /// Empty the queue and forget its buffer contents.
    pub fn clear(&mut self)
        requires
            old(self).wf(),
        ensures
            final(self).wf(),
            final(self).capacity == old(self).capacity,
            final(self).items() == Seq::<T>::empty(),
    {
        self.contents.clear();
        self.head = 0;
        self.tail = 0;
        self.length = 0;
        proof {
            if self.capacity > 0 {
                lemma_small_mod(0nat, self.capacity as nat);
            }
            assert(self.items() =~= Seq::<T>::empty());
        }
    }

    /// Replace the `count` elements from `idx` with the last `count`
    /// elements of the queue, then drop the last `count`.  The ordering
    /// amongst those elements is maintained.
    pub fn swap_remove(&mut self, idx: usize, count: usize)
        requires
            old(self).wf(),
            count <= old(self).length,
            idx <= old(self).length - count,
            idx < old(self).length - count ==> idx + count <= old(self).length - count,
        ensures
            final(self).wf(),
            final(self).capacity == old(self).capacity,
            final(self).items().len() == old(self).length - count,
            idx < old(self).length - count ==> final(self).items() == old(self).items().subrange(
                0,
                idx as int,
            ) + old(self).items().subrange(
                old(self).length - count,
                old(self).length as int,
            ) + old(self).items().subrange(idx as int + count, old(self).length - count),
            idx == old(self).length - count ==> final(self).items() == old(
                self,
            ).items().subrange(0, idx as int),
    {
        let ghost pre = *self;
        let m = self.length - count;
        let mut buf: Vec<T> = Vec::new();
        let mut i: usize = 0;
        while i < idx
            invariant
                i <= idx,
                idx <= m,
                m <= pre.length,
                *self == pre,
                pre.wf(),
                count == pre.length - m,
                buf@ =~= pre.items().subrange(0, i as int),
            decreases idx - i,
        {
            buf.push(self.get(i));
            proof {
                assert(buf@ =~= pre.items().subrange(0, i as int + 1));
            }
            i = i + 1;
        }
        if idx < m {
            let mut k: usize = 0;
            while k < count
                invariant
                    k <= count,
                    idx < m,
                    idx + count <= m,
                    m + count == pre.length,
                    *self == pre,
                    pre.wf(),
                    buf@ =~= pre.items().subrange(0, idx as int) + pre.items().subrange(
                        m as int,
                        m + k,
                    ),
                decreases count - k,
            {
                buf.push(self.get(m + k));
                proof {
                    assert(buf@ =~= pre.items().subrange(0, idx as int) + pre.items().subrange(
                        m as int,
                        m + k + 1,
                    ));
                }
                k = k + 1;
            }
            let mut j: usize = idx + count;
            while j < m
                invariant
                    idx + count <= j <= m,
                    m + count == pre.length,
                    *self == pre,
                    pre.wf(),
                    buf@ =~= pre.items().subrange(0, idx as int) + pre.items().subrange(
                        m as int,
                        pre.length as int,
                    ) + pre.items().subrange(idx as int + count, j as int),
                decreases m - j,
            {
                buf.push(self.get(j));
                proof {
                    assert(buf@ =~= pre.items().subrange(0, idx as int) + pre.items().subrange(
                        m as int,
                        pre.length as int,
                    ) + pre.items().subrange(idx as int + count, j as int + 1));
                }
                j = j + 1;
            }
        }
        let cap = self.capacity;
        self.contents = buf;
        self.head = 0;
        self.length = m;
        self.tail = if cap == 0 {
            0
        } else {
            m % cap
        };
        proof {
            if cap > 0 {
                lemma_mod_bound(m as int, cap as int);
                if m < cap {
                    lemma_small_mod(m as nat, cap as nat);
                } else {
                    lemma_mod_self_0(cap as int);
                }
                assert forall|i2: int| 0 <= i2 < m implies self.items()[i2] == buf@[i2] by {
                    lemma_small_mod(i2 as nat, cap as nat);
                }
            }
            if idx < m {
                assert(self.items() =~= pre.items().subrange(0, idx as int) + pre.items().subrange(
                    m as int,
                    pre.length as int,
                ) + pre.items().subrange(idx as int + count, m as int));
            } else {
                assert(self.items() =~= pre.items().subrange(0, idx as int));
            }
        }
    }

    /// The elements between logical positions `low` and `high`, as up to two
    /// buffer slices in order.
    pub fn slices(&self, low: usize, high: usize) -> (r: (&[T], &[T]))
        requires
            self.wf(),
            low <= high,
            high <= self.length,
        ensures
            r.0@ + r.1@ == self.items().subrange(low as int, high as int),
    {
        if self.capacity == 0 || low == high {
            let l = slice_subrange(self.contents.as_slice(), 0, 0);
            proof {
                assert(l@ + l@ =~= self.items().subrange(low as int, high as int));
            }
            return (l, l);
        }
        let cap = self.capacity;
        let a = (self.head + low) % cap;
        let b = (self.head + high) % cap;
        proof {
            lemma_mod_bound(self.head + low, cap as int);
            lemma_mod_bound(self.head + high, cap as int);
            lemma_reduce_mod_add(self.head + low, (high - low) as int, cap as int);
        }
        if a < b {
            proof {
                if self.contents@.len() < cap {
                    lemma_small_mod((self.head + low) as nat, cap as nat);
                    lemma_small_mod((self.head + high) as nat, cap as nat);
                }
                assert(b <= self.contents@.len());
                // Walking from `a` does not pass the end of the buffer.
                assert(a + (high - low) == b) by {
                    if a + (high - low) >= cap {
                        lemma_mod_sub_multiples_vanish(a + (high - low), cap as int);
                        lemma_small_mod((a + (high - low) - cap) as nat, cap as nat);
                    } else {
                        lemma_small_mod((a + (high - low)) as nat, cap as nat);
                    }
                }
            }
            let l = slice_subrange(self.contents.as_slice(), a, b);
            let h = slice_subrange(self.contents.as_slice(), b, b);
            proof {
                assert(l@ + h@ =~= self.items().subrange(low as int, high as int)) by {
                    assert forall|k: int| 0 <= k < high - low implies l@[k] == self.items()[low + k] by {
                        lemma_reduce_mod_add(self.head + low, k, cap as int);
                        lemma_small_mod((a + k) as nat, cap as nat);
                    }
                }
            }
            (l, h)
        } else {
            proof {
                if self.contents@.len() < cap {
                    lemma_small_mod((self.head + low) as nat, cap as nat);
                    lemma_small_mod((self.head + high) as nat, cap as nat);
                    assert(false);
                }
                assert(self.contents@.len() == cap);
                // The walk wraps: `b` continues from the buffer's start.
                assert(a + (high - low) - cap == b && a + (high - low) >= cap) by {
                    if a + (high - low) < cap {
                        lemma_small_mod((a + (high - low)) as nat, cap as nat);
                    } else {
                        lemma_mod_sub_multiples_vanish(a + (high - low), cap as int);
                        lemma_small_mod((a + (high - low) - cap) as nat, cap as nat);
                    }
                }
            }
            let l = slice_subrange(self.contents.as_slice(), a, self.contents.len());
            let h = slice_subrange(self.contents.as_slice(), 0, b);
            proof {
                assert(l@ + h@ =~= self.items().subrange(low as int, high as int)) by {
                    assert forall|k: int| 0 <= k < high - low implies (l@ + h@)[k] == self.items()[low + k] by {
                        lemma_reduce_mod_add(self.head + low, k, cap as int);
                        if a + k < cap {
                            lemma_small_mod((a + k) as nat, cap as nat);
                        } else {
                            lemma_mod_sub_multiples_vanish(a + k, cap as int);
                            lemma_small_mod((a + k - cap) as nat, cap as nat);
                        }
                    }
                }
            }
            (l, h)
        }
    }
}

/// Reducing a position modulo the capacity before adding an offset does not
/// change the final slot.
proof fn lemma_reduce_mod_add(x: int, i: int, cap: int)
    requires
        cap > 0,
        0 <= x,
        0 <= i,
    ensures
        ((x % cap) + i) % cap == (x + i) % cap,
{
    lemma_fundamental_div_mod(x, cap);
    lemma_mod_multiples_vanish(x / cap, (x % cap) + i, cap);
    assert(cap * (x / cap) + ((x % cap) + i) == x + i);
}

} // verus!
