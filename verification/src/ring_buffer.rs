//! The circular buffer primitive: a fixed-capacity sequence with
//! overwrite-oldest semantics, chronological indexing (index 0 is the
//! oldest element), clear-to-fill, and capacity changes that drop the
//! contents.

use vstd::prelude::*;

verus! {

/// One overwrite-oldest push, at the level of the abstract contents: a
/// buffer below capacity grows, a full one drops its oldest element.
pub open spec fn ring_push<T>(s: Seq<T>, cap: nat, v: T) -> Seq<T> {
    if s.len() < cap {
        s.push(v)
    } else {
        s.subrange(1, s.len() as int).push(v)
    }
}

/// The contents after a whole sequence of pushes, oldest first.
pub open spec fn ring_push_all<T>(s: Seq<T>, cap: nat, vs: Seq<T>) -> Seq<T>
    decreases vs.len(),
{
    if vs.len() == 0 {
        s
    } else {
        ring_push(ring_push_all(s, cap, vs.drop_last()), cap, vs.last())
    }
}

/// Fewer pushes than the capacity simply accumulate in order.
pub proof fn lemma_ring_push_fill<T>(cap: nat, vs: Seq<T>)
    requires
        vs.len() <= cap,
    ensures
        ring_push_all(Seq::<T>::empty(), cap, vs) == vs,
    decreases vs.len(),
{
    if vs.len() == 0 {
        assert(vs =~= Seq::<T>::empty());
    } else {
        lemma_ring_push_fill(cap, vs.drop_last());
        assert(vs.drop_last().push(vs.last()) =~= vs);
    }
}

/// Oldest-surviving invariant: once at least `cap` values have been
/// pushed into an initially empty buffer, the contents are exactly the
/// last `cap` values pushed. In particular the length is `cap` and
/// index 0 holds the `(k - cap)`-th pushed value (0-indexed).
pub proof fn lemma_ring_push_oldest_surviving<T>(cap: nat, vs: Seq<T>)
    requires
        1 <= cap <= vs.len(),
    ensures
        ring_push_all(Seq::<T>::empty(), cap, vs) == vs.subrange(
            vs.len() - cap,
            vs.len() as int,
        ),
        ring_push_all(Seq::<T>::empty(), cap, vs).len() == cap,
        ring_push_all(Seq::<T>::empty(), cap, vs)[0] == vs[vs.len() - cap],
    decreases vs.len(),
{
    let prefix = vs.drop_last();
    if vs.len() == cap {
        lemma_ring_push_fill(cap, prefix);
        assert(prefix.push(vs.last()) =~= vs.subrange(vs.len() - cap, vs.len() as int));
    } else {
        lemma_ring_push_oldest_surviving(cap, prefix);
        let acc = ring_push_all(Seq::<T>::empty(), cap, prefix);
        assert(acc.subrange(1, acc.len() as int).push(vs.last()) =~= vs.subrange(
            vs.len() - cap,
            vs.len() as int,
        ));
    }
}

/// Fixed-capacity circular buffer. Writes overwrite the oldest element
/// once the buffer is full; reads are chronological, index 0 being the
/// oldest valid element.
pub struct RingBuffer<T> {
    data: Vec<T>,
    /// Physical index of the oldest valid element.
    start: usize,
    /// Number of valid (written) elements, capped at the capacity.
    count: usize,
    /// The value every slot is reset to by `clear`, `grow` and `shrink`.
    fill: T,
}

impl<T: Copy> View for RingBuffer<T> {
    type V = Seq<T>;

    /// The valid elements in chronological order.
    closed spec fn view(&self) -> Seq<T> {
        Seq::new(self.count as nat, |i: int| self.data[self.slot(i)])
    }
}

impl<T: Copy> RingBuffer<T> {
    /// The fixed capacity: how many elements the buffer can hold.
    pub closed spec fn cap(self) -> nat {
        self.data.len() as nat
    }

    /// The value slots are reset to.
    pub closed spec fn fill_value(self) -> T {
        self.fill
    }

    pub closed spec fn wf(self) -> bool {
        &&& 1 <= self.data.len()
        &&& self.start < self.data.len()
        &&& self.count <= self.data.len()
    }

    /// Physical slot of chronological index `i`.
    spec fn slot(self, i: int) -> int {
        if self.start + i < self.data.len() {
            self.start + i
        } else {
            self.start + i - self.data.len()
        }
    }

    /// Creates a buffer of the given capacity, empty, with the given
    /// fill value.
    pub fn new(capacity: usize, fill: T) -> (buf: Self)
        requires
            1 <= capacity,
        ensures
            buf.wf(),
            buf@ == Seq::<T>::empty(),
            buf.cap() == capacity,
            buf.fill_value() == fill,
    {
        let mut data: Vec<T> = Vec::new();
        let mut j: usize = 0;
        while j < capacity
            invariant
                j <= capacity,
                data.len() == j,
            decreases capacity - j,
        {
            data.push(fill);
            j = j + 1;
        }
        let buf = RingBuffer { data, start: 0, count: 0, fill };
        proof {
            assert(buf@ =~= Seq::<T>::empty());
        }
        buf
    }

    /// The number of valid elements.
    pub fn len(&self) -> (n: usize)
        ensures
            n == self@.len(),
    {
        self.count
    }

    /// The fixed capacity.
    pub fn capacity(&self) -> (c: usize)
        ensures
            c == self.cap(),
    {
        self.data.len()
    }

    /// Pushes one element, overwriting the oldest once full.
    pub fn enqueue(&mut self, value: T)
        requires
            old(self).wf(),
        ensures
            final(self).wf(),
            final(self)@ == ring_push(old(self)@, old(self).cap(), value),
            final(self).cap() == old(self).cap(),
            final(self).fill_value() == old(self).fill_value(),
    {
        let cap = self.data.len();
        if self.count < cap {
            let idx = if self.count < cap - self.start {
                self.start + self.count
            } else {
                self.count - (cap - self.start)
            };
            assert(idx == self.slot(self.count as int));
            self.data.set(idx, value);
            self.count = self.count + 1;
            proof {
                assert forall|i: int| 0 <= i < old(self)@.len() implies self@[i] == old(self)@[i] by {
                    assert(self.slot(i) != self.slot(old(self).count as int));
                }
                assert(self@ =~= old(self)@.push(value));
            }
        } else {
            let idx = self.start;
            self.data.set(idx, value);
            self.start = if self.start + 1 == cap {
                0
            } else {
                self.start + 1
            };
            proof {
                let target = old(self)@.subrange(1, old(self)@.len() as int).push(value);
                assert forall|i: int| 0 <= i < cap implies self@[i] == target[i] by {
                    if i < cap - 1 {
                        assert(self.slot(i) == old(self).slot(i + 1));
                        assert(old(self).slot(i + 1) != old(self).start);
                    } else {
                        assert(self.slot(i) == old(self).start as int);
                    }
                }
                assert(self@ =~= target);
            }
        }
    }

    /// The most recently pushed element, or the fill value while the
    /// buffer is empty.
    pub fn peek(&self) -> (v: T)
        requires
            self.wf(),
        ensures
            v == if self@.len() > 0 {
                self@.last()
            } else {
                self.fill_value()
            },
    {
        if self.count == 0 {
            self.fill
        } else {
            let cap = self.data.len();
            let idx = if self.count - 1 < cap - self.start {
                self.start + (self.count - 1)
            } else {
                (self.count - 1) - (cap - self.start)
            };
            assert(idx == self.slot(self.count as int - 1));
            self.data[idx]
        }
    }

    /// Chronological read: index 0 is the oldest valid element. Reading
    /// outside `[0, len)` is a caller fault, excluded by precondition.
    pub fn index(&self, index: usize) -> (v: T)
        requires
            self.wf(),
            index < self@.len(),
        ensures
            v == self@[index as int],
    {
        let cap = self.data.len();
        let idx = if index < cap - self.start {
            self.start + index
        } else {
            index - (cap - self.start)
        };
        assert(idx == self.slot(index as int));
        self.data[idx]
    }

    /// Chronological write: replaces the element at index `index`.
    pub fn set_index(&mut self, index: usize, value: T)
        requires
            old(self).wf(),
            index < old(self)@.len(),
        ensures
            final(self).wf(),
            final(self)@ == old(self)@.update(index as int, value),
            final(self).cap() == old(self).cap(),
            final(self).fill_value() == old(self).fill_value(),
    {
        let cap = self.data.len();
        let idx = if index < cap - self.start {
            self.start + index
        } else {
            index - (cap - self.start)
        };
        assert(idx == self.slot(index as int));
        self.data.set(idx, value);
        proof {
            assert forall|i: int|
                0 <= i < self@.len() && i != index implies self@[i] == old(self)@[i] by {
                assert(self.slot(i) != self.slot(index as int));
            }
            assert(self@ =~= old(self)@.update(index as int, value));
        }
    }

    /// Resets every slot to the fill value. The number of valid
    /// elements (and so the length) is unchanged; every read now
    /// returns the fill value.
    pub fn clear(&mut self)
        requires
            old(self).wf(),
        ensures
            final(self).wf(),
            final(self)@ == Seq::new(old(self)@.len(), |i: int| old(self).fill_value()),
            final(self).cap() == old(self).cap(),
            final(self).fill_value() == old(self).fill_value(),
    {
        let fill = self.fill;
        let n = self.data.len();
        let mut j: usize = 0;
        while j < n
            invariant
                j <= n,
                n == self.data.len(),
                self.start == old(self).start,
                self.count == old(self).count,
                self.fill == old(self).fill,
                old(self).wf(),
                self.wf(),
                fill == old(self).fill,
                forall|k: int| 0 <= k < j ==> self.data[k] == fill,
            decreases n - j,
        {
            self.data.set(j, fill);
            j = j + 1;
        }
        proof {
            assert(self@ =~= Seq::new(old(self)@.len(), |i: int| old(self).fill_value()));
        }
    }

    /// Replaces the backing storage: the new buffer has the given
    /// capacity and no valid elements. Used by both capacity changes.
    fn reallocate(&mut self, new_capacity: usize)
        requires
            old(self).wf(),
            1 <= new_capacity,
        ensures
            final(self).wf(),
            final(self)@ == Seq::<T>::empty(),
            final(self).cap() == new_capacity,
            final(self).fill_value() == old(self).fill_value(),
    {
        let fresh = RingBuffer::new(new_capacity, self.fill);
        self.data = fresh.data;
        self.start = 0;
        self.count = 0;
        proof {
            assert(self@ =~= Seq::<T>::empty());
        }
    }

    /// Grows the buffer to the given capacity, dropping the contents:
    /// no element migrates across a resize.
    pub fn grow(&mut self, new_capacity: usize)
        requires
            old(self).wf(),
            1 <= new_capacity,
        ensures
            final(self).wf(),
            final(self)@ == Seq::<T>::empty(),
            final(self).cap() == new_capacity,
            final(self).fill_value() == old(self).fill_value(),
    {
        self.reallocate(new_capacity);
    }

    /// Shrinks the buffer to the given capacity, dropping the contents:
    /// no element migrates across a resize.
    pub fn shrink(&mut self, new_capacity: usize)
        requires
            old(self).wf(),
            1 <= new_capacity,
        ensures
            final(self).wf(),
            final(self)@ == Seq::<T>::empty(),
            final(self).cap() == new_capacity,
            final(self).fill_value() == old(self).fill_value(),
    {
        self.reallocate(new_capacity);
    }

    /// The valid elements, oldest first, as one vector: the
    /// chronological forward iteration. Walk the result backwards for
    /// the reverse direction.
    pub fn to_vec(&self) -> (out: Vec<T>)
        requires
            self.wf(),
        ensures
            out@ == self@,
    {
        let n = self.count;
        let mut out: Vec<T> = Vec::new();
        let mut j: usize = 0;
        while j < n
            invariant
                self.wf(),
                j <= n,
                n == self@.len(),
                out.len() == j,
                forall|k: int| 0 <= k < j ==> out[k] == self@[k],
            decreases n - j,
        {
            let v = self.index(j);
            out.push(v);
            j = j + 1;
        }
        proof {
            assert(out@ =~= self@);
        }
        out
    }
}

} // verus!
