use vstd::prelude::*;

verus! {

/// A double-ended queue over a fixed block of memory handed in at
/// construction. It never allocates after construction: when it is full,
/// new elements are dropped.
pub struct Deque<T> {
    memory: Vec<T>,
    capacity: usize,
    start: usize,
    size: usize,
    no_value: T,
}

impl<T> Deque<T> {
    /// Well-formedness: the ring indices stay inside the backing memory.
    pub closed spec fn wf(&self) -> bool {
        &&& self.capacity == self.memory@.len()
        &&& self.capacity > 0
        &&& self.start < self.capacity
        &&& self.size <= self.capacity
    }

    /// Number of slots in the backing memory.
    pub closed spec fn spec_capacity(&self) -> nat {
        self.capacity as nat
    }

    /// The value handed out for reads outside the queue.
    pub closed spec fn spec_no_value(&self) -> T {
        self.no_value
    }

    /// Element `i` of the queue (0 is the front).
    pub closed spec fn spec_elem(&self, i: int) -> T {
        self.memory@[(self.start + i) % (self.capacity as int)]
    }
}

impl<T> View for Deque<T> {
    type V = Seq<T>;

    /// The queued elements, front first.
    closed spec fn view(&self) -> Seq<T> {
        Seq::new(self.size as nat, |i: int| self.spec_elem(i))
    }
}

/// The queue that `Deque::new` builds from `memory`, `start` and `size`.
pub open spec fn initial_queue<T>(memory: Seq<T>, start: int, size: int) -> Seq<T>
    recommends
        memory.len() > 0,
{
    let cap = memory.len() as int;
    let len = if size > cap { cap } else { size };
    Seq::new(len as nat, |i: int| memory[((start % cap) + i) % cap])
}

/// The queue after `push_back(x)` on queue `q` with `cap` slots: `x` is
/// appended, unless the queue is full.
pub open spec fn pushed<T>(q: Seq<T>, cap: nat, x: T) -> Seq<T> {
    if q.len() < cap {
        q.push(x)
    } else {
        q
    }
}

/// The queue after `pop_front` on queue `q`: the front is removed, if any.
pub open spec fn popped<T>(q: Seq<T>) -> Seq<T> {
    if q.len() == 0 {
        q
    } else {
        q.drop_first()
    }
}

/// The queue after `n` calls of `pop_front`.
pub open spec fn popped_times<T>(q: Seq<T>, n: nat) -> Seq<T>
    decreases n,
{
    if n == 0 {
        q
    } else {
        popped(popped_times(q, (n - 1) as nat))
    }
}

impl<T: Copy + Default> Deque<T> {
    /// Create a new Deque from a boxed slice.
    /// `start` and `size` give the initial position and number of elements;
    /// `start` is taken modulo the capacity and `size` is capped at it.
    pub fn new(memory: Box<[T]>, start: usize, size: usize, no_value: T) -> (dq: Self)
        requires
            memory@.len() > 0,
        ensures
            dq@ == initial_queue(memory@, start as int, size as int),
            dq.spec_capacity() == memory@.len(),
            dq.spec_no_value() == no_value,
            dq.wf(),
    {
        let memory = memory.into_vec();
        let capacity = memory.len();
        let dq = Deque {
            memory,
            capacity,
            start: start % capacity,
            size: if size > capacity { capacity } else { size },
            no_value,
        };
        assert(dq@ =~= initial_queue(memory@, start as int, size as int));
        dq
    }

    /// Return the number of elements in the deque.
    pub fn size(&self) -> (n: usize)
        requires
            self.wf(),
        ensures
            n == self@.len(),
    {
        self.size
    }

    /// Return true if the deque is empty.
    pub fn empty(&self) -> (b: bool)
        requires
            self.wf(),
        ensures
            b == (self@.len() == 0),
    {
        self.size == 0
    }

    /// Return the front element, or the no-value if empty.
    pub fn front(&self) -> (x: T)
        requires
            self.wf(),
        ensures
            x == (if self@.len() == 0 { self.spec_no_value() } else { self@[0] }),
    {
        if self.empty() {
            self.no_value
        } else {
            proof {
                assert(self.start as int % self.capacity as int == self.start as int) by {
                    vstd::arithmetic::div_mod::lemma_small_mod(
                        self.start as nat,
                        self.capacity as nat,
                    );
                }
            }
            self.memory[self.start]
        }
    }

    /// Return the element at `index` (0 = front), or the no-value if out of bounds.
    pub fn get(&self, index: usize) -> (x: T)
        requires
            self.wf(),
        ensures
            x == (if index < self@.len() { self@[index as int] } else { self.spec_no_value() }),
    {
        if index >= self.size {
            return self.no_value;
        }
        let position = ring_slot(self.start, index, self.capacity);
        self.memory[position]
    }

    /// Append an element at the back. If the deque is full, the element is dropped.
    pub fn push_back(&mut self, item: T)
        requires
            old(self).wf(),
        ensures
            final(self).wf(),
            final(self)@ == pushed(old(self)@, old(self).spec_capacity(), item),
            final(self).spec_capacity() == old(self).spec_capacity(),
            final(self).spec_no_value() == old(self).spec_no_value(),
    {
        if self.size >= self.capacity {
            return;
        }
        let end = ring_slot(self.start, self.size, self.capacity);
        let ghost old_view = self@;
        self.memory.set(end, item);
        self.size = self.size + 1;
        proof {
            let cap = self.capacity as int;
            let st = self.start as int;
            assert forall|i: int| 0 <= i < old_view.len() implies #[trigger] self.spec_elem(i)
                == old_view[i] by {
                // slot (st + i) % cap differs from slot end = (st + size - 1) % cap
                lemma_distinct_slots(st, i, (self.size - 1) as int, cap);
            }
            assert(self@ =~= old_view.push(item));
        }
    }

    /// Remove the front element. Does nothing if empty.
    pub fn pop_front(&mut self)
        requires
            old(self).wf(),
        ensures
            final(self).wf(),
            final(self)@ == popped(old(self)@),
            final(self).spec_capacity() == old(self).spec_capacity(),
            final(self).spec_no_value() == old(self).spec_no_value(),
    {
        if self.empty() {
            return;
        }
        let ghost old_view = self@;
        let ghost old_start = self.start as int;
        self.size = self.size - 1;
        self.start = ring_slot(self.start, 1, self.capacity);
        proof {
            let cap = self.capacity as int;
            assert forall|i: int| 0 <= i < self@.len() implies #[trigger] self.spec_elem(i)
                == old_view[i + 1] by {
                lemma_shift_slot(old_start, i, cap);
            }
            assert(self@ =~= old_view.drop_first());
        }
    }

    /// Peek at the element at `index` without removing it.
    pub fn peek(&self, index: usize) -> (x: T)
        requires
            self.wf(),
        ensures
            x == (if index < self@.len() { self@[index as int] } else { self.spec_no_value() }),
    {
        self.get(index)
    }
}

/// A well-formed queue never holds more elements than its capacity.
pub proof fn law_size_within_capacity<T>(d: &Deque<T>)
    requires
        d.wf(),
    ensures
        d@.len() <= d.spec_capacity(),
{
}

/// First in, first out: pushing `x` onto a queue holding `q` that is not
/// full, then popping `q.len()` times, leaves `x` alone at the front; the
/// push leaves the front as it was.
pub proof fn law_first_in_first_out<T>(q: Seq<T>, cap: nat, x: T)
    requires
        q.len() < cap,
    ensures
        popped_times(pushed(q, cap, x), q.len()) == seq![x],
        q.len() > 0 ==> pushed(q, cap, x)[0] == q[0],
{
    lemma_popped_times(q.push(x), q.len());
    assert(q.push(x).skip(q.len() as int) =~= seq![x]);
}

/// Popping `n` times from a queue of at least `n` elements drops its first
/// `n` elements.
proof fn lemma_popped_times<T>(q: Seq<T>, n: nat)
    requires
        n <= q.len(),
    ensures
        popped_times(q, n) == q.skip(n as int),
    decreases n,
{
    if n == 0 {
        assert(q.skip(0) =~= q);
    } else {
        lemma_popped_times(q, (n - 1) as nat);
        assert(q.skip(n - 1).drop_first() =~= q.skip(n as int));
    }
}

/// The slot `offset` places after `start` in a ring of `cap` slots,
/// computed without leaving the range of `usize`.
fn ring_slot(start: usize, offset: usize, cap: usize) -> (slot: usize)
    requires
        start < cap,
        offset <= cap,
    ensures
        slot == (start + offset) % (cap as int),
        slot < cap,
{
    proof {
        lemma_mod_below_twice(start + offset, cap as int);
    }
    if offset < cap - start {
        start + offset
    } else {
        offset - (cap - start)
    }
}

/// Reduction modulo `cap` of a value below twice `cap`.
proof fn lemma_mod_below_twice(x: int, cap: int)
    requires
        0 < cap,
        0 <= x < 2 * cap,
    ensures
        x % cap == (if x < cap { x } else { x - cap }),
{
    if x < cap {
        vstd::arithmetic::div_mod::lemma_small_mod(x as nat, cap as nat);
    } else {
        vstd::arithmetic::div_mod::lemma_mod_sub_multiples_vanish(x, cap);
        vstd::arithmetic::div_mod::lemma_small_mod((x - cap) as nat, cap as nat);
    }
}

/// Two different positions within one lap of the ring fall on different slots.
proof fn lemma_distinct_slots(start: int, i: int, j: int, cap: int)
    requires
        0 <= start < cap,
        0 <= i < j < cap,
    ensures
        (start + i) % cap != (start + j) % cap,
{
    lemma_mod_below_twice(start + i, cap);
    lemma_mod_below_twice(start + j, cap);
}

/// Advancing the start by one slot shifts every position by one.
proof fn lemma_shift_slot(start: int, i: int, cap: int)
    requires
        0 <= start < cap,
        0 <= i,
    ensures
        (((start + 1) % cap) + i) % cap == (start + (i + 1)) % cap,
{
    if start + 1 < cap {
        vstd::arithmetic::div_mod::lemma_small_mod((start + 1) as nat, cap as nat);
    } else {
        assert((start + 1) % cap == 0) by {
            vstd::arithmetic::div_mod::lemma_mod_self_0(cap);
        }
        vstd::arithmetic::div_mod::lemma_mod_add_multiples_vanish(i, cap);
    }
}

} // verus!
