//! The mathematical model of a circular buffer: its slots, its two cursors
//! and the count of unread entries, with the laws that relate pushes, pops
//! and position-relative reads.

use vstd::prelude::*;
use vstd::arithmetic::div_mod::*;

verus! {

/// What a circular buffer holds: `slots` is the backing storage, `read` and
/// `write` are the two cursors and `len` counts the unread entries.
pub struct RingState<T> {
    pub slots: Seq<T>,
    pub read: int,
    pub write: int,
    pub len: int,
}

/// `value` is a value that `T::default()` may return.
pub open spec fn is_default<T: Default>(value: T) -> bool {
    call_ensures(T::default, (), value)
}

impl<T> RingState<T> {
    /// The number of slots.
    pub open spec fn capacity(self) -> int {
        self.slots.len() as int
    }

    /// There is at least one slot, both cursors point at a slot and `len`
    /// does not exceed the number of slots.
    pub open spec fn wf(self) -> bool {
        &&& self.capacity() > 0
        &&& 0 <= self.read < self.capacity()
        &&& 0 <= self.write < self.capacity()
        &&& 0 <= self.len <= self.capacity()
    }

    /// The slot that lies `offset` places after the read cursor, wrapping
    /// round the end of the storage.
    pub open spec fn slot_of(self, offset: int) -> int {
        (self.read + offset) % self.capacity()
    }

    /// The value `offset` places after the read cursor.
    pub open spec fn at(self, offset: int) -> T {
        self.slots[self.slot_of(offset)]
    }

    /// The slot that the push after the next `k` pushes writes to.
    pub open spec fn write_slot(self, k: int) -> int {
        (self.write + k) % self.capacity()
    }

    /// The value under the read cursor.
    pub open spec fn front(self) -> T {
        self.slots[self.read]
    }

    /// The state after one value was written under the write cursor and the
    /// cursor moved on. A full buffer gives up its oldest entry: the read
    /// cursor moves on too.
    pub open spec fn push(self, value: T) -> Self {
        RingState {
            slots: self.slots.update(self.write, value),
            read: if self.len == self.capacity() {
                (self.read + 1) % self.capacity()
            } else {
                self.read
            },
            write: (self.write + 1) % self.capacity(),
            len: if self.len == self.capacity() {
                self.len
            } else {
                self.len + 1
            },
        }
    }

    /// The state after the entry under the read cursor was taken out. An
    /// empty buffer stays as it is.
    pub open spec fn pop(self) -> Self {
        if self.len == 0 {
            self
        } else {
            RingState { read: (self.read + 1) % self.capacity(), len: self.len - 1, ..self }
        }
    }

    /// The state after all of `values` were pushed, first to last.
    pub open spec fn push_all(self, values: Seq<T>) -> Self
        decreases values.len(),
    {
        if values.len() == 0 {
            self
        } else {
            self.push_all(values.drop_last()).push(values.last())
        }
    }

    /// The values that `n` pops hand out, first to last.
    pub open spec fn drain(self, n: nat) -> Seq<T>
        decreases n,
    {
        if n == 0 {
            Seq::empty()
        } else {
            seq![self.front()] + self.pop().drain((n - 1) as nat)
        }
    }

    /// The write cursor stands where the next entry of the queue belongs:
    /// `len` places after the read cursor. Pushes and pops keep it so; moving
    /// a cursor by hand may break it.
    pub open spec fn coupled(self) -> bool {
        self.write == (self.read + self.len) % self.capacity()
    }

    /// The unread entries, oldest first.
    pub open spec fn queue(self) -> Seq<T> {
        Seq::new(self.len as nat, |i: int| self.at(i))
    }
}

impl<T: Default> RingState<T> {
    /// Nothing was written yet: every slot holds a default value, both
    /// cursors stand at the first slot and no entry is unread.
    pub open spec fn is_blank(self) -> bool {
        &&& self.read == 0
        &&& self.write == 0
        &&& self.len == 0
        &&& forall|i: int| 0 <= i < self.capacity() ==> is_default(#[trigger] self.slots[i])
    }
}

/// The last `n` entries of `s`, or all of `s` where it has fewer.
pub open spec fn newest<T>(s: Seq<T>, n: int) -> Seq<T> {
    if s.len() <= n {
        s
    } else {
        s.subrange(s.len() - n, s.len() as int)
    }
}

/// A sum below twice the modulus wraps at most once.
pub(crate) proof fn lemma_wrap_once(x: int, c: int)
    requires
        c > 0,
        0 <= x < 2 * c,
    ensures
        x % c == if x < c {
            x
        } else {
            x - c
        },
{
    if x < c {
        lemma_fundamental_div_mod_converse(x, c, 0, x);
    } else {
        lemma_fundamental_div_mod_converse(x, c, 1, x - c);
    }
}

/// Stepping a wrapped position by one is stepping the position and wrapping.
pub(crate) proof fn lemma_mod_succ(a: int, c: int)
    requires
        c > 0,
    ensures
        0 <= a % c < c,
        ((a % c) + 1) % c == (a + 1) % c,
{
    lemma_mod_bound(a, c);
    lemma_add_mod_noop_right(1, a, c);
}

/// Two positions less than a full turn apart wrap to different slots.
pub(crate) proof fn lemma_mod_apart(a: int, d: int, c: int)
    requires
        c > 0,
        0 < d < c,
    ensures
        (a + d) % c != a % c,
{
    lemma_fundamental_div_mod(a, c);
    lemma_fundamental_div_mod(a + d, c);
    let q1 = (a + d) / c;
    let q2 = a / c;
    if (a + d) % c == a % c {
        assert(d == c * q1 - c * q2);
        assert(false) by (nonlinear_arith)
            requires
                d == c * q1 - c * q2,
                0 < d < c,
        ;
    }
}

/// One push keeps a state well formed and its capacity as it was.
pub proof fn lemma_push_wf<T>(s: RingState<T>, value: T)
    requires
        s.wf(),
    ensures
        s.push(value).wf(),
        s.push(value).capacity() == s.capacity(),
{
    lemma_mod_bound(s.read + 1, s.capacity());
    lemma_mod_bound(s.write + 1, s.capacity());
}

/// Pushing `a` and then `b` is pushing `a + b`.
pub proof fn lemma_push_all_concat<T>(s: RingState<T>, a: Seq<T>, b: Seq<T>)
    ensures
        s.push_all(a + b) == s.push_all(a).push_all(b),
    decreases b.len(),
{
    if b.len() == 0 {
        assert(a + b =~= a);
    } else {
        lemma_push_all_concat(s, a, b.drop_last());
        assert((a + b).drop_last() =~= a + b.drop_last());
        assert((a + b).last() == b.last());
    }
}

/// Pushing one more value: the state after the first `n + 1` of `values` is
/// the state after the first `n`, with `values[n]` pushed.
pub proof fn lemma_push_all_take_next<T>(s: RingState<T>, values: Seq<T>, n: int)
    requires
        0 <= n < values.len(),
    ensures
        s.push_all(values.take(n + 1)) == s.push_all(values.take(n)).push(values[n]),
{
    assert(values.take(n + 1).drop_last() =~= values.take(n));
}

/// Where a run of pushes leaves the buffer. With `n` values pushed into `c`
/// slots: the write cursor has moved on by `n`; `len` has grown by `n` up to
/// `c`, and the read cursor has moved on by the number of entries given up;
/// the last `c` of the values lie in the slots they were written to, in
/// order; a slot that no push reached holds what it held.
pub proof fn lemma_push_all_shape<T>(s: RingState<T>, values: Seq<T>)
    requires
        s.wf(),
    ensures
        s.push_all(values).wf(),
        s.push_all(values).capacity() == s.capacity(),
        s.push_all(values).write == s.write_slot(values.len() as int),
        s.push_all(values).len == if s.len + values.len() <= s.capacity() {
            s.len + values.len()
        } else {
            s.capacity()
        },
        s.push_all(values).read == if s.len + values.len() <= s.capacity() {
            s.read
        } else {
            s.slot_of(s.len + values.len() - s.capacity())
        },
        forall|k: int|
            0 <= k < values.len() && values.len() - s.capacity() <= k ==> s.push_all(
                values,
            ).slots[#[trigger] s.write_slot(k)] == values[k],
        forall|k: int|
            values.len() <= k < s.capacity() ==> s.push_all(values).slots[#[trigger] s.write_slot(
                k,
            )] == s.slots[s.write_slot(k)],
    decreases values.len(),
{
    let c = s.capacity();
    let n = values.len() as int;
    if n == 0 {
        lemma_wrap_once(s.write, c);
    } else {
        let m = n - 1;
        let head = values.drop_last();
        let p = s.push_all(head);
        let r = s.push_all(values);
        lemma_push_all_shape(s, head);
        lemma_push_wf(p, values.last());
        lemma_mod_succ(s.write + m, c);
        assert(r.write == s.write_slot(n));
        lemma_mod_succ(s.read + (s.len + m - c), c);
        lemma_wrap_once(s.read, c);
        assert forall|k: int| 0 <= k < n && n - c <= k implies r.slots[#[trigger] s.write_slot(k)]
            == values[k] by {
            if k < m {
                lemma_mod_apart(s.write + k, m - k, c);
                assert(s.write_slot(k) != s.write_slot(m));
                assert(head[k] == values[k]);
            }
        }
        assert forall|k: int| n <= k < c implies r.slots[#[trigger] s.write_slot(k)]
            == s.slots[s.write_slot(k)] by {
            lemma_mod_apart(s.write + m, k - m, c);
            assert(s.write_slot(k) != s.write_slot(m));
            lemma_mod_bound(s.write + k, c);
        }
    }
}

/// A push onto a coupled buffer appends to its queue; a full one gives up
/// its oldest entry for the new one.
pub proof fn lemma_push_queue<T>(s: RingState<T>, value: T)
    requires
        s.wf(),
        s.coupled(),
    ensures
        s.push(value).wf(),
        s.push(value).coupled(),
        s.push(value).queue() == newest(s.queue().push(value), s.capacity()),
{
    let c = s.capacity();
    let r = s.push(value);
    lemma_push_wf(s, value);
    lemma_mod_succ(s.read + s.len, c);
    lemma_mod_succ(s.read, c);
    lemma_wrap_once(s.read, c);
    if s.len == c {
        lemma_mod_add_multiples_vanish(s.read, c);
        lemma_mod_add_multiples_vanish(s.read + 1, c);
        assert(s.write == s.read);
        lemma_mod_add_multiples_vanish(r.read, c);
        lemma_wrap_once(r.read, c);
        assert forall|i: int| 0 <= i < c implies r.queue()[i] == newest(
            s.queue().push(value),
            c,
        )[i] by {
            lemma_mod_succ(s.read + i, c);
            lemma_add_mod_noop_right(i, s.read + 1, c);
            assert(r.slot_of(i) == s.slot_of(i + 1));
            if i < c - 1 {
                lemma_mod_apart(s.read, i + 1, c);
            } else {
                lemma_mod_add_multiples_vanish(s.read, c);
            }
        }
        assert(r.queue() =~= newest(s.queue().push(value), c));
    } else {
        assert forall|i: int| 0 <= i <= s.len implies r.queue()[i] == s.queue().push(value)[i] by {
            if i < s.len {
                lemma_mod_apart(s.read + i, s.len - i, c);
            }
        }
        assert(r.queue() =~= s.queue().push(value));
    }
}

/// A pop from a coupled buffer that is not empty takes the head of its
/// queue.
pub proof fn lemma_pop_queue<T>(s: RingState<T>)
    requires
        s.wf(),
        s.coupled(),
        s.len > 0,
    ensures
        s.pop().wf(),
        s.pop().coupled(),
        s.front() == s.queue()[0],
        s.pop().queue() == s.queue().drop_first(),
{
    let c = s.capacity();
    let r = s.pop();
    lemma_mod_succ(s.read, c);
    lemma_wrap_once(s.read, c);
    lemma_add_mod_noop_right(s.len - 1, s.read + 1, c);
    assert forall|i: int| 0 <= i < s.len - 1 implies r.queue()[i] == s.queue().drop_first()[i] by {
        lemma_add_mod_noop_right(i, s.read + 1, c);
    }
    assert(r.queue() =~= s.queue().drop_first());
}

/// A run of pushes onto a coupled buffer leaves the newest entries of the
/// old queue followed by the pushed values, as many as there are slots.
pub proof fn lemma_push_all_queue<T>(s: RingState<T>, values: Seq<T>)
    requires
        s.wf(),
        s.coupled(),
    ensures
        s.push_all(values).wf(),
        s.push_all(values).coupled(),
        s.push_all(values).queue() == newest(s.queue() + values, s.capacity()),
    decreases values.len(),
{
    let c = s.capacity();
    if values.len() == 0 {
        assert(s.queue() + values =~= s.queue());
    } else {
        let head = values.drop_last();
        let p = s.push_all(head);
        lemma_push_all_queue(s, head);
        lemma_push_all_shape(s, head);
        lemma_push_queue(p, values.last());
        assert(newest(newest(s.queue() + head, c).push(values.last()), c) =~= newest(
            s.queue() + values,
            c,
        ));
    }
}

/// Draining no more than a coupled buffer holds hands out the head of its
/// queue.
pub proof fn lemma_drain_queue<T>(s: RingState<T>, n: nat)
    requires
        s.wf(),
        s.coupled(),
        n <= s.len,
    ensures
        s.drain(n) == s.queue().take(n as int),
    decreases n,
{
    if n == 0 {
        assert(s.queue().take(0) =~= Seq::<T>::empty());
    } else {
        lemma_pop_queue(s);
        lemma_drain_queue(s.pop(), (n - 1) as nat);
        assert(s.drain(n) =~= s.queue().take(n as int));
    }
}

/// First in, first out. After at least as many values as there are slots
/// were pushed onto a coupled buffer, the buffer is full, and popping once
/// for each slot hands out the last pushed values, one per slot, in the order
/// in which they were pushed.
pub proof fn lemma_fifo<T>(s: RingState<T>, values: Seq<T>)
    requires
        s.wf(),
        s.coupled(),
        values.len() >= s.capacity(),
    ensures
        s.push_all(values).len == s.capacity(),
        s.push_all(values).drain(s.capacity() as nat) == values.subrange(
            values.len() - s.capacity(),
            values.len() as int,
        ),
{
    let c = s.capacity();
    let r = s.push_all(values);
    lemma_push_all_queue(s, values);
    lemma_push_all_shape(s, values);
    lemma_drain_queue(r, c as nat);
    assert(r.queue().len() == c);
    assert(r.queue().take(c) =~= r.queue());
    assert(newest(s.queue() + values, c) =~= values.subrange(values.len() - c, values.len() as int));
}

/// What a tap reads from a delay line that has filled up. After at least as
/// many values as there are slots were pushed onto a coupled buffer, the
/// value `offset` places after the read cursor is the one that was pushed
/// `capacity - offset` pushes ago.
pub proof fn lemma_delay_tap<T>(s: RingState<T>, values: Seq<T>, offset: int)
    requires
        s.wf(),
        s.coupled(),
        values.len() >= s.capacity(),
        0 <= offset < s.capacity(),
    ensures
        s.push_all(values).at(offset) == values[values.len() - s.capacity() + offset],
{
    let c = s.capacity();
    let r = s.push_all(values);
    lemma_push_all_queue(s, values);
    lemma_push_all_shape(s, values);
    assert(r.queue()[offset] == r.at(offset));
    assert(newest(s.queue() + values, c) =~= values.subrange(values.len() - c, values.len() as int));
}

/// Filling a blank buffer. While no more values were pushed than there are
/// slots, the read cursor has not moved, the values lie in the first slots in
/// the order in which they were pushed, and each slot behind them still holds
/// a default value.
pub proof fn lemma_fill_blank<T: Default>(s: RingState<T>, values: Seq<T>)
    requires
        s.wf(),
        s.is_blank(),
        values.len() <= s.capacity(),
    ensures
        s.push_all(values).read == 0,
        s.push_all(values).len == values.len(),
        s.push_all(values).coupled(),
        forall|i: int| 0 <= i < values.len() ==> #[trigger] s.push_all(values).at(i) == values[i],
        forall|i: int|
            values.len() <= i < s.capacity() ==> is_default(#[trigger] s.push_all(values).at(i)),
{
    let c = s.capacity();
    let r = s.push_all(values);
    lemma_push_all_shape(s, values);
    lemma_wrap_once(0, c);
    assert(s.coupled());
    lemma_push_all_queue(s, values);
    assert forall|i: int| 0 <= i < c implies r.slot_of(i) == i && s.write_slot(i) == i by {
        lemma_wrap_once(i, c);
    }
    assert forall|i: int| 0 <= i < values.len() implies #[trigger] r.at(i) == values[i] by {
        assert(r.slots[s.write_slot(i)] == values[i]);
    }
    assert forall|i: int| values.len() <= i < c implies is_default(#[trigger] r.at(i)) by {
        assert(r.slots[s.write_slot(i)] == s.slots[s.write_slot(i)]);
    }
}

/// What lies under the read cursor of a buffer that was blank before
/// `values` were pushed: a default value while nothing was pushed; the first
/// value until the buffer has filled up; from then on the value that was
/// pushed `capacity` pushes ago.
pub proof fn lemma_front_from_blank<T: Default>(s: RingState<T>, values: Seq<T>)
    requires
        s.wf(),
        s.is_blank(),
    ensures
        values.len() == 0 ==> is_default(s.push_all(values).front()),
        0 < values.len() <= s.capacity() ==> s.push_all(values).front() == values[0],
        values.len() >= s.capacity() ==> s.push_all(values).front() == values[values.len()
            - s.capacity()],
{
    let c = s.capacity();
    let r = s.push_all(values);
    lemma_wrap_once(0, c);
    lemma_push_all_shape(s, values);
    if values.len() <= c {
        lemma_fill_blank(s, values);
        assert(r.front() == r.at(0));
    } else {
        assert(s.coupled());
        lemma_delay_tap(s, values, 0);
        lemma_wrap_once(r.read, c);
    }
}

/// A buffer into which one value was pushed at least once for each slot
/// holds that value in every slot: whatever the cursors and the offset, a
/// read finds it.
pub proof fn lemma_saturated<T>(s: RingState<T>, values: Seq<T>, value: T, offset: int)
    requires
        s.wf(),
        values.len() >= s.capacity(),
        forall|k: int| values.len() - s.capacity() <= k < values.len() ==> values[k] == value,
    ensures
        s.push_all(values).at(offset) == value,
        s.push_all(values).front() == value,
{
    let c = s.capacity();
    let n = values.len() as int;
    let r = s.push_all(values);
    lemma_push_all_shape(s, values);
    assert forall|i: int| 0 <= i < c implies r.slots[i] == value by {
        let a = s.write + n - c;
        let k = n - c + (i - a) % c;
        lemma_mod_bound(i - a, c);
        lemma_add_mod_noop_right(a, i - a, c);
        lemma_wrap_once(i, c);
        assert(s.write_slot(k) == i);
        assert(r.slots[s.write_slot(k)] == values[k]);
    }
    lemma_mod_bound(r.read + offset, c);
}

} // verus!
