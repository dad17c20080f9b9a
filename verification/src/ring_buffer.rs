//! A fixed-capacity circular buffer that serves both as a queue (`push`,
//! `pop`) and as a delay line (`push`, then reads at an offset from the read
//! cursor).

use crate::ring_model::{
    is_default, lemma_mod_succ, lemma_pop_queue, lemma_push_queue, lemma_push_wf, lemma_wrap_once,
    newest, RingState,
};
use vstd::arithmetic::div_mod::*;
use vstd::prelude::*;

verus! {

/// A circular buffer of `T` with a read cursor, a write cursor and a count of
/// unread entries. Its capacity is fixed when it is made and is never zero.
pub struct RingBuffer<T> {
    buffer: Vec<T>,
    read_index: usize,
    write_index: usize,
    size: usize,
}

impl<T> View for RingBuffer<T> {
    type V = RingState<T>;

    closed spec fn view(&self) -> RingState<T> {
        RingState {
            slots: self.buffer@,
            read: self.read_index as int,
            write: self.write_index as int,
            len: self.size as int,
        }
    }
}

impl<T> RingBuffer<T> {
    /// Every buffer is well formed at all times.
    #[verifier::type_invariant]
    pub open spec fn inv(self) -> bool {
        self@.wf()
    }
}

impl<T: Copy + Default> RingBuffer<T> {
    /// A blank buffer of `length` slots.
    pub fn new(length: usize) -> (ring: Self)
        requires
            length > 0,
        ensures
            ring@.capacity() == length,
            ring@.is_blank(),
            ring@.wf(),
    {
        let zero = T::default();
        let mut buffer: Vec<T> = Vec::new();
        let mut i: usize = 0;
        while i < length
            invariant
                i <= length,
                buffer.len() == i,
                is_default(zero),
                forall|k: int| 0 <= k < i ==> is_default(#[trigger] buffer[k]),
            decreases length - i,
        {
            buffer.push(zero);
            i += 1;
        }
        RingBuffer { buffer, read_index: 0, write_index: 0, size: 0 }
    }

    /// Makes the buffer blank again; its capacity stays.
    pub fn reset(&mut self)
        ensures
            final(self)@.capacity() == old(self)@.capacity(),
            final(self)@.is_blank(),
    {
        proof {
            use_type_invariant(&*self);
        }
        let zero = T::default();
        self.read_index = 0;
        self.write_index = 0;
        self.size = 0;
        let n: usize = self.buffer.len();
        let mut i: usize = 0;
        while i < n
            invariant
                i <= n,
                n == self.buffer.len(),
                n == old(self)@.capacity(),
                self.read_index == 0,
                self.write_index == 0,
                self.size == 0,
                is_default(zero),
                forall|k: int| 0 <= k < i ==> is_default(#[trigger] self.buffer[k]),
            decreases n - i,
        {
            self.buffer[i] = zero;
            i += 1;
        }
    }

    /// Writes `value` under the write cursor and moves nothing.
    pub fn put(&mut self, value: T)
        ensures
            final(self)@ == (RingState {
                slots: old(self)@.slots.update(old(self)@.write, value),
                ..old(self)@
            }),
    {
        proof {
            use_type_invariant(&*self);
        }
        self.buffer[self.write_index] = value;
    }

    /// The value under the read cursor; nothing moves.
    pub fn peek(&self) -> (value: T)
        ensures
            value == self@.front(),
    {
        proof {
            use_type_invariant(self);
        }
        self.buffer[self.read_index]
    }

    /// Writes `value` under the write cursor and moves the cursor on. A full
    /// buffer gives up its oldest entry; this never fails.
    pub fn push(&mut self, value: T)
        ensures
            final(self)@ == old(self)@.push(value),
            old(self)@.coupled() ==> final(self)@.coupled() && final(self)@.queue() == newest(
                old(self)@.queue().push(value),
                old(self)@.capacity(),
            ),
    {
        proof {
            use_type_invariant(&*self);
            lemma_push_wf(self@, value);
            if self@.coupled() {
                lemma_push_queue(self@, value);
            }
        }
        let capacity: usize = self.buffer.len();
        self.buffer[self.write_index] = value;
        if self.size == capacity {
            self.read_index = (self.read_index + 1) % capacity;
        } else {
            self.size += 1;
        }
        self.write_index = (self.write_index + 1) % capacity;
    }

    /// Takes out the entry under the read cursor. An empty buffer hands out a
    /// default value and stays as it is; this never fails.
    pub fn pop(&mut self) -> (value: T)
        ensures
            old(self)@.len == 0 ==> is_default(value) && final(self)@ == old(self)@,
            old(self)@.len > 0 ==> value == old(self)@.front() && final(self)@ == old(self)@.pop(),
            old(self)@.len > 0 && old(self)@.coupled() ==> final(self)@.coupled() && value == old(
                self,
            )@.queue()[0] && final(self)@.queue() == old(self)@.queue().drop_first(),
    {
        proof {
            use_type_invariant(&*self);
        }
        if self.size == 0 {
            T::default()
        } else {
            proof {
                lemma_mod_bound(self.read_index + 1, self.buffer.len() as int);
                if self@.coupled() {
                    lemma_pop_queue(self@);
                }
            }
            let value = self.buffer[self.read_index];
            self.read_index = (self.read_index + 1) % self.buffer.len();
            self.size -= 1;
            value
        }
    }

    /// The slot that lies `offset` places after the read cursor.
    fn slot_after(&self, offset: usize) -> (index: usize)
        ensures
            index == self@.slot_of(offset as int),
            index < self@.capacity(),
    {
        proof {
            use_type_invariant(self);
        }
        let capacity: usize = self.buffer.len();
        let step: usize = offset % capacity;
        let room: usize = capacity - self.read_index;
        proof {
            lemma_add_mod_noop_right(self.read_index as int, offset as int, capacity as int);
            lemma_wrap_once(self.read_index + step, capacity as int);
        }
        if step < room {
            self.read_index + step
        } else {
            step - room
        }
    }

    /// The value `offset` places after the read cursor, wrapping round the
    /// end of the storage; any offset is accepted and nothing moves.
    pub fn get(&self, offset: usize) -> (value: T)
        ensures
            value == self@.at(offset as int),
    {
        let index: usize = self.slot_after(offset);
        self.buffer[index]
    }

    /// A read at a position between two slots. The position lies `frac` of
    /// the way from the slot at `offset` to the slot at `offset + 1`, both
    /// counted from the read cursor and wrapping round the end of the
    /// storage. The two values found there are handed to `blend` together
    /// with `frac`, and what `blend` makes of them is the result. Nothing
    /// moves.
    pub fn get_frac<W, F: Fn(T, T, W) -> T>(&self, offset: usize, frac: W, blend: &F) -> (value: T)
        requires
            call_requires(*blend, (self@.at(offset as int), self@.at(offset + 1), frac)),
        ensures
            call_ensures(*blend, (self@.at(offset as int), self@.at(offset + 1), frac), value),
    {
        proof {
            use_type_invariant(self);
        }
        let capacity: usize = self.buffer.len();
        let near: usize = self.slot_after(offset);
        let far: usize = if near == capacity - 1 {
            0
        } else {
            near + 1
        };
        proof {
            lemma_mod_succ(self@.read + offset, self@.capacity());
            lemma_wrap_once(near + 1, self@.capacity());
        }
        blend(self.buffer[near], self.buffer[far], frac)
    }

    /// Where the read cursor stands.
    pub fn get_read_index(&self) -> (index: usize)
        ensures
            index == self@.read,
    {
        self.read_index
    }

    /// Moves the read cursor to slot `index`, wrapped into the storage.
    pub fn set_read_index(&mut self, index: usize)
        ensures
            final(self)@ == (RingState {
                read: index as int % old(self)@.capacity(),
                ..old(self)@
            }),
    {
        proof {
            use_type_invariant(&*self);
        }
        self.read_index = index % self.buffer.len();
    }

    /// Where the write cursor stands.
    pub fn get_write_index(&self) -> (index: usize)
        ensures
            index == self@.write,
    {
        self.write_index
    }

    /// Moves the write cursor to slot `index`, wrapped into the storage.
    pub fn set_write_index(&mut self, index: usize)
        ensures
            final(self)@ == (RingState {
                write: index as int % old(self)@.capacity(),
                ..old(self)@
            }),
    {
        proof {
            use_type_invariant(&*self);
        }
        self.write_index = index % self.buffer.len();
    }

    /// The number of unread entries.
    pub fn len(&self) -> (count: usize)
        ensures
            count == self@.len,
    {
        self.size
    }

    /// The number of slots.
    pub fn capacity(&self) -> (count: usize)
        ensures
            count == self@.capacity(),
            count > 0,
    {
        proof {
            use_type_invariant(self);
        }
        self.buffer.len()
    }
}

/// `count` blank buffers of `length` slots each.
pub(crate) fn blank_lines<T: Copy + Default>(length: usize, count: usize) -> (lines: Vec<
    RingBuffer<T>,
>)
    requires
        length > 0,
    ensures
        lines.len() == count,
        forall|c: int|
            0 <= c < count ==> (#[trigger] lines[c])@.is_blank() && lines[c]@.capacity() == length,
{
    let mut lines: Vec<RingBuffer<T>> = Vec::new();
    let mut c: usize = 0;
    while c < count
        invariant
            c <= count,
            length > 0,
            lines.len() == c,
            forall|k: int|
                0 <= k < c ==> (#[trigger] lines[k])@.is_blank() && lines[k]@.capacity() == length,
        decreases count - c,
    {
        lines.push(RingBuffer::new(length));
        c += 1;
    }
    lines
}

} // verus!
