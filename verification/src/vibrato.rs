//! A modulated delay: every channel has a delay line that is read at a tap
//! which moves from sample to sample. The taps come from the caller, who
//! derives them from an oscillator; this module keeps the delay lines.

use crate::ring_buffer::{blank_lines, RingBuffer};
use crate::ring_model::{
    is_default, lemma_fill_blank, lemma_push_all_concat, lemma_push_all_shape,
    lemma_push_all_take_next, lemma_push_wf, lemma_saturated, RingState,
};
use vstd::prelude::*;

verus! {

/// A read position between two slots of a delay line: `frac` of the way from
/// the slot at `index` to the slot after it, both counted from the read
/// cursor.
pub struct Tap<W> {
    pub index: usize,
    pub frac: W,
}

/// Why no effect was made.
#[derive(Debug, Clone, Copy)]
pub enum ConfigError {
    /// The modulation depth is greater than the delay.
    DepthExceedsDelay,
}

/// One delay line per channel, all of one length, which is enough for the
/// delay and for the modulation on both sides of it.
pub struct Vibrato<T> {
    delay_lines: Vec<RingBuffer<T>>,
    line_slots: usize,
}

/// The number of slots of a delay line for a delay of `delay_samples` that is
/// modulated by up to `depth_samples` either way.
pub open spec fn line_capacity(delay_samples: int, depth_samples: int) -> int {
    2 + delay_samples + 2 * depth_samples
}

/// One channel's run through a modulated delay whose line is in state
/// `before`: at every step the input sample is pushed first, then the line is
/// read at the two slots of that step's tap, and `blend` makes the output
/// sample of the two values and the tap's fraction. `after` is the delay line
/// when the run is over.
pub open spec fn is_vibrato_run<T, W, F: Fn(T, T, W) -> T>(
    blend: F,
    before: RingState<T>,
    input: Seq<T>,
    taps: Seq<Tap<W>>,
    output: Seq<T>,
    after: RingState<T>,
) -> bool {
    &&& output.len() == input.len()
    &&& taps.len() == input.len()
    &&& forall|n: int|
        0 <= n < input.len() ==> call_ensures(
            blend,
            (
                before.push_all(input.take(n + 1)).at(taps[n].index as int),
                before.push_all(input.take(n + 1)).at(taps[n].index + 1),
                taps[n].frac,
            ),
            #[trigger] output[n],
        )
    &&& after == before.push_all(input)
}

/// Two blocks in a row are one block. Where a run over `first` leaves the
/// delay line in the state in which a run over `second` starts, the two runs
/// together are a run over `first + second` with the taps of both: the
/// outputs follow one another and the delay line ends where the second run
/// leaves it.
pub proof fn lemma_vibrato_run_join<T, W, F: Fn(T, T, W) -> T>(
    blend: F,
    before: RingState<T>,
    first: Seq<T>,
    first_taps: Seq<Tap<W>>,
    first_output: Seq<T>,
    middle: RingState<T>,
    second: Seq<T>,
    second_taps: Seq<Tap<W>>,
    second_output: Seq<T>,
    after: RingState<T>,
)
    requires
        is_vibrato_run(blend, before, first, first_taps, first_output, middle),
        is_vibrato_run(blend, middle, second, second_taps, second_output, after),
    ensures
        is_vibrato_run(
            blend,
            before,
            first + second,
            first_taps + second_taps,
            first_output + second_output,
            after,
        ),
{
    let input = first + second;
    let taps = first_taps + second_taps;
    let output = first_output + second_output;
    let cut = first.len() as int;
    lemma_push_all_concat(before, first, second);
    assert forall|n: int| 0 <= n < input.len() implies call_ensures(
        blend,
        (
            before.push_all(input.take(n + 1)).at(taps[n].index as int),
            before.push_all(input.take(n + 1)).at(taps[n].index + 1),
            taps[n].frac,
        ),
        #[trigger] output[n],
    ) by {
        if n < cut {
            assert(input.take(n + 1) =~= first.take(n + 1));
            assert(output[n] == first_output[n]);
        } else {
            let m = n - cut;
            assert(input.take(n + 1) =~= first + second.take(m + 1));
            lemma_push_all_concat(before, first, second.take(m + 1));
            assert(output[n] == second_output[m]);
            assert(taps[n] == second_taps[m]);
        }
    }
}

/// One block is two blocks in a row. A run over `first + second` is a run
/// over `first`, which uses the first taps and hands out the first part of
/// the output, followed by a run over `second` from the state that the first
/// run left, which uses the other taps and hands out the rest. So the output
/// does not depend on where a signal is cut into blocks.
pub proof fn lemma_vibrato_run_split<T, W, F: Fn(T, T, W) -> T>(
    blend: F,
    before: RingState<T>,
    first: Seq<T>,
    second: Seq<T>,
    taps: Seq<Tap<W>>,
    output: Seq<T>,
    after: RingState<T>,
)
    requires
        is_vibrato_run(blend, before, first + second, taps, output, after),
    ensures
        is_vibrato_run(
            blend,
            before,
            first,
            taps.take(first.len() as int),
            output.take(first.len() as int),
            before.push_all(first),
        ),
        is_vibrato_run(
            blend,
            before.push_all(first),
            second,
            taps.skip(first.len() as int),
            output.skip(first.len() as int),
            after,
        ),
{
    let input = first + second;
    let cut = first.len() as int;
    let middle = before.push_all(first);
    lemma_push_all_concat(before, first, second);
    assert forall|n: int| 0 <= n < first.len() implies call_ensures(
        blend,
        (
            before.push_all(first.take(n + 1)).at(taps.take(cut)[n].index as int),
            before.push_all(first.take(n + 1)).at(taps.take(cut)[n].index + 1),
            taps.take(cut)[n].frac,
        ),
        #[trigger] output.take(cut)[n],
    ) by {
        assert(input.take(n + 1) =~= first.take(n + 1));
        assert(output[n] == output.take(cut)[n]);
    }
    assert forall|m: int| 0 <= m < second.len() implies call_ensures(
        blend,
        (
            middle.push_all(second.take(m + 1)).at(taps.skip(cut)[m].index as int),
            middle.push_all(second.take(m + 1)).at(taps.skip(cut)[m].index + 1),
            taps.skip(cut)[m].frac,
        ),
        #[trigger] output.skip(cut)[m],
    ) by {
        let n = cut + m;
        assert(input.take(n + 1) =~= first + second.take(m + 1));
        lemma_push_all_concat(before, first, second.take(m + 1));
        assert(output[n] == output.skip(cut)[m]);
    }
}

/// Warm-up. While a delay line that started blank has taken in no more
/// samples than a tap's offset, and the tap does not reach past the last
/// slot, both ends of the tap read a default value: the output sample is what
/// `blend` makes of two default values.
pub proof fn lemma_vibrato_warm_up<T: Default, W, F: Fn(T, T, W) -> T>(
    blend: F,
    before: RingState<T>,
    input: Seq<T>,
    taps: Seq<Tap<W>>,
    output: Seq<T>,
    after: RingState<T>,
    n: int,
)
    requires
        before.wf(),
        before.is_blank(),
        is_vibrato_run(blend, before, input, taps, output, after),
        0 <= n < input.len(),
        n + 1 <= taps[n].index,
        taps[n].index + 1 < before.capacity(),
    ensures
        exists|a: T, b: T|
            is_default(a) && is_default(b) && #[trigger] call_ensures(
                blend,
                (a, b, taps[n].frac),
                output[n],
            ),
{
    let line = before.push_all(input.take(n + 1));
    lemma_fill_blank(before, input.take(n + 1));
    let a = line.at(taps[n].index as int);
    let b = line.at(taps[n].index + 1);
    assert(is_default(a));
    assert(is_default(b));
    assert(call_ensures(blend, (a, b, taps[n].frac), output[n]));
}

/// A constant signal. Once a delay line has taken in one value at least once
/// for each slot, both ends of every tap read that value, wherever the tap
/// lies: the output sample is what `blend` makes of the value and itself.
pub proof fn lemma_vibrato_constant_input<T, W, F: Fn(T, T, W) -> T>(
    blend: F,
    before: RingState<T>,
    input: Seq<T>,
    taps: Seq<Tap<W>>,
    output: Seq<T>,
    after: RingState<T>,
    value: T,
    n: int,
)
    requires
        before.wf(),
        is_vibrato_run(blend, before, input, taps, output, after),
        0 <= n < input.len(),
        n + 1 >= before.capacity(),
        forall|k: int| n + 1 - before.capacity() <= k <= n ==> input[k] == value,
    ensures
        call_ensures(blend, (value, value, taps[n].frac), output[n]),
{
    lemma_saturated(before, input.take(n + 1), value, taps[n].index as int);
    lemma_saturated(before, input.take(n + 1), value, taps[n].index + 1);
}

impl<T> Vibrato<T> {
    /// All delay lines have the same number of slots.
    #[verifier::type_invariant]
    closed spec fn inv(self) -> bool {
        &&& self.line_slots > 0
        &&& forall|c: int|
            0 <= c < self.delay_lines.len() ==> (#[trigger] self.delay_lines[c])@.capacity()
                == self.line_slots
    }

    /// The number of channels.
    pub closed spec fn channels(self) -> int {
        self.delay_lines.len() as int
    }

    /// The number of slots of every delay line.
    pub closed spec fn slots(self) -> int {
        self.line_slots as int
    }

    /// The delay line of channel `c`.
    pub closed spec fn line(self, c: int) -> RingState<T> {
        self.delay_lines[c]@
    }
}

impl<T: Copy + Default> Vibrato<T> {
    /// An effect of `channels` channels for a delay of `delay_samples` and a
    /// modulation depth of `depth_samples`. The depth must not exceed the
    /// delay. Every delay line is blank and has
    /// `2 + delay_samples + 2 * depth_samples` slots.
    pub fn new(delay_samples: usize, depth_samples: usize, channels: usize) -> (result: Result<
        Self,
        ConfigError,
    >)
        requires
            depth_samples <= delay_samples ==> line_capacity(
                delay_samples as int,
                depth_samples as int,
            ) <= usize::MAX,
        ensures
            match result {
                Ok(effect) => {
                    &&& depth_samples <= delay_samples
                    &&& effect.channels() == channels
                    &&& effect.slots() == line_capacity(delay_samples as int, depth_samples as int)
                    &&& forall|c: int|
                        0 <= c < channels ==> (#[trigger] effect.line(c)).is_blank() && effect.line(
                            c,
                        ).capacity() == line_capacity(delay_samples as int, depth_samples as int)
                },
                Err(e) => depth_samples > delay_samples && e == ConfigError::DepthExceedsDelay,
            },
    {
        if delay_samples < depth_samples {
            return Err(ConfigError::DepthExceedsDelay);
        }
        let total_size: usize = 2 + delay_samples + depth_samples * 2;
        let delay_lines = blank_lines(total_size, channels);
        Ok(Vibrato { delay_lines, line_slots: total_size })
    }

    /// Makes sure that the delay lines are long enough for a delay of
    /// `delay_samples` that is modulated by up to `depth_samples` either way.
    /// The depth must not exceed the delay. Lines that are long enough stay
    /// as they are, with what they hold. Lines that are too short are
    /// replaced by blank lines of `2 + delay_samples + 2 * depth_samples`
    /// slots: what they held is lost. Where the pair is refused, nothing
    /// changes.
    pub fn make_room(&mut self, delay_samples: usize, depth_samples: usize) -> (result: Result<
        (),
        ConfigError,
    >)
        requires
            depth_samples <= delay_samples ==> line_capacity(
                delay_samples as int,
                depth_samples as int,
            ) <= usize::MAX,
        ensures
            final(self).channels() == old(self).channels(),
            match result {
                Ok(_) => {
                    let needed = line_capacity(delay_samples as int, depth_samples as int);
                    &&& depth_samples <= delay_samples
                    &&& needed <= old(self).slots() ==> *final(self) == *old(self)
                    &&& needed > old(self).slots() ==> {
                        &&& final(self).slots() == needed
                        &&& forall|c: int|
                            0 <= c < old(self).channels() ==> (#[trigger] final(self).line(
                                c,
                            )).is_blank() && final(self).line(c).capacity() == needed
                    }
                },
                Err(e) => {
                    &&& depth_samples > delay_samples
                    &&& e == ConfigError::DepthExceedsDelay
                    &&& *final(self) == *old(self)
                },
            },
    {
        if delay_samples < depth_samples {
            return Err(ConfigError::DepthExceedsDelay);
        }
        let needed: usize = 2 + delay_samples + depth_samples * 2;
        if needed > self.line_slots {
            let delay_lines = blank_lines(needed, self.delay_lines.len());
            *self = Vibrato { delay_lines, line_slots: needed };
        }
        Ok(())
    }

    /// The number of slots of every delay line.
    pub fn capacity(&self) -> (count: usize)
        ensures
            count == self.slots(),
            count > 0,
    {
        proof {
            use_type_invariant(self);
        }
        self.line_slots
    }

    /// The number of channels.
    pub fn num_channels(&self) -> (count: usize)
        ensures
            count == self.channels(),
    {
        self.delay_lines.len()
    }

    /// One sample of one channel: `input_sample` is pushed into the channel's
    /// delay line, then the line is read at `tap`, and `blend` makes the
    /// output sample of the two values found there and the tap's fraction.
    pub fn process_sample<W: Copy, F: Fn(T, T, W) -> T>(
        &mut self,
        input_sample: T,
        channel: usize,
        tap: &Tap<W>,
        blend: &F,
    ) -> (output_sample: T)
        requires
            channel < old(self).channels(),
            forall|a: T, b: T, w: W| call_requires(*blend, (a, b, w)),
        ensures
            final(self).channels() == old(self).channels(),
            final(self).slots() == old(self).slots(),
            final(self).line(channel as int) == old(self).line(channel as int).push(input_sample),
            forall|c: int|
                0 <= c < old(self).channels() && c != channel ==> #[trigger] final(self).line(c)
                    == old(self).line(c),
            call_ensures(
                *blend,
                (
                    final(self).line(channel as int).at(tap.index as int),
                    final(self).line(channel as int).at(tap.index + 1),
                    tap.frac,
                ),
                output_sample,
            ),
    {
        proof {
            use_type_invariant(&*self);
        }
        let mut lines: Vec<RingBuffer<T>> = Vec::new();
        core::mem::swap(&mut lines, &mut self.delay_lines);
        let output_sample = Self::step(&mut lines[channel], input_sample, tap, blend);
        self.delay_lines = lines;
        output_sample
    }

    /// Pushes one sample into `line` and reads the line at `tap`.
    fn step<W: Copy, F: Fn(T, T, W) -> T>(
        line: &mut RingBuffer<T>,
        input_sample: T,
        tap: &Tap<W>,
        blend: &F,
    ) -> (output_sample: T)
        requires
            forall|a: T, b: T, w: W| call_requires(*blend, (a, b, w)),
        ensures
            final(line)@ == old(line)@.push(input_sample),
            final(line)@.capacity() == old(line)@.capacity(),
            call_ensures(
                *blend,
                (final(line)@.at(tap.index as int), final(line)@.at(tap.index + 1), tap.frac),
                output_sample,
            ),
    {
        proof {
            use_type_invariant(&*line);
            lemma_push_wf(line@, input_sample);
        }
        line.push(input_sample);
        line.get_frac(tap.index, tap.frac, blend)
    }

    /// Runs one channel's block through its delay line.
    fn process_channel<W: Copy, F: Fn(T, T, W) -> T>(
        line: &mut RingBuffer<T>,
        input: &Vec<T>,
        taps: &Vec<Tap<W>>,
        blend: &F,
    ) -> (output: Vec<T>)
        requires
            taps.len() == input.len(),
            forall|a: T, b: T, w: W| call_requires(*blend, (a, b, w)),
        ensures
            is_vibrato_run(*blend, old(line)@, input@, taps@, output@, final(line)@),
            final(line)@.capacity() == old(line)@.capacity(),
    {
        proof {
            use_type_invariant(&*line);
            lemma_push_all_shape(old(line)@, input@);
        }
        let mut output: Vec<T> = Vec::new();
        let mut n: usize = 0;
        while n < input.len()
            invariant
                n <= input.len(),
                taps.len() == input.len(),
                output.len() == n,
                forall|a: T, b: T, w: W| call_requires(*blend, (a, b, w)),
                line@ == old(line)@.push_all(input@.take(n as int)),
                forall|k: int|
                    0 <= k < n ==> call_ensures(
                        *blend,
                        (
                            old(line)@.push_all(input@.take(k + 1)).at(taps[k].index as int),
                            old(line)@.push_all(input@.take(k + 1)).at(taps[k].index + 1),
                            taps[k].frac,
                        ),
                        #[trigger] output[k],
                    ),
            decreases input.len() - n,
        {
            proof {
                lemma_push_all_take_next(old(line)@, input@, n as int);
            }
            let output_sample = Self::step(line, input[n], &taps[n], blend);
            output.push(output_sample);
            n += 1;
        }
        assert(input@.take(n as int) =~= input@);
        output
    }

    /// Runs one block through the effect, channel by channel. For every
    /// sample of a channel the sample is pushed into the channel's delay
    /// line, the line is read at the tap that `taps` holds for that sample,
    /// and `blend` makes the output sample of what was read. The lines keep
    /// their state from one block to the next. `input` may hold fewer
    /// channels than the effect has: the lines of the others are left alone.
    pub fn process<W: Copy, F: Fn(T, T, W) -> T>(
        &mut self,
        input: &Vec<Vec<T>>,
        taps: &Vec<Vec<Tap<W>>>,
        blend: F,
    ) -> (output: Vec<Vec<T>>)
        requires
            input.len() <= old(self).channels(),
            taps.len() == input.len(),
            forall|c: int| 0 <= c < input.len() ==> (#[trigger] taps[c]).len() == input[c].len(),
            forall|a: T, b: T, w: W| call_requires(blend, (a, b, w)),
        ensures
            final(self).channels() == old(self).channels(),
            final(self).slots() == old(self).slots(),
            output.len() == input.len(),
            forall|c: int|
                0 <= c < input.len() ==> is_vibrato_run(
                    blend,
                    old(self).line(c),
                    input[c]@,
                    taps[c]@,
                    (#[trigger] output[c])@,
                    final(self).line(c),
                ),
            forall|c: int|
                input.len() <= c < old(self).channels() ==> #[trigger] final(self).line(c) == old(
                    self,
                ).line(c),
    {
        proof {
            use_type_invariant(&*self);
        }
        let mut lines: Vec<RingBuffer<T>> = Vec::new();
        core::mem::swap(&mut lines, &mut self.delay_lines);
        let mut output: Vec<Vec<T>> = Vec::new();
        let mut c: usize = 0;
        while c < input.len()
            invariant
                c <= input.len(),
                input.len() <= lines.len(),
                taps.len() == input.len(),
                output.len() == c,
                lines.len() == old(self).delay_lines.len(),
                forall|k: int|
                    0 <= k < input.len() ==> (#[trigger] taps[k]).len() == input[k].len(),
                forall|a: T, b: T, w: W| call_requires(blend, (a, b, w)),
                forall|k: int|
                    0 <= k < lines.len() ==> (#[trigger] lines[k])@.capacity() == old(
                        self,
                    ).line_slots,
                forall|k: int|
                    0 <= k < c ==> is_vibrato_run(
                        blend,
                        old(self).delay_lines[k]@,
                        input[k]@,
                        taps[k]@,
                        (#[trigger] output[k])@,
                        lines[k]@,
                    ),
                forall|k: int|
                    c <= k < lines.len() ==> #[trigger] lines[k] == old(self).delay_lines[k],
            decreases input.len() - c,
        {
            let block = Self::process_channel(&mut lines[c], &input[c], &taps[c], &blend);
            output.push(block);
            c += 1;
        }
        self.delay_lines = lines;
        output
    }
}

} // verus!
