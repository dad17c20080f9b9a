//! A comb filter: every channel is summed with a copy of itself that a delay
//! line holds back. The feedforward kind delays its input, the feedback kind
//! its own output.

use crate::ring_buffer::{blank_lines, RingBuffer};
use crate::ring_model::{
    is_default, lemma_front_from_blank, lemma_push_all_concat, lemma_push_all_shape,
    lemma_push_all_take_next, RingState,
};
use vstd::prelude::*;

verus! {

/// What a comb filter feeds into its delay line.
#[derive(Debug, Clone, Copy)]
pub enum FilterType {
    /// Feedforward: the delay line holds past input.
    FIR,
    /// Feedback: the delay line holds past output.
    IIR,
}

/// The parameters of a comb filter.
#[derive(Debug, Clone, Copy)]
pub enum FilterParam {
    /// The weight of the delayed sample.
    Gain,
    /// The length of the delay.
    Delay,
}

/// Why a parameter was not changed.
#[derive(Debug, Clone, Copy)]
pub enum Error {
    /// `value` lies outside what `param` accepts.
    InvalidValue { param: FilterParam, value: usize },
}

/// A bank of delay lines of one length, one line per channel.
pub struct CombFilter<T> {
    filter_type: FilterType,
    delay_lines: Vec<RingBuffer<T>>,
    delay_samples: usize,
}

/// What goes into the delay line while `input` is turned into `output`.
pub open spec fn fed_back<T>(kind: FilterType, input: Seq<T>, output: Seq<T>) -> Seq<T> {
    match kind {
        FilterType::FIR => input,
        FilterType::IIR => output,
    }
}

/// One channel's run through a comb filter of the given kind, whose delay
/// line is in state `before`: at every step the sample under the read cursor
/// is read first, `mix` makes the output sample of the input sample and the
/// sample read, and then the input sample (feedforward) or the output sample
/// (feedback) is pushed. `after` is the delay line when the run is over.
pub open spec fn is_comb_run<T, F: Fn(T, T) -> T>(
    mix: F,
    kind: FilterType,
    before: RingState<T>,
    input: Seq<T>,
    output: Seq<T>,
    after: RingState<T>,
) -> bool {
    &&& output.len() == input.len()
    &&& forall|n: int|
        0 <= n < input.len() ==> call_ensures(
            mix,
            (input[n], before.push_all(fed_back(kind, input, output).take(n)).front()),
            #[trigger] output[n],
        )
    &&& after == before.push_all(fed_back(kind, input, output))
}

/// Two blocks in a row are one block. Where a run over `first` leaves the
/// delay line in the state in which a run over `second` starts, the two runs
/// together are a run over `first + second`: the outputs follow one another
/// and the delay line ends where the second run leaves it.
pub proof fn lemma_comb_run_join<T, F: Fn(T, T) -> T>(
    mix: F,
    kind: FilterType,
    before: RingState<T>,
    first: Seq<T>,
    first_output: Seq<T>,
    middle: RingState<T>,
    second: Seq<T>,
    second_output: Seq<T>,
    after: RingState<T>,
)
    requires
        is_comb_run(mix, kind, before, first, first_output, middle),
        is_comb_run(mix, kind, middle, second, second_output, after),
    ensures
        is_comb_run(mix, kind, before, first + second, first_output + second_output, after),
{
    let input = first + second;
    let output = first_output + second_output;
    let cut = first.len() as int;
    let fed_first = fed_back(kind, first, first_output);
    let fed_second = fed_back(kind, second, second_output);
    let fed = fed_back(kind, input, output);
    assert(fed =~= fed_first + fed_second);
    lemma_push_all_concat(before, fed_first, fed_second);
    assert forall|n: int| 0 <= n < input.len() implies call_ensures(
        mix,
        (input[n], before.push_all(fed.take(n)).front()),
        #[trigger] output[n],
    ) by {
        if n < cut {
            assert(fed.take(n) =~= fed_first.take(n));
            assert(output[n] == first_output[n]);
        } else {
            let m = n - cut;
            assert(fed.take(n) =~= fed_first + fed_second.take(m));
            lemma_push_all_concat(before, fed_first, fed_second.take(m));
            assert(output[n] == second_output[m]);
            assert(input[n] == second[m]);
        }
    }
}

/// One block is two blocks in a row. A run over `first + second` is a run
/// over `first`, which hands out the first part of the output, followed by a
/// run over `second` from the state that the first run left, which hands out
/// the rest. So the output does not depend on where a signal is cut into
/// blocks.
pub proof fn lemma_comb_run_split<T, F: Fn(T, T) -> T>(
    mix: F,
    kind: FilterType,
    before: RingState<T>,
    first: Seq<T>,
    second: Seq<T>,
    output: Seq<T>,
    after: RingState<T>,
)
    requires
        is_comb_run(mix, kind, before, first + second, output, after),
    ensures
        is_comb_run(
            mix,
            kind,
            before,
            first,
            output.take(first.len() as int),
            before.push_all(fed_back(kind, first, output.take(first.len() as int))),
        ),
        is_comb_run(
            mix,
            kind,
            before.push_all(fed_back(kind, first, output.take(first.len() as int))),
            second,
            output.skip(first.len() as int),
            after,
        ),
{
    let input = first + second;
    let cut = first.len() as int;
    let first_output = output.take(cut);
    let second_output = output.skip(cut);
    let fed_first = fed_back(kind, first, first_output);
    let fed_second = fed_back(kind, second, second_output);
    let fed = fed_back(kind, input, output);
    let middle = before.push_all(fed_first);
    assert(fed =~= fed_first + fed_second);
    lemma_push_all_concat(before, fed_first, fed_second);
    assert forall|n: int| 0 <= n < first.len() implies call_ensures(
        mix,
        (first[n], before.push_all(fed_first.take(n)).front()),
        #[trigger] first_output[n],
    ) by {
        assert(fed.take(n) =~= fed_first.take(n));
        assert(output[n] == first_output[n]);
        assert(input[n] == first[n]);
    }
    assert forall|m: int| 0 <= m < second.len() implies call_ensures(
        mix,
        (second[m], middle.push_all(fed_second.take(m)).front()),
        #[trigger] second_output[m],
    ) by {
        let n = cut + m;
        assert(fed.take(n) =~= fed_first + fed_second.take(m));
        lemma_push_all_concat(before, fed_first, fed_second.take(m));
        assert(output[n] == second_output[m]);
        assert(input[n] == second[m]);
    }
}

/// The delayed sample of a filter that starts with a blank delay line. The
/// first output sample is mixed with a default value. Until the line has
/// filled up, every output sample is mixed with the first sample that went
/// into the line. From then on the sample at step `n` is mixed with the one
/// that went into the line `capacity` steps before: the input of that step
/// (feedforward) or its output (feedback).
pub proof fn lemma_comb_delayed_sample<T: Default, F: Fn(T, T) -> T>(
    mix: F,
    kind: FilterType,
    before: RingState<T>,
    input: Seq<T>,
    output: Seq<T>,
    after: RingState<T>,
    n: int,
)
    requires
        before.wf(),
        before.is_blank(),
        is_comb_run(mix, kind, before, input, output, after),
        0 <= n < input.len(),
    ensures
        n == 0 ==> exists|zero: T| is_default(zero) && #[trigger] call_ensures(
            mix,
            (input[0], zero),
            output[0],
        ),
        0 < n <= before.capacity() ==> call_ensures(
            mix,
            (input[n], fed_back(kind, input, output)[0]),
            output[n],
        ),
        n >= before.capacity() ==> call_ensures(
            mix,
            (input[n], fed_back(kind, input, output)[n - before.capacity()]),
            output[n],
        ),
{
    let fed = fed_back(kind, input, output);
    lemma_front_from_blank(before, fed.take(n));
    let delayed = before.push_all(fed.take(n)).front();
    assert(call_ensures(mix, (input[n], delayed), output[n]));
}

impl<T> CombFilter<T> {
    /// All delay lines have the configured length, which is not zero.
    #[verifier::type_invariant]
    closed spec fn inv(self) -> bool {
        &&& self.delay_samples > 0
        &&& forall|c: int|
            0 <= c < self.delay_lines.len() ==> (#[trigger] self.delay_lines[c])@.capacity()
                == self.delay_samples
    }

    /// Feedforward or feedback.
    pub closed spec fn kind(self) -> FilterType {
        self.filter_type
    }

    /// The number of channels.
    pub closed spec fn channels(self) -> int {
        self.delay_lines.len() as int
    }

    /// The length of every delay line, in samples.
    pub closed spec fn delay(self) -> int {
        self.delay_samples as int
    }

    /// The delay line of channel `c`.
    pub closed spec fn line(self, c: int) -> RingState<T> {
        self.delay_lines[c]@
    }
}

impl<T: Copy + Default> CombFilter<T> {
    /// A filter of `num_channels` channels whose delay lines are blank and
    /// `delay_samples` long.
    pub fn new(filter_type: FilterType, delay_samples: usize, num_channels: usize) -> (filter: Self)
        requires
            delay_samples > 0,
        ensures
            filter.kind() == filter_type,
            filter.channels() == num_channels,
            filter.delay() == delay_samples,
            forall|c: int|
                0 <= c < num_channels ==> (#[trigger] filter.line(c)).is_blank() && filter.line(
                    c,
                ).capacity() == delay_samples,
    {
        let delay_lines = blank_lines(delay_samples, num_channels);
        CombFilter { filter_type, delay_lines, delay_samples }
    }

    /// Makes every delay line blank again; kind, channels and delay stay.
    pub fn reset(&mut self)
        ensures
            final(self).kind() == old(self).kind(),
            final(self).channels() == old(self).channels(),
            final(self).delay() == old(self).delay(),
            forall|c: int|
                0 <= c < old(self).channels() ==> (#[trigger] final(self).line(c)).is_blank()
                    && final(self).line(c).capacity() == old(self).delay(),
    {
        proof {
            use_type_invariant(&*self);
        }
        let mut lines: Vec<RingBuffer<T>> = Vec::new();
        core::mem::swap(&mut lines, &mut self.delay_lines);
        let count: usize = lines.len();
        let mut c: usize = 0;
        while c < count
            invariant
                c <= count,
                count == lines.len(),
                forall|k: int|
                    0 <= k < count ==> (#[trigger] lines[k])@.capacity() == old(
                        self,
                    ).delay_samples,
                forall|k: int| 0 <= k < c ==> (#[trigger] lines[k])@.is_blank(),
            decreases count - c,
        {
            lines[c].reset();
            c += 1;
        }
        self.delay_lines = lines;
    }

    /// Changes the delay to `delay_samples`. The new delay must not be zero
    /// and must not exceed the present one. Where it is accepted, every
    /// channel gets a blank delay line of the new length: what the lines held
    /// is lost. Where it is refused, nothing changes.
    pub fn set_delay(&mut self, delay_samples: usize) -> (result: Result<(), Error>)
        ensures
            final(self).kind() == old(self).kind(),
            final(self).channels() == old(self).channels(),
            match result {
                Ok(_) => {
                    &&& 0 < delay_samples <= old(self).delay()
                    &&& final(self).delay() == delay_samples
                    &&& forall|c: int|
                        0 <= c < old(self).channels() ==> (#[trigger] final(self).line(
                            c,
                        )).is_blank() && final(self).line(c).capacity() == delay_samples
                },
                Err(e) => {
                    &&& !(0 < delay_samples <= old(self).delay())
                    &&& e == (Error::InvalidValue {
                        param: FilterParam::Delay,
                        value: delay_samples,
                    })
                    &&& *final(self) == *old(self)
                },
            },
    {
        if delay_samples > 0 && delay_samples <= self.delay_samples {
            let delay_lines = blank_lines(delay_samples, self.delay_lines.len());
            *self = CombFilter { filter_type: self.filter_type, delay_lines, delay_samples };
            Ok(())
        } else {
            Err(Error::InvalidValue { param: FilterParam::Delay, value: delay_samples })
        }
    }

    /// Runs one channel's block through its delay line.
    fn process_channel<F: Fn(T, T) -> T>(
        line: &mut RingBuffer<T>,
        kind: FilterType,
        input: &Vec<T>,
        mix: &F,
    ) -> (output: Vec<T>)
        requires
            forall|x: T, d: T| call_requires(*mix, (x, d)),
        ensures
            is_comb_run(*mix, kind, old(line)@, input@, output@, final(line)@),
            final(line)@.capacity() == old(line)@.capacity(),
    {
        proof {
            use_type_invariant(&*line);
        }
        let mut output: Vec<T> = Vec::new();
        let mut n: usize = 0;
        while n < input.len()
            invariant
                n <= input.len(),
                output.len() == n,
                old(line)@.wf(),
                forall|x: T, d: T| call_requires(*mix, (x, d)),
                line@ == old(line)@.push_all(fed_back(kind, input@, output@).take(n as int)),
                forall|k: int|
                    0 <= k < n ==> call_ensures(
                        *mix,
                        (
                            input[k],
                            old(line)@.push_all(
                                fed_back(kind, input@, output@).take(k),
                            ).front(),
                        ),
                        #[trigger] output[k],
                    ),
            decreases input.len() - n,
        {
            let ghost fed_before = fed_back(kind, input@, output@);
            let sample = input[n];
            let delayed = line.peek();
            let mixed = mix(sample, delayed);
            output.push(mixed);
            match kind {
                FilterType::FIR => line.push(sample),
                FilterType::IIR => line.push(mixed),
            }
            proof {
                let fed = fed_back(kind, input@, output@);
                assert forall|k: int| 0 <= k <= n implies #[trigger] fed.take(k) == fed_before.take(
                    k,
                ) by {
                    assert(fed.take(k) =~= fed_before.take(k));
                }
                lemma_push_all_take_next(old(line)@, fed, n as int);
            }
            n += 1;
        }
        proof {
            let fed = fed_back(kind, input@, output@);
            assert(fed.take(n as int) =~= fed);
            lemma_push_all_shape(old(line)@, fed);
        }
        output
    }

    /// Runs one block through the filter, channel by channel. For every
    /// sample of a channel the delayed sample is read from the channel's
    /// delay line first; `mix` makes the output sample of the input sample
    /// and the delayed one; then the input sample (feedforward) or the output
    /// sample (feedback) goes into the delay line. The lines keep their state
    /// from one block to the next. `input` may hold fewer channels than the
    /// filter has: the lines of the others are left alone.
    pub fn process<F: Fn(T, T) -> T>(&mut self, input: &Vec<Vec<T>>, mix: F) -> (output: Vec<
        Vec<T>,
    >)
        requires
            input.len() <= old(self).channels(),
            forall|x: T, d: T| call_requires(mix, (x, d)),
        ensures
            final(self).kind() == old(self).kind(),
            final(self).channels() == old(self).channels(),
            final(self).delay() == old(self).delay(),
            output.len() == input.len(),
            forall|c: int|
                0 <= c < input.len() ==> is_comb_run(
                    mix,
                    old(self).kind(),
                    old(self).line(c),
                    input[c]@,
                    (#[trigger] output[c])@,
                    final(self).line(c),
                ),
            forall|c: int|
                input.len() <= c < old(self).channels() ==> #[trigger] final(self).line(c) == old(
                    self,
                ).line(c),
    {
        proof {
            use_type_invariant(&*self);
        }
        let kind = self.filter_type;
        let mut lines: Vec<RingBuffer<T>> = Vec::new();
        core::mem::swap(&mut lines, &mut self.delay_lines);
        let mut output: Vec<Vec<T>> = Vec::new();
        let mut c: usize = 0;
        while c < input.len()
            invariant
                c <= input.len(),
                input.len() <= lines.len(),
                output.len() == c,
                lines.len() == old(self).delay_lines.len(),
                forall|x: T, d: T| call_requires(mix, (x, d)),
                forall|k: int|
                    0 <= k < lines.len() ==> (#[trigger] lines[k])@.capacity() == old(
                        self,
                    ).delay_samples,
                forall|k: int|
                    0 <= k < c ==> is_comb_run(
                        mix,
                        kind,
                        old(self).delay_lines[k]@,
                        input[k]@,
                        (#[trigger] output[k])@,
                        lines[k]@,
                    ),
                forall|k: int|
                    c <= k < lines.len() ==> #[trigger] lines[k] == old(self).delay_lines[k],
            decreases input.len() - c,
        {
            let block = Self::process_channel(&mut lines[c], kind, &input[c], &mix);
            output.push(block);
            c += 1;
        }
        self.delay_lines = lines;
        output
    }

    /// The number of channels.
    pub fn num_channels(&self) -> (count: usize)
        ensures
            count == self.channels(),
    {
        self.delay_lines.len()
    }

    /// The length of every delay line, in samples.
    pub fn delay_samples(&self) -> (count: usize)
        ensures
            count == self.delay(),
            count > 0,
    {
        proof {
            use_type_invariant(self);
        }
        self.delay_samples
    }
}

} // verus!
