//! Between a stream of interleaved samples and the per-channel blocks that
//! the effects take: which channel a sample of the stream belongs to, when a
//! block is handed on, and the order in which the samples of a processed
//! block go back into a stream.

use vstd::arithmetic::div_mod::{lemma_fundamental_div_mod, lemma_mod_bound};
use vstd::prelude::*;

verus! {

/// The number of samples per channel after which a block is handed on.
pub const BLOCK_SIZE: usize = 1024;

/// Whether a block is handed on after the sample with running number `index`
/// (counted from zero) of a stream of `total` samples: at every multiple of
/// `channels * BLOCK_SIZE` but the first, and at the last sample but one.
pub open spec fn is_block_due(index: int, channels: int, total: int) -> bool {
    (index != 0 && index % (channels * BLOCK_SIZE) == 0) || index + 2 == total
}

/// The channels after `sample` was added to channel `channel`.
pub open spec fn with_sample<T>(block: Seq<Seq<T>>, channel: int, sample: T) -> Seq<Seq<T>> {
    block.update(channel, block[channel].push(sample))
}

/// `channels` channels without a sample.
pub open spec fn empty_block<T>(channels: int) -> Seq<Seq<T>> {
    Seq::new(channels as nat, |c: int| Seq::<T>::empty())
}

/// The samples of `block` in stream order, as far as position `upto`:
/// position `j` of the stream belongs to sample `j / channels` of channel
/// `j % channels`, and a position whose channel has no such sample is passed
/// over.
pub open spec fn interleaved<T>(block: Seq<Seq<T>>, upto: int) -> Seq<T>
    decreases upto,
{
    if upto <= 0 {
        Seq::empty()
    } else {
        let j = upto - 1;
        let channel = j % (block.len() as int);
        let index = j / (block.len() as int);
        if index < block[channel].len() {
            interleaved(block, j).push(block[channel][index])
        } else {
            interleaved(block, j)
        }
    }
}

/// The contents of the channels of `block`.
pub open spec fn channel_views<T>(block: Seq<Vec<T>>) -> Seq<Seq<T>> {
    Seq::new(block.len(), |c: int| block[c]@)
}

/// Where all channels have `length` samples nothing is passed over: the
/// stream holds sample `j / channels` of channel `j % channels` at every
/// position `j`.
pub proof fn lemma_interleaved_even<T>(block: Seq<Seq<T>>, length: int, upto: int)
    requires
        block.len() > 0,
        forall|c: int| 0 <= c < block.len() ==> (#[trigger] block[c]).len() == length,
        0 <= upto <= block.len() * length,
    ensures
        interleaved(block, upto).len() == upto,
        forall|j: int|
            0 <= j < upto ==> #[trigger] interleaved(block, upto)[j] == block[j % (
            block.len() as int)][j / (block.len() as int)],
    decreases upto,
{
    if upto > 0 {
        let channels = block.len() as int;
        let j = upto - 1;
        lemma_interleaved_even(block, length, j);
        lemma_position_in_block(j, channels, length);
    }
}

/// A position before the end of a block of `channels` channels of `length`
/// samples lies in one of the channels and within its length.
proof fn lemma_position_in_block(j: int, channels: int, length: int)
    requires
        channels > 0,
        0 <= j < channels * length,
    ensures
        0 <= j % channels < channels,
        0 <= j / channels < length,
{
    lemma_mod_bound(j, channels);
    lemma_fundamental_div_mod(j, channels);
    let q = j / channels;
    let r = j % channels;
    assert(0 <= q < length) by (nonlinear_arith)
        requires
            j == channels * q + r,
            0 <= r < channels,
            0 <= j < channels * length,
            channels > 0,
    ;
}

/// Whether a block is handed on after the sample with running number
/// `index` of a stream of `total` samples.
pub fn block_due(index: usize, channels: usize, total: usize) -> (due: bool)
    requires
        channels > 0,
        channels * BLOCK_SIZE <= usize::MAX,
    ensures
        due == is_block_due(index as int, channels as int, total as int),
{
    let stride: usize = channels * BLOCK_SIZE;
    let at_stride: bool = index != 0 && index % stride == 0;
    let last_but_one: bool = index < total && total - index == 2;
    at_stride || last_but_one
}

/// The samples of a processed block in stream order: position `j` takes
/// sample `j / channels` of channel `j % channels`, for as many positions as
/// the first channel's length asks for; a position whose channel has no such
/// sample is passed over.
pub fn interleave<T: Copy>(block: &Vec<Vec<T>>) -> (stream: Vec<T>)
    requires
        block.len() > 0,
        block.len() * block[0].len() <= usize::MAX,
    ensures
        stream@ == interleaved(channel_views(block@), block.len() * block[0].len()),
{
    let channels: usize = block.len();
    let positions: usize = channels * block[0].len();
    let ghost views = channel_views(block@);
    let mut stream: Vec<T> = Vec::new();
    let mut j: usize = 0;
    while j < positions
        invariant
            j <= positions,
            channels == block.len(),
            channels > 0,
            views == channel_views(block@),
            stream@ == interleaved(views, j as int),
        decreases positions - j,
    {
        let channel_index: usize = j % channels;
        let sample_index: usize = j / channels;
        proof {
            lemma_mod_bound(j as int, channels as int);
            assert(views[channel_index as int] == block[channel_index as int]@);
        }
        if sample_index < block[channel_index].len() {
            stream.push(block[channel_index][sample_index]);
        }
        j += 1;
    }
    stream
}

/// Collects the samples of an interleaved stream into per-channel blocks.
pub struct BlockAssembler<T> {
    block: Vec<Vec<T>>,
    taken: usize,
    total: usize,
}

impl<T> BlockAssembler<T> {
    /// There is at least one channel, and a block's stride fits the machine.
    #[verifier::type_invariant]
    closed spec fn inv(self) -> bool {
        &&& self.block.len() > 0
        &&& self.block.len() * BLOCK_SIZE <= usize::MAX
    }

    /// The number of channels.
    pub closed spec fn channels(self) -> int {
        self.block.len() as int
    }

    /// The number of samples taken in so far.
    pub closed spec fn taken(self) -> int {
        self.taken as int
    }

    /// The length of the stream, as it was announced.
    pub closed spec fn total(self) -> int {
        self.total as int
    }

    /// The samples that were taken in and not handed on yet, by channel.
    pub closed spec fn pending(self) -> Seq<Seq<T>> {
        channel_views(self.block@)
    }
}

impl<T: Copy> BlockAssembler<T> {
    /// An assembler for a stream of `total` samples that belong to
    /// `channels` channels in turn. Nothing is pending.
    pub fn new(channels: usize, total: usize) -> (assembler: Self)
        requires
            channels > 0,
            channels * BLOCK_SIZE <= usize::MAX,
        ensures
            assembler.channels() == channels,
            assembler.total() == total,
            assembler.taken() == 0,
            assembler.pending() == empty_block::<T>(channels as int),
    {
        let block = Self::empty_channels(channels);
        assert(channel_views(block@) =~= empty_block::<T>(channels as int));
        BlockAssembler { block, taken: 0, total }
    }

    /// `channels` empty channels.
    fn empty_channels(channels: usize) -> (block: Vec<Vec<T>>)
        ensures
            block.len() == channels,
            forall|c: int| 0 <= c < channels ==> (#[trigger] block[c])@ == Seq::<T>::empty(),
    {
        let mut block: Vec<Vec<T>> = Vec::new();
        let mut c: usize = 0;
        while c < channels
            invariant
                c <= channels,
                block.len() == c,
                forall|k: int| 0 <= k < c ==> (#[trigger] block[k])@ == Seq::<T>::empty(),
            decreases channels - c,
        {
            block.push(Vec::new());
            c += 1;
        }
        block
    }

    /// Takes in the next sample of the stream. The sample with running
    /// number `n` goes to channel `n % channels`. Where a block is due after
    /// it, all that is pending is handed out and nothing stays pending;
    /// otherwise nothing is handed out.
    pub fn feed(&mut self, sample: T) -> (ready: Option<Vec<Vec<T>>>)
        requires
            old(self).taken() < usize::MAX,
        ensures
            final(self).channels() == old(self).channels(),
            final(self).total() == old(self).total(),
            final(self).taken() == old(self).taken() + 1,
            match ready {
                Some(block) => {
                    &&& is_block_due(old(self).taken(), old(self).channels(), old(self).total())
                    &&& channel_views(block@) == with_sample(
                        old(self).pending(),
                        old(self).taken() % old(self).channels(),
                        sample,
                    )
                    &&& final(self).pending() == empty_block::<T>(old(self).channels())
                },
                None => {
                    &&& !is_block_due(old(self).taken(), old(self).channels(), old(self).total())
                    &&& final(self).pending() == with_sample(
                        old(self).pending(),
                        old(self).taken() % old(self).channels(),
                        sample,
                    )
                },
            },
    {
        proof {
            use_type_invariant(&*self);
        }
        let channels: usize = self.block.len();
        let index: usize = self.taken;
        let channel: usize = index % channels;
        let ghost before = channel_views(self.block@);
        self.block[channel].push(sample);
        self.taken = index + 1;
        assert(channel_views(self.block@) =~= with_sample(before, channel as int, sample));
        if block_due(index, channels, self.total) {
            let mut ready = Self::empty_channels(channels);
            assert(channel_views(ready@) =~= empty_block::<T>(channels as int));
            core::mem::swap(&mut ready, &mut self.block);
            Some(ready)
        } else {
            None
        }
    }
}

} // verus!
