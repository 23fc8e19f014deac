//! Interleaved sample buffers.

use crate::error::Error;
use crate::format::Format;
use vstd::prelude::*;

verus! {

/// A buffer of interleaved samples: frame after frame, and within a frame one
/// stored word per channel.
#[derive(Clone, Debug)]
pub struct Frames {
    format: Format,
    channels: u32,
    samples: Vec<i32>,
}

/// What a [`Frames`] buffer holds.
pub struct FramesView {
    pub format: Format,
    pub channels: nat,
    pub samples: Seq<i32>,
}

impl FramesView {
    /// The buffer has a channel and holds whole frames only.
    pub open spec fn wf(self) -> bool {
        self.channels >= 1 && self.samples.len() % self.channels == 0
    }

    /// The number of frames in the buffer.
    pub open spec fn frame_count(self) -> nat {
        self.samples.len() / self.channels
    }
}

impl View for Frames {
    type V = FramesView;

    closed spec fn view(&self) -> FramesView {
        FramesView {
            format: self.format,
            channels: self.channels as nat,
            samples: self.samples@,
        }
    }
}

impl Frames {
    /// The buffer has a channel and holds whole frames only.
    pub open spec fn wf(&self) -> bool {
        self@.wf()
    }

    /// Wraps interleaved samples.  Fails when there is no channel or when the
    /// samples do not make up whole frames.
    pub fn wrap(samples: Vec<i32>, format: Format, channels: u32) -> (r: Result<Frames, Error>)
        ensures
            (channels == 0 || samples@.len() % (channels as nat) != 0) <==> r is Err,
            r matches Ok(f) ==> f.wf() && f@ == (FramesView {
                format,
                channels: channels as nat,
                samples: samples@,
            }),
    {
        if channels == 0 || samples.len() % (channels as usize) != 0 {
            return Err(Error::InvalidArgs);
        }
        Ok(Frames { format, channels, samples })
    }

    /// The format of the stored samples.
    pub fn format(&self) -> (f: Format)
        ensures
            f == self@.format,
    {
        self.format
    }

    /// The number of channels in a frame.
    pub fn channels(&self) -> (n: u32)
        ensures
            n == self@.channels,
    {
        self.channels
    }

    /// The number of stored samples, all channels together.
    pub fn sample_count(&self) -> (n: usize)
        ensures
            n == self@.samples.len(),
    {
        self.samples.len()
    }

    /// The number of frames.
    pub fn frame_count(&self) -> (n: usize)
        requires
            self.wf(),
        ensures
            n == self@.frame_count(),
    {
        self.samples.len() / (self.channels as usize)
    }

    /// The stored word at position `index`, counting samples of all channels.
    pub fn sample(&self, index: usize) -> (w: i32)
        requires
            index < self@.samples.len(),
        ensures
            w == self@.samples[index as int],
    {
        self.samples[index]
    }

    /// Stores the word `w` at position `index`.
    pub fn set_sample(&mut self, index: usize, w: i32)
        requires
            index < old(self)@.samples.len(),
        ensures
            final(self)@ == (FramesView {
                samples: old(self)@.samples.update(index as int, w),
                ..old(self)@
            }),
    {
        self.samples[index] = w;
    }

    /// Gives the samples back.
    pub fn into_samples(self) -> (samples: Vec<i32>)
        ensures
            samples@ == self@.samples,
    {
        self.samples
    }
}

} // verus!
