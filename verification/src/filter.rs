//! The high-shelf filter: configuration, construction, redesign and
//! streaming.

use crate::biquad::{
    history_after, outputs, resized, shapes_agree, Biquad, BiquadView, Coefficients, History,
};
use crate::design::{design_high_shelf, design_spec};
use crate::error::Error;
use crate::format::Format;
use crate::frames::{Frames, FramesView};
use vstd::prelude::*;

verus! {

/// Configuration for a second order high shelf filter.
///
/// Gain, slope and frequency are fixed-point values with 32 fractional bits.
#[derive(Clone, Copy, Debug)]
pub struct HighShelf2Config {
    pub format: Format,
    pub channels: u32,
    pub sample_rate: u32,
    pub gain_db: i64,
    pub shelf_slope: i64,
    pub frequency: i64,
}

impl HighShelf2Config {
    /// The coefficients this configuration asks for, where they exist.
    pub open spec fn design(&self) -> Option<Coefficients> {
        design_spec(
            self.sample_rate as int,
            self.gain_db as int,
            self.shelf_slope as int,
            self.frequency as int,
        )
    }

    /// A filter can be built from this configuration: there is a channel,
    /// and the design exists.  It does for every valid configuration with a
    /// gain of zero, and for every valid configuration with a gain of at
    /// most 48 dB in either direction unless the square root in the design
    /// has no value (see `lemma_zero_gain_exists` and
    /// `lemma_design_exists`).
    pub open spec fn accepted(&self) -> bool {
        self.channels >= 1 && self.design() is Some
    }

    /// A configuration with the given fields.  Nothing is checked here; a
    /// filter checks the configuration it is built from.
    pub fn new(
        format: Format,
        channels: u32,
        sample_rate: u32,
        gain_db: i64,
        shelf_slope: i64,
        frequency: i64,
    ) -> (config: HighShelf2Config)
        ensures
            config == (HighShelf2Config {
                format,
                channels,
                sample_rate,
                gain_db,
                shelf_slope,
                frequency,
            }),
    {
        HighShelf2Config { format, channels, sample_rate, gain_db, shelf_slope, frequency }
    }

    /// The format of the samples to filter.
    pub fn format(&self) -> (format: Format)
        ensures
            format == self.format,
    {
        self.format
    }

    /// Sets the format of the samples to filter.
    pub fn set_format(&mut self, format: Format)
        ensures
            *final(self) == (HighShelf2Config { format, ..*old(self) }),
    {
        self.format = format;
    }

    /// The number of interleaved channels.
    pub fn channels(&self) -> (channels: u32)
        ensures
            channels == self.channels,
    {
        self.channels
    }

    /// Sets the number of interleaved channels.
    pub fn set_channels(&mut self, channels: u32)
        ensures
            *final(self) == (HighShelf2Config { channels, ..*old(self) }),
    {
        self.channels = channels;
    }

    /// The sample rate in frames per second.
    pub fn sample_rate(&self) -> (sample_rate: u32)
        ensures
            sample_rate == self.sample_rate,
    {
        self.sample_rate
    }

    /// Sets the sample rate in frames per second.
    pub fn set_sample_rate(&mut self, sample_rate: u32)
        ensures
            *final(self) == (HighShelf2Config { sample_rate, ..*old(self) }),
    {
        self.sample_rate = sample_rate;
    }

    /// The corner frequency in hertz, in fixed point.
    pub fn frequency(&self) -> (frequency: i64)
        ensures
            frequency == self.frequency,
    {
        self.frequency
    }

    /// Sets the corner frequency in hertz, in fixed point.
    pub fn set_frequency(&mut self, frequency: i64)
        ensures
            *final(self) == (HighShelf2Config { frequency, ..*old(self) }),
    {
        self.frequency = frequency;
    }

    /// The gain of the shelf in decibels, in fixed point.
    pub fn gain_db(&self) -> (gain_db: i64)
        ensures
            gain_db == self.gain_db,
    {
        self.gain_db
    }

    /// Sets the gain of the shelf in decibels, in fixed point.
    pub fn set_gain_db(&mut self, gain_db: i64)
        ensures
            *final(self) == (HighShelf2Config { gain_db, ..*old(self) }),
    {
        self.gain_db = gain_db;
    }

    /// The steepness of the transition, in fixed point; 1 is the steepest
    /// slope without overshoot.
    pub fn shelf_slope(&self) -> (shelf_slope: i64)
        ensures
            shelf_slope == self.shelf_slope,
    {
        self.shelf_slope
    }

    /// Sets the steepness of the transition, in fixed point.
    pub fn set_shelf_slope(&mut self, shelf_slope: i64)
        ensures
            *final(self) == (HighShelf2Config { shelf_slope, ..*old(self) }),
    {
        self.shelf_slope = shelf_slope;
    }
}

/// Second order high shelf filter.
#[derive(Clone, Debug)]
pub struct HighShelf2 {
    bq: Biquad,
}

impl View for HighShelf2 {
    type V = BiquadView;

    closed spec fn view(&self) -> BiquadView {
        self.bq@
    }
}

impl HighShelf2 {
    /// The filter has a channel, and its coefficients and histories are in
    /// range.
    pub open spec fn wf(&self) -> bool {
        self@.wf()
    }

    /// Builds the filter that `config` describes, every channel silent.
    /// Fails when the configuration is not accepted.
    pub fn new(config: &HighShelf2Config) -> (r: Result<HighShelf2, Error>)
        ensures
            r is Ok <==> config.accepted(),
            r matches Ok(filter) ==> filter.wf() && filter@ == (BiquadView {
                format: config.format,
                coefficients: config.design()->0,
                history: Seq::new(config.channels as nat, |i: int| History::silent()),
            }),
    {
        if config.channels == 0 {
            return Err(Error::InvalidArgs);
        }
        let coefficients: Coefficients = match design_high_shelf(
            config.sample_rate,
            config.gain_db,
            config.shelf_slope,
            config.frequency,
        ) {
            Ok(c) => c,
            Err(e) => {
                return Err(e);
            },
        };
        match Biquad::new(config.format, config.channels, coefficients) {
            Ok(bq) => Ok(HighShelf2 { bq }),
            Err(e) => Err(e),
        }
    }

    /// Redesigns the filter for `config` in the middle of a stream.  Channels
    /// that stay keep their history, so the next output continues from the
    /// samples already heard; channels that are new start silent.  Fails
    /// when the configuration is not accepted, and then changes nothing.
    pub fn reinit(&mut self, config: &HighShelf2Config) -> (r: Result<(), Error>)
        requires
            old(self).wf(),
        ensures
            final(self).wf(),
            r is Ok <==> config.accepted(),
            r is Err ==> final(self)@ == old(self)@,
            r is Ok ==> final(self)@ == (BiquadView {
                format: config.format,
                coefficients: config.design()->0,
                history: resized(old(self)@.history, config.channels as nat),
            }),
            r is Ok && config.channels == old(self)@.history.len() ==> final(self)@.history == old(
                self,
            )@.history,
    {
        if config.channels == 0 {
            return Err(Error::InvalidArgs);
        }
        let coefficients: Coefficients = match design_high_shelf(
            config.sample_rate,
            config.gain_db,
            config.shelf_slope,
            config.frequency,
        ) {
            Ok(c) => c,
            Err(e) => {
                return Err(e);
            },
        };
        proof {
            assert(resized(self@.history, self@.history.len()) =~= self@.history);
        }
        self.bq.reinit(config.format, config.channels, coefficients)
    }

    /// The filter section that does the work.
    pub fn bq(&self) -> (bq: &Biquad)
        ensures
            bq@ == self@,
    {
        &self.bq
    }

    /// The delay of the filter in frames: always 1.
    pub fn latency(&self) -> (n: u32)
        ensures
            n == 1,
    {
        self.bq.latency()
    }

    /// Filters the frames of `input` into `output` and advances the history
    /// of every channel.  Both buffers must have the filter's format and
    /// channel count and hold equally many frames; otherwise the call fails
    /// and changes neither the filter nor `output`.
    pub fn process_pcm_frames(&mut self, output: &mut Frames, input: &Frames) -> (r: Result<
        (),
        Error,
    >)
        requires
            old(self).wf(),
            old(output).wf(),
            input.wf(),
        ensures
            final(self).wf(),
            final(output).wf(),
            r is Ok <==> shapes_agree(old(self)@, old(output)@, input@),
            r is Err ==> final(self)@ == old(self)@ && final(output)@ == old(output)@,
            r is Ok ==> final(self)@ == (BiquadView {
                history: history_after(
                    old(self)@.coefficients,
                    old(self)@.format,
                    old(self)@.history,
                    input@.samples,
                    input@.samples.len(),
                ),
                ..old(self)@
            }),
            r is Ok ==> final(output)@ == (FramesView {
                samples: outputs(
                    old(self)@.coefficients,
                    old(self)@.format,
                    old(self)@.history,
                    input@.samples,
                ),
                ..old(output)@
            }),
    {
        self.bq.process_pcm_frames(output, input)
    }

    /// Filters the frames of `frames` and stores the result in their place.
    /// The stored words are those that [`HighShelf2::process_pcm_frames`]
    /// stores in a separate buffer.
    pub fn process_pcm_frames_in_place(&mut self, frames: &mut Frames) -> (r: Result<(), Error>)
        requires
            old(self).wf(),
            old(frames).wf(),
        ensures
            final(self).wf(),
            final(frames).wf(),
            r is Ok <==> shapes_agree(old(self)@, old(frames)@, old(frames)@),
            r is Err ==> final(self)@ == old(self)@ && final(frames)@ == old(frames)@,
            r is Ok ==> final(self)@ == (BiquadView {
                history: history_after(
                    old(self)@.coefficients,
                    old(self)@.format,
                    old(self)@.history,
                    old(frames)@.samples,
                    old(frames)@.samples.len(),
                ),
                ..old(self)@
            }),
            r is Ok ==> final(frames)@ == (FramesView {
                samples: outputs(
                    old(self)@.coefficients,
                    old(self)@.format,
                    old(self)@.history,
                    old(frames)@.samples,
                ),
                ..old(frames)@
            }),
    {
        self.bq.process_pcm_frames_in_place(frames)
    }
}

} // verus!
