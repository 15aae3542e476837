//! Audio that enters the mixer.

use crate::time::Duration;
use vstd::prelude::*;

verus! {

/// How many channels audio has.
#[derive(Debug, Clone, Copy, PartialEq, Eq, Structural)]
pub enum AudioChannels {
    Mono,
    Stereo,
}

impl AudioChannels {
    pub open spec fn count(self) -> int {
        match self {
            AudioChannels::Mono => 1,
            AudioChannels::Stereo => 2,
        }
    }
}

/// Samples of one or two channels.
#[derive(Debug)]
pub enum AudioSamples<S> {
    Mono(Vec<S>),
    Stereo(Vec<(S, S)>),
}

impl<S> AudioSamples<S> {
    pub open spec fn spec_channels(self) -> AudioChannels {
        match self {
            AudioSamples::Mono(_) => AudioChannels::Mono,
            AudioSamples::Stereo(_) => AudioChannels::Stereo,
        }
    }

    pub fn channels(&self) -> (r: AudioChannels)
        ensures
            r == self.spec_channels(),
    {
        match self {
            AudioSamples::Mono(_) => AudioChannels::Mono,
            AudioSamples::Stereo(_) => AudioChannels::Stereo,
        }
    }
}

/// Both channels of samples. A single channel is heard on both sides.
pub open spec fn stereo_of<S>(samples: AudioSamples<S>) -> Seq<(S, S)> {
    match samples {
        AudioSamples::Mono(items) => items@.map_values(|sample: S| (sample, sample)),
        AudioSamples::Stereo(items) => items@,
    }
}

/// Both channels of samples. A single channel is heard on both sides.
pub fn into_stereo<S: Copy>(samples: AudioSamples<S>) -> (r: Vec<(S, S)>)
    ensures
        r@ == stereo_of(samples),
{
    match samples {
        AudioSamples::Mono(items) => {
            let mut out: Vec<(S, S)> = Vec::new();
            let ghost goal = items@.map_values(|sample: S| (sample, sample));
            let mut i: usize = 0;
            assert(goal.take(0) =~= Seq::<(S, S)>::empty());
            while i < items.len()
                invariant
                    i <= items@.len(),
                    goal == items@.map_values(|sample: S| (sample, sample)),
                    out@ == goal.take(i as int),
                decreases items@.len() - i,
            {
                let sample = items[i];
                out.push((sample, sample));
                i = i + 1;
                assert(out@ =~= goal.take(i as int));
            }
            assert(goal.take(i as int) =~= goal);
            out
        },
        AudioSamples::Stereo(items) => items,
    }
}

/// A run of samples.
#[derive(Debug)]
pub struct InputAudioSamples<S> {
    pub samples: AudioSamples<S>,
    pub start_pts: Duration,
    pub sample_rate: u32,
}

/// How a resampler is set up.
#[derive(Debug, Clone, Copy, PartialEq, Eq, Structural)]
pub struct ResamplerSetup {
    pub input_sample_rate: u32,
    pub output_sample_rate: u32,
    pub channels: AudioChannels,
    /// The moment of the first sample.
    pub start_pts: Duration,
}

/// What the input of the mixer does with audio that arrives: it is resampled to the rate of the
/// mixer.
#[derive(Debug)]
pub struct InputProcessor {
    mixing_sample_rate: u32,
    resampler: Option<ResamplerSetup>,
}

impl InputProcessor {
    pub closed spec fn rate(self) -> u32 {
        self.mixing_sample_rate
    }

    /// How the resampler in use is set up.
    pub closed spec fn current(self) -> Option<ResamplerSetup> {
        self.resampler
    }

    /// The resampler in use suits the samples.
    pub open spec fn suits<S>(self, batch: InputAudioSamples<S>) -> bool {
        &&& self.current() is Some
        &&& self.current()->0.channels == batch.samples.spec_channels()
        &&& self.current()->0.input_sample_rate == batch.sample_rate
    }

    /// The resampler that samples need.
    pub open spec fn setup_for<S>(self, batch: InputAudioSamples<S>) -> ResamplerSetup {
        ResamplerSetup {
            input_sample_rate: batch.sample_rate,
            output_sample_rate: self.rate(),
            channels: batch.samples.spec_channels(),
            start_pts: batch.start_pts,
        }
    }

    /// The resampler that has to be made before samples can be taken, if any.
    pub open spec fn wanted_for<S>(self, batch: InputAudioSamples<S>) -> Option<ResamplerSetup> {
        if self.suits(batch) {
            None
        } else {
            Some(self.setup_for(batch))
        }
    }

    pub fn new(mixing_sample_rate: u32) -> (r: Self)
        ensures
            r.rate() == mixing_sample_rate,
            r.current() is None,
    {
        InputProcessor { mixing_sample_rate, resampler: None }
    }

    /// Prepares for samples: a new resampler is made, where there is none or the one in use does
    /// not suit them. Then the samples go to the resampler.
    pub fn write_batch<S>(&mut self, batch: &InputAudioSamples<S>) -> (r: Option<ResamplerSetup>)
        ensures
            final(self).rate() == old(self).rate(),
            final(self).suits(*batch),
            r == old(self).wanted_for(*batch),
            if old(self).suits(*batch) {
                r is None && final(self).current() == old(self).current()
            } else {
                r == Some(old(self).setup_for(*batch)) && final(self).current() == r
            },
    {
        let channels = batch.samples.channels();
        let needed = match self.resampler {
            Some(resampler) => resampler.channels != channels || resampler.input_sample_rate
                != batch.sample_rate,
            None => true,
        };
        if needed {
            let setup = ResamplerSetup {
                input_sample_rate: batch.sample_rate,
                output_sample_rate: self.mixing_sample_rate,
                channels,
                start_pts: batch.start_pts,
            };
            self.resampler = Some(setup);
            Some(setup)
        } else {
            None
        }
    }

    /// Whether there are samples to be had; where there are none, silence is mixed.
    pub fn has_resampler(&self) -> (r: bool)
        ensures
            r == (self.current() is Some),
    {
        self.resampler.is_some()
    }

    /// The rate of the mixer.
    pub fn mixing_sample_rate(&self) -> (r: u32)
        ensures
            r == self.rate(),
    {
        self.mixing_sample_rate
    }
}

/// Every sample is heard, in order and at the same place on both sides: a single channel on both alike,
/// two channels each on its own.
pub proof fn lemma_every_sample_is_heard<S>(samples: AudioSamples<S>)
    ensures
        match samples {
            AudioSamples::Mono(items) => {
                &&& stereo_of(samples).len() == items@.len()
                &&& forall|i: int|
                    0 <= i < items@.len() ==> (#[trigger] stereo_of(samples)[i]).0 == items@[i]
                        && stereo_of(samples)[i].1 == items@[i]
            },
            AudioSamples::Stereo(items) => stereo_of(samples) == items@,
        },
{
}

/// A resampler that was set up for some samples turns their rate into that of the mixer from their
/// first moment on, and suits other samples exactly if they have the same rate and the same channels.
pub proof fn lemma_resampler_suits_its_kind<S>(
    before: InputProcessor,
    after: InputProcessor,
    batch: InputAudioSamples<S>,
    other: InputAudioSamples<S>,
)
    requires
        after.current() == Some(before.setup_for(batch)),
    ensures
        after.current()->0.input_sample_rate == batch.sample_rate,
        after.current()->0.output_sample_rate == before.rate(),
        after.current()->0.start_pts == batch.start_pts,
        after.suits(batch),
        after.suits(other) <==> other.sample_rate == batch.sample_rate && (other.samples is Mono
            <==> batch.samples is Mono),
{
}

/// Without a resampler nothing is suited.
pub proof fn lemma_nothing_suits_without_resampler<S>(
    processor: InputProcessor,
    batch: InputAudioSamples<S>,
)
    requires
        processor.current() is None,
    ensures
        !processor.suits(batch),
{
}

/// A resampler is made for the first samples, and then only where samples come that differ in rate or
/// channels from those that it was made for.
pub proof fn lemma_resampler_is_made_where_samples_change<S>(
    before: InputProcessor,
    after: InputProcessor,
    batch: InputAudioSamples<S>,
    other: InputAudioSamples<S>,
)
    requires
        before.current() is None,
        after.current() == before.wanted_for(batch),
        after.rate() == before.rate(),
    ensures
        before.wanted_for(batch) is Some,
        after.wanted_for(batch) is None,
        after.wanted_for(other) is Some <==> other.sample_rate != batch.sample_rate || (
        other.samples is Mono) != (batch.samples is Mono),
        after.wanted_for(other) is Some ==> {
            let setup = after.wanted_for(other)->0;
            &&& setup.input_sample_rate == other.sample_rate
            &&& setup.output_sample_rate == before.rate()
            &&& setup.start_pts == other.start_pts
            &&& setup.channels == AudioChannels::Mono <==> other.samples is Mono
        },
{
}

} // verus!
