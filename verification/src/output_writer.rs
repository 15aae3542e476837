//! When the writer of an output is done.
//!
//! The ends of the streams tell the writer that no more data belongs into the file. They do not
//! tell that the encoders are gone: they may still hold the channel. If the output counted as done
//! then, and another one took its name, data could reach the wrong output. So the writer goes on
//! taking what arrives until the channel closes, which it does when the last encoder is gone.

use vstd::prelude::*;

verus! {

/// What arrives at the writer.
#[derive(Debug, Clone, Copy, PartialEq, Eq, Structural)]
pub enum WriterEvent {
    Data(u32),
    VideoEOS,
    AudioEOS,
    /// Every sender is gone.
    Closed,
}

/// When the writer stops taking what arrives.
#[derive(Debug, Clone, Copy, PartialEq, Eq, Structural)]
pub enum DrainPolicy {
    /// When the channel closes.
    UntilClosed,
    /// When both streams have ended.
    UntilTrailer,
}

/// What the writer does with what arrived.
#[derive(Debug, Clone, Copy, PartialEq, Eq, Structural)]
pub struct WriterStep {
    /// The data is written.
    pub write: Option<u32>,
    /// The file is completed.
    pub write_trailer: bool,
    /// The output is done.
    pub done: bool,
}

/// What the writer of an output knows.
#[derive(Debug, Clone, Copy, PartialEq, Eq, Structural)]
pub struct OutputWriter {
    pub policy: DrainPolicy,
    pub received_video_eos: bool,
    pub received_audio_eos: bool,
    pub trailer_written: bool,
    pub done: bool,
}

impl OutputWriter {
    /// What an event does to the writer.
    pub open spec fn stepped(self, event: WriterEvent) -> (Self, WriterStep) {
        let video = self.received_video_eos || event == WriterEvent::VideoEOS;
        let audio = self.received_audio_eos || event == WriterEvent::AudioEOS;
        let write_trailer = !self.trailer_written && video && audio && event
            != WriterEvent::Closed;
        let done = event == WriterEvent::Closed || (write_trailer && self.policy
            == DrainPolicy::UntilTrailer);
        (
            OutputWriter {
                received_video_eos: video,
                received_audio_eos: audio,
                trailer_written: self.trailer_written || write_trailer,
                done,
                ..self
            },
            WriterStep {
                write: match event {
                    WriterEvent::Data(data) if !self.trailer_written => Some(data),
                    _ => None,
                },
                write_trailer,
                done,
            },
        )
    }

    /// What a run of events does to the writer.
    pub open spec fn ran(self, events: Seq<WriterEvent>) -> Self
        decreases events.len(),
    {
        if events.len() == 0 {
            self
        } else {
            self.ran(events.drop_last()).stepped(events.last()).0
        }
    }

    pub fn new(policy: DrainPolicy) -> (r: Self)
        ensures
            r == fresh_writer(policy),
    {
        OutputWriter {
            policy,
            received_video_eos: false,
            received_audio_eos: false,
            trailer_written: false,
            done: false,
        }
    }

    /// Takes in what arrived and says what is to be done. The trailer is written once; data that
    /// arrives after it is dropped.
    pub fn step(&mut self, event: WriterEvent) -> (r: WriterStep)
        requires
            !old(self).done,
        ensures
            (*final(self), r) == old(self).stepped(event),
    {
        let mut write: Option<u32> = None;
        match event {
            WriterEvent::Data(data) => {
                if !self.trailer_written {
                    write = Some(data);
                }
            },
            WriterEvent::VideoEOS => {
                self.received_video_eos = true;
            },
            WriterEvent::AudioEOS => {
                self.received_audio_eos = true;
            },
            WriterEvent::Closed => {
                self.done = true;
                return WriterStep { write: None, write_trailer: false, done: true };
            },
        }
        let write_trailer = !self.trailer_written && self.received_video_eos
            && self.received_audio_eos;
        if write_trailer {
            self.trailer_written = true;
            if let DrainPolicy::UntilTrailer = self.policy {
                self.done = true;
            }
        }
        WriterStep { write, write_trailer, done: self.done }
    }
}

/// A writer to which nothing has arrived.
pub open spec fn fresh_writer(policy: DrainPolicy) -> OutputWriter {
    OutputWriter {
        policy,
        received_video_eos: false,
        received_audio_eos: false,
        trailer_written: false,
        done: false,
    }
}

/// A writer that drains the channel is done exactly when the channel has closed, so never while an
/// encoder is still there.
pub proof fn lemma_done_only_after_close(events: Seq<WriterEvent>)
    requires
        events.len() > 0,
    ensures
        fresh_writer(DrainPolicy::UntilClosed).ran(events).done <==> events.last()
            == WriterEvent::Closed,
{
    lemma_policy_stays(DrainPolicy::UntilClosed, events.drop_last());
}

proof fn lemma_policy_stays(policy: DrainPolicy, events: Seq<WriterEvent>)
    ensures
        fresh_writer(policy).ran(events).policy == policy,
    decreases events.len(),
{
    if events.len() > 0 {
        lemma_policy_stays(policy, events.drop_last());
    }
}

/// The trailer is written at most once: after it was, no event asks for it again, and no data is
/// written.
pub proof fn lemma_trailer_is_last(writer: OutputWriter, event: WriterEvent)
    requires
        writer.trailer_written,
    ensures
        !writer.stepped(event).1.write_trailer,
        writer.stepped(event).1.write is None,
        writer.stepped(event).0.trailer_written,
{
}

/// A writer that leaves with the trailer is done while senders may still be there: what asks for the
/// trailer is never that they are gone. A writer that drains the channel is not done then.
pub proof fn lemma_leaving_early_is_done_before_close(writer: OutputWriter, event: WriterEvent)
    requires
        writer.stepped(event).1.write_trailer,
    ensures
        event != WriterEvent::Closed,
        writer.stepped(event).1.done <==> writer.policy == DrainPolicy::UntilTrailer,
{
}

/// Over any run of events: data is written until both streams have ended, and none after that; the
/// event that makes both of them ended, and only that one, completes the file; and the output is done
/// when the channel closes, or with the completed file where the writer leaves with it.
pub proof fn lemma_file_is_complete_when_both_ended(
    policy: DrainPolicy,
    events: Seq<WriterEvent>,
    event: WriterEvent,
)
    ensures
        ({
            let step = fresh_writer(policy).ran(events).stepped(event).1;
            let ended = events.contains(WriterEvent::VideoEOS) && events.contains(
                WriterEvent::AudioEOS,
            );
            let ends = (events.contains(WriterEvent::VideoEOS) || event == WriterEvent::VideoEOS)
                && (events.contains(WriterEvent::AudioEOS) || event == WriterEvent::AudioEOS);
            &&& step.write == match event {
                WriterEvent::Data(data) if !ended => Some(data),
                _ => None,
            }
            &&& step.write_trailer <==> ends && !ended
            &&& step.done <==> event == WriterEvent::Closed || (step.write_trailer && policy
                == DrainPolicy::UntilTrailer)
        }),
{
    lemma_ends_are_remembered(policy, events);
}

proof fn lemma_ends_are_remembered(policy: DrainPolicy, events: Seq<WriterEvent>)
    ensures
        ({
            let writer = fresh_writer(policy).ran(events);
            let video = events.contains(WriterEvent::VideoEOS);
            let audio = events.contains(WriterEvent::AudioEOS);
            &&& writer.policy == policy
            &&& writer.received_video_eos == video
            &&& writer.received_audio_eos == audio
            &&& writer.trailer_written == (video && audio)
        }),
    decreases events.len(),
{
    if events.len() > 0 {
        let before = events.drop_last();
        lemma_ends_are_remembered(policy, before);
        lemma_last_or_before(events, WriterEvent::VideoEOS);
        lemma_last_or_before(events, WriterEvent::AudioEOS);
    }
}

proof fn lemma_last_or_before(events: Seq<WriterEvent>, event: WriterEvent)
    requires
        events.len() > 0,
    ensures
        events.contains(event) <==> events.drop_last().contains(event) || events.last() == event,
{
    let before = events.drop_last();
    if events.contains(event) && events.last() != event {
        let i = choose|i: int| 0 <= i < events.len() && events[i] == event;
        assert(before[i] == event);
    }
    if before.contains(event) {
        let i = choose|i: int| 0 <= i < before.len() && before[i] == event;
        assert(events[i] == event);
    }
}

} // verus!
