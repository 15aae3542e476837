//! The order of the steps in which an encoder is fed and emptied.
//!
//! Pictures that are done leave first. A picture goes in, and then pictures leave, oldest first,
//! until no more are with the hardware than may be.

use crate::h264_encoder::{EncoderModel, IntelVaapiH264Encoder};
use vstd::prelude::*;

verus! {

/// What an encoder is asked to do.
#[derive(Debug, Clone, Copy, PartialEq, Eq, Structural)]
pub enum EncodeCall {
    /// Take a picture in.
    Encode,
    /// Hand out all that there is.
    Flush,
}

/// How far a call has come.
#[derive(Debug, Clone, Copy, PartialEq, Eq, Structural)]
pub enum EncodeStage {
    /// Pictures that are done are collected.
    Collecting,
    /// Pictures are waited for until few enough are left.
    Completing,
    Finished,
}

/// What is done next.
#[derive(Debug, Clone, Copy, PartialEq, Eq, Structural)]
pub enum EncodeStep {
    /// The oldest picture is waited for and handed out.
    CompleteOldest,
    /// The new picture goes to the hardware.
    Submit,
    /// The call returns.
    Return,
}

impl EncodeCall {
    /// How many pictures may be with the hardware when the call returns.
    pub open spec fn limit(self, encoder: EncoderModel) -> int {
        match self {
            EncodeCall::Encode => encoder.config.max_pending_frames as int,
            EncodeCall::Flush => 0,
        }
    }
}

/// The step where pictures are waited for until few enough are left.
pub open spec fn completing(call: EncodeCall, encoder: EncoderModel) -> (EncodeStage, EncodeStep) {
    if encoder.pending.len() > call.limit(encoder) {
        (EncodeStage::Completing, EncodeStep::CompleteOldest)
    } else {
        (EncodeStage::Finished, EncodeStep::Return)
    }
}

/// The next step of a call, and how far it has come with it.
pub open spec fn next_step(
    call: EncodeCall,
    stage: EncodeStage,
    encoder: EncoderModel,
    oldest_ready: bool,
) -> (EncodeStage, EncodeStep) {
    match stage {
        EncodeStage::Collecting => if encoder.pending.len() > 0 && oldest_ready {
            (EncodeStage::Collecting, EncodeStep::CompleteOldest)
        } else {
            match call {
                EncodeCall::Encode => (EncodeStage::Completing, EncodeStep::Submit),
                EncodeCall::Flush => completing(call, encoder),
            }
        },
        EncodeStage::Completing => completing(call, encoder),
        EncodeStage::Finished => (EncodeStage::Finished, EncodeStep::Return),
    }
}

/// A call that is under way.
#[derive(Debug, Clone, Copy, PartialEq, Eq, Structural)]
pub struct EncodeRun {
    pub call: EncodeCall,
    pub stage: EncodeStage,
}

impl EncodeRun {
    pub fn new(call: EncodeCall) -> (r: Self)
        ensures
            r.call == call,
            r.stage == EncodeStage::Collecting,
    {
        EncodeRun { call, stage: EncodeStage::Collecting }
    }

    /// The answer to whether the oldest picture is done matters to the next step.
    pub fn asks_for_oldest(&self, encoder: &IntelVaapiH264Encoder) -> (r: bool)
        ensures
            r == (self.stage == EncodeStage::Collecting && encoder.model().pending.len() > 0),
    {
        self.stage == EncodeStage::Collecting && encoder.pending_frames() > 0
    }

    /// The next step. `oldest_ready` says whether the oldest picture is done.
    pub fn next(&mut self, encoder: &IntelVaapiH264Encoder, oldest_ready: bool) -> (r: EncodeStep)
        ensures
            final(self).call == old(self).call,
            (final(self).stage, r) == next_step(
                old(self).call,
                old(self).stage,
                encoder.model(),
                oldest_ready,
            ),
    {
        match self.stage {
            EncodeStage::Collecting => if encoder.pending_frames() > 0 && oldest_ready {
                EncodeStep::CompleteOldest
            } else {
                match self.call {
                    EncodeCall::Encode => {
                        self.stage = EncodeStage::Completing;
                        EncodeStep::Submit
                    },
                    EncodeCall::Flush => self.complete(encoder),
                }
            },
            EncodeStage::Completing => self.complete(encoder),
            EncodeStage::Finished => EncodeStep::Return,
        }
    }

    /// Waits for pictures until few enough are left.
    fn complete(&mut self, encoder: &IntelVaapiH264Encoder) -> (r: EncodeStep)
        ensures
            final(self).call == old(self).call,
            (final(self).stage, r) == completing(old(self).call, encoder.model()),
    {
        let over = match self.call {
            EncodeCall::Encode => encoder.over_limit(),
            EncodeCall::Flush => encoder.pending_frames() > 0,
        };
        if over {
            self.stage = EncodeStage::Completing;
            EncodeStep::CompleteOldest
        } else {
            self.stage = EncodeStage::Finished;
            EncodeStep::Return
        }
    }
}

/// A call that has not finished before returns only when few enough pictures are with the hardware:
/// none, where all were to be handed out.
pub proof fn lemma_call_returns_within_limit(
    call: EncodeCall,
    stage: EncodeStage,
    encoder: EncoderModel,
    oldest_ready: bool,
)
    requires
        stage != EncodeStage::Finished,
        next_step(call, stage, encoder, oldest_ready).1 == EncodeStep::Return,
    ensures
        call == EncodeCall::Flush ==> encoder.pending.len() == 0,
        call == EncodeCall::Encode ==> encoder.pending.len() <= encoder.config.max_pending_frames,
{
}

/// The new picture goes in once in a call that takes one, and never in one that hands out all.
pub proof fn lemma_picture_goes_in_once(
    call: EncodeCall,
    stage: EncodeStage,
    encoder: EncoderModel,
    oldest_ready: bool,
)
    ensures
        ({
            let (after, step) = next_step(call, stage, encoder, oldest_ready);
            &&& step == EncodeStep::Submit ==> call == EncodeCall::Encode && stage
                == EncodeStage::Collecting && after != EncodeStage::Collecting
            &&& stage != EncodeStage::Collecting ==> after != EncodeStage::Collecting
            &&& call == EncodeCall::Encode && stage == EncodeStage::Collecting && step
                != EncodeStep::CompleteOldest ==> step == EncodeStep::Submit
        }),
{
}

/// Every step that waits for a picture leaves one less with the hardware, and there is one to wait
/// for: a call ends.
pub proof fn lemma_waiting_makes_progress(
    call: EncodeCall,
    stage: EncodeStage,
    encoder: EncoderModel,
    oldest_ready: bool,
)
    requires
        next_step(call, stage, encoder, oldest_ready).1 == EncodeStep::CompleteOldest,
    ensures
        encoder.pending.len() > 0,
        encoder.completed().pending.len() == encoder.pending.len() - 1,
{
}

/// Pictures that are done leave before anything else happens, and after that a picture is waited for
/// only while too many are with the hardware: more than may be, or any where all are to be handed out.
/// A call that has finished stays so.
pub proof fn lemma_waits_only_where_needed(
    call: EncodeCall,
    stage: EncodeStage,
    encoder: EncoderModel,
    oldest_ready: bool,
)
    ensures
        ({
            let (after, step) = next_step(call, stage, encoder, oldest_ready);
            let count = encoder.pending.len();
            let collects = stage == EncodeStage::Collecting && oldest_ready && count > 0;
            let too_many = match call {
                EncodeCall::Encode => count > encoder.config.max_pending_frames,
                EncodeCall::Flush => count > 0,
            };
            &&& collects ==> step == EncodeStep::CompleteOldest && after == EncodeStage::Collecting
            &&& step == EncodeStep::CompleteOldest ==> collects || (too_many && stage
                != EncodeStage::Finished)
            &&& stage == EncodeStage::Completing && too_many ==> step == EncodeStep::CompleteOldest
                && after == EncodeStage::Completing
            &&& stage == EncodeStage::Completing && !too_many ==> step == EncodeStep::Return
                && after == EncodeStage::Finished
            &&& stage == EncodeStage::Collecting && !collects && call == EncodeCall::Flush
                ==> step == if count > 0 {
                EncodeStep::CompleteOldest
            } else {
                EncodeStep::Return
            }
            &&& step == EncodeStep::Return <==> after == EncodeStage::Finished
            &&& stage == EncodeStage::Finished ==> step == EncodeStep::Return
        }),
{
}

} // verus!
