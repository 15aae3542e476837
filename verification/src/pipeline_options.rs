//! How a pipeline is set up.

use crate::text::{decimal, decimal_text, lemma_decimal_is_read_back};
use crate::time::{Duration, NANOS_PER_MILLI};
use vstd::prelude::*;

verus! {

/// The usual buffer in nanoseconds: about five frames at sixty frames per second.
pub const DEFAULT_BUFFER_NANOS: u128 = 16 * 5 * NANOS_PER_MILLI;

/// The usual buffer.
pub fn default_buffer_duration() -> (r: Duration)
    ensures
        r.nanos == DEFAULT_BUFFER_NANOS,
        r.representable(),
{
    Duration { nanos: DEFAULT_BUFFER_NANOS }
}

/// The graphics device: one that is already there, or what to look for. `G` is a graphics context,
/// `W` the set of features to ask for.
#[derive(Debug)]
pub enum PipelineWgpuOptions<G, W> {
    Context(G),
    Options {
        device_id: Option<u32>,
        driver_name: Option<String>,
        features: W,
        force_gpu: bool,
    },
}

/// Whether a WHIP and WHEP server is started.
#[derive(Debug, Clone, Copy, PartialEq, Eq, Structural)]
pub enum PipelineWhipWhepServerOptions {
    Enable { port: u16 },
    Disable,
}

/// Whether an RTMP server is started. `T` is how it encrypts.
#[derive(Debug)]
pub enum PipelineRtmpServerOptions<T> {
    Enable { port: u16, tls_config: Option<T> },
    Disable,
}

/// Whether a MoQ server is started. `T` is how it encrypts.
#[derive(Debug)]
pub enum PipelineMoqServerOptions<T> {
    Enable { port: u16, tls_config: Option<T> },
    Disable,
}

/// Whoever gets the media of an input besides the queue. `F` is a frame, `S` a run of samples.
pub trait InputDataSender<F, S> {
    fn send_video_frame(&self, frame: F);

    fn send_audio_samples(&self, samples: S);
}

/// The name of the directory for downloads with this number.
pub open spec fn download_dir_text(number: u64) -> Seq<char> {
    "smelter-"@ + decimal_text(number as nat)
}

/// The name of the directory for downloads with this number.
pub fn download_dir_name(number: u64) -> (r: String)
    ensures
        r@ == download_dir_text(number),
{
    let text = decimal(number);
    String::from_str("smelter-").concat(text.as_str())
}

/// Calls `rand::random::<u64>`. Nothing is claimed of the number.
#[verifier::external_body]
fn random_number() -> (r: u64) {
    rand::random::<u64>()
}

/// The name is that of a number that was drawn.
pub closed spec fn randomly_named(name: Seq<char>) -> bool {
    exists|number: u64|
        call_ensures(random_number, (), number) && name == #[trigger] download_dir_text(number)
}

/// A new name for the directory for downloads, so that several pipelines do not share one.
pub fn random_download_dir_name() -> (r: String)
    ensures
        randomly_named(r@),
        exists|number: u64| r@ == #[trigger] download_dir_text(number),
{
    let draw = random_number;
    let number: u64 = draw();
    download_dir_name(number)
}

/// Directories with different numbers have different names, so pipelines do not share one.
pub proof fn lemma_numbers_name_different_directories(one: u64, other: u64)
    requires
        one != other,
    ensures
        download_dir_text(one) != download_dir_text(other),
{
    lemma_decimal_is_read_back(one as nat);
    lemma_decimal_is_read_back(other as nat);
    let prefix = "smelter-"@;
    assert(download_dir_text(one).skip(prefix.len() as int) =~= decimal_text(one as nat));
    assert(download_dir_text(other).skip(prefix.len() as int) =~= decimal_text(other as nat));
}

/// The usual buffer lasts eighty milliseconds.
pub proof fn lemma_usual_buffer()
    ensures
        DEFAULT_BUFFER_NANOS == 80_000_000,
{
}

} // verus!
